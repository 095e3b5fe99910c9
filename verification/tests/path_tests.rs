use robot_simulation::cell::{Cell, CellType};
use robot_simulation::collector::find_path;
use robot_simulation::map::WorldMap;
use robot_simulation::position::Position;

fn grid(rows: &[&str]) -> WorldMap {
    let mut cells = Vec::new();
    for row in rows {
        cells.push(row.chars().map(|c| if c == 'O' { Cell::obstacle() } else { Cell::empty() }).collect::<Vec<_>>());
    }
    WorldMap { width: rows[0].len(), height: rows.len(), cells, base_position: Position::new(0, 0) }
}

fn p(x: usize, y: usize) -> Position {
    Position::new(x, y)
}

fn assert_walk(m: &WorldMap, start: Position, path: &[Position]) {
    let mut prev = start;
    for &q in path {
        assert!(m.get_neighbors(prev).contains(&q), "{:?} does not follow {:?}", q, prev);
        prev = q;
    }
}

#[test]
fn same_start_and_goal_gives_empty_path() {
    let m = grid(&["..."]);
    assert_eq!(find_path(p(1, 0), p(1, 0), &m), Some(vec![]));
}

#[test]
fn straight_line_path() {
    let m = grid(&["....."]);
    assert_eq!(find_path(p(0, 0), p(3, 0), &m), Some(vec![p(1, 0), p(2, 0), p(3, 0)]));
}

#[test]
fn path_goes_around_a_wall_by_the_shortest_way() {
    let m = grid(&[
        ".....",
        ".OOO.",
        "...O.",
        "OO.O.",
        ".....",
    ]);
    let path = find_path(p(0, 2), p(4, 2), &m).unwrap();
    assert_walk(&m, p(0, 2), &path);
    assert_eq!(path.last(), Some(&p(4, 2)));
    // up to the top row and across: 2 up, 4 right, 2 down.
    assert_eq!(path.len(), 8);
}

#[test]
fn bfs_prefers_up_then_down_then_left_then_right() {
    let m = grid(&["...", "...", "..."]);
    let path = find_path(p(0, 0), p(1, 1), &m).unwrap();
    assert_eq!(path, vec![p(0, 1), p(1, 1)]);
}

#[test]
fn walled_off_goal_gives_none() {
    let m = grid(&["..O..", "..O..", "..O.."]);
    assert_eq!(find_path(p(0, 0), p(4, 2), &m), None);
}

#[test]
fn obstacle_goal_gives_none() {
    let m = grid(&["..O"]);
    assert_eq!(find_path(p(0, 0), p(2, 0), &m), None);
}

#[test]
fn start_off_the_map_can_still_walk_in() {
    let m = grid(&["..", ".."]);
    assert_eq!(find_path(p(2, 0), p(0, 0), &m), Some(vec![p(1, 0), p(0, 0)]));
}

#[test]
fn path_on_a_large_open_map_is_manhattan_distance() {
    let rows: Vec<String> = (0..30).map(|_| ".".repeat(80)).collect();
    let refs: Vec<&str> = rows.iter().map(|s| s.as_str()).collect();
    let m = grid(&refs);
    let path = find_path(p(0, 0), p(79, 29), &m).unwrap();
    assert_eq!(path.len(), 79 + 29);
    assert_walk(&m, p(0, 0), &path);
    assert_eq!(m.cells[0][0].cell_type, CellType::Empty);
}

#[test]
fn neighbors_wrap_round_at_the_largest_coordinate() {
    let m = grid(&["..", ".."]);
    assert_eq!(m.get_neighbors(p(usize::MAX, 1)), vec![p(0, 1)]);
    assert_eq!(m.get_neighbors(p(1, usize::MAX)), vec![p(1, 0)]);
    assert_eq!(m.get_neighbors(p(usize::MAX, usize::MAX)), vec![]);
}

#[test]
fn among_shortest_paths_the_earliest_listed_turn_wins() {
    let m = grid(&["...", "...", "..."]);
    assert_eq!(find_path(p(0, 0), p(2, 2), &m), Some(vec![p(0, 1), p(0, 2), p(1, 2), p(2, 2)]));
    assert_eq!(find_path(p(2, 2), p(0, 0), &m), Some(vec![p(2, 1), p(2, 0), p(1, 0), p(0, 0)]));
    assert_eq!(find_path(p(0, 1), p(2, 1), &m), Some(vec![p(1, 1), p(2, 1)]));
}
