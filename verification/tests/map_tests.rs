use robot_simulation::cell::{Cell, CellType};
use robot_simulation::map::WorldMap;
use robot_simulation::position::Position;
use robot_simulation::resource::{Resource, ResourceType};

/// Builds a map from rows of legend characters; deposits hold `qty` units.
fn grid(rows: &[&str], base: Position, qty: u32) -> WorldMap {
    let mut cells = Vec::new();
    for row in rows {
        let mut line = Vec::new();
        for ch in row.chars() {
            let cell = match ch {
                'O' => Cell::obstacle(),
                '#' => Cell::base(),
                'E' => Cell::resource(Resource::new(ResourceType::Energy, qty)),
                'C' => Cell::resource(Resource::new(ResourceType::Crystal, qty)),
                _ => Cell::empty(),
            };
            line.push(cell);
        }
        cells.push(line);
    }
    WorldMap { width: rows[0].len(), height: rows.len(), cells, base_position: base }
}

fn no_obstacles(width: usize, height: usize) -> Vec<Vec<bool>> {
    vec![vec![false; width]; height]
}

#[test]
fn inside_checks() {
    let m = grid(&["...", "..."], Position::new(0, 0), 1);
    assert!(m.is_inside(Position::new(2, 1)));
    assert!(!m.is_inside(Position::new(3, 1)));
    assert!(!m.is_inside(Position::new(0, 2)));
    assert!(m.is_inside_isize(0, 0));
    assert!(!m.is_inside_isize(-1, 0));
    assert!(!m.is_inside_isize(0, -1));
    assert!(!m.is_inside_isize(3, 0));
}

#[test]
fn get_cell_and_predicates() {
    let m = grid(&[".O", "E#"], Position::new(1, 1), 4);
    assert_eq!(m.get_cell(Position::new(1, 0)).unwrap().cell_type, CellType::Obstacle);
    assert!(m.get_cell(Position::new(2, 0)).is_none());
    assert!(m.is_walkable(Position::new(0, 0)));
    assert!(!m.is_walkable(Position::new(1, 0)));
    assert!(!m.is_walkable(Position::new(5, 5)));
    assert!(m.is_resource(Position::new(0, 1)));
    assert!(!m.is_resource(Position::new(1, 1)));
    assert!(!m.is_resource(Position::new(9, 9)));
}

#[test]
fn get_cell_mut_writes_through() {
    let mut m = grid(&["..", ".."], Position::new(0, 0), 1);
    if let Some(cell) = m.get_cell_mut(Position::new(1, 1)) {
        *cell = Cell::obstacle();
    }
    assert!(m.get_cell_mut(Position::new(2, 1)).is_none());
    assert_eq!(m.cells[1][1].cell_type, CellType::Obstacle);
    assert_eq!(m.cells[0][1].cell_type, CellType::Empty);
}

#[test]
fn neighbors_come_up_down_left_right() {
    let m = grid(&["...", "...", "..."], Position::new(0, 0), 1);
    let n = m.get_neighbors(Position::new(1, 1));
    assert_eq!(
        n,
        vec![Position::new(1, 0), Position::new(1, 2), Position::new(0, 1), Position::new(2, 1)]
    );
}

#[test]
fn neighbors_skip_obstacles_and_edges() {
    let m = grid(&[".O.", "...", "..."], Position::new(0, 0), 1);
    assert_eq!(m.get_neighbors(Position::new(1, 1)), vec![Position::new(1, 2), Position::new(0, 1), Position::new(2, 1)]);
    assert_eq!(m.get_neighbors(Position::new(0, 0)), vec![Position::new(0, 1)]);
}

#[test]
fn can_place_resource_only_on_empty_ground_off_base() {
    let m = grid(&[".O", "E#"], Position::new(1, 1), 4);
    assert!(m.can_place_resource(Position::new(0, 0)));
    assert!(!m.can_place_resource(Position::new(1, 0)));
    assert!(!m.can_place_resource(Position::new(0, 1)));
    assert!(!m.can_place_resource(Position::new(1, 1)));
    assert!(!m.can_place_resource(Position::new(2, 0)));
}

#[test]
fn place_resource_type_puts_deposits_on_empty_ground() {
    let mut m = grid(&["....", ".O..", "..#.", "...."], Position::new(2, 2), 1);
    m.place_resource_type(ResourceType::Crystal, 5);
    let mut placed = 0;
    for y in 0..4 {
        for x in 0..4 {
            match m.cells[y][x].cell_type {
                CellType::Resource(r) => {
                    placed += 1;
                    assert_eq!(r.resource_type, ResourceType::Crystal);
                    assert!(r.quantity >= 50 && r.quantity <= 200);
                }
                _ => {}
            }
        }
    }
    assert!(placed <= 5);
    assert_eq!(m.cells[1][1].cell_type, CellType::Obstacle);
    assert_eq!(m.cells[2][2].cell_type, CellType::Base);
}

#[test]
fn place_resource_type_with_no_room_changes_nothing() {
    let mut m = grid(&["OO", "O#"], Position::new(1, 1), 1);
    m.place_resource_type(ResourceType::Energy, 3);
    assert_eq!(m.cells[0][0].cell_type, CellType::Obstacle);
    assert_eq!(m.cells[1][1].cell_type, CellType::Base);
}

#[test]
fn place_resources_places_both_kinds_only() {
    let mut m = grid(&["......", "......", "......"], Position::new(0, 0), 1);
    m.place_resources(2, 3);
    let mut energy = 0;
    let mut crystal = 0;
    for row in &m.cells {
        for cell in row {
            if let CellType::Resource(r) = cell.cell_type {
                match r.resource_type {
                    ResourceType::Energy => energy += 1,
                    ResourceType::Crystal => crystal += 1,
                }
            }
        }
    }
    assert!(energy <= 2 && crystal <= 3);
}

#[test]
fn new_map_has_base_in_the_middle_and_cleared_square() {
    let mut obstacles = vec![vec![true; 11]; 9];
    obstacles[0][0] = false;
    let m = WorldMap::new(11, 9, &obstacles);
    assert_eq!(m.width, 11);
    assert_eq!(m.height, 9);
    assert_eq!(m.base_position, Position::new(5, 4));
    assert_eq!(m.cells[4][5].cell_type, CellType::Base);
    for y in 2..=6 {
        for x in 3..=7 {
            if (x, y) != (5, 4) {
                assert!(m.cells[y][x].is_walkable());
            }
        }
    }
    assert_eq!(m.cells[0][1].cell_type, CellType::Obstacle);
    assert_eq!(m.cells[8][10].cell_type, CellType::Obstacle);
    assert!(m.cells[0][0].is_walkable());
}

#[test]
fn new_map_scatters_deposits_on_free_ground() {
    let m = WorldMap::new(80, 30, &no_obstacles(80, 30));
    let mut energy = 0;
    let mut crystal = 0;
    for row in &m.cells {
        assert_eq!(row.len(), 80);
        for cell in row {
            if let CellType::Resource(r) = cell.cell_type {
                assert!(r.quantity >= 50 && r.quantity <= 200);
                match r.resource_type {
                    ResourceType::Energy => energy += 1,
                    ResourceType::Crystal => crystal += 1,
                }
            }
        }
    }
    assert_eq!(m.cells.len(), 30);
    // With 2400 free cells and 100 tries per deposit, all of them find a place.
    assert_eq!(energy, 15);
    assert_eq!(crystal, 10);
}

#[test]
fn one_by_one_map_is_just_the_base() {
    let m = WorldMap::new(1, 1, &no_obstacles(1, 1));
    assert_eq!(m.base_position, Position::new(0, 0));
    assert_eq!(m.cells[0][0].cell_type, CellType::Base);
}

#[test]
fn place_at_only_on_free_ground() {
    let mut m = grid(&[".O", ".#"], Position::new(1, 1), 1);
    assert!(m.place_at(ResourceType::Energy, Position::new(0, 0), 77));
    assert_eq!(m.cells[0][0].cell_type, CellType::Resource(Resource::new(ResourceType::Energy, 77)));
    assert!(!m.place_at(ResourceType::Crystal, Position::new(0, 0), 60));
    assert!(!m.place_at(ResourceType::Crystal, Position::new(1, 0), 60));
    assert!(!m.place_at(ResourceType::Crystal, Position::new(1, 1), 60));
    assert!(!m.place_at(ResourceType::Crystal, Position::new(5, 0), 60));
    assert_eq!(m.cells[0][0].cell_type, CellType::Resource(Resource::new(ResourceType::Energy, 77)));
    assert_eq!(m.cells[1][1].cell_type, CellType::Base);
    assert!(m.place_at(ResourceType::Crystal, Position::new(0, 1), 60));
}

#[test]
fn place_drawn_takes_the_first_free_draws_up_to_count() {
    let mut m = grid(&["...", ".O.", "..#"], Position::new(2, 2), 1);
    let draws = vec![
        (1, 1, 90),  // obstacle: skipped
        (2, 2, 80),  // base: skipped
        (0, 0, 60),  // taken
        (0, 0, 70),  // already taken: skipped
        (5, 0, 70),  // off the grid: skipped
        (2, 0, 120), // taken
        (0, 2, 150), // count reached: skipped
    ];
    m.place_drawn(ResourceType::Energy, 2, &draws);
    assert_eq!(m.cells[0][0].cell_type, CellType::Resource(Resource::new(ResourceType::Energy, 60)));
    assert_eq!(m.cells[0][2].cell_type, CellType::Resource(Resource::new(ResourceType::Energy, 120)));
    assert_eq!(m.cells[2][0].cell_type, CellType::Empty);
    assert_eq!(m.cells[1][1].cell_type, CellType::Obstacle);
    assert_eq!(m.cells[2][2].cell_type, CellType::Base);
    let deposits = m.cells.iter().flatten().filter(|c| c.is_resource()).count();
    assert_eq!(deposits, 2);
}

#[test]
fn place_drawn_with_too_few_free_draws_places_what_it_can() {
    let mut m = grid(&["..", "C#"], Position::new(1, 1), 5);
    m.place_drawn(ResourceType::Crystal, 3, &vec![(0, 1, 99), (1, 0, 55)]);
    assert_eq!(m.cells[1][0].cell_type, CellType::Resource(Resource::new(ResourceType::Crystal, 5)));
    assert_eq!(m.cells[0][1].cell_type, CellType::Resource(Resource::new(ResourceType::Crystal, 55)));
    assert_eq!(m.cells[0][0].cell_type, CellType::Empty);
}
