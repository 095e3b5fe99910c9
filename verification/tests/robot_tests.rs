use robot_simulation::cell::Cell;
use robot_simulation::map::WorldMap;
use robot_simulation::position::Position;
use robot_simulation::resource::{Resource, ResourceType};
use robot_simulation::robot::{Robot, RobotMessage, RobotState, RobotType};

fn grid(rows: &[&str]) -> WorldMap {
    let mut cells = Vec::new();
    for row in rows {
        let mut line = Vec::new();
        for ch in row.chars() {
            line.push(match ch {
                'O' => Cell::obstacle(),
                '#' => Cell::base(),
                'E' => Cell::resource(Resource::new(ResourceType::Energy, 10)),
                'C' => Cell::resource(Resource::new(ResourceType::Crystal, 10)),
                _ => Cell::empty(),
            });
        }
        cells.push(line);
    }
    WorldMap { width: rows[0].len(), height: rows.len(), cells, base_position: Position::new(0, 0) }
}

fn p(x: usize, y: usize) -> Position {
    Position::new(x, y)
}

#[test]
fn new_scout_knows_nothing() {
    let r = Robot::new_scout(3, p(2, 2));
    assert_eq!(r.id, 3);
    assert_eq!(r.robot_type, RobotType::Scout);
    assert_eq!(r.state, RobotState::Exploring);
    assert_eq!(r.position, p(2, 2));
    assert!(r.known_obstacles.is_empty() && r.known_resources.is_empty() && r.pending_messages.is_empty());
    assert_eq!(r.knowledge_version, 0);
}

#[test]
fn exploring_scout_reports_surroundings_and_heads_home_on_a_find() {
    let m = grid(&["..E", "O.O", ".O."]);
    let mut r = Robot::new_scout(1, p(1, 1));
    let (sent, sync) = r.act(&m, p(9, 9));
    assert!(sent.is_empty());
    assert!(!sync);
    assert_eq!(
        r.pending_messages,
        vec![
            RobotMessage::ResourceDiscovered { position: p(2, 0), resource_type: ResourceType::Energy },
            RobotMessage::ObstacleDiscovered { position: p(0, 1) },
            RobotMessage::ObstacleDiscovered { position: p(2, 1) },
            RobotMessage::ObstacleDiscovered { position: p(1, 2) },
        ]
    );
    assert_eq!(r.known_obstacles, vec![p(0, 1), p(2, 1), p(1, 2)]);
    assert_eq!(r.known_resources, vec![p(2, 0)]);
    assert_eq!(r.state, RobotState::ReturningToBase);
    // The only free cell around is above.
    assert_eq!(r.position, p(1, 0));
}

#[test]
fn exploring_scout_without_find_keeps_exploring() {
    let m = grid(&["OOO", "O.O", "O.O"]);
    let mut r = Robot::new_scout(1, p(1, 1));
    r.act(&m, p(9, 9));
    assert_eq!(r.state, RobotState::Exploring);
    assert_eq!(r.position, p(1, 2));
    assert_eq!(r.known_obstacles.len(), 7);
    // Known obstacles are not reported twice.
    let before = r.pending_messages.len();
    r.position = p(1, 1);
    r.act(&m, p(9, 9));
    assert_eq!(r.pending_messages.len(), before);
}

#[test]
fn boxed_in_scout_stays_put() {
    let m = grid(&["OOO", "O.O", "OOO"]);
    let mut r = Robot::new_scout(1, p(1, 1));
    r.act(&m, p(9, 9));
    assert_eq!(r.position, p(1, 1));
}

#[test]
fn returning_scout_reaches_base_and_hands_over_reports() {
    let m = grid(&["...", "...", "..."]);
    let mut r = Robot::new_scout(1, p(1, 0));
    r.state = RobotState::ReturningToBase;
    r.pending_messages.push(RobotMessage::ObstacleDiscovered { position: p(0, 0) });
    let (sent, sync) = r.act(&m, p(1, 1));
    assert_eq!(r.position, p(1, 1));
    assert_eq!(sent, vec![RobotMessage::ObstacleDiscovered { position: p(0, 0) }]);
    assert!(sync);
    assert!(r.pending_messages.is_empty());
    assert_eq!(r.state, RobotState::Exploring);
}

#[test]
fn returning_scout_prefers_x_then_y() {
    let m = grid(&["....", "....", "...."]);
    let mut r = Robot::new_scout(1, p(0, 0));
    r.state = RobotState::ReturningToBase;
    r.act(&m, p(2, 2));
    assert_eq!(r.position, p(1, 0));
    let m2 = grid(&[".O..", "....", "...."]);
    let mut r2 = Robot::new_scout(1, p(0, 0));
    r2.state = RobotState::ReturningToBase;
    r2.act(&m2, p(2, 2));
    assert_eq!(r2.position, p(0, 1));
    // A known obstacle blocks the way as a real one would.
    let mut r3 = Robot::new_scout(1, p(0, 0));
    r3.state = RobotState::ReturningToBase;
    r3.known_obstacles.push(p(1, 0));
    r3.act(&m, p(2, 2));
    assert_eq!(r3.position, p(0, 1));
}

#[test]
fn boxed_in_scout_on_base_hands_over_what_it_saw() {
    let m = grid(&["OOO", "O.O", "OOO"]);
    let mut r = Robot::new_scout(1, p(1, 1));
    let (sent, sync) = r.act(&m, p(1, 1));
    assert!(sync);
    assert_eq!(sent.len(), 8);
    assert_eq!(r.state, RobotState::Exploring);
}

#[test]
fn collector_typed_robot_does_nothing() {
    let m = grid(&["...", "...", "..."]);
    let mut r = Robot::new_scout(1, p(1, 1));
    r.robot_type = RobotType::Collector;
    let (sent, sync) = r.act(&m, p(1, 1));
    assert!(sent.is_empty());
    assert!(!sync);
    assert_eq!(r.position, p(1, 1));
    assert!(r.known_obstacles.is_empty());
}

#[test]
fn apply_knowledge_learns_positions_once() {
    let mut r = Robot::new_scout(1, p(0, 0));
    r.known_obstacles.push(p(5, 5));
    r.apply_knowledge(
        &[
            RobotMessage::ObstacleDiscovered { position: p(5, 5) },
            RobotMessage::ObstacleDiscovered { position: p(6, 5) },
            RobotMessage::ResourceDiscovered { position: p(1, 1), resource_type: ResourceType::Crystal },
            RobotMessage::ResourceDiscovered { position: p(1, 1), resource_type: ResourceType::Crystal },
        ],
        7,
    );
    assert_eq!(r.known_obstacles, vec![p(5, 5), p(6, 5)]);
    assert_eq!(r.known_resources, vec![p(1, 1)]);
    assert_eq!(r.knowledge_version, 7);
}

#[test]
fn free_moves_and_step_to_choice() {
    let m = grid(&["...", "O..", "..."]);
    let mut r = Robot::new_scout(1, p(1, 1));
    r.known_obstacles.push(p(1, 2));
    assert_eq!(r.free_moves(&m), vec![p(1, 0), p(2, 1)]);
    r.step_to_choice(&m, 1);
    assert_eq!(r.position, p(2, 1));
    let mut s = Robot::new_scout(1, p(1, 1));
    s.step_to_choice(&m, 0);
    assert_eq!(s.position, p(1, 0));
}

#[test]
fn second_look_from_the_same_place_finds_nothing() {
    let m = grid(&["O.E", "..O", "C.."]);
    let mut r = Robot::new_scout(1, p(1, 1));
    r.act(&m, p(9, 9));
    let obstacles = r.known_obstacles.clone();
    let resources = r.known_resources.clone();
    let pending = r.pending_messages.clone();
    assert_eq!(pending.len(), 4);
    r.position = p(1, 1);
    r.state = RobotState::Exploring;
    r.act(&m, p(9, 9));
    assert_eq!(r.known_obstacles, obstacles);
    assert_eq!(r.known_resources, resources);
    assert_eq!(r.pending_messages, pending);
}

#[test]
fn scout_moves_at_most_one_step() {
    let m = grid(&["....", "....", "....", "...."]);
    let mut r = Robot::new_scout(1, p(1, 1));
    for _ in 0..20 {
        let before = r.position;
        r.act(&m, p(9, 9));
        let dx = (r.position.x as isize - before.x as isize).abs();
        let dy = (r.position.y as isize - before.y as isize).abs();
        assert_eq!(dx + dy, 1);
    }
}
