use robot_simulation::base::KnownResource;
use robot_simulation::cell::{Cell, CellType};
use robot_simulation::collector::{CollectorRobot, CollectorState};
use robot_simulation::map::WorldMap;
use robot_simulation::message::RobotMessage;
use robot_simulation::position::Position;
use robot_simulation::resource::{Resource, ResourceType};

fn grid(rows: &[&str], qty: u32) -> WorldMap {
    let mut cells = Vec::new();
    for row in rows {
        let mut line = Vec::new();
        for ch in row.chars() {
            line.push(match ch {
                'O' => Cell::obstacle(),
                '#' => Cell::base(),
                'E' => Cell::resource(Resource::new(ResourceType::Energy, qty)),
                'C' => Cell::resource(Resource::new(ResourceType::Crystal, qty)),
                _ => Cell::empty(),
            });
        }
        cells.push(line);
    }
    WorldMap { width: rows[0].len(), height: rows.len(), cells, base_position: Position::new(0, 0) }
}

fn p(x: usize, y: usize) -> Position {
    Position::new(x, y)
}

fn known(x: usize, y: usize, t: ResourceType) -> KnownResource {
    KnownResource { position: p(x, y), resource_type: t }
}

#[test]
fn new_collector_is_idle() {
    let c = CollectorRobot::new(2, p(1, 1));
    assert_eq!(c.id, 2);
    assert_eq!(c.position, p(1, 1));
    assert_eq!(c.state, CollectorState::Idle);
    assert_eq!(c.carried_resource, None);
    assert_eq!(c.target, None);
    assert_eq!(c.knowledge_version, 0);
    assert!(c.path.is_empty());
}

#[test]
fn idle_collector_without_offers_waits() {
    let mut m = grid(&["#.."], 3);
    let mut c = CollectorRobot::new(1, p(0, 0));
    let (sent, sync) = c.act(&mut m, p(0, 0), &[]);
    assert!(sent.is_empty() && !sync);
    assert_eq!(c.state, CollectorState::Idle);
}

#[test]
fn idle_collector_plans_a_path_to_the_first_offer() {
    let mut m = grid(&["#.E", "..C"], 3);
    let mut c = CollectorRobot::new(1, p(0, 0));
    c.act(&mut m, p(0, 0), &[known(2, 0, ResourceType::Energy), known(2, 1, ResourceType::Crystal)]);
    assert_eq!(c.state, CollectorState::MovingToResource);
    assert_eq!(c.target, Some(p(2, 0)));
    assert_eq!(c.path, vec![p(1, 0), p(2, 0)]);
}

#[test]
fn idle_collector_gives_up_an_unreachable_offer() {
    let mut m = grid(&["#O.E"], 3);
    let mut c = CollectorRobot::new(1, p(0, 0));
    c.act(&mut m, p(0, 0), &[known(3, 0, ResourceType::Energy)]);
    assert_eq!(c.state, CollectorState::Idle);
    assert_eq!(c.target, None);
}

#[test]
fn idle_collector_on_its_target_starts_collecting() {
    let mut m = grid(&["#E"], 3);
    let mut c = CollectorRobot::new(1, p(1, 0));
    c.act(&mut m, p(0, 0), &[known(1, 0, ResourceType::Energy)]);
    assert_eq!(c.state, CollectorState::Collecting);
    assert_eq!(c.target, Some(p(1, 0)));
}

#[test]
fn full_round_trip_delivers_one_unit() {
    let mut m = grid(&["#..E"], 2);
    let base = p(0, 0);
    let offer = [known(3, 0, ResourceType::Energy)];
    let mut c = CollectorRobot::new(9, base);
    c.act(&mut m, base, &offer);
    assert_eq!(c.state, CollectorState::MovingToResource);
    c.act(&mut m, base, &offer);
    assert_eq!(c.position, p(1, 0));
    c.act(&mut m, base, &offer);
    c.act(&mut m, base, &offer);
    assert_eq!(c.position, p(3, 0));
    assert_eq!(c.state, CollectorState::Collecting);
    let (sent, _) = c.act(&mut m, base, &offer);
    assert!(sent.is_empty());
    assert_eq!(c.carried_resource, Some(ResourceType::Energy));
    assert_eq!(c.state, CollectorState::ReturningToBase);
    assert_eq!(c.path, vec![p(2, 0), p(1, 0), p(0, 0)]);
    assert_eq!(m.cells[0][3].cell_type, CellType::Resource(Resource::new(ResourceType::Energy, 1)));
    for _ in 0..3 {
        c.act(&mut m, base, &offer);
    }
    assert_eq!(c.position, base);
    assert_eq!(c.state, CollectorState::Unloading);
    let (sent, sync) = c.act(&mut m, base, &offer);
    assert_eq!(sent, vec![RobotMessage::ResourceCollected { robot_id: 9, resource_type: ResourceType::Energy, amount: 1 }]);
    assert!(sync);
    assert_eq!(c.state, CollectorState::Idle);
    assert_eq!(c.carried_resource, None);
    assert_eq!(c.target, None);
    assert!(c.path.is_empty());
}

#[test]
fn taking_the_last_unit_empties_the_cell_and_reports_it() {
    let mut m = grid(&["#C"], 1);
    let mut c = CollectorRobot::new(1, p(1, 0));
    c.state = CollectorState::Collecting;
    c.target = Some(p(1, 0));
    let (sent, sync) = c.act(&mut m, p(0, 0), &[]);
    assert_eq!(sent, vec![RobotMessage::ResourceDepleted { position: p(1, 0) }]);
    assert!(!sync);
    assert_eq!(m.cells[0][1].cell_type, CellType::Empty);
    assert_eq!(c.carried_resource, Some(ResourceType::Crystal));
    assert_eq!(c.path, vec![p(0, 0)]);
}

#[test]
fn collecting_where_nothing_is_left_goes_idle() {
    let mut m = grid(&["#."], 1);
    let mut c = CollectorRobot::new(1, p(1, 0));
    c.state = CollectorState::Collecting;
    c.target = Some(p(1, 0));
    let (sent, _) = c.act(&mut m, p(0, 0), &[]);
    assert!(sent.is_empty());
    assert_eq!(c.state, CollectorState::Idle);
    assert_eq!(c.target, None);
    assert_eq!(c.carried_resource, None);
}

#[test]
fn collecting_without_target_goes_idle() {
    let mut m = grid(&["#."], 1);
    let mut c = CollectorRobot::new(1, p(1, 0));
    c.state = CollectorState::Collecting;
    c.act(&mut m, p(0, 0), &[]);
    assert_eq!(c.state, CollectorState::Idle);
}

#[test]
fn moving_collector_with_spent_path_replans_or_gives_up() {
    let mut m = grid(&["#..E"], 2);
    let mut c = CollectorRobot::new(1, p(0, 0));
    c.state = CollectorState::MovingToResource;
    c.target = Some(p(3, 0));
    c.act(&mut m, p(0, 0), &[]);
    assert_eq!(c.path, vec![p(1, 0), p(2, 0), p(3, 0)]);
    assert_eq!(c.state, CollectorState::MovingToResource);
    let mut walled = grid(&["#.OE"], 2);
    let mut d = CollectorRobot::new(1, p(0, 0));
    d.state = CollectorState::MovingToResource;
    d.target = Some(p(3, 0));
    d.act(&mut walled, p(0, 0), &[]);
    assert_eq!(d.state, CollectorState::Idle);
    assert_eq!(d.target, None);
}

#[test]
fn moving_collector_without_target_goes_idle() {
    let mut m = grid(&["#."], 1);
    let mut c = CollectorRobot::new(1, p(1, 0));
    c.state = CollectorState::MovingToResource;
    c.act(&mut m, p(0, 0), &[]);
    assert_eq!(c.state, CollectorState::Idle);
}

#[test]
fn returning_collector_with_spent_path_replans() {
    let mut m = grid(&["#.."], 1);
    let mut c = CollectorRobot::new(1, p(2, 0));
    c.state = CollectorState::ReturningToBase;
    c.act(&mut m, p(0, 0), &[]);
    assert_eq!(c.path, vec![p(1, 0), p(0, 0)]);
    assert_eq!(c.state, CollectorState::ReturningToBase);
    assert_eq!(c.position, p(2, 0));
}

#[test]
fn unloading_empty_handed_reports_nothing() {
    let mut m = grid(&["#."], 1);
    let mut c = CollectorRobot::new(1, p(0, 0));
    c.state = CollectorState::Unloading;
    let (sent, sync) = c.act(&mut m, p(0, 0), &[]);
    assert!(sent.is_empty());
    assert!(sync);
    assert_eq!(c.state, CollectorState::Idle);
}

#[test]
fn try_collect_takes_one_unit() {
    let mut m = grid(&["E"], 5);
    assert_eq!(CollectorRobot::try_collect(&mut m, p(0, 0)), Some((ResourceType::Energy, false)));
    assert_eq!(m.cells[0][0].cell_type, CellType::Resource(Resource::new(ResourceType::Energy, 4)));
    assert_eq!(CollectorRobot::try_collect(&mut m, p(1, 0)), None);
    let mut empty = grid(&["."], 5);
    assert_eq!(CollectorRobot::try_collect(&mut empty, p(0, 0)), None);
}

#[test]
fn depleted_target_is_dropped_on_the_way() {
    let mut c = CollectorRobot::new(1, p(0, 0));
    c.state = CollectorState::MovingToResource;
    c.target = Some(p(3, 0));
    c.path = vec![p(1, 0), p(2, 0), p(3, 0)];
    c.apply_knowledge(
        &[
            RobotMessage::ResourceDepleted { position: p(5, 5) },
            RobotMessage::ResourceDepleted { position: p(3, 0) },
        ],
        4,
    );
    assert_eq!(c.state, CollectorState::Idle);
    assert_eq!(c.target, None);
    assert!(c.path.is_empty());
    assert_eq!(c.knowledge_version, 4);
}

#[test]
fn depleted_target_is_kept_when_not_moving() {
    let mut c = CollectorRobot::new(1, p(3, 0));
    c.state = CollectorState::Collecting;
    c.target = Some(p(3, 0));
    c.apply_knowledge(&[RobotMessage::ResourceDepleted { position: p(3, 0) }], 1);
    assert_eq!(c.state, CollectorState::Collecting);
    assert_eq!(c.target, Some(p(3, 0)));
    assert_eq!(c.knowledge_version, 1);
}

#[test]
fn collector_moves_one_walkable_step_at_a_time() {
    let mut m = grid(&["#...", ".OO.", "...E"], 3);
    let base = p(0, 0);
    let offer = [known(3, 2, ResourceType::Energy)];
    let mut c = CollectorRobot::new(1, base);
    for _ in 0..40 {
        let before = c.position;
        c.act(&mut m, base, &offer);
        let dx = (c.position.x as isize - before.x as isize).abs();
        let dy = (c.position.y as isize - before.y as isize).abs();
        assert!(dx + dy <= 1);
        assert!(m.is_walkable(c.position));
    }
}

#[test]
fn collector_moves_one_walkable_step_at_a_time_over_a_whole_round() {
    let mut m = grid(&["#..O", "O.O.", "...E"], 2);
    let base = p(0, 0);
    let offers = [known(3, 2, ResourceType::Energy)];
    let mut c = CollectorRobot::new(4, base);
    let mut delivered = 0;
    for _ in 0..40 {
        let before = c.position;
        let (sent, sync) = c.act(&mut m, base, &offers);
        let after = c.position;
        if after != before {
            let dx = (after.x as i64 - before.x as i64).abs();
            let dy = (after.y as i64 - before.y as i64).abs();
            assert_eq!(dx + dy, 1);
            assert!(m.is_walkable(after));
        }
        let mut prev = c.position;
        for &q in &c.path {
            assert!(m.get_neighbors(prev).contains(&q));
            prev = q;
        }
        for msg in sent {
            if let RobotMessage::ResourceCollected { amount, .. } = msg {
                delivered += amount;
            }
        }
        if sync {
            c.apply_knowledge(&[], 0);
        }
        if delivered == 2 {
            break;
        }
    }
    assert_eq!(delivered, 2);
    assert_eq!(m.cells[2][3].cell_type, CellType::Empty);
}
