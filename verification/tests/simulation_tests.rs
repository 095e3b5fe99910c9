use robot_simulation::base::{Base, KnownResource};
use robot_simulation::collector::CollectorState;
use robot_simulation::position::Position;
use robot_simulation::resource::ResourceType;
use robot_simulation::message::RobotMessage;
use robot_simulation::robot::Robot;
use robot_simulation::robot::RobotMessage as ScoutMessage;
use robot_simulation::simulation::{
    count_kind, release_reservation, resources_for_collector, scout_knowledge, to_base_message, RobotKind, RobotView,
};

fn p(x: usize, y: usize) -> Position {
    Position::new(x, y)
}

fn base_with_two_deposits() -> Base {
    let mut b = Base::new(p(0, 0));
    b.known_resources.push(KnownResource { position: p(1, 1), resource_type: ResourceType::Energy });
    b.known_resources.push(KnownResource { position: p(2, 2), resource_type: ResourceType::Crystal });
    b
}

#[test]
fn idle_collectors_reserve_distinct_deposits() {
    let mut b = base_with_two_deposits();
    let mut first: Option<Position> = None;
    let mut second: Option<Position> = None;
    let mut third: Option<Position> = None;
    let a = resources_for_collector(&mut b, CollectorState::Idle, &mut first);
    let c = resources_for_collector(&mut b, CollectorState::Idle, &mut second);
    let d = resources_for_collector(&mut b, CollectorState::Idle, &mut third);
    assert_eq!(a, vec![KnownResource { position: p(1, 1), resource_type: ResourceType::Energy }]);
    assert_eq!(c, vec![KnownResource { position: p(2, 2), resource_type: ResourceType::Crystal }]);
    assert!(d.is_empty());
    assert_eq!(first, Some(p(1, 1)));
    assert_eq!(second, Some(p(2, 2)));
    assert_eq!(third, None);
    assert_eq!(b.reserved_targets, vec![p(1, 1), p(2, 2)]);
}

#[test]
fn busy_or_reserved_collectors_see_everything() {
    let mut b = base_with_two_deposits();
    let mut held = Some(p(1, 1));
    let all = resources_for_collector(&mut b, CollectorState::Idle, &mut held);
    assert_eq!(all.len(), 2);
    let mut none: Option<Position> = None;
    let all2 = resources_for_collector(&mut b, CollectorState::MovingToResource, &mut none);
    assert_eq!(all2.len(), 2);
    assert!(b.reserved_targets.is_empty());
    assert_eq!(none, None);
}

#[test]
fn reservation_is_released_when_the_target_is_gone() {
    let mut b = base_with_two_deposits();
    let mut mine: Option<Position> = None;
    resources_for_collector(&mut b, CollectorState::Idle, &mut mine);
    release_reservation(&mut b, Some(p(1, 1)), &mut mine);
    assert_eq!(mine, Some(p(1, 1)));
    assert_eq!(b.reserved_targets, vec![p(1, 1)]);
    release_reservation(&mut b, None, &mut mine);
    assert_eq!(mine, None);
    assert!(b.reserved_targets.is_empty());
    let mut other: Option<Position> = None;
    let again = resources_for_collector(&mut b, CollectorState::Idle, &mut other);
    assert_eq!(again[0].position, p(1, 1));
}

#[test]
fn counting_robots_by_kind() {
    let views = vec![
        RobotView { kind: RobotKind::Scout, position: p(0, 0) },
        RobotView { kind: RobotKind::Collector, position: p(1, 0) },
        RobotView { kind: RobotKind::Scout, position: p(2, 0) },
    ];
    assert_eq!(count_kind(&views, RobotKind::Scout), 2);
    assert_eq!(count_kind(&views, RobotKind::Collector), 1);
    assert_eq!(count_kind(&[], RobotKind::Scout), 0);
}

#[test]
fn scouts_learn_only_discoveries_from_the_history() {
    let history = vec![
        RobotMessage::ObstacleDiscovered { position: p(1, 0) },
        RobotMessage::ResourceDepleted { position: p(2, 2) },
        RobotMessage::ResourceCollected { robot_id: 3, resource_type: ResourceType::Energy, amount: 1 },
        RobotMessage::ResourceDiscovered { position: p(4, 4), resource_type: ResourceType::Crystal },
    ];
    assert_eq!(
        scout_knowledge(&history),
        vec![
            ScoutMessage::ObstacleDiscovered { position: p(1, 0) },
            ScoutMessage::ResourceDiscovered { position: p(4, 4), resource_type: ResourceType::Crystal },
        ]
    );
    assert_eq!(
        to_base_message(ScoutMessage::ObstacleDiscovered { position: p(7, 1) }),
        RobotMessage::ObstacleDiscovered { position: p(7, 1) }
    );
    assert_eq!(
        to_base_message(ScoutMessage::ResourceDiscovered { position: p(7, 1), resource_type: ResourceType::Energy }),
        RobotMessage::ResourceDiscovered { position: p(7, 1), resource_type: ResourceType::Energy }
    );
}

#[test]
fn syncing_scout_knows_every_discovery_up_to_its_version() {
    let mut b = Base::new(p(0, 0));
    let mut scout = Robot::new_scout(1, p(0, 0));
    b.process_messages(
        vec![
            RobotMessage::ObstacleDiscovered { position: p(3, 1) },
            RobotMessage::ResourceDiscovered { position: p(2, 2), resource_type: ResourceType::Crystal },
        ],
        1,
    );
    let version = b.get_current_version();
    let news = scout_knowledge(b.get_knowledge_since(scout.knowledge_version));
    scout.apply_knowledge(&news, version);
    assert_eq!(scout.knowledge_version, 2);
    b.process_messages(
        vec![
            RobotMessage::ResourceDepleted { position: p(2, 2) },
            RobotMessage::ObstacleDiscovered { position: p(4, 4) },
        ],
        2,
    );
    let version = b.get_current_version();
    let news = scout_knowledge(b.get_knowledge_since(scout.knowledge_version));
    assert_eq!(news, vec![ScoutMessage::ObstacleDiscovered { position: p(4, 4) }]);
    scout.apply_knowledge(&news, version);
    assert_eq!(scout.knowledge_version, 4);
    assert_eq!(scout.known_obstacles, vec![p(3, 1), p(4, 4)]);
    assert_eq!(scout.known_resources, vec![p(2, 2)]);
}

#[test]
fn interleaved_collectors_never_share_a_reservation() {
    let mut b = base_with_two_deposits();
    let mut held: Vec<Option<Position>> = vec![None, None, None];
    let plan: [(usize, bool, Option<Position>); 8] = [
        (0, true, None),
        (1, true, None),
        (2, true, None),
        (0, false, None),
        (2, true, None),
        (1, false, Some(p(2, 2))),
        (1, false, None),
        (0, true, None),
    ];
    for &(t, asking, target) in plan.iter() {
        let mut mine = held[t];
        if asking {
            resources_for_collector(&mut b, CollectorState::Idle, &mut mine);
        } else {
            release_reservation(&mut b, target, &mut mine);
        }
        held[t] = mine;
        let taken: Vec<Position> = held.iter().flatten().copied().collect();
        for (i, a) in taken.iter().enumerate() {
            assert!(b.reserved_targets.contains(a));
            assert!(!taken[i + 1..].contains(a));
        }
    }
    assert_eq!(held, vec![Some(p(2, 2)), None, Some(p(1, 1))]);
}
