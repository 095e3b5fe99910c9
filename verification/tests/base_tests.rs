use robot_simulation::base::{Base, KnownResource, MAX_LOGS};
use robot_simulation::message::RobotMessage;
use robot_simulation::position::Position;
use robot_simulation::resource::ResourceType;

fn p(x: usize, y: usize) -> Position {
    Position::new(x, y)
}

#[test]
fn new_base_is_empty() {
    let b = Base::new(p(4, 5));
    assert_eq!(b.position, p(4, 5));
    assert!(b.known_obstacles.is_empty());
    assert!(b.known_resources.is_empty());
    assert!(b.reserved_targets.is_empty());
    assert!(b.history.is_empty());
    assert!(b.logs.is_empty());
    assert_eq!(b.energy, 0);
    assert_eq!(b.crystals, 0);
    assert_eq!(b.get_current_version(), 0);
}

#[test]
fn obstacles_are_recorded_once() {
    let mut b = Base::new(p(0, 0));
    b.process_messages(
        vec![
            RobotMessage::ObstacleDiscovered { position: p(1, 1) },
            RobotMessage::ObstacleDiscovered { position: p(1, 1) },
            RobotMessage::ObstacleDiscovered { position: p(2, 1) },
        ],
        3,
    );
    assert_eq!(b.known_obstacles, vec![p(1, 1), p(2, 1)]);
    assert_eq!(
        b.history,
        vec![
            RobotMessage::ObstacleDiscovered { position: p(1, 1) },
            RobotMessage::ObstacleDiscovered { position: p(2, 1) },
        ]
    );
    assert_eq!(b.logs.len(), 2);
    assert!(b.logs[0].starts_with("[Tour 3] "));
}

#[test]
fn resources_are_recorded_once_per_position() {
    let mut b = Base::new(p(0, 0));
    b.process_messages(
        vec![
            RobotMessage::ResourceDiscovered { position: p(3, 3), resource_type: ResourceType::Energy },
            RobotMessage::ResourceDiscovered { position: p(3, 3), resource_type: ResourceType::Crystal },
        ],
        1,
    );
    assert_eq!(b.known_resources, vec![KnownResource { position: p(3, 3), resource_type: ResourceType::Energy }]);
    assert_eq!(b.history.len(), 1);
    assert_eq!(b.logs.len(), 1);
}

#[test]
fn deliveries_add_to_the_totals() {
    let mut b = Base::new(p(0, 0));
    b.process_messages(
        vec![
            RobotMessage::ResourceCollected { robot_id: 4, resource_type: ResourceType::Energy, amount: 1 },
            RobotMessage::ResourceCollected { robot_id: 5, resource_type: ResourceType::Crystal, amount: 2 },
            RobotMessage::ResourceCollected { robot_id: 4, resource_type: ResourceType::Energy, amount: 3 },
        ],
        12,
    );
    assert_eq!(b.energy, 4);
    assert_eq!(b.crystals, 2);
    assert!(b.history.is_empty());
    assert_eq!(b.logs.len(), 3);
    assert!(b.logs[2].starts_with("[Tour 12] Robot 4"));
}

#[test]
fn depleted_resource_is_forgotten_and_recorded() {
    let mut b = Base::new(p(0, 0));
    b.process_messages(
        vec![
            RobotMessage::ResourceDiscovered { position: p(3, 3), resource_type: ResourceType::Energy },
            RobotMessage::ResourceDiscovered { position: p(4, 3), resource_type: ResourceType::Crystal },
            RobotMessage::ResourceDepleted { position: p(3, 3) },
        ],
        1,
    );
    assert_eq!(b.known_resources, vec![KnownResource { position: p(4, 3), resource_type: ResourceType::Crystal }]);
    assert_eq!(b.history.len(), 3);
    assert_eq!(b.history[2], RobotMessage::ResourceDepleted { position: p(3, 3) });
    // An unknown deposit reported depleted still goes to the history.
    b.process_messages(vec![RobotMessage::ResourceDepleted { position: p(9, 9) }], 2);
    assert_eq!(b.history.len(), 4);
    assert_eq!(b.known_resources.len(), 1);
}

#[test]
fn log_keeps_the_last_fifty_lines() {
    let mut b = Base::new(p(0, 0));
    for turn in 0..60u32 {
        b.process_messages(
            vec![RobotMessage::ResourceCollected { robot_id: 1, resource_type: ResourceType::Energy, amount: 1 }],
            turn,
        );
    }
    assert_eq!(b.logs.len(), MAX_LOGS);
    assert!(b.logs[0].starts_with("[Tour 10] "));
    assert!(b.logs[49].starts_with("[Tour 59] "));
    assert_eq!(b.energy, 60);
}

#[test]
fn log_line_format() {
    let mut b = Base::new(p(0, 0));
    b.process_messages(vec![RobotMessage::ResourceCollected { robot_id: 7, resource_type: ResourceType::Crystal, amount: 1 }], 0);
    assert_eq!(b.logs[0], "[Tour 0] Robot 7 a déposé 1 unité(s) de Crystal (énergie=0, cristaux=1)");
}

#[test]
fn knowledge_since_a_version() {
    let mut b = Base::new(p(0, 0));
    b.process_messages(
        vec![
            RobotMessage::ObstacleDiscovered { position: p(1, 0) },
            RobotMessage::ObstacleDiscovered { position: p(2, 0) },
            RobotMessage::ObstacleDiscovered { position: p(3, 0) },
        ],
        1,
    );
    assert_eq!(b.get_current_version(), 3);
    assert_eq!(b.get_knowledge_since(0).len(), 3);
    assert_eq!(b.get_knowledge_since(2), &[RobotMessage::ObstacleDiscovered { position: p(3, 0) }]);
    assert!(b.get_knowledge_since(3).is_empty());
    assert!(b.get_knowledge_since(10).is_empty());
    // What came after a version is exactly what was added since.
    let v = b.get_current_version();
    b.process_messages(vec![RobotMessage::ObstacleDiscovered { position: p(4, 0) }], 2);
    assert_eq!(b.get_knowledge_since(v), &[RobotMessage::ObstacleDiscovered { position: p(4, 0) }]);
}

#[test]
fn totals_fit_detects_overflow() {
    let mut b = Base::new(p(0, 0));
    b.energy = u32::MAX - 1;
    let ok = vec![RobotMessage::ResourceCollected { robot_id: 1, resource_type: ResourceType::Energy, amount: 1 }];
    let too_much = vec![
        RobotMessage::ResourceCollected { robot_id: 1, resource_type: ResourceType::Energy, amount: 1 },
        RobotMessage::ResourceCollected { robot_id: 1, resource_type: ResourceType::Energy, amount: 1 },
    ];
    assert!(b.totals_fit(&ok));
    assert!(!b.totals_fit(&too_much));
    let crystals = vec![RobotMessage::ResourceCollected { robot_id: 1, resource_type: ResourceType::Crystal, amount: u32::MAX }];
    assert!(b.totals_fit(&crystals));
}

#[test]
fn log_lines_for_each_report() {
    let mut b = Base::new(p(0, 0));
    b.process_messages(
        vec![
            RobotMessage::ObstacleDiscovered { position: p(1, 2) },
            RobotMessage::ResourceDiscovered { position: p(3, 4), resource_type: ResourceType::Energy },
            RobotMessage::ResourceDepleted { position: p(3, 4) },
        ],
        105,
    );
    assert_eq!(b.logs[0], "[Tour 105] Nouvel obstacle découvert en Position { x: 1, y: 2 }");
    assert_eq!(b.logs[1], "[Tour 105] Nouvelle ressource Energy découverte en Position { x: 3, y: 4 }");
    assert_eq!(b.logs[2], "[Tour 105] Ressource en Position { x: 3, y: 4 } épuisée, retirée de la liste");
}

#[test]
fn a_batch_appends_exactly_what_it_records() {
    let mut b = Base::new(p(0, 0));
    b.process_messages(vec![RobotMessage::ObstacleDiscovered { position: p(1, 1) }], 1);
    let v = b.get_current_version();
    assert!(b.get_knowledge_since(v).is_empty());
    b.process_messages(
        vec![
            RobotMessage::ObstacleDiscovered { position: p(1, 1) },
            RobotMessage::ResourceCollected { robot_id: 2, resource_type: ResourceType::Energy, amount: 1 },
            RobotMessage::ResourceDiscovered { position: p(5, 5), resource_type: ResourceType::Energy },
            RobotMessage::ResourceDepleted { position: p(8, 8) },
        ],
        2,
    );
    assert_eq!(
        b.get_knowledge_since(v),
        &[
            RobotMessage::ResourceDiscovered { position: p(5, 5), resource_type: ResourceType::Energy },
            RobotMessage::ResourceDepleted { position: p(8, 8) },
        ]
    );
    assert!(b.get_current_version() >= v);
}
