use robot_simulation::cell::{Cell, CellType};
use robot_simulation::position::Position;
use robot_simulation::resource::{Resource, ResourceType};
use robot_simulation::simulation::RobotKind;

#[test]
fn position_new_keeps_coordinates() {
    let p = Position::new(3, 7);
    assert_eq!(p.x, 3);
    assert_eq!(p.y, 7);
}

#[test]
fn resource_new_keeps_kind_and_quantity() {
    let r = Resource::new(ResourceType::Crystal, 120);
    assert_eq!(r.resource_type, ResourceType::Crystal);
    assert_eq!(r.quantity, 120);
}

#[test]
fn cell_constructors_and_predicates() {
    let e = Cell::empty();
    assert_eq!(e.cell_type, CellType::Empty);
    assert!(e.is_empty() && e.is_walkable() && !e.is_resource());

    let o = Cell::obstacle();
    assert_eq!(o.cell_type, CellType::Obstacle);
    assert!(!o.is_empty() && !o.is_walkable() && !o.is_resource());

    let b = Cell::base();
    assert_eq!(b.cell_type, CellType::Base);
    assert!(!b.is_empty() && b.is_walkable() && !b.is_resource());

    let r = Cell::resource(Resource::new(ResourceType::Energy, 5));
    assert_eq!(r.cell_type, CellType::Resource(Resource::new(ResourceType::Energy, 5)));
    assert!(!r.is_empty() && r.is_walkable() && r.is_resource());
}

#[test]
fn legend_symbols_match_readme() {
    assert_eq!(Cell::empty().symbol(), '.');
    assert_eq!(Cell::obstacle().symbol(), 'O');
    assert_eq!(Cell::base().symbol(), '#');
    assert_eq!(Cell::resource(Resource::new(ResourceType::Energy, 1)).symbol(), 'E');
    assert_eq!(Cell::resource(Resource::new(ResourceType::Crystal, 1)).symbol(), 'C');
    assert_eq!(RobotKind::Scout.symbol(), 'x');
    assert_eq!(RobotKind::Collector.symbol(), 'o');
}
