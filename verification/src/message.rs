use vstd::prelude::*;
use crate::position::Position;
use crate::resource::ResourceType;

verus! {

/// What robots report to the base.
#[derive(Debug, Clone, Copy, PartialEq, Eq, Structural)]
pub enum RobotMessage {
    ResourceDiscovered { position: Position, resource_type: ResourceType },
    ObstacleDiscovered { position: Position },
    ResourceCollected { robot_id: usize, resource_type: ResourceType, amount: u32 },
    ResourceDepleted { position: Position },
}

} // verus!
