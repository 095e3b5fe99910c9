use vstd::prelude::*;

verus! {

/// The two kinds of resource that lie on the map.
#[derive(Debug, Clone, Copy, PartialEq, Eq, Hash, Structural)]
pub enum ResourceType {
    Energy,
    Crystal,
}

/// A deposit: its kind and how many units are left in it.
#[derive(Debug, Clone, Copy, PartialEq, Eq, Structural)]
pub struct Resource {
    pub resource_type: ResourceType,
    pub quantity: u32,
}

impl Resource {
    /// Builds a deposit of `quantity` units of `resource_type`.
    pub fn new(resource_type: ResourceType, quantity: u32) -> (r: Resource)
        ensures
            r.resource_type == resource_type,
            r.quantity == quantity,
    {
        Resource { resource_type, quantity }
    }
}

} // verus!
