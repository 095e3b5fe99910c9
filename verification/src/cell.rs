use vstd::prelude::*;
use crate::resource::{Resource, ResourceType};

verus! {

/// What occupies a cell of the map.
#[derive(Debug, Clone, Copy, PartialEq, Eq, Structural)]
pub enum CellType {
    Empty,
    Obstacle,
    Base,
    Resource(Resource),
}

/// One cell of the map.
#[derive(Debug, Clone, Copy, PartialEq, Eq, Structural)]
pub struct Cell {
    pub cell_type: CellType,
}

impl Cell {
    /// A cell a robot may walk on: anything but an obstacle.
    pub open spec fn walkable(self) -> bool {
        !(self.cell_type is Obstacle)
    }

    /// The character that stands for this cell on screen.
    pub open spec fn spec_symbol(self) -> char {
        match self.cell_type {
            CellType::Empty => '.',
            CellType::Obstacle => 'O',
            CellType::Base => '#',
            CellType::Resource(r) => match r.resource_type {
                ResourceType::Energy => 'E',
                ResourceType::Crystal => 'C',
            },
        }
    }

    /// An empty cell.
    pub fn empty() -> (c: Cell)
        ensures
            c.cell_type == CellType::Empty,
    {
        Cell { cell_type: CellType::Empty }
    }

    /// An obstacle.
    pub fn obstacle() -> (c: Cell)
        ensures
            c.cell_type == CellType::Obstacle,
    {
        Cell { cell_type: CellType::Obstacle }
    }

    /// The base.
    pub fn base() -> (c: Cell)
        ensures
            c.cell_type == CellType::Base,
    {
        Cell { cell_type: CellType::Base }
    }

    /// A cell holding the deposit `resource`.
    pub fn resource(resource: Resource) -> (c: Cell)
        ensures
            c.cell_type == CellType::Resource(resource),
    {
        Cell { cell_type: CellType::Resource(resource) }
    }

    /// True unless the cell is an obstacle.
    pub fn is_walkable(&self) -> (b: bool)
        ensures
            b == self.walkable(),
    {
        !matches!(self.cell_type, CellType::Obstacle)
    }

    /// True for an empty cell.
    pub fn is_empty(&self) -> (b: bool)
        ensures
            b == (self.cell_type is Empty),
    {
        matches!(self.cell_type, CellType::Empty)
    }

    /// True for a cell that holds a deposit.
    pub fn is_resource(&self) -> (b: bool)
        ensures
            b == (self.cell_type is Resource),
    {
        matches!(self.cell_type, CellType::Resource(_))
    }

    /// The character that stands for this cell on screen (the legend of the map).
    pub fn symbol(&self) -> (ch: char)
        ensures
            ch == self.spec_symbol(),
    {
        match &self.cell_type {
            CellType::Empty => '.',
            CellType::Obstacle => 'O',
            CellType::Base => '#',
            CellType::Resource(resource) => match resource.resource_type {
                ResourceType::Energy => 'E',
                ResourceType::Crystal => 'C',
            },
        }
    }
}

} // verus!
