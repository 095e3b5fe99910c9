use vstd::prelude::*;
use crate::cell::{Cell, CellType};
use crate::position::Position;
use crate::random::random_in_range;
use crate::resource::{Resource, ResourceType};

verus! {

/// The coordinate after `c`, where the one after the largest `usize` is 0.
pub open spec fn wrapping_next(c: usize) -> int {
    if c == usize::MAX {
        0
    } else {
        c + 1
    }
}

/// The quantity of the last entry of `placed` at `p`, if any.
pub open spec fn quantity_at(placed: Seq<(Position, u32)>, p: Position) -> Option<u32>
    decreases placed.len(),
{
    if placed.len() == 0 {
        None
    } else if placed.last().0 == p {
        Some(placed.last().1)
    } else {
        quantity_at(placed.drop_last(), p)
    }
}

/// Where `quantity_at` finds a quantity, `placed` holds that position with it; where it
/// finds none, `placed` does not hold the position.
pub proof fn lemma_quantity_at(placed: Seq<(Position, u32)>, p: Position)
    ensures
        quantity_at(placed, p) matches Some(q) ==> exists|k: int|
            0 <= k < placed.len() && #[trigger] placed[k] == (p, q),
        quantity_at(placed, p) is None ==> forall|k: int| 0 <= k < placed.len() ==> (#[trigger] placed[k]).0 != p,
    decreases placed.len(),
{
    if placed.len() > 0 {
        let rest = placed.drop_last();
        lemma_quantity_at(rest, p);
        if placed.last().0 == p {
            assert(placed[placed.len() - 1] == placed.last());
        } else {
            if let Some(q) = quantity_at(rest, p) {
                let k = choose|k: int| 0 <= k < rest.len() && #[trigger] rest[k] == (p, q);
                assert(placed[k] == rest[k]);
            } else {
                assert forall|k: int| 0 <= k < placed.len() implies (#[trigger] placed[k]).0 != p by {
                    if k < rest.len() {
                        assert(placed[k] == rest[k]);
                    }
                }
            }
        }
    }
}

/// The grid: `cells[y][x]` is the cell in row `y`, column `x`.
pub struct WorldMap {
    pub width: usize,
    pub height: usize,
    pub cells: Vec<Vec<Cell>>,
    pub base_position: Position,
}

impl WorldMap {
    /// The grid has `height` rows of `width` cells each.
    pub open spec fn wf(&self) -> bool {
        &&& self.width <= isize::MAX
        &&& self.height <= isize::MAX
        &&& self.cells@.len() == self.height
        &&& forall|y: int| 0 <= y < self.height ==> (#[trigger] self.cells@[y])@.len() == self.width
    }

    /// The point `(x, y)` lies on the grid.
    pub open spec fn inside_xy(&self, x: int, y: int) -> bool {
        0 <= x < self.width && 0 <= y < self.height
    }

    /// The position lies on the grid.
    pub open spec fn inside(&self, p: Position) -> bool {
        self.inside_xy(p.x as int, p.y as int)
    }

    /// The cell at column `x`, row `y`.
    pub open spec fn cell(&self, x: int, y: int) -> Cell {
        self.cells@[y]@[x]
    }

    /// The cell at `p`.
    pub open spec fn at(&self, p: Position) -> Cell {
        self.cell(p.x as int, p.y as int)
    }

    /// `p` is on the grid and is not an obstacle.
    pub open spec fn walkable(&self, p: Position) -> bool {
        self.inside(p) && self.at(p).walkable()
    }

    /// `p` is on the grid and holds a deposit.
    pub open spec fn holds_resource(&self, p: Position) -> bool {
        self.inside(p) && self.at(p).cell_type is Resource
    }

    /// The deposit at `p`, if there is one, has at least one unit left.
    pub open spec fn deposit_nonempty_at(&self, p: Position) -> bool {
        self.holds_resource(p) ==> match self.at(p).cell_type {
            CellType::Resource(r) => r.quantity > 0,
            _ => true,
        }
    }

    /// Every deposit on the grid has at least one unit left.
    pub open spec fn deposits_nonempty(&self) -> bool {
        forall|x: int, y: int|
            #![trigger self.cell(x, y)]
            self.inside_xy(x, y) ==> match self.cell(x, y).cell_type {
                CellType::Resource(r) => r.quantity > 0,
                _ => true,
            }
    }

    /// `(x, y)` lies in the 5x5 square centred on the base.
    pub open spec fn near_base(&self, x: int, y: int) -> bool {
        &&& self.base_position.x - 2 <= x <= self.base_position.x + 2
        &&& self.base_position.y - 2 <= y <= self.base_position.y + 2
    }

    /// `(x, y)` is the base position.
    pub open spec fn is_base_xy(&self, x: int, y: int) -> bool {
        x == self.base_position.x && y == self.base_position.y
    }

    /// What the cell at `(x, y)` holds once the base is placed on a grid whose cell there
    /// was `before`: the base itself, cleared ground around it, the old cell elsewhere.
    pub open spec fn with_base(&self, x: int, y: int, before: Cell) -> Cell {
        if self.is_base_xy(x, y) {
            Cell { cell_type: CellType::Base }
        } else if self.near_base(x, y) {
            Cell { cell_type: CellType::Empty }
        } else {
            before
        }
    }

    /// The cell at `(x, y)` is `before`, or `before` was empty ground away from the base and
    /// now holds a deposit of `resource_type` of 50 to 200 units.
    pub open spec fn same_or_deposit(
        &self,
        x: int,
        y: int,
        before: Cell,
        resource_type: ResourceType,
    ) -> bool {
        ||| self.cell(x, y) == before
        ||| {
            &&& before.cell_type is Empty
            &&& !self.is_base_xy(x, y)
            &&& self.cell(x, y).cell_type matches CellType::Resource(r)
            &&& r.resource_type == resource_type
            &&& 50 <= r.quantity <= 200
        }
    }

    /// The cell at `(x, y)` is `before`, or `before` was empty ground away from the base and
    /// now holds a deposit of 50 to 200 units.
    pub open spec fn same_or_any_deposit(&self, x: int, y: int, before: Cell) -> bool {
        ||| self.same_or_deposit(x, y, before, ResourceType::Energy)
        ||| self.same_or_deposit(x, y, before, ResourceType::Crystal)
    }

    /// Every cell of `self` that differs from the same cell of `before` lies at a position
    /// listed in `placed`.
    pub open spec fn changed_only_at(&self, before: &WorldMap, placed: Seq<Position>) -> bool {
        forall|x: int, y: int|
            #![trigger self.cell(x, y)]
            self.inside_xy(x, y) && self.cell(x, y) != before.cell(x, y) ==> placed.contains(
                Position { x: x as usize, y: y as usize },
            )
    }

    /// The cell at `(x, y)` holds a deposit of `kind`.
    pub open spec fn deposit_of(&self, x: int, y: int, kind: ResourceType) -> bool {
        self.cell(x, y).cell_type matches CellType::Resource(r) && r.resource_type == kind
    }

    /// Every deposit of `kind` on the grid lies at a position listed in `placed`.
    pub open spec fn deposits_only_at(&self, kind: ResourceType, placed: Seq<Position>) -> bool {
        forall|x: int, y: int|
            #![trigger self.cell(x, y)]
            self.inside_xy(x, y) && self.deposit_of(x, y, kind) ==> placed.contains(
                Position { x: x as usize, y: y as usize },
            )
    }

    /// Every new deposit of `kind`, one that differs from the cell of `before`, lies at a
    /// position listed in `placed`.
    pub open spec fn new_deposits_only_at(
        &self,
        before: &WorldMap,
        kind: ResourceType,
        placed: Seq<Position>,
    ) -> bool {
        forall|x: int, y: int|
            #![trigger self.cell(x, y)]
            self.inside_xy(x, y) && self.cell(x, y) != before.cell(x, y) && self.deposit_of(x, y, kind)
                ==> placed.contains(Position { x: x as usize, y: y as usize })
    }

    /// A deposit may go at `p`: on the grid, not the base, and empty ground.
    pub open spec fn free_for_deposit(&self, p: Position) -> bool {
        self.inside(p) && p != self.base_position && self.at(p).cell_type is Empty
    }

    /// The deposits that trying the draws `(x, y, quantity)` in order puts on this map:
    /// a draw is taken when fewer than `count` were taken before it and its position is
    /// free for a deposit and not taken by an earlier draw.
    pub open spec fn taken_draws(&self, count: nat, draws: Seq<(usize, usize, u32)>) -> Seq<
        (Position, u32),
    >
        decreases draws.len(),
    {
        if draws.len() == 0 {
            Seq::empty()
        } else {
            let prior = self.taken_draws(count, draws.drop_last());
            let d = draws.last();
            let p = Position { x: d.0, y: d.1 };
            if prior.len() < count && self.free_for_deposit(p) && quantity_at(prior, p) is None {
                prior.push((p, d.2))
            } else {
                prior
            }
        }
    }

    /// `new` is this map once the draws have been tried: each taken draw holds a deposit of
    /// `kind` with the drawn quantity, every other cell is unchanged.
    pub open spec fn after_draws(
        &self,
        new: &WorldMap,
        kind: ResourceType,
        count: nat,
        draws: Seq<(usize, usize, u32)>,
    ) -> bool {
        &&& self.same_frame(new)
        &&& new.wf()
        &&& forall|x: int, y: int|
            #![trigger new.cell(x, y)]
            self.inside_xy(x, y) ==> new.cell(x, y) == match quantity_at(
                self.taken_draws(count, draws),
                Position { x: x as usize, y: y as usize },
            ) {
                Some(q) => Cell {
                    cell_type: CellType::Resource(Resource { resource_type: kind, quantity: q }),
                },
                None => self.cell(x, y),
            }
    }

    /// `new` is this map after `count * 100` draws, each of a position on the grid and a
    /// quantity of 50 to 200 units, have been tried.
    pub open spec fn after_random_draws(&self, new: &WorldMap, kind: ResourceType, count: nat) -> bool {
        exists|draws: Seq<(usize, usize, u32)>|
            {
                &&& draws.len() == count * 100
                &&& forall|i: int| 0 <= i < draws.len() ==> self.draw_in_range(#[trigger] draws[i])
                &&& #[trigger] self.after_draws(new, kind, count, draws)
            }
    }

    /// A draw of a position on the grid and a quantity of 50 to 200 units.
    pub open spec fn draw_in_range(&self, d: (usize, usize, u32)) -> bool {
        &&& d.0 < self.width
        &&& d.1 < self.height
        &&& 50 <= d.2 <= 200
    }

    /// Once `count` draws are taken, later draws take nothing.
    pub proof fn lemma_taken_stops(&self, count: nat, draws: Seq<(usize, usize, u32)>, i: int)
        requires
            0 <= i <= draws.len(),
            self.taken_draws(count, draws.subrange(0, i)).len() >= count,
        ensures
            self.taken_draws(count, draws) == self.taken_draws(count, draws.subrange(0, i)),
        decreases draws.len(),
    {
        if draws.len() == i {
            assert(draws.subrange(0, i) =~= draws);
        } else {
            let rest = draws.drop_last();
            assert(rest.subrange(0, i) =~= draws.subrange(0, i));
            self.lemma_taken_stops(count, rest, i);
        }
    }

    /// At most `count` draws are taken, each at a position free for a deposit, with a drawn
    /// quantity.
    pub proof fn lemma_taken_facts(&self, count: nat, draws: Seq<(usize, usize, u32)>)
        requires
            forall|i: int| 0 <= i < draws.len() ==> self.draw_in_range(#[trigger] draws[i]),
        ensures
            self.taken_draws(count, draws).len() <= count,
            forall|k: int|
                0 <= k < self.taken_draws(count, draws).len() ==> {
                    let e = #[trigger] self.taken_draws(count, draws)[k];
                    self.free_for_deposit(e.0) && 50 <= e.1 <= 200
                },
        decreases draws.len(),
    {
        if draws.len() > 0 {
            let rest = draws.drop_last();
            assert forall|i: int| 0 <= i < rest.len() implies self.draw_in_range(#[trigger] rest[i]) by {
                assert(rest[i] == draws[i]);
            }
            self.lemma_taken_facts(count, rest);
            assert(self.draw_in_range(draws[draws.len() - 1]));
        }
    }

    /// `other` has the same size and base as `self`.
    pub open spec fn same_frame(&self, other: &WorldMap) -> bool {
        &&& other.width == self.width
        &&& other.height == self.height
        &&& other.base_position == self.base_position
    }

    /// `new` is `self` with the cell at `p` replaced by `c`.
    pub open spec fn updated_to(&self, new: &WorldMap, p: Position, c: Cell) -> bool {
        &&& self.same_frame(new)
        &&& new.wf()
        &&& forall|x: int, y: int|
            #![trigger new.cell(x, y)]
            self.inside_xy(x, y) ==> new.cell(x, y) == (if x == p.x && y == p.y {
                c
            } else {
                self.cell(x, y)
            })
    }

    /// The one-element list `[(x, y)]` when that point is a walkable cell, else nothing.
    pub open spec fn step_to(&self, x: int, y: int) -> Seq<Position> {
        if self.inside_xy(x, y) && self.cell(x, y).walkable() {
            seq![Position { x: x as usize, y: y as usize }]
        } else {
            Seq::empty()
        }
    }

    /// The walkable cells next to `p`, in the order up, down, left, right. A step down
    /// or right from the largest coordinate wraps round to 0.
    pub open spec fn neighbors(&self, p: Position) -> Seq<Position> {
        self.step_to(p.x as int, p.y - 1) + self.step_to(p.x as int, wrapping_next(p.y))
            + self.step_to(p.x - 1, p.y as int) + self.step_to(wrapping_next(p.x), p.y as int)
    }

    /// Each position of `path` is a neighbor of the one before it, the first a neighbor
    /// of `start`.
    pub open spec fn is_walk(&self, start: Position, path: Seq<Position>) -> bool {
        forall|i: int|
            0 <= i < path.len() ==> self.neighbors(
                if i == 0 {
                    start
                } else {
                    path[i - 1]
                },
            ).contains(#[trigger] path[i])
    }

    /// `path` walks from `start` to `goal`; the empty path when they coincide.
    pub open spec fn is_path(&self, start: Position, path: Seq<Position>, goal: Position) -> bool {
        &&& self.is_walk(start, path)
        &&& path.len() == 0 ==> start == goal
        &&& path.len() > 0 ==> path.last() == goal
    }

    /// Some path leads from `start` to `goal`.
    pub open spec fn reachable(&self, start: Position, goal: Position) -> bool {
        exists|path: Seq<Position>| self.is_path(start, path, goal)
    }

    /// `path` leads from `start` to `goal` and no path between them is shorter.
    pub open spec fn is_shortest_path(
        &self,
        start: Position,
        path: Seq<Position>,
        goal: Position,
    ) -> bool {
        &&& self.is_path(start, path, goal)
        &&& forall|other: Seq<Position>| #[trigger]
            self.is_path(start, other, goal) ==> path.len() <= other.len()
    }

    /// Builds a `width` by `height` map with the base at its centre.
    ///
    /// `obstacles[y][x]` says where the terrain generator put obstacles; the 5x5 square
    /// around the base is cleared, then 15 energy and 10 crystal deposits of 50 to 200 units
    /// each are scattered at random over empty ground.
    pub fn new(width: usize, height: usize, obstacles: &Vec<Vec<bool>>) -> (map: WorldMap)
        requires
            0 < width <= isize::MAX,
            0 < height <= isize::MAX,
            obstacles@.len() == height,
            forall|y: int| 0 <= y < height ==> (#[trigger] obstacles@[y])@.len() == width,
        ensures
            map.wf(),
            map.width == width,
            map.height == height,
            map.base_position == (Position { x: width / 2, y: height / 2 }),
            exists|cleared: WorldMap, stocked: WorldMap|
                {
                    &&& cleared.wf()
                    &&& forall|x: int, y: int|
                        #![trigger cleared.cell(x, y)]
                        cleared.inside_xy(x, y) ==> cleared.cell(x, y) == map.with_base(
                            x,
                            y,
                            if obstacles@[y]@[x] {
                                Cell { cell_type: CellType::Obstacle }
                            } else {
                                Cell { cell_type: CellType::Empty }
                            },
                        )
                    &&& #[trigger] cleared.after_random_draws(&stocked, ResourceType::Energy, 15)
                    &&& stocked.after_random_draws(&map, ResourceType::Crystal, 10)
                },
            map.deposits_nonempty(),
            map.at(map.base_position).cell_type is Base,
            forall|x: int, y: int|
                #![trigger map.cell(x, y)]
                map.inside_xy(x, y) && map.near_base(x, y) ==> map.cell(x, y).walkable(),
            exists|placed: Seq<Position>|
                placed.len() <= 15 && #[trigger] map.deposits_only_at(ResourceType::Energy, placed),
            exists|placed: Seq<Position>|
                placed.len() <= 10 && #[trigger] map.deposits_only_at(ResourceType::Crystal, placed),
            forall|x: int, y: int|
                #![trigger map.cell(x, y)]
                map.inside_xy(x, y) ==> map.same_or_any_deposit(
                    x,
                    y,
                    map.with_base(
                        x,
                        y,
                        if obstacles@[y]@[x] {
                            Cell { cell_type: CellType::Obstacle }
                        } else {
                            Cell { cell_type: CellType::Empty }
                        },
                    ),
                ),
    {
        let mut cells: Vec<Vec<Cell>> = Vec::new();
        let mut r: usize = 0;
        while r < height
            invariant
                r <= height,
                cells@.len() == r,
                forall|y: int| 0 <= y < r ==> (#[trigger] cells@[y])@.len() == width,
                forall|x: int, y: int|
                    0 <= y < r && 0 <= x < width ==> (#[trigger] cells@[y]@[x]).cell_type is Empty,
            decreases height - r,
        {
            let mut row: Vec<Cell> = Vec::new();
            let mut c: usize = 0;
            while c < width
                invariant
                    c <= width,
                    row@.len() == c,
                    forall|x: int| 0 <= x < c ==> (#[trigger] row@[x]).cell_type is Empty,
                decreases width - c,
            {
                row.push(Cell::empty());
                c = c + 1;
            }
            cells.push(row);
            r = r + 1;
        }
        let base_position = Position::new(width / 2, height / 2);
        let mut map = WorldMap { width, height, cells, base_position };
        map.generate_obstacles(obstacles);
        let ghost with_obstacles = map;
        map.place_base();
        let ghost with_base = map;
        map.place_resources(15, 10);
        proof {
            assert forall|x: int, y: int|
                #![trigger with_base.cell(x, y)]
                with_base.inside_xy(x, y) implies with_base.cell(x, y) == map.with_base(
                    x,
                    y,
                    if obstacles@[y]@[x] {
                        Cell { cell_type: CellType::Obstacle }
                    } else {
                        Cell { cell_type: CellType::Empty }
                    },
                ) by {
                assert(with_obstacles.cell(x, y) == (if obstacles@[y]@[x] {
                    Cell { cell_type: CellType::Obstacle }
                } else {
                    Cell { cell_type: CellType::Empty }
                }));
            }
            assert forall|x: int, y: int|
                #![trigger map.cell(x, y)]
                map.inside_xy(x, y) implies map.same_or_any_deposit(
                    x,
                    y,
                    map.with_base(
                        x,
                        y,
                        if obstacles@[y]@[x] {
                            Cell { cell_type: CellType::Obstacle }
                        } else {
                            Cell { cell_type: CellType::Empty }
                        },
                    ),
                ) by {
                assert(with_obstacles.cell(x, y) == (if obstacles@[y]@[x] {
                    Cell { cell_type: CellType::Obstacle }
                } else {
                    Cell { cell_type: CellType::Empty }
                }));
                assert(with_base.cell(x, y) == with_base.with_base(x, y, with_obstacles.cell(x, y)));
            }
            assert forall|x: int, y: int|
                #![trigger map.cell(x, y)]
                map.inside_xy(x, y) implies match map.cell(x, y).cell_type {
                    CellType::Resource(r) => r.quantity > 0,
                    _ => true,
                } by {
                assert(map.same_or_any_deposit(x, y, with_base.cell(x, y)));
                assert(with_base.cell(x, y) == with_base.with_base(x, y, with_obstacles.cell(x, y)));
            }
            let b = map.base_position;
            assert(map.same_or_any_deposit(b.x as int, b.y as int, with_base.cell(b.x as int, b.y as int)));
            assert(with_base.cell(b.x as int, b.y as int) == with_base.with_base(b.x as int, b.y as int, with_obstacles.cell(b.x as int, b.y as int)));
            assert forall|x: int, y: int|
                #![trigger map.cell(x, y)]
                map.inside_xy(x, y) && map.near_base(x, y) implies map.cell(x, y).walkable() by {
                assert(map.same_or_any_deposit(x, y, with_base.cell(x, y)));
                assert(with_base.cell(x, y) == with_base.with_base(x, y, with_obstacles.cell(x, y)));
            }
            let e = choose|placed: Seq<Position>|
                placed.len() <= 15 && #[trigger] map.new_deposits_only_at(&with_base, ResourceType::Energy, placed);
            let c = choose|placed: Seq<Position>|
                placed.len() <= 10 && #[trigger] map.new_deposits_only_at(&with_base, ResourceType::Crystal, placed);
            assert forall|x: int, y: int|
                #![trigger map.cell(x, y)]
                map.inside_xy(x, y) implies !with_base.deposit_of(x, y, ResourceType::Energy)
                    && !with_base.deposit_of(x, y, ResourceType::Crystal) by {
                assert(with_base.cell(x, y) == with_base.with_base(x, y, with_obstacles.cell(x, y)));
                assert(with_obstacles.cell(x, y) == (if obstacles@[y]@[x] {
                    Cell { cell_type: CellType::Obstacle }
                } else {
                    Cell { cell_type: CellType::Empty }
                }));
            }
            assert(map.deposits_only_at(ResourceType::Energy, e));
            assert(map.deposits_only_at(ResourceType::Crystal, c));
        }
        map
    }

    /// Turns every cell marked in `obstacles` into an obstacle; the grid starts empty.
    fn generate_obstacles(&mut self, obstacles: &Vec<Vec<bool>>)
        requires
            old(self).wf(),
            forall|x: int, y: int|
                #![trigger old(self).cell(x, y)]
                old(self).inside_xy(x, y) ==> old(self).cell(x, y).cell_type is Empty,
            obstacles@.len() == old(self).height,
            forall|y: int| 0 <= y < old(self).height ==> (#[trigger] obstacles@[y])@.len() == old(self).width,
        ensures
            final(self).wf(),
            old(self).same_frame(&*final(self)),
            forall|x: int, y: int|
                #![trigger final(self).cell(x, y)]
                final(self).inside_xy(x, y) ==> final(self).cell(x, y) == (if obstacles@[y]@[x] {
                    Cell { cell_type: CellType::Obstacle }
                } else {
                    Cell { cell_type: CellType::Empty }
                }),
    {
        let ghost start = *self;
        let mut y: usize = 0;
        while y < self.height
            invariant
                self.wf(),
                start.same_frame(&*self),
                y <= self.height,
                obstacles@.len() == self.height,
                forall|yy: int| 0 <= yy < self.height ==> (#[trigger] obstacles@[yy])@.len() == self.width,
                forall|xx: int, yy: int|
                    #![trigger self.cell(xx, yy)]
                    self.inside_xy(xx, yy) ==> self.cell(xx, yy) == (if yy < y && obstacles@[yy]@[xx] {
                        Cell { cell_type: CellType::Obstacle }
                    } else {
                        Cell { cell_type: CellType::Empty }
                    }),
            decreases self.height - y,
        {
            let mut x: usize = 0;
            while x < self.width
                invariant
                    self.wf(),
                    start.same_frame(&*self),
                    y < self.height,
                    x <= self.width,
                    obstacles@.len() == self.height,
                    forall|yy: int| 0 <= yy < self.height ==> (#[trigger] obstacles@[yy])@.len() == self.width,
                    forall|xx: int, yy: int|
                        #![trigger self.cell(xx, yy)]
                        self.inside_xy(xx, yy) ==> self.cell(xx, yy) == (if (yy < y || (yy == y && xx < x))
                            && obstacles@[yy]@[xx] {
                            Cell { cell_type: CellType::Obstacle }
                        } else {
                            Cell { cell_type: CellType::Empty }
                        }),
                decreases self.width - x,
            {
                if obstacles[y][x] {
                    let ghost before = *self;
                    self.cells[y][x] = Cell::obstacle();
                    proof {
                        assert forall|yy: int| 0 <= yy < self.height implies (#[trigger] self.cells@[yy])@.len()
                            == self.width by {
                            if yy != y {
                                assert(self.cells@[yy] == before.cells@[yy]);
                            }
                        }
                        assert forall|xx: int, yy: int|
                            #![trigger self.cell(xx, yy)]
                            self.inside_xy(xx, yy) implies self.cell(xx, yy) == (if (yy < y || (yy == y && xx
                                < x + 1)) && obstacles@[yy]@[xx] {
                                Cell { cell_type: CellType::Obstacle }
                            } else {
                                Cell { cell_type: CellType::Empty }
                            }) by {
                            if yy != y {
                                assert(self.cells@[yy] == before.cells@[yy]);
                                assert(before.cell(xx, yy) == self.cell(xx, yy));
                            } else if xx != x {
                                assert(before.cell(xx, yy) == self.cell(xx, yy));
                            }
                        }
                    }
                }
                x = x + 1;
            }
            y = y + 1;
        }
    }

    /// Puts the base at `base_position` and clears the 5x5 square around it.
    pub fn place_base(&mut self)
        requires
            old(self).wf(),
            old(self).inside(old(self).base_position),
        ensures
            final(self).wf(),
            old(self).same_frame(&*final(self)),
            forall|x: int, y: int|
                #![trigger final(self).cell(x, y)]
                final(self).inside_xy(x, y) ==> final(self).cell(x, y) == old(self).with_base(
                    x,
                    y,
                    old(self).cell(x, y),
                ),
    {
        let ghost start = *self;
        let pos = self.base_position;
        self.set_cell(pos, Cell::base());
        let mut dy: usize = 0;
        while dy < 5
            invariant
                self.wf(),
                start.wf(),
                start.same_frame(&*self),
                self.inside(pos),
                pos == self.base_position,
                dy <= 5,
                forall|x: int, y: int|
                    #![trigger self.cell(x, y)]
                    self.inside_xy(x, y) ==> self.cell(x, y) == (if start.is_base_xy(x, y) {
                        Cell { cell_type: CellType::Base }
                    } else if start.near_base(x, y) && y < pos.y - 2 + dy {
                        Cell { cell_type: CellType::Empty }
                    } else {
                        start.cell(x, y)
                    }),
            decreases 5 - dy,
        {
            let mut dx: usize = 0;
            while dx < 5
                invariant
                    self.wf(),
                    start.wf(),
                    start.same_frame(&*self),
                    self.inside(pos),
                    pos == self.base_position,
                    dy < 5,
                    dx <= 5,
                    forall|x: int, y: int|
                        #![trigger self.cell(x, y)]
                        self.inside_xy(x, y) ==> self.cell(x, y) == (if start.is_base_xy(x, y) {
                            Cell { cell_type: CellType::Base }
                        } else if start.near_base(x, y) && (y < pos.y - 2 + dy || (y == pos.y - 2 + dy
                            && x < pos.x - 2 + dx)) {
                            Cell { cell_type: CellType::Empty }
                        } else {
                            start.cell(x, y)
                        }),
                decreases 5 - dx,
            {
                if pos.x + dx >= 2 && pos.y + dy >= 2 {
                    let clear_pos = Position::new(pos.x + dx - 2, pos.y + dy - 2);
                    if self.is_inside(clear_pos) && clear_pos != pos {
                        self.set_cell(clear_pos, Cell::empty());
                    }
                }
                dx = dx + 1;
            }
            dy = dy + 1;
        }
    }

    /// Replaces the cell at `pos`, which lies on the grid, by `cell`.
    fn set_cell(&mut self, pos: Position, cell: Cell)
        requires
            old(self).wf(),
            old(self).inside(pos),
        ensures
            old(self).updated_to(&*final(self), pos, cell),
    {
        let ghost before = *self;
        self.cells[pos.y][pos.x] = cell;
        proof {
            assert forall|yy: int| 0 <= yy < self.height implies (#[trigger] self.cells@[yy])@.len()
                == self.width by {
                if yy != pos.y {
                    assert(self.cells@[yy] == before.cells@[yy]);
                }
            }
            assert forall|x: int, y: int|
                #![trigger self.cell(x, y)]
                before.inside_xy(x, y) implies self.cell(x, y) == (if x == pos.x && y == pos.y {
                    cell
                } else {
                    before.cell(x, y)
                }) by {
                if y != pos.y {
                    assert(self.cells@[y] == before.cells@[y]);
                }
            }
        }
    }

    /// Scatters `energy_count` energy deposits, then `crystal_count` crystal deposits.
    pub fn place_resources(&mut self, energy_count: usize, crystal_count: usize)
        requires
            old(self).wf(),
            old(self).width > 0,
            old(self).height > 0,
            energy_count <= usize::MAX / 100,
            crystal_count <= usize::MAX / 100,
        ensures
            exists|stocked: WorldMap|
                #[trigger] old(self).after_random_draws(&stocked, ResourceType::Energy, energy_count as nat)
                    && stocked.after_random_draws(&*final(self), ResourceType::Crystal, crystal_count as nat),
            final(self).wf(),
            old(self).same_frame(&*final(self)),
            forall|x: int, y: int|
                #![trigger final(self).cell(x, y)]
                final(self).inside_xy(x, y) ==> final(self).same_or_any_deposit(x, y, old(self).cell(x, y)),
            exists|placed: Seq<Position>|
                placed.len() <= energy_count && #[trigger] final(self).new_deposits_only_at(
                    &*old(self),
                    ResourceType::Energy,
                    placed,
                ),
            exists|placed: Seq<Position>|
                placed.len() <= crystal_count && #[trigger] final(self).new_deposits_only_at(
                    &*old(self),
                    ResourceType::Crystal,
                    placed,
                ),
    {
        let ghost start = *self;
        self.place_resource_type(ResourceType::Energy, energy_count);
        let ghost middle = *self;
        self.place_resource_type(ResourceType::Crystal, crystal_count);
        proof {
            let a = choose|a: Seq<Position>| a.len() <= energy_count && #[trigger] middle.changed_only_at(&start, a);
            let b = choose|b: Seq<Position>| b.len() <= crystal_count && #[trigger] self.changed_only_at(&middle, b);
            assert forall|x: int, y: int|
                #![trigger self.cell(x, y)]
                self.inside_xy(x, y) && self.cell(x, y) != start.cell(x, y) && self.deposit_of(
                    x,
                    y,
                    ResourceType::Energy,
                ) implies a.contains(Position { x: x as usize, y: y as usize }) by {
                assert(self.same_or_deposit(x, y, middle.cell(x, y), ResourceType::Crystal));
            }
            assert(self.new_deposits_only_at(&start, ResourceType::Energy, a));
            assert forall|x: int, y: int|
                #![trigger self.cell(x, y)]
                self.inside_xy(x, y) && self.cell(x, y) != start.cell(x, y) && self.deposit_of(
                    x,
                    y,
                    ResourceType::Crystal,
                ) implies b.contains(Position { x: x as usize, y: y as usize }) by {
                assert(self.same_or_deposit(x, y, middle.cell(x, y), ResourceType::Crystal));
                assert(middle.same_or_deposit(x, y, start.cell(x, y), ResourceType::Energy));
            }
            assert(self.new_deposits_only_at(&start, ResourceType::Crystal, b));
            assert forall|x: int, y: int|
                #![trigger self.cell(x, y)]
                self.inside_xy(x, y) implies self.same_or_any_deposit(x, y, start.cell(x, y)) by {
                assert(middle.same_or_deposit(x, y, start.cell(x, y), ResourceType::Energy));
                assert(self.same_or_deposit(x, y, middle.cell(x, y), ResourceType::Crystal));
            }
        }
    }

    /// Tries up to `100 * count` random cells and puts a deposit of `resource_type` of 50 to
    /// 200 units on each one that can take it, until `count` deposits are placed: it draws
    /// `100 * count` cells, each with a quantity, and hands them to `place_drawn`.
    pub fn place_resource_type(&mut self, resource_type: ResourceType, count: usize)
        requires
            old(self).wf(),
            old(self).width > 0,
            old(self).height > 0,
            count <= usize::MAX / 100,
        ensures
            old(self).after_random_draws(&*final(self), resource_type, count as nat),
            final(self).wf(),
            old(self).same_frame(&*final(self)),
            forall|x: int, y: int|
                #![trigger final(self).cell(x, y)]
                final(self).inside_xy(x, y) ==> final(self).same_or_deposit(
                    x,
                    y,
                    old(self).cell(x, y),
                    resource_type,
                ),
            exists|placed: Seq<Position>|
                placed.len() <= count && #[trigger] final(self).changed_only_at(&*old(self), placed),
    {
        let max_attempts = count * 100;
        let mut draws: Vec<(usize, usize, u32)> = Vec::new();
        while draws.len() < max_attempts
            invariant
                draws@.len() <= max_attempts,
                self.wf(),
                self.width > 0,
                self.height > 0,
                forall|i: int| 0 <= i < draws@.len() ==> self.draw_in_range(#[trigger] draws@[i]),
            decreases max_attempts - draws@.len(),
        {
            let x = random_in_range(0, self.width);
            let y = random_in_range(0, self.height);
            let quantity = random_in_range(50, 201) as u32;
            draws.push((x, y, quantity));
        }
        let ghost start = *self;
        self.place_drawn(resource_type, count, &draws);
        proof {
            let d = draws@;
            let taken = start.taken_draws(count as nat, d);
            start.lemma_taken_facts(count as nat, d);
            assert(start.after_draws(&*self, resource_type, count as nat, d));
            let spots = Seq::new(taken.len(), |k: int| taken[k].0);
            assert forall|x: int, y: int|
                #![trigger self.cell(x, y)]
                self.inside_xy(x, y) implies self.same_or_deposit(x, y, start.cell(x, y), resource_type)
                    && (self.cell(x, y) != start.cell(x, y) ==> spots.contains(
                    Position { x: x as usize, y: y as usize },
                )) by {
                let p = Position { x: x as usize, y: y as usize };
                lemma_quantity_at(taken, p);
                if let Some(q) = quantity_at(taken, p) {
                    let k = choose|k: int| 0 <= k < taken.len() && #[trigger] taken[k] == (p, q);
                    assert(start.free_for_deposit(taken[k].0));
                    assert(spots[k] == p);
                }
            }
            assert(self.changed_only_at(&start, spots));
        }
    }

    /// Tries the draws `(x, y, quantity)` in order and puts a deposit of `resource_type` of
    /// the drawn quantity at each drawn position that can take one (see
    /// `can_place_resource`), until `count` deposits are placed.
    pub fn place_drawn(&mut self, resource_type: ResourceType, count: usize, draws: &Vec<(usize, usize, u32)>)
        requires
            old(self).wf(),
        ensures
            old(self).after_draws(&*final(self), resource_type, count as nat, draws@),
    {
        let ghost start = *self;
        let mut placed: usize = 0;
        let mut i: usize = 0;
        proof {
            assert(draws@.subrange(0, 0) =~= Seq::<(usize, usize, u32)>::empty());
        }
        while i < draws.len() && placed < count
            invariant
                i <= draws@.len(),
                start.wf(),
                placed == start.taken_draws(count as nat, draws@.subrange(0, i as int)).len(),
                start.after_draws(&*self, resource_type, count as nat, draws@.subrange(0, i as int)),
            decreases draws@.len() - i,
        {
            let (x, y, quantity) = draws[i];
            let pos = Position::new(x, y);
            let ghost prefix = draws@.subrange(0, i as int);
            let ghost prior = start.taken_draws(count as nat, prefix);
            let ghost before = *self;
            let done = self.place_at(resource_type, pos, quantity);
            if done {
                placed = placed + 1;
            }
            i = i + 1;
            proof {
                let next = draws@.subrange(0, i as int);
                assert(next.drop_last() =~= prefix);
                assert(next.last() == (x, y, quantity));
                let taken = start.taken_draws(count as nat, next);
                if start.inside(pos) {
                    assert(before.cell(x as int, y as int) == before.at(pos));
                }
                assert(done == (start.free_for_deposit(pos) && quantity_at(prior, pos) is None));
                if done {
                    assert(taken == prior.push((pos, quantity)));
                    assert(taken.drop_last() =~= prior);
                } else {
                    assert(taken == prior);
                }
                assert forall|xx: int, yy: int|
                    #![trigger self.cell(xx, yy)]
                    start.inside_xy(xx, yy) implies self.cell(xx, yy) == match quantity_at(
                        taken,
                        Position { x: xx as usize, y: yy as usize },
                    ) {
                        Some(q) => Cell {
                            cell_type: CellType::Resource(Resource { resource_type, quantity: q }),
                        },
                        None => start.cell(xx, yy),
                    } by {
                    if xx != x || yy != y {
                        assert(self.cell(xx, yy) == before.cell(xx, yy));
                    }
                }
            }
        }
        proof {
            if i < draws.len() {
                start.lemma_taken_stops(count as nat, draws@, i as int);
            } else {
                assert(draws@.subrange(0, i as int) =~= draws@);
            }
        }
    }

    /// Puts a deposit of `quantity` units of `resource_type` at `pos` when a deposit may go
    /// there (see `can_place_resource`), and says whether it did: the step a random draw of
    /// a position and a quantity leads to.
    pub fn place_at(&mut self, resource_type: ResourceType, pos: Position, quantity: u32) -> (placed: bool)
        requires
            old(self).wf(),
        ensures
            placed == (old(self).inside(pos) && pos != old(self).base_position && old(self).at(pos).cell_type is Empty),
            placed ==> old(self).updated_to(
                &*final(self),
                pos,
                Cell { cell_type: CellType::Resource(Resource { resource_type, quantity }) },
            ),
            !placed ==> *final(self) == *old(self),
    {
        if self.can_place_resource(pos) {
            self.set_cell(pos, Cell::resource(Resource::new(resource_type, quantity)));
            true
        } else {
            false
        }
    }

    /// True when a deposit may go at `pos`: on the grid, not the base, and empty.
    pub fn can_place_resource(&self, pos: Position) -> (b: bool)
        requires
            self.wf(),
        ensures
            b == (self.inside(pos) && pos != self.base_position && self.at(pos).cell_type is Empty),
    {
        if !self.is_inside(pos) {
            return false;
        }
        if pos == self.base_position {
            return false;
        }
        self.cells[pos.y][pos.x].is_empty()
    }

    /// True when `pos` lies on the grid.
    pub fn is_inside(&self, pos: Position) -> (b: bool)
        ensures
            b == self.inside(pos),
    {
        pos.x < self.width && pos.y < self.height
    }

    /// True when the signed point `(x, y)` lies on the grid.
    pub fn is_inside_isize(&self, x: isize, y: isize) -> (b: bool)
        ensures
            b == self.inside_xy(x as int, y as int),
    {
        x >= 0 && y >= 0 && (x as usize) < self.width && (y as usize) < self.height
    }

    /// The cell at `pos`, or `None` off the grid.
    pub fn get_cell(&self, pos: Position) -> (r: Option<&Cell>)
        requires
            self.wf(),
        ensures
            r == (if self.inside(pos) {
                Some(&self.at(pos))
            } else {
                None
            }),
    {
        if self.is_inside(pos) {
            Some(&self.cells[pos.y][pos.x])
        } else {
            None
        }
    }

    /// A mutable reference to the cell at `pos`, or `None` off the grid.
    pub fn get_cell_mut(&mut self, pos: Position) -> (r: Option<&mut Cell>)
        requires
            old(self).wf(),
        ensures
            r is Some <==> old(self).inside(pos),
            r matches Some(c) ==> *c == old(self).at(pos) && old(self).updated_to(
                &*final(self),
                pos,
                *final(c),
            ),
            r is None ==> *final(self) == *old(self),
    {
        if self.is_inside(pos) {
            Some(&mut self.cells[pos.y][pos.x])
        } else {
            None
        }
    }

    /// True when `pos` is on the grid and not an obstacle.
    pub fn is_walkable(&self, pos: Position) -> (b: bool)
        requires
            self.wf(),
        ensures
            b == self.walkable(pos),
    {
        match self.get_cell(pos) {
            Some(cell) => cell.is_walkable(),
            None => false,
        }
    }

    /// True when `pos` is on the grid and holds a deposit.
    pub fn is_resource(&self, pos: Position) -> (b: bool)
        requires
            self.wf(),
        ensures
            b == self.holds_resource(pos),
    {
        match self.get_cell(pos) {
            Some(cell) => cell.is_resource(),
            None => false,
        }
    }

    /// The walkable cells next to `pos`, in the order up, down, left, right.
    pub fn get_neighbors(&self, pos: Position) -> (r: Vec<Position>)
        requires
            self.wf(),
        ensures
            r@ == self.neighbors(pos),
    {
        let mut neighbors: Vec<Position> = Vec::new();
        if pos.y > 0 {
            let next = Position::new(pos.x, pos.y - 1);
            if self.is_walkable(next) {
                neighbors.push(next);
            }
        }
        let down = if pos.y < usize::MAX {
            pos.y + 1
        } else {
            0
        };
        let next = Position::new(pos.x, down);
        if self.is_walkable(next) {
            neighbors.push(next);
        }
        if pos.x > 0 {
            let next = Position::new(pos.x - 1, pos.y);
            if self.is_walkable(next) {
                neighbors.push(next);
            }
        }
        let right = if pos.x < usize::MAX {
            pos.x + 1
        } else {
            0
        };
        let next = Position::new(right, pos.y);
        if self.is_walkable(next) {
            neighbors.push(next);
        }
        assert(neighbors@ =~= self.neighbors(pos));
        neighbors
    }
}

} // verus!
