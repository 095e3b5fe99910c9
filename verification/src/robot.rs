use vstd::prelude::*;
use crate::cell::CellType;
use crate::map::WorldMap;
use crate::position::{contains_position, insert_position, Position};
use crate::random::random_in_range;
use crate::resource::ResourceType;

verus! {

/// The two kinds of robot.
#[derive(Debug, Clone, Copy, PartialEq, Eq, Structural)]
pub enum RobotType {
    Scout,
    Collector,
}

/// What a scout is doing.
#[derive(Debug, Clone, Copy, PartialEq, Eq, Structural)]
pub enum RobotState {
    Exploring,
    ReturningToBase,
}

/// What a scout reports to the base.
#[derive(Debug, Clone, Copy, PartialEq, Eq, Structural)]
pub enum RobotMessage {
    ResourceDiscovered { position: Position, resource_type: ResourceType },
    ObstacleDiscovered { position: Position },
}

/// A scout: it wanders the map, records obstacles and deposits around it, and brings its
/// reports back to the base.
///
/// `known_obstacles` and `known_resources` are sets: no position occurs twice in them.
pub struct Robot {
    pub id: usize,
    pub robot_type: RobotType,
    pub state: RobotState,
    pub position: Position,
    pub known_obstacles: Vec<Position>,
    pub known_resources: Vec<Position>,
    pub pending_messages: Vec<RobotMessage>,
    pub knowledge_version: usize,
}

/// What a scout knows and has yet to report, as mathematical values.
pub struct Scan {
    pub obstacles: Seq<Position>,
    pub resources: Seq<Position>,
    pub messages: Seq<RobotMessage>,
}

/// `s` with `p` added unless it is already there.
pub open spec fn set_insert(s: Seq<Position>, p: Position) -> Seq<Position> {
    if s.contains(p) {
        s
    } else {
        s.push(p)
    }
}

/// Looking at cell `c`: an obstacle not yet known is recorded and reported; otherwise a
/// deposit not yet known is recorded and reported.
pub open spec fn scan_cell(map: &WorldMap, s: Scan, c: Position) -> Scan {
    if !map.inside(c) {
        s
    } else if !map.at(c).walkable() && !s.obstacles.contains(c) {
        Scan {
            obstacles: s.obstacles.push(c),
            messages: s.messages.push(RobotMessage::ObstacleDiscovered { position: c }),
            ..s
        }
    } else {
        match map.at(c).cell_type {
            CellType::Resource(r) => if s.resources.contains(c) {
                s
            } else {
                Scan {
                    resources: s.resources.push(c),
                    messages: s.messages.push(
                        RobotMessage::ResourceDiscovered { position: c, resource_type: r.resource_type },
                    ),
                    ..s
                }
            },
            _ => s,
        }
    }
}

/// Looking at the cell at offset `(dx, dy)` from `p`, when its coordinates are not negative.
pub open spec fn scan_offset(map: &WorldMap, s: Scan, p: Position, dx: int, dy: int) -> Scan {
    if p.x + dx >= 0 && p.y + dy >= 0 {
        scan_cell(map, s, Position { x: (p.x + dx) as usize, y: (p.y + dy) as usize })
    } else {
        s
    }
}

/// Looking at the eight cells around `p`, row by row from the one above, each row from
/// left to right.
pub open spec fn scan_surroundings(map: &WorldMap, s: Scan, p: Position) -> Scan {
    let s = scan_offset(map, s, p, -1, -1);
    let s = scan_offset(map, s, p, 0, -1);
    let s = scan_offset(map, s, p, 1, -1);
    let s = scan_offset(map, s, p, -1, 0);
    let s = scan_offset(map, s, p, 1, 0);
    let s = scan_offset(map, s, p, -1, 1);
    let s = scan_offset(map, s, p, 0, 1);
    scan_offset(map, s, p, 1, 1)
}

/// `[(x, y)]` when that cell is on the map, walkable and not a known obstacle; else nothing.
pub open spec fn free_cell(map: &WorldMap, known: Seq<Position>, x: int, y: int) -> Seq<Position> {
    let c = Position { x: x as usize, y: y as usize };
    if map.inside_xy(x, y) && !known.contains(c) && map.at(c).walkable() {
        seq![c]
    } else {
        Seq::empty()
    }
}

/// The cells a scout at `p` may step to at random: up, down, left, right, in that order.
pub open spec fn random_moves(map: &WorldMap, known: Seq<Position>, p: Position) -> Seq<Position> {
    free_cell(map, known, p.x as int, p.y - 1) + free_cell(map, known, p.x as int, p.y + 1)
        + free_cell(map, known, p.x - 1, p.y as int) + free_cell(map, known, p.x + 1, p.y as int)
}

/// A random step from `p` ends at `to`: one of the free cells around, or `p` itself when
/// there is none.
pub open spec fn random_step_ok(map: &WorldMap, known: Seq<Position>, p: Position, to: Position) -> bool {
    let moves = random_moves(map, known, p);
    if moves.len() == 0 {
        to == p
    } else {
        moves.contains(to)
    }
}

/// -1, 0 or 1 as `a` is below, at or above `b`.
pub open spec fn direction(a: int, b: int) -> int {
    if b > a {
        1
    } else if b < a {
        -1
    } else {
        0
    }
}

/// The step towards `target` from `p`: along x when that cell is walkable and not a known
/// obstacle, else along y on the same terms, else `p` (blocked).
pub open spec fn toward_step(map: &WorldMap, known: Seq<Position>, p: Position, target: Position) -> Position {
    let dx = direction(p.x as int, target.x as int);
    let dy = direction(p.y as int, target.y as int);
    let cx = Position { x: (p.x + dx) as usize, y: p.y };
    let cy = Position { x: p.x, y: (p.y + dy) as usize };
    if dx != 0 && map.walkable(cx) && !known.contains(cx) {
        cx
    } else if dy != 0 && map.walkable(cy) && !known.contains(cy) {
        cy
    } else {
        p
    }
}

/// A move towards `target` from `p` ends at `to`: the step towards it, or a random step
/// when blocked.
pub open spec fn toward_move_ok(
    map: &WorldMap,
    known: Seq<Position>,
    p: Position,
    target: Position,
    to: Position,
) -> bool {
    let step = toward_step(map, known, p, target);
    if step == p {
        random_step_ok(map, known, p, to)
    } else {
        to == step
    }
}

/// What a scout learns from one history entry.
pub open spec fn learn(s: Scan, message: RobotMessage) -> Scan {
    match message {
        RobotMessage::ObstacleDiscovered { position } => Scan {
            obstacles: set_insert(s.obstacles, position),
            ..s
        },
        RobotMessage::ResourceDiscovered { position, .. } => Scan {
            resources: set_insert(s.resources, position),
            ..s
        },
    }
}

/// What a scout learns from history entries taken in order.
pub open spec fn learn_all(s: Scan, messages: Seq<RobotMessage>) -> Scan
    decreases messages.len(),
{
    if messages.len() == 0 {
        s
    } else {
        learn(learn_all(s, messages.drop_last()), messages.last())
    }
}

/// No element occurs twice in `s`.
pub open spec fn no_repeats(s: Seq<Position>) -> bool {
    forall|i: int, j: int| 0 <= i < j < s.len() ==> s[i] != s[j]
}

impl Robot {
    /// Known obstacles and known deposits hold no position twice.
    pub open spec fn wf(&self) -> bool {
        no_repeats(self.known_obstacles@) && no_repeats(self.known_resources@)
    }

    /// The scout's knowledge and unsent reports.
    pub open spec fn scan(&self) -> Scan {
        Scan {
            obstacles: self.known_obstacles@,
            resources: self.known_resources@,
            messages: self.pending_messages@,
        }
    }

    /// The position is far enough from the end of the integer range for its neighbors to
    /// be computed.
    pub open spec fn bounded(&self) -> bool {
        self.position.x < isize::MAX && self.position.y < isize::MAX
    }

    /// A scout numbered `id`, exploring from `start_pos`, knowing nothing.
    pub fn new_scout(id: usize, start_pos: Position) -> (r: Robot)
        ensures
            r.wf(),
            r.id == id,
            r.robot_type == RobotType::Scout,
            r.state == RobotState::Exploring,
            r.position == start_pos,
            r.known_obstacles@ == Seq::<Position>::empty(),
            r.known_resources@ == Seq::<Position>::empty(),
            r.pending_messages@ == Seq::<RobotMessage>::empty(),
            r.knowledge_version == 0,
    {
        Robot {
            id,
            robot_type: RobotType::Scout,
            state: RobotState::Exploring,
            position: start_pos,
            known_obstacles: Vec::new(),
            known_resources: Vec::new(),
            pending_messages: Vec::new(),
            knowledge_version: 0,
        }
    }

    /// One turn of a scout: exploring, it records what lies around it and steps at random;
    /// returning, it steps towards the base. Standing on the base, it hands over its
    /// reports, goes back to exploring and asks to synchronise. Other robots do nothing.
    pub fn act(&mut self, map: &WorldMap, base_position: Position) -> (r: (Vec<RobotMessage>, bool))
        requires
            map.wf(),
            old(self).wf(),
            old(self).bounded(),
        ensures
            final(self).wf(),
            final(self).id == old(self).id,
            final(self).robot_type == old(self).robot_type,
            final(self).knowledge_version == old(self).knowledge_version,
            knows_more(old(self).scan(), final(self).scan()),
            old(self).robot_type != RobotType::Scout ==> {
                &&& final(self).state == old(self).state
                &&& final(self).position == old(self).position
                &&& final(self).scan() == old(self).scan()
                &&& r.0@ == Seq::<RobotMessage>::empty()
                &&& !r.1
            },
            old(self).robot_type == RobotType::Scout ==> {
                let exploring = old(self).state == RobotState::Exploring;
                let scan = if exploring {
                    scan_surroundings(map, old(self).scan(), old(self).position)
                } else {
                    old(self).scan()
                };
                let state = if exploring && scan.resources.len() > old(self).known_resources@.len() {
                    RobotState::ReturningToBase
                } else {
                    old(self).state
                };
                &&& exploring ==> random_step_ok(map, scan.obstacles, old(self).position, final(self).position)
                &&& !exploring ==> toward_move_ok(
                    map,
                    scan.obstacles,
                    old(self).position,
                    base_position,
                    final(self).position,
                )
                &&& final(self).known_obstacles@ == scan.obstacles
                &&& final(self).known_resources@ == scan.resources
                &&& r.1 == (final(self).position == base_position)
                &&& r.0@ + final(self).pending_messages@ == scan.messages
                &&& if final(self).position == base_position {
                    &&& r.0@ == scan.messages
                    &&& final(self).pending_messages@ == Seq::<RobotMessage>::empty()
                    &&& final(self).state == RobotState::Exploring
                    &&& r.1
                } else {
                    &&& r.0@ == Seq::<RobotMessage>::empty()
                    &&& final(self).pending_messages@ == scan.messages
                    &&& final(self).state == state
                    &&& !r.1
                }
            },
    {
        let mut messages_for_base: Vec<RobotMessage> = Vec::new();
        let mut wants_sync = false;
        if self.robot_type == RobotType::Scout {
            match self.state {
                RobotState::Exploring => {
                    self.discover_surroundings(map);
                    self.move_randomly(map);
                },
                RobotState::ReturningToBase => {
                    self.move_towards(base_position, map);
                },
            }
            if self.position == base_position {
                if self.pending_messages.len() > 0 {
                    std::mem::swap(&mut messages_for_base, &mut self.pending_messages);
                } else {
                    assert(self.pending_messages@ =~= messages_for_base@);
                }
                if self.state == RobotState::ReturningToBase {
                    self.state = RobotState::Exploring;
                }
                wants_sync = true;
            }
        }
        assert(knows_more(old(self).scan(), self.scan())) by {
            if old(self).robot_type == RobotType::Scout && old(self).state == RobotState::Exploring {
                let scan = scan_surroundings(map, old(self).scan(), old(self).position);
                lemma_scan_surroundings_grows(map, old(self).scan(), old(self).position);
                assert(self.known_obstacles@ == scan.obstacles);
                assert(self.known_resources@ == scan.resources);
            }
        }
        (messages_for_base, wants_sync)
    }

    /// Records what the history entries report: obstacles and deposits become known.
    pub fn apply_knowledge(&mut self, new_knowledge: &[RobotMessage], new_version: usize)
        requires
            old(self).wf(),
        ensures
            final(self).wf(),
            final(self).scan() == learn_all(old(self).scan(), new_knowledge@),
            final(self).knowledge_version == new_version,
            final(self).id == old(self).id,
            final(self).robot_type == old(self).robot_type,
            final(self).state == old(self).state,
            final(self).position == old(self).position,
    {
        let ghost start = self.scan();
        let mut i: usize = 0;
        while i < new_knowledge.len()
            invariant
                self.wf(),
                i <= new_knowledge@.len(),
                self.scan() == learn_all(start, new_knowledge@.take(i as int)),
                self.id == old(self).id,
                self.robot_type == old(self).robot_type,
                self.state == old(self).state,
                self.position == old(self).position,
            decreases new_knowledge@.len() - i,
        {
            proof {
                assert(new_knowledge@.take(i + 1).drop_last() =~= new_knowledge@.take(i as int));
            }
            match new_knowledge[i] {
                RobotMessage::ObstacleDiscovered { position } => {
                    insert_position(&mut self.known_obstacles, position);
                },
                RobotMessage::ResourceDiscovered { position, .. } => {
                    insert_position(&mut self.known_resources, position);
                },
            }
            i = i + 1;
        }
        assert(new_knowledge@.take(new_knowledge@.len() as int) =~= new_knowledge@);
        self.knowledge_version = new_version;
    }

    /// Looks at the cell `c`, recording and reporting it if it is a new obstacle or deposit.
    fn look_at(&mut self, map: &WorldMap, c: Position)
        requires
            map.wf(),
            old(self).wf(),
        ensures
            final(self).wf(),
            final(self).scan() == scan_cell(map, old(self).scan(), c),
            final(self).id == old(self).id,
            final(self).robot_type == old(self).robot_type,
            final(self).state == old(self).state,
            final(self).position == old(self).position,
            final(self).knowledge_version == old(self).knowledge_version,
    {
        if let Some(cell) = map.get_cell(c) {
            if !cell.is_walkable() && !contains_position(&self.known_obstacles, c) {
                self.known_obstacles.push(c);
                self.pending_messages.push(RobotMessage::ObstacleDiscovered { position: c });
            } else if cell.is_resource() && !contains_position(&self.known_resources, c) {
                if let CellType::Resource(res) = &cell.cell_type {
                    self.known_resources.push(c);
                    self.pending_messages.push(
                        RobotMessage::ResourceDiscovered { position: c, resource_type: res.resource_type },
                    );
                }
            }
        }
    }

    /// Looks at the cell at offset `(dx, dy)`, given as `dx + 1` and `dy + 1`, when its
    /// coordinates are not negative.
    fn look_at_offset(&mut self, map: &WorldMap, dx1: usize, dy1: usize)
        requires
            map.wf(),
            old(self).wf(),
            old(self).bounded(),
            dx1 <= 2,
            dy1 <= 2,
        ensures
            final(self).wf(),
            final(self).scan() == scan_offset(
                map,
                old(self).scan(),
                old(self).position,
                dx1 - 1,
                dy1 - 1,
            ),
            final(self).id == old(self).id,
            final(self).robot_type == old(self).robot_type,
            final(self).state == old(self).state,
            final(self).position == old(self).position,
            final(self).knowledge_version == old(self).knowledge_version,
    {
        if self.position.x + dx1 >= 1 && self.position.y + dy1 >= 1 {
            let c = Position::new(self.position.x + dx1 - 1, self.position.y + dy1 - 1);
            self.look_at(map, c);
        }
    }

    /// Looks at the eight cells around the scout; finding a new deposit sends it back to
    /// the base.
    pub fn discover_surroundings(&mut self, map: &WorldMap)
        requires
            map.wf(),
            old(self).wf(),
            old(self).bounded(),
        ensures
            final(self).wf(),
            final(self).scan() == scan_surroundings(map, old(self).scan(), old(self).position),
            final(self).state == (if final(self).known_resources@.len() > old(self).known_resources@.len() {
                RobotState::ReturningToBase
            } else {
                old(self).state
            }),
            final(self).id == old(self).id,
            final(self).robot_type == old(self).robot_type,
            final(self).position == old(self).position,
            final(self).knowledge_version == old(self).knowledge_version,
    {
        let found_before = self.known_resources.len();
        self.look_at_offset(map, 0, 0);
        self.look_at_offset(map, 1, 0);
        self.look_at_offset(map, 2, 0);
        self.look_at_offset(map, 0, 1);
        self.look_at_offset(map, 2, 1);
        self.look_at_offset(map, 0, 2);
        self.look_at_offset(map, 1, 2);
        self.look_at_offset(map, 2, 2);
        if self.known_resources.len() > found_before {
            self.state = RobotState::ReturningToBase;
        }
    }

    /// Steps to the x or y neighbor towards `target` when it is free, else moves at random.
    pub fn move_towards(&mut self, target: Position, map: &WorldMap)
        requires
            map.wf(),
            old(self).wf(),
            old(self).bounded(),
        ensures
            final(self).wf(),
            toward_move_ok(map, old(self).known_obstacles@, old(self).position, target, final(self).position),
            final(self).scan() == old(self).scan(),
            final(self).id == old(self).id,
            final(self).robot_type == old(self).robot_type,
            final(self).state == old(self).state,
            final(self).knowledge_version == old(self).knowledge_version,
    {
        let pos = self.position;
        let mut best_pos = pos;
        if target.x != pos.x {
            let nx = if target.x > pos.x {
                pos.x + 1
            } else {
                pos.x - 1
            };
            let candidate = Position::new(nx, pos.y);
            if map.is_walkable(candidate) && !contains_position(&self.known_obstacles, candidate) {
                best_pos = candidate;
            }
        }
        if best_pos == pos && target.y != pos.y {
            let ny = if target.y > pos.y {
                pos.y + 1
            } else {
                pos.y - 1
            };
            let candidate = Position::new(pos.x, ny);
            if map.is_walkable(candidate) && !contains_position(&self.known_obstacles, candidate) {
                best_pos = candidate;
            }
        }
        if best_pos == pos {
            self.move_randomly(map);
        } else {
            self.position = best_pos;
        }
    }

    /// Steps to a random free neighbor (up, down, left or right) that is not a known
    /// obstacle; stays put when there is none.
    pub fn move_randomly(&mut self, map: &WorldMap)
        requires
            map.wf(),
            old(self).wf(),
            old(self).bounded(),
        ensures
            final(self).wf(),
            random_step_ok(map, old(self).known_obstacles@, old(self).position, final(self).position),
            final(self).scan() == old(self).scan(),
            final(self).id == old(self).id,
            final(self).robot_type == old(self).robot_type,
            final(self).state == old(self).state,
            final(self).knowledge_version == old(self).knowledge_version,
    {
        let moves = self.free_moves(map);
        if moves.len() > 0 {
            let choice = random_in_range(0, moves.len());
            self.step_to_choice(map, choice);
        }
    }

    /// The free cells the scout may step to at random: up, down, left, right, each when it
    /// is on the map, walkable and not a known obstacle.
    pub fn free_moves(&self, map: &WorldMap) -> (moves: Vec<Position>)
        requires
            map.wf(),
            self.bounded(),
        ensures
            moves@ == random_moves(map, self.known_obstacles@, self.position),
    {
        let pos = self.position;
        let mut valid_moves: Vec<Position> = Vec::new();
        if pos.y >= 1 {
            self.push_if_free(map, &mut valid_moves, Position::new(pos.x, pos.y - 1));
        }
        self.push_if_free(map, &mut valid_moves, Position::new(pos.x, pos.y + 1));
        if pos.x >= 1 {
            self.push_if_free(map, &mut valid_moves, Position::new(pos.x - 1, pos.y));
        }
        self.push_if_free(map, &mut valid_moves, Position::new(pos.x + 1, pos.y));
        assert(valid_moves@ =~= random_moves(map, self.known_obstacles@, pos));
        valid_moves
    }

    /// Steps to the free cell numbered `k` among `random_moves` (up, down, left, right, the
    /// blocked ones skipped): the move a random draw of `k` selects.
    pub fn step_to_choice(&mut self, map: &WorldMap, k: usize)
        requires
            map.wf(),
            old(self).bounded(),
            k < random_moves(map, old(self).known_obstacles@, old(self).position).len(),
        ensures
            final(self).position == random_moves(map, old(self).known_obstacles@, old(self).position)[k as int],
            final(self).scan() == old(self).scan(),
            final(self).id == old(self).id,
            final(self).robot_type == old(self).robot_type,
            final(self).state == old(self).state,
            final(self).knowledge_version == old(self).knowledge_version,
    {
        let moves = self.free_moves(map);
        self.position = moves[k];
    }

    /// Appends `c` to `moves` when it is on the map, walkable and not a known obstacle.
    fn push_if_free(&self, map: &WorldMap, moves: &mut Vec<Position>, c: Position)
        requires
            map.wf(),
        ensures
            final(moves)@ == old(moves)@ + free_cell(map, self.known_obstacles@, c.x as int, c.y as int),
    {
        if map.is_inside(c) && !contains_position(&self.known_obstacles, c) && map.is_walkable(c) {
            moves.push(c);
        } else {
            assert(old(moves)@ + free_cell(map, self.known_obstacles@, c.x as int, c.y as int) =~= old(moves)@);
        }
    }
}

/// Looking at a cell records as an obstacle only a cell of the map that is one, and as a
/// deposit only a cell that holds one.
proof fn lemma_scan_cell_sound(map: &WorldMap, s: Scan, c: Position)
    ensures
        forall|q: Position|
            #![trigger scan_cell(map, s, c).obstacles.contains(q)]
            scan_cell(map, s, c).obstacles.contains(q) && !s.obstacles.contains(q) ==> map.inside(q)
                && !map.at(q).walkable(),
        forall|q: Position|
            #![trigger scan_cell(map, s, c).resources.contains(q)]
            scan_cell(map, s, c).resources.contains(q) && !s.resources.contains(q) ==> map.holds_resource(q),
{
    let r = scan_cell(map, s, c);
    assert forall|q: Position| r.obstacles.contains(q) && !s.obstacles.contains(q) implies map.inside(q)
        && !map.at(q).walkable() by {
        if r.obstacles != s.obstacles {
            let k = choose|k: int| 0 <= k < r.obstacles.len() && r.obstacles[k] == q;
            if k < s.obstacles.len() {
                assert(s.obstacles[k] == q);
            }
        }
    }
    assert forall|q: Position| r.resources.contains(q) && !s.resources.contains(q) implies map.holds_resource(q) by {
        if r.resources != s.resources {
            let k = choose|k: int| 0 <= k < r.resources.len() && r.resources[k] == q;
            if k < s.resources.len() {
                assert(s.resources[k] == q);
            }
        }
    }
}

proof fn lemma_scan_offset_sound(map: &WorldMap, s: Scan, p: Position, dx: int, dy: int)
    ensures
        forall|q: Position|
            #![trigger scan_offset(map, s, p, dx, dy).obstacles.contains(q)]
            scan_offset(map, s, p, dx, dy).obstacles.contains(q) && !s.obstacles.contains(q) ==> map.inside(q)
                && !map.at(q).walkable(),
        forall|q: Position|
            #![trigger scan_offset(map, s, p, dx, dy).resources.contains(q)]
            scan_offset(map, s, p, dx, dy).resources.contains(q) && !s.resources.contains(q)
                ==> map.holds_resource(q),
        forall|q: Position|
            #![trigger scan_offset(map, s, p, dx, dy).obstacles.contains(q)]
            s.obstacles.contains(q) ==> scan_offset(map, s, p, dx, dy).obstacles.contains(q),
        forall|q: Position|
            #![trigger scan_offset(map, s, p, dx, dy).resources.contains(q)]
            s.resources.contains(q) ==> scan_offset(map, s, p, dx, dy).resources.contains(q),
{
    if p.x + dx >= 0 && p.y + dy >= 0 {
        let c = Position { x: (p.x + dx) as usize, y: (p.y + dy) as usize };
        lemma_scan_cell_sound(map, s, c);
        let r = scan_cell(map, s, c);
        assert forall|q: Position| s.obstacles.contains(q) implies #[trigger] r.obstacles.contains(q) by {
            let k = choose|k: int| 0 <= k < s.obstacles.len() && s.obstacles[k] == q;
            assert(r.obstacles[k] == q);
        }
        assert forall|q: Position| s.resources.contains(q) implies #[trigger] r.resources.contains(q) by {
            let k = choose|k: int| 0 <= k < s.resources.len() && s.resources[k] == q;
            assert(r.resources[k] == q);
        }
    }
}

/// What a scout records while looking around is true of the map: each new obstacle is an
/// obstacle of the map, each new deposit a cell that holds one.
pub proof fn law_scan_records_what_it_sees(map: &WorldMap, s: Scan, p: Position)
    ensures
        forall|q: Position|
            #![trigger scan_surroundings(map, s, p).obstacles.contains(q)]
            scan_surroundings(map, s, p).obstacles.contains(q) && !s.obstacles.contains(q) ==> map.inside(q)
                && !map.at(q).walkable(),
        forall|q: Position|
            #![trigger scan_surroundings(map, s, p).resources.contains(q)]
            scan_surroundings(map, s, p).resources.contains(q) && !s.resources.contains(q)
                ==> map.holds_resource(q),
{
    let s1 = scan_offset(map, s, p, -1, -1);
    let s2 = scan_offset(map, s1, p, 0, -1);
    let s3 = scan_offset(map, s2, p, 1, -1);
    let s4 = scan_offset(map, s3, p, -1, 0);
    let s5 = scan_offset(map, s4, p, 1, 0);
    let s6 = scan_offset(map, s5, p, -1, 1);
    let s7 = scan_offset(map, s6, p, 0, 1);
    let s8 = scan_offset(map, s7, p, 1, 1);
    lemma_scan_offset_sound(map, s, p, -1, -1);
    lemma_scan_offset_sound(map, s1, p, 0, -1);
    lemma_scan_offset_sound(map, s2, p, 1, -1);
    lemma_scan_offset_sound(map, s3, p, -1, 0);
    lemma_scan_offset_sound(map, s4, p, 1, 0);
    lemma_scan_offset_sound(map, s5, p, -1, 1);
    lemma_scan_offset_sound(map, s6, p, 0, 1);
    lemma_scan_offset_sound(map, s7, p, 1, 1);
    assert(s8 == scan_surroundings(map, s, p));
    assert forall|q: Position| s8.obstacles.contains(q) && !s.obstacles.contains(q) implies map.inside(q)
        && !map.at(q).walkable() by {
        if !s7.obstacles.contains(q) {
        } else if !s6.obstacles.contains(q) {
        } else if !s5.obstacles.contains(q) {
        } else if !s4.obstacles.contains(q) {
        } else if !s3.obstacles.contains(q) {
        } else if !s2.obstacles.contains(q) {
        } else if !s1.obstacles.contains(q) {
        }
    }
    assert forall|q: Position| s8.resources.contains(q) && !s.resources.contains(q) implies map.holds_resource(q) by {
        if !s7.resources.contains(q) {
        } else if !s6.resources.contains(q) {
        } else if !s5.resources.contains(q) {
        } else if !s4.resources.contains(q) {
        } else if !s3.resources.contains(q) {
        } else if !s2.resources.contains(q) {
        } else if !s1.resources.contains(q) {
        }
    }
}

/// A scout only ever steps onto a walkable cell it does not know as an obstacle, or stays.
pub proof fn law_scout_steps_on_free_cells(
    map: &WorldMap,
    known: Seq<Position>,
    p: Position,
    target: Position,
    to: Position,
)
    ensures
        random_step_ok(map, known, p, to) ==> to == p || (p.adjacent(to) && map.walkable(to) && !known.contains(
            to,
        )),
        toward_move_ok(map, known, p, target, to) ==> to == p || (p.adjacent(to) && map.walkable(to)
            && !known.contains(to)),
{
    lemma_random_step_free(map, known, p, to);
}

proof fn lemma_random_step_free(map: &WorldMap, known: Seq<Position>, p: Position, to: Position)
    ensures
        random_step_ok(map, known, p, to) ==> to == p || (p.adjacent(to) && map.walkable(to) && !known.contains(
            to,
        )),
{
    let moves = random_moves(map, known, p);
    if random_step_ok(map, known, p, to) && moves.len() > 0 {
        let k = choose|k: int| 0 <= k < moves.len() && moves[k] == to;
        let a = free_cell(map, known, p.x as int, p.y - 1);
        let b = free_cell(map, known, p.x as int, p.y + 1);
        let c = free_cell(map, known, p.x - 1, p.y as int);
        let d = free_cell(map, known, p.x + 1, p.y as int);
        assert(moves == a + b + c + d);
        if k < a.len() {
            assert(a[k] == to);
        } else if k < a.len() + b.len() {
            assert(b[k - a.len()] == to);
        } else if k < a.len() + b.len() + c.len() {
            assert(c[k - a.len() - b.len()] == to);
        } else {
            assert(d[k - a.len() - b.len() - c.len()] == to);
        }
    }
}

/// The position a scout report is about.
pub open spec fn reported_position(m: RobotMessage) -> Position {
    match m {
        RobotMessage::ResourceDiscovered { position, .. } => position,
        RobotMessage::ObstacleDiscovered { position } => position,
    }
}

/// After learning from history entries, a scout knows every obstacle and deposit they
/// report.
pub proof fn law_learned_positions_known(s: Scan, messages: Seq<RobotMessage>)
    ensures
        forall|i: int|
            0 <= i < messages.len() ==> {
                &&& (#[trigger] messages[i] is ObstacleDiscovered ==> learn_all(s, messages).obstacles.contains(
                    reported_position(messages[i]),
                ))
                &&& (messages[i] is ResourceDiscovered ==> learn_all(s, messages).resources.contains(
                    reported_position(messages[i]),
                ))
            },
    decreases messages.len(),
{
    if messages.len() > 0 {
        let m0 = messages.drop_last();
        law_learned_positions_known(s, m0);
        let b = learn_all(s, m0);
        let a = learn(b, messages.last());
        assert forall|q: Position| b.obstacles.contains(q) implies #[trigger] a.obstacles.contains(q) by {
            let k = choose|k: int| 0 <= k < b.obstacles.len() && b.obstacles[k] == q;
            assert(a.obstacles[k] == q);
        }
        assert forall|q: Position| b.resources.contains(q) implies #[trigger] a.resources.contains(q) by {
            let k = choose|k: int| 0 <= k < b.resources.len() && b.resources[k] == q;
            assert(a.resources[k] == q);
        }
        assert forall|i: int| 0 <= i < messages.len() implies {
            &&& (#[trigger] messages[i] is ObstacleDiscovered ==> a.obstacles.contains(reported_position(messages[i])))
            &&& (messages[i] is ResourceDiscovered ==> a.resources.contains(reported_position(messages[i])))
        } by {
            let q = reported_position(messages[i]);
            if i < m0.len() {
                assert(m0[i] == messages[i]);
            } else {
                if messages[i] is ObstacleDiscovered && !b.obstacles.contains(q) {
                    assert(a.obstacles[b.obstacles.len() as int] == q);
                }
                if messages[i] is ResourceDiscovered && !b.resources.contains(q) {
                    assert(a.resources[b.resources.len() as int] == q);
                }
            }
        }
    }
}

/// Cell `c` is accounted for in `s`: on the map, an obstacle there is a known obstacle and a
/// deposit there a known deposit.
pub open spec fn covered(map: &WorldMap, s: Scan, c: Position) -> bool {
    map.inside(c) ==> {
        &&& !map.at(c).walkable() ==> s.obstacles.contains(c)
        &&& map.at(c).cell_type is Resource ==> s.resources.contains(c)
    }
}

/// `t` knows every obstacle and deposit that `s` knows.
pub open spec fn knows_more(s: Scan, t: Scan) -> bool {
    &&& forall|q: Position| s.obstacles.contains(q) ==> #[trigger] t.obstacles.contains(q)
    &&& forall|q: Position| s.resources.contains(q) ==> #[trigger] t.resources.contains(q)
}

/// The cell at offset `(dx, dy)` from `p` is accounted for in `s`, when its coordinates are
/// not negative.
pub open spec fn covered_offset(map: &WorldMap, s: Scan, p: Position, dx: int, dy: int) -> bool {
    p.x + dx >= 0 && p.y + dy >= 0 ==> covered(
        map,
        s,
        Position { x: (p.x + dx) as usize, y: (p.y + dy) as usize },
    )
}

proof fn lemma_scan_offset_covers(map: &WorldMap, s: Scan, p: Position, dx: int, dy: int)
    ensures
        covered_offset(map, scan_offset(map, s, p, dx, dy), p, dx, dy),
        knows_more(s, scan_offset(map, s, p, dx, dy)),
{
    lemma_scan_offset_sound(map, s, p, dx, dy);
    if p.x + dx >= 0 && p.y + dy >= 0 {
        let c = Position { x: (p.x + dx) as usize, y: (p.y + dy) as usize };
        let t = scan_cell(map, s, c);
        if map.inside(c) {
            if !map.at(c).walkable() && !s.obstacles.contains(c) {
                assert(t.obstacles[t.obstacles.len() - 1] == c);
            }
            if map.at(c).cell_type is Resource && !s.resources.contains(c) {
                assert(t.resources[t.resources.len() - 1] == c);
            }
        }
    }
}

proof fn lemma_covered_offset_grows(map: &WorldMap, s: Scan, t: Scan, p: Position, dx: int, dy: int)
    requires
        covered_offset(map, s, p, dx, dy),
        knows_more(s, t),
    ensures
        covered_offset(map, t, p, dx, dy),
{
}

proof fn lemma_knows_more_trans(a: Scan, b: Scan, c: Scan)
    requires
        knows_more(a, b),
        knows_more(b, c),
    ensures
        knows_more(a, c),
{
}

proof fn lemma_scan_offset_noop(map: &WorldMap, s: Scan, p: Position, dx: int, dy: int)
    requires
        covered_offset(map, s, p, dx, dy),
    ensures
        scan_offset(map, s, p, dx, dy) == s,
{
}

/// Looking around forgets nothing: every obstacle and deposit known before stays known.
proof fn lemma_scan_surroundings_grows(map: &WorldMap, s: Scan, p: Position)
    ensures
        knows_more(s, scan_surroundings(map, s, p)),
{
    let s1 = scan_offset(map, s, p, -1, -1);
    let s2 = scan_offset(map, s1, p, 0, -1);
    let s3 = scan_offset(map, s2, p, 1, -1);
    let s4 = scan_offset(map, s3, p, -1, 0);
    let s5 = scan_offset(map, s4, p, 1, 0);
    let s6 = scan_offset(map, s5, p, -1, 1);
    let s7 = scan_offset(map, s6, p, 0, 1);
    lemma_scan_offset_covers(map, s, p, -1, -1);
    lemma_scan_offset_covers(map, s1, p, 0, -1);
    lemma_scan_offset_covers(map, s2, p, 1, -1);
    lemma_scan_offset_covers(map, s3, p, -1, 0);
    lemma_scan_offset_covers(map, s4, p, 1, 0);
    lemma_scan_offset_covers(map, s5, p, -1, 1);
    lemma_scan_offset_covers(map, s6, p, 0, 1);
    lemma_scan_offset_covers(map, s7, p, 1, 1);
    assert(scan_offset(map, s7, p, 1, 1) == scan_surroundings(map, s, p));
}

/// Learning from history entries forgets nothing: every obstacle and deposit known before
/// stays known.
pub proof fn lemma_learn_all_grows(s: Scan, messages: Seq<RobotMessage>)
    ensures
        knows_more(s, learn_all(s, messages)),
    decreases messages.len(),
{
    if messages.len() > 0 {
        lemma_learn_all_grows(s, messages.drop_last());
        let b = learn_all(s, messages.drop_last());
        let a = learn(b, messages.last());
        assert forall|q: Position| b.obstacles.contains(q) implies #[trigger] a.obstacles.contains(q) by {
            let k = choose|k: int| 0 <= k < b.obstacles.len() && b.obstacles[k] == q;
            assert(a.obstacles[k] == q);
        }
        assert forall|q: Position| b.resources.contains(q) implies #[trigger] a.resources.contains(q) by {
            let k = choose|k: int| 0 <= k < b.resources.len() && b.resources[k] == q;
            assert(a.resources[k] == q);
        }
    }
}

/// Looking around twice from the same place finds nothing new the second time: every cell
/// around is already accounted for, so no report is added and nothing more becomes known.
pub proof fn law_second_scan_finds_nothing(map: &WorldMap, s: Scan, p: Position)
    ensures
        scan_surroundings(map, scan_surroundings(map, s, p), p) == scan_surroundings(map, s, p),
{
    let s1 = scan_offset(map, s, p, -1, -1);
    let s2 = scan_offset(map, s1, p, 0, -1);
    let s3 = scan_offset(map, s2, p, 1, -1);
    let s4 = scan_offset(map, s3, p, -1, 0);
    let s5 = scan_offset(map, s4, p, 1, 0);
    let s6 = scan_offset(map, s5, p, -1, 1);
    let s7 = scan_offset(map, s6, p, 0, 1);
    let s8 = scan_offset(map, s7, p, 1, 1);
    lemma_scan_offset_covers(map, s, p, -1, -1);
    lemma_scan_offset_covers(map, s1, p, 0, -1);
    lemma_scan_offset_covers(map, s2, p, 1, -1);
    lemma_scan_offset_covers(map, s3, p, -1, 0);
    lemma_scan_offset_covers(map, s4, p, 1, 0);
    lemma_scan_offset_covers(map, s5, p, -1, 1);
    lemma_scan_offset_covers(map, s6, p, 0, 1);
    lemma_scan_offset_covers(map, s7, p, 1, 1);
    lemma_knows_more_trans(s7, s8, s8);
    lemma_knows_more_trans(s6, s7, s8);
    lemma_knows_more_trans(s5, s6, s8);
    lemma_knows_more_trans(s4, s5, s8);
    lemma_knows_more_trans(s3, s4, s8);
    lemma_knows_more_trans(s2, s3, s8);
    lemma_knows_more_trans(s1, s2, s8);
    lemma_covered_offset_grows(map, s1, s8, p, -1, -1);
    lemma_covered_offset_grows(map, s2, s8, p, 0, -1);
    lemma_covered_offset_grows(map, s3, s8, p, 1, -1);
    lemma_covered_offset_grows(map, s4, s8, p, -1, 0);
    lemma_covered_offset_grows(map, s5, s8, p, 1, 0);
    lemma_covered_offset_grows(map, s6, s8, p, -1, 1);
    lemma_covered_offset_grows(map, s7, s8, p, 0, 1);
    lemma_scan_offset_noop(map, s8, p, -1, -1);
    lemma_scan_offset_noop(map, s8, p, 0, -1);
    lemma_scan_offset_noop(map, s8, p, 1, -1);
    lemma_scan_offset_noop(map, s8, p, -1, 0);
    lemma_scan_offset_noop(map, s8, p, 1, 0);
    lemma_scan_offset_noop(map, s8, p, -1, 1);
    lemma_scan_offset_noop(map, s8, p, 0, 1);
    lemma_scan_offset_noop(map, s8, p, 1, 1);
    assert(s8 == scan_surroundings(map, s, p));
}

/// The cells a scout may step to at random are exactly its free neighbors: the cells one
/// step up, down, left or right that are on the map, walkable, and not known obstacles.
pub proof fn law_random_moves_are_free_neighbors(map: &WorldMap, known: Seq<Position>, p: Position, q: Position)
    ensures
        random_moves(map, known, p).contains(q) <==> (p.adjacent(q) && map.walkable(q) && !known.contains(q)),
{
    let a = free_cell(map, known, p.x as int, p.y - 1);
    let b = free_cell(map, known, p.x as int, p.y + 1);
    let c = free_cell(map, known, p.x - 1, p.y as int);
    let d = free_cell(map, known, p.x + 1, p.y as int);
    let moves = random_moves(map, known, p);
    assert(moves == a + b + c + d);
    if moves.contains(q) {
        let k = choose|k: int| 0 <= k < moves.len() && moves[k] == q;
        if k < a.len() {
            assert(a[k] == q);
        } else if k < a.len() + b.len() {
            assert(b[k - a.len()] == q);
        } else if k < a.len() + b.len() + c.len() {
            assert(c[k - a.len() - b.len()] == q);
        } else {
            assert(d[k - a.len() - b.len() - c.len()] == q);
        }
    }
    if p.adjacent(q) && map.walkable(q) && !known.contains(q) {
        if q.x == p.x && q.y + 1 == p.y {
            assert(a == seq![q]);
            assert(moves[0] == q);
        } else if q.x == p.x && p.y + 1 == q.y {
            assert(b == seq![q]);
            assert(moves[a.len() as int] == q);
        } else if q.y == p.y && q.x + 1 == p.x {
            assert(c == seq![q]);
            assert(moves[(a.len() + b.len()) as int] == q);
        } else {
            assert(d == seq![q]);
            assert(moves[(a.len() + b.len() + c.len()) as int] == q);
        }
    }
}

/// A report tells the truth about the map: a reported deposit lies on the map and is a
/// deposit of the reported kind; a reported obstacle lies on the map and cannot be walked.
pub open spec fn report_matches_map(map: &WorldMap, m: RobotMessage) -> bool {
    match m {
        RobotMessage::ResourceDiscovered { position, resource_type } => {
            &&& map.inside(position)
            &&& map.at(position).cell_type matches CellType::Resource(r)
            &&& r.resource_type == resource_type
        },
        RobotMessage::ObstacleDiscovered { position } => map.inside(position) && !map.at(position).walkable(),
    }
}

/// `t` keeps the reports of `s` in front and adds only reports true of the map.
pub open spec fn adds_true_reports(map: &WorldMap, s: Scan, t: Scan) -> bool {
    &&& s.messages.len() <= t.messages.len()
    &&& forall|i: int| 0 <= i < s.messages.len() ==> #[trigger] t.messages[i] == s.messages[i]
    &&& forall|i: int|
        s.messages.len() <= i < t.messages.len() ==> report_matches_map(map, #[trigger] t.messages[i])
}

proof fn lemma_scan_offset_true(map: &WorldMap, s: Scan, p: Position, dx: int, dy: int)
    ensures
        adds_true_reports(map, s, scan_offset(map, s, p, dx, dy)),
{
    let t = scan_offset(map, s, p, dx, dy);
    if t.messages.len() > s.messages.len() {
        assert(t.messages[s.messages.len() as int] == t.messages.last());
    }
}

proof fn lemma_adds_true_trans(map: &WorldMap, a: Scan, b: Scan, c: Scan)
    requires
        adds_true_reports(map, a, b),
        adds_true_reports(map, b, c),
    ensures
        adds_true_reports(map, a, c),
{
    assert forall|i: int| 0 <= i < a.messages.len() implies #[trigger] c.messages[i] == a.messages[i] by {
        assert(c.messages[i] == b.messages[i]);
    }
    assert forall|i: int| a.messages.len() <= i < c.messages.len() implies report_matches_map(
        map,
        #[trigger] c.messages[i],
    ) by {
        if i < b.messages.len() {
            assert(c.messages[i] == b.messages[i]);
        }
    }
}

/// Looking around keeps the reports already pending and adds only true ones: every new
/// deposit report names a cell holding a deposit of exactly the reported kind, every new
/// obstacle report a cell that cannot be walked.
pub proof fn law_scan_reports_the_truth(map: &WorldMap, s: Scan, p: Position)
    ensures
        s.messages.len() <= scan_surroundings(map, s, p).messages.len(),
        forall|i: int|
            0 <= i < s.messages.len() ==> #[trigger] scan_surroundings(map, s, p).messages[i] == s.messages[i],
        forall|i: int|
            s.messages.len() <= i < scan_surroundings(map, s, p).messages.len() ==> match #[trigger] scan_surroundings(
                map,
                s,
                p,
            ).messages[i] {
                RobotMessage::ResourceDiscovered { position, resource_type } => {
                    &&& map.inside(position)
                    &&& map.at(position).cell_type matches CellType::Resource(r)
                    &&& r.resource_type == resource_type
                },
                RobotMessage::ObstacleDiscovered { position } => map.inside(position) && !map.at(
                    position,
                ).walkable(),
            },
{
    let s1 = scan_offset(map, s, p, -1, -1);
    let s2 = scan_offset(map, s1, p, 0, -1);
    let s3 = scan_offset(map, s2, p, 1, -1);
    let s4 = scan_offset(map, s3, p, -1, 0);
    let s5 = scan_offset(map, s4, p, 1, 0);
    let s6 = scan_offset(map, s5, p, -1, 1);
    let s7 = scan_offset(map, s6, p, 0, 1);
    let s8 = scan_offset(map, s7, p, 1, 1);
    lemma_scan_offset_true(map, s, p, -1, -1);
    lemma_scan_offset_true(map, s1, p, 0, -1);
    lemma_scan_offset_true(map, s2, p, 1, -1);
    lemma_scan_offset_true(map, s3, p, -1, 0);
    lemma_scan_offset_true(map, s4, p, 1, 0);
    lemma_scan_offset_true(map, s5, p, -1, 1);
    lemma_scan_offset_true(map, s6, p, 0, 1);
    lemma_scan_offset_true(map, s7, p, 1, 1);
    lemma_adds_true_trans(map, s, s1, s2);
    lemma_adds_true_trans(map, s, s2, s3);
    lemma_adds_true_trans(map, s, s3, s4);
    lemma_adds_true_trans(map, s, s4, s5);
    lemma_adds_true_trans(map, s, s5, s6);
    lemma_adds_true_trans(map, s, s6, s7);
    lemma_adds_true_trans(map, s, s7, s8);
    assert(s8 == scan_surroundings(map, s, p));
    let t = s8;
    assert forall|i: int| s.messages.len() <= i < t.messages.len() implies match #[trigger] t.messages[i] {
        RobotMessage::ResourceDiscovered { position, resource_type } => {
            &&& map.inside(position)
            &&& map.at(position).cell_type matches CellType::Resource(r)
            &&& r.resource_type == resource_type
        },
        RobotMessage::ObstacleDiscovered { position } => map.inside(position) && !map.at(position).walkable(),
    } by {
        assert(report_matches_map(map, t.messages[i]));
    }
}

} // verus!
