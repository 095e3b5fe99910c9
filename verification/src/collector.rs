use vstd::prelude::*;
use crate::base::KnownResource;
use crate::cell::{Cell, CellType};
use crate::map::{WorldMap, wrapping_next};
use crate::message::RobotMessage;
use crate::path_order::{
    lemma_turns_earlier_last, lemma_turns_earlier_push, lemma_turns_earlier_trans, listed_before, turns_earlier,
};
use crate::position::Position;
use crate::resource::{Resource, ResourceType};

verus! {

/// What a collector is doing.
#[derive(Debug, Clone, Copy, PartialEq, Eq, Structural)]
pub enum CollectorState {
    Idle,
    MovingToResource,
    Collecting,
    ReturningToBase,
    Unloading,
}

/// A collector: it takes a deposit the base knows of, walks to it along a shortest path,
/// takes one unit, and carries it back to the base.
pub struct CollectorRobot {
    pub id: usize,
    pub position: Position,
    pub state: CollectorState,
    pub carried_resource: Option<ResourceType>,
    pub target: Option<Position>,
    pub knowledge_version: usize,
    pub path: Vec<Position>,
}

/// `plan` is what the search from `from` to `to` leaves as the path to follow: a shortest
/// path when `to` can be reached, else nothing.
pub open spec fn path_plan(map: &WorldMap, from: Position, to: Position, plan: Seq<Position>) -> bool {
    if map.reachable(from, to) {
        map.is_shortest_path(from, plan, to)
    } else {
        plan.len() == 0
    }
}

/// Taking one unit from the deposit at `target` turns `before` into `after` and returns `r`:
/// the deposit's kind and whether it is now empty (its cell then becomes empty ground); no
/// deposit there leaves the map alone and returns `None`.
pub open spec fn collect_outcome(
    before: &WorldMap,
    target: Position,
    after: &WorldMap,
    r: Option<(ResourceType, bool)>,
) -> bool {
    if before.holds_resource(target) {
        match before.at(target).cell_type {
            CellType::Resource(res) => {
                &&& r == Some((res.resource_type, res.quantity == 1))
                &&& before.updated_to(
                    after,
                    target,
                    if res.quantity == 1 {
                        Cell { cell_type: CellType::Empty }
                    } else {
                        Cell {
                            cell_type: CellType::Resource(
                                Resource { resource_type: res.resource_type, quantity: (res.quantity - 1) as u32 },
                            ),
                        }
                    },
                )
            },
            _ => false,
        }
    } else {
        r is None && *after == *before
    }
}

/// Follows one step of a planned path: the collector moves to its first position and the
/// rest remains to walk.
pub open spec fn walked_one_step(o: &CollectorRobot, n: &CollectorRobot) -> bool {
    &&& n.position == o.path@[0]
    &&& n.path@ == o.path@.drop_first()
}

/// One turn of collector `o` on map `om`, with the base at `base` and the deposits `known`
/// offered to it, leads to collector `n` on map `nm`, sends `msgs` and asks to synchronise
/// when `sync`.
pub open spec fn collector_turn(
    o: &CollectorRobot,
    om: &WorldMap,
    base: Position,
    known: Seq<KnownResource>,
    n: &CollectorRobot,
    nm: &WorldMap,
    msgs: Seq<RobotMessage>,
    sync: bool,
) -> bool {
    &&& n.id == o.id
    &&& n.knowledge_version == o.knowledge_version
    &&& (o.state != CollectorState::Collecting ==> *nm == *om)
    &&& (o.state != CollectorState::Unloading ==> !sync)
    &&& match o.state {
        CollectorState::Idle => {
            &&& msgs.len() == 0
            &&& n.carried_resource == o.carried_resource
            &&& n.position == o.position
            &&& if known.len() == 0 {
                &&& n.state == o.state
                &&& n.target == o.target
                &&& n.path@ == o.path@
            } else {
                let t = known[0].position;
                if o.position == t {
                    &&& n.state == CollectorState::Collecting
                    &&& n.target == Some(t)
                    &&& n.path@ == o.path@
                } else {
                    &&& path_plan(om, o.position, t, n.path@)
                    &&& if n.path@.len() == 0 {
                        n.state == CollectorState::Idle && n.target is None
                    } else {
                        n.state == CollectorState::MovingToResource && n.target == Some(t)
                    }
                }
            }
        },
        CollectorState::MovingToResource => {
            &&& msgs.len() == 0
            &&& n.carried_resource == o.carried_resource
            &&& match o.target {
                None => {
                    &&& n.state == CollectorState::Idle
                    &&& n.target is None
                    &&& n.position == o.position
                    &&& n.path@ == o.path@
                },
                Some(t) => if o.position == t {
                    &&& n.state == CollectorState::Collecting
                    &&& n.target == o.target
                    &&& n.position == o.position
                    &&& n.path@ == o.path@
                } else if o.path@.len() > 0 {
                    &&& walked_one_step(o, n)
                    &&& n.target == o.target
                    &&& n.state == if n.position == t {
                        CollectorState::Collecting
                    } else {
                        CollectorState::MovingToResource
                    }
                } else {
                    &&& n.position == o.position
                    &&& path_plan(om, o.position, t, n.path@)
                    &&& if n.path@.len() == 0 {
                        n.state == CollectorState::Idle && n.target is None
                    } else {
                        n.state == CollectorState::MovingToResource && n.target == o.target
                    }
                },
            }
        },
        CollectorState::Collecting => {
            &&& n.position == o.position
            &&& match o.target {
                None => {
                    &&& n.state == CollectorState::Idle
                    &&& n.target is None
                    &&& n.carried_resource == o.carried_resource
                    &&& n.path@ == o.path@
                    &&& *nm == *om
                    &&& msgs.len() == 0
                },
                Some(t) => if om.holds_resource(t) {
                    match om.at(t).cell_type {
                        CellType::Resource(res) => {
                            &&& collect_outcome(om, t, nm, Some((res.resource_type, res.quantity == 1)))
                            &&& n.carried_resource == Some(res.resource_type)
                            &&& msgs == if res.quantity == 1 {
                                seq![RobotMessage::ResourceDepleted { position: t }]
                            } else {
                                Seq::<RobotMessage>::empty()
                            }
                            &&& path_plan(nm, o.position, base, n.path@)
                            &&& n.state == CollectorState::ReturningToBase
                            &&& n.target == o.target
                        },
                        _ => false,
                    }
                } else {
                    &&& *nm == *om
                    &&& n.state == CollectorState::Idle
                    &&& n.target is None
                    &&& n.carried_resource == o.carried_resource
                    &&& n.path@ == o.path@
                    &&& msgs.len() == 0
                },
            }
        },
        CollectorState::ReturningToBase => {
            &&& msgs.len() == 0
            &&& n.carried_resource == o.carried_resource
            &&& n.target == o.target
            &&& if o.position == base {
                &&& n.state == CollectorState::Unloading
                &&& n.position == o.position
                &&& n.path@ == o.path@
            } else if o.path@.len() > 0 {
                &&& walked_one_step(o, n)
                &&& n.state == if n.position == base {
                    CollectorState::Unloading
                } else {
                    CollectorState::ReturningToBase
                }
            } else {
                &&& n.position == o.position
                &&& n.state == o.state
                &&& path_plan(om, o.position, base, n.path@)
            }
        },
        CollectorState::Unloading => {
            &&& msgs == match o.carried_resource {
                Some(rt) => seq![
                    RobotMessage::ResourceCollected { robot_id: o.id, resource_type: rt, amount: 1 },
                ],
                None => Seq::<RobotMessage>::empty(),
            }
            &&& n.carried_resource is None
            &&& n.target is None
            &&& n.path@.len() == 0
            &&& n.state == CollectorState::Idle
            &&& n.position == o.position
            &&& sync
        },
    }
}

impl CollectorRobot {
    /// The path the collector has left to walk is a walk on `map` from where it stands.
    pub open spec fn walks_on(&self, map: &WorldMap) -> bool {
        map.is_walk(self.position, self.path@)
    }
}

/// Collector `n` stands where `o` stood or on a walkable cell of `map` next to it (a step
/// off the largest coordinate wraps round to 0).
pub open spec fn steps_to_next_cell(o: &CollectorRobot, map: &WorldMap, n: &CollectorRobot) -> bool {
    n.position == o.position || {
        &&& map.walkable(n.position)
        &&& (o.position.x < usize::MAX && o.position.y < usize::MAX ==> o.position.adjacent(n.position))
    }
}

/// Collector `n` is `o` once it has read the history entries `news` and recorded
/// `version`: it drops a target that an entry reports depleted while it is on its way to
/// it, and keeps all else.
pub open spec fn knowledge_applied(
    o: &CollectorRobot,
    news: Seq<RobotMessage>,
    version: usize,
    n: &CollectorRobot,
) -> bool {
    &&& n.knowledge_version == version
    &&& n.id == o.id
    &&& n.position == o.position
    &&& n.carried_resource == o.carried_resource
    &&& if target_reported_depleted(o, news) {
        &&& n.state == CollectorState::Idle
        &&& n.target is None
        &&& n.path@.len() == 0
    } else {
        &&& n.state == o.state
        &&& n.target == o.target
        &&& n.path@ == o.path@
    }
}

/// What may happen to collector `o` and map `om` before the next moment, when they are `n`
/// and `nm`: the collector takes a turn; or it reads history entries from the base; or
/// another collector takes a unit from a deposit while this one stands still.
#[verifier::opaque]
pub open spec fn collector_history_step(
    o: &CollectorRobot,
    om: &WorldMap,
    n: &CollectorRobot,
    nm: &WorldMap,
) -> bool {
    ||| exists|base: Position, known: Seq<KnownResource>, msgs: Seq<RobotMessage>, sync: bool|
        #[trigger] collector_turn(o, om, base, known, n, nm, msgs, sync)
    ||| {
        &&& *nm == *om
        &&& exists|news: Seq<RobotMessage>, version: usize| #[trigger] knowledge_applied(o, news, version, n)
    }
    ||| {
        &&& n.position == o.position
        &&& n.path@ == o.path@
        &&& exists|t: Position, r: Option<(ResourceType, bool)>| #[trigger] collect_outcome(om, t, nm, r)
    }
}

/// One step of a collector's history keeps its remaining path a walk and moves it at most
/// to a walkable cell next to it.
proof fn lemma_history_step(o: &CollectorRobot, om: &WorldMap, c: &CollectorRobot, cm: &WorldMap)
    requires
        collector_history_step(o, om, c, cm),
        o.walks_on(om),
    ensures
        c.walks_on(cm),
        steps_to_next_cell(o, om, c),
{
    reveal(collector_history_step);
    if exists|base: Position, known: Seq<KnownResource>, msgs: Seq<RobotMessage>, sync: bool|
        #[trigger] collector_turn(o, om, base, known, c, cm, msgs, sync) {
        let (base, known, msgs, sync) = choose|
            base: Position,
            known: Seq<KnownResource>,
            msgs: Seq<RobotMessage>,
            sync: bool,
        | #[trigger] collector_turn(o, om, base, known, c, cm, msgs, sync);
        law_collector_steps_along_walks(o, om, base, known, c, cm, msgs, sync);
    } else if *cm == *om && exists|news: Seq<RobotMessage>, version: usize|
        #[trigger] knowledge_applied(o, news, version, c) {
        assert(c.walks_on(cm));
    } else {
        let (t, r) = choose|t: Position, r: Option<(ResourceType, bool)>|
            #[trigger] collect_outcome(om, t, cm, r);
        law_collection_keeps_walks(om, t, cm, r, o.position, o.path@);
    }
}

/// A collector following the paths it plans walks: along any history that starts with an
/// empty path (as `new` leaves it) and goes on by turns, readings of the base's history and
/// other collectors' collecting, its remaining path is at every moment a walk on the map of
/// that moment from where it stands, and each move takes it to a walkable cell next to it
/// (a step off the largest coordinate wraps round to 0).
pub proof fn law_collector_history(cs: Seq<CollectorRobot>, ms: Seq<WorldMap>)
    requires
        cs.len() == ms.len(),
        cs.len() > 0,
        cs[0].path@.len() == 0,
        forall|i: int, j: int|
            #![trigger cs[i], cs[j]]
            0 <= i && j == i + 1 && j < cs.len() ==> collector_history_step(&cs[i], &ms[i], &cs[j], &ms[j]),
    ensures
        forall|i: int| 0 <= i < cs.len() ==> (#[trigger] cs[i]).walks_on(&ms[i]),
        forall|i: int, j: int|
            #![trigger cs[i], cs[j]]
            0 <= i && j == i + 1 && j < cs.len() ==> steps_to_next_cell(&cs[i], &ms[i], &cs[j]),
    decreases cs.len(),
{
    let n = cs.len() - 1;
    if n == 0 {
        assert(cs[0].walks_on(&ms[0]));
    } else {
        let pc = cs.drop_last();
        let pm = ms.drop_last();
        assert forall|i: int, j: int|
            #![trigger pc[i], pc[j]]
            0 <= i && j == i + 1 && j < pc.len() implies collector_history_step(
            &pc[i],
            &pm[i],
            &pc[j],
            &pm[j],
        ) by {
            assert(collector_history_step(&cs[i], &ms[i], &cs[j], &ms[j]));
            assert(pc[i] == cs[i] && pm[i] == ms[i] && pc[j] == cs[j] && pm[j] == ms[j]);
        }
        law_collector_history(pc, pm);
        assert(pc[n - 1] == cs[n - 1] && pm[n - 1] == ms[n - 1]);
        assert(collector_history_step(&cs[n - 1], &ms[n - 1], &cs[n], &ms[n]));
        lemma_history_step(&cs[n - 1], &ms[n - 1], &cs[n], &ms[n]);
        assert forall|i: int| 0 <= i < cs.len() implies (#[trigger] cs[i]).walks_on(&ms[i]) by {
            if i < n {
                assert(pc[i] == cs[i] && pm[i] == ms[i]);
            }
        }
        assert forall|i: int, j: int|
            #![trigger cs[i], cs[j]]
            0 <= i && j == i + 1 && j < cs.len() implies steps_to_next_cell(&cs[i], &ms[i], &cs[j]) by {
            if j < n {
                assert(pc[i] == cs[i] && pm[i] == ms[i] && pc[j] == cs[j]);
            }
        }
    }
}

/// A collector about to collect finds at least one unit in the deposit at its target, if
/// there is one.
pub open spec fn collect_safe(c: &CollectorRobot, map: &WorldMap) -> bool {
    c.state == CollectorState::Collecting ==> match c.target {
        Some(t) => map.deposit_nonempty_at(t),
        None => true,
    }
}

/// Some history entry reports the deposit at `p` depleted.
pub open spec fn reports_depleted(messages: Seq<RobotMessage>, p: Position) -> bool {
    messages.contains(RobotMessage::ResourceDepleted { position: p })
}

/// The collector is on its way to a deposit that some history entry reports depleted.
pub open spec fn target_reported_depleted(c: &CollectorRobot, messages: Seq<RobotMessage>) -> bool {
    c.state == CollectorState::MovingToResource && match c.target {
        Some(t) => reports_depleted(messages, t),
        None => false,
    }
}

impl CollectorRobot {
    /// An idle collector numbered `id` at `start_pos`, carrying nothing.
    pub fn new(id: usize, start_pos: Position) -> (r: CollectorRobot)
        ensures
            r.id == id,
            r.position == start_pos,
            r.state == CollectorState::Idle,
            r.carried_resource is None,
            r.target is None,
            r.knowledge_version == 0,
            r.path@ == Seq::<Position>::empty(),
    {
        CollectorRobot {
            id,
            position: start_pos,
            state: CollectorState::Idle,
            carried_resource: None,
            target: None,
            knowledge_version: 0,
            path: Vec::new(),
        }
    }

    /// One turn of the collector (see `collector_turn`): idle, it takes the first deposit
    /// offered and plans a path to it; moving, it walks one step; collecting, it takes a
    /// unit and plans the way back; returning, it walks one step; unloading, it reports the
    /// unit delivered, goes idle and asks to synchronise.
    pub fn act(
        &mut self,
        map: &mut WorldMap,
        base_position: Position,
        known_resources: &[KnownResource],
    ) -> (r: (Vec<RobotMessage>, bool))
        requires
            old(map).wf(),
            collect_safe(&*old(self), &*old(map)),
        ensures
            final(map).wf(),
            old(map).deposits_nonempty() ==> final(map).deposits_nonempty(),
            collector_turn(
                &*old(self),
                &*old(map),
                base_position,
                known_resources@,
                &*final(self),
                &*final(map),
                r.0@,
                r.1,
            ),
            old(self).walks_on(&*old(map)) ==> final(self).walks_on(&*final(map)),
            old(self).walks_on(&*old(map)) ==> steps_to_next_cell(&*old(self), &*old(map), &*final(self)),
    {
        let mut messages: Vec<RobotMessage> = Vec::new();
        let mut wants_sync = false;
        match self.state {
            CollectorState::Idle => {
                if known_resources.len() > 0 {
                    let target = known_resources[0].position;
                    self.target = Some(target);
                    if self.position == target {
                        self.state = CollectorState::Collecting;
                    } else {
                        self.path = plan_path(self.position, target, map);
                        if self.path.len() == 0 {
                            self.target = None;
                        } else {
                            self.state = CollectorState::MovingToResource;
                        }
                    }
                }
            },
            CollectorState::MovingToResource => {
                if let Some(target) = self.target {
                    if self.position == target {
                        self.state = CollectorState::Collecting;
                    } else if self.path.len() > 0 {
                        let next = self.path.remove(0);
                        self.position = next;
                        if self.position == target {
                            self.state = CollectorState::Collecting;
                        }
                    } else {
                        self.path = plan_path(self.position, target, map);
                        if self.path.len() == 0 {
                            self.state = CollectorState::Idle;
                            self.target = None;
                        }
                    }
                } else {
                    self.state = CollectorState::Idle;
                }
            },
            CollectorState::Collecting => {
                if let Some(target) = self.target {
                    let collected = Self::try_collect(map, target);
                    match collected {
                        Some((res_type, depleted)) => {
                            self.carried_resource = Some(res_type);
                            if depleted {
                                messages.push(RobotMessage::ResourceDepleted { position: target });
                            }
                            self.path = plan_path(self.position, base_position, map);
                            self.state = CollectorState::ReturningToBase;
                        },
                        None => {
                            self.state = CollectorState::Idle;
                            self.target = None;
                        },
                    }
                } else {
                    self.state = CollectorState::Idle;
                }
            },
            CollectorState::ReturningToBase => {
                if self.position == base_position {
                    self.state = CollectorState::Unloading;
                } else if self.path.len() > 0 {
                    let next = self.path.remove(0);
                    self.position = next;
                    if self.position == base_position {
                        self.state = CollectorState::Unloading;
                    }
                } else {
                    self.path = plan_path(self.position, base_position, map);
                }
            },
            CollectorState::Unloading => {
                if let Some(res_type) = self.carried_resource {
                    messages.push(
                        RobotMessage::ResourceCollected { robot_id: self.id, resource_type: res_type, amount: 1 },
                    );
                }
                self.carried_resource = None;
                self.target = None;
                self.path.clear();
                self.state = CollectorState::Idle;
                wants_sync = true;
            },
        }
        proof {
            if old(self).walks_on(&*old(map)) {
                assert(collector_turn(
                    &*old(self),
                    &*old(map),
                    base_position,
                    known_resources@,
                    &*self,
                    &*map,
                    messages@,
                    wants_sync,
                ));
                law_collector_steps_along_walks(
                    &*old(self),
                    &*old(map),
                    base_position,
                    known_resources@,
                    &*self,
                    &*map,
                    messages@,
                    wants_sync,
                );
            }
        }
        (messages, wants_sync)
    }

    /// Takes one unit from the deposit at `target`; an emptied deposit leaves empty ground.
    /// Returns the deposit's kind and whether it is now empty, or `None` when there is no
    /// deposit there.
    pub fn try_collect(map: &mut WorldMap, target: Position) -> (r: Option<(ResourceType, bool)>)
        requires
            old(map).wf(),
            old(map).deposit_nonempty_at(target),
        ensures
            final(map).wf(),
            old(map).deposits_nonempty() ==> final(map).deposits_nonempty(),
            collect_outcome(&*old(map), target, &*final(map), r),
    {
        let ghost start = *map;
        let resource = match map.get_cell(target) {
            Some(cell) => match cell.cell_type {
                CellType::Resource(resource) => resource,
                _ => return None,
            },
            None => return None,
        };
        let res_type = resource.resource_type;
        let quantity = resource.quantity - 1;
        let depleted = quantity == 0;
        if let Some(cell) = map.get_cell_mut(target) {
            if depleted {
                cell.cell_type = CellType::Empty;
            } else {
                cell.cell_type = CellType::Resource(Resource::new(res_type, quantity));
            }
        }
        Some((res_type, depleted))
    }

    /// Drops the current target when a history entry reports it depleted while the
    /// collector is on its way to it; records `new_version` as the version it knows.
    pub fn apply_knowledge(&mut self, new_knowledge: &[RobotMessage], new_version: usize)
        ensures
            knowledge_applied(&*old(self), new_knowledge@, new_version, &*final(self)),
    {
        let mut i: usize = 0;
        while i < new_knowledge.len()
            invariant
                i <= new_knowledge@.len(),
                self.id == old(self).id,
                self.position == old(self).position,
                self.carried_resource == old(self).carried_resource,
                ({
                    let hit = target_reported_depleted(&*old(self), new_knowledge@.take(i as int));
                    if hit {
                        &&& self.state == CollectorState::Idle
                        &&& self.target is None
                        &&& self.path@.len() == 0
                    } else {
                        &&& self.state == old(self).state
                        &&& self.target == old(self).target
                        &&& self.path@ == old(self).path@
                    }
                }),
            decreases new_knowledge@.len() - i,
        {
            let ghost prefix = new_knowledge@.take(i as int);
            let ghost next_prefix = new_knowledge@.take(i + 1);
            proof {
                assert(next_prefix =~= prefix.push(new_knowledge@[i as int]));
                assert forall|m: RobotMessage| next_prefix.contains(m) <==> (prefix.contains(m) || m
                    == new_knowledge@[i as int]) by {
                    if next_prefix.contains(m) {
                        let k = choose|k: int| 0 <= k < next_prefix.len() && next_prefix[k] == m;
                        if k < prefix.len() {
                            assert(prefix[k] == m);
                        }
                    }
                    if prefix.contains(m) {
                        let k = choose|k: int| 0 <= k < prefix.len() && prefix[k] == m;
                        assert(next_prefix[k] == m);
                    }
                    if m == new_knowledge@[i as int] {
                        assert(next_prefix[i as int] == m);
                    }
                }
            }
            if let RobotMessage::ResourceDepleted { position } = new_knowledge[i] {
                if self.target == Some(position) && matches!(self.state, CollectorState::MovingToResource) {
                    self.state = CollectorState::Idle;
                    self.target = None;
                    self.path.clear();
                }
            }
            i = i + 1;
        }
        assert(new_knowledge@.take(new_knowledge@.len() as int) =~= new_knowledge@);
        self.knowledge_version = new_version;
    }
}

/// The path to follow from `start` to `goal`: what `find_path` finds, or nothing.
fn plan_path(start: Position, goal: Position, map: &WorldMap) -> (plan: Vec<Position>)
    requires
        map.wf(),
    ensures
        path_plan(map, start, goal, plan@),
{
    match find_path(start, goal, map) {
        Some(path) => path,
        None => Vec::new(),
    }
}

/// Number of `false` entries in `r`.
pub closed spec fn count_false(r: Seq<bool>) -> nat
    decreases r.len(),
{
    if r.len() == 0 {
        0
    } else {
        count_false(r.drop_last()) + if r.last() {
            0nat
        } else {
            1nat
        }
    }
}

/// Number of `false` entries over all rows of `g`.
pub closed spec fn count_unseen(g: Seq<Vec<bool>>) -> nat
    decreases g.len(),
{
    if g.len() == 0 {
        0
    } else {
        count_unseen(g.drop_last()) + count_false(g.last()@)
    }
}

proof fn lemma_count_false_update(r: Seq<bool>, x: int)
    requires
        0 <= x < r.len(),
        !r[x],
    ensures
        count_false(r.update(x, true)) + 1 == count_false(r),
    decreases r.len(),
{
    if x == r.len() - 1 {
        assert(r.update(x, true).drop_last() =~= r.drop_last());
    } else {
        lemma_count_false_update(r.drop_last(), x);
        assert(r.update(x, true).drop_last() =~= r.drop_last().update(x, true));
    }
}

proof fn lemma_count_unseen_update(g: Seq<Vec<bool>>, y: int, row: Vec<bool>)
    requires
        0 <= y < g.len(),
        count_false(row@) + 1 == count_false(g[y]@),
    ensures
        count_unseen(g.update(y, row)) + 1 == count_unseen(g),
    decreases g.len(),
{
    if y == g.len() - 1 {
        assert(g.update(y, row).drop_last() =~= g.drop_last());
    } else {
        lemma_count_unseen_update(g.drop_last(), y, row);
        assert(g.update(y, row).drop_last() =~= g.drop_last().update(y, row));
    }
}

/// Where a walk from `start` ends.
pub open spec fn walk_end(start: Position, w: Seq<Position>) -> Position {
    if w.len() == 0 {
        start
    } else {
        w.last()
    }
}

/// `v` was enqueued at some index whose distance is at most `bound`.
spec fn found(order: Seq<Position>, dist: Seq<int>, v: Position, bound: int) -> bool {
    exists|i: int| 0 <= i < order.len() && #[trigger] order[i] == v && dist[i] <= bound
}

/// The bookkeeping of the breadth-first search: the visiting order, the parent of each
/// visited position, its distance from `start`, and the grid of visited cells.
spec fn bfs_frame(
    map: &WorldMap,
    start: Position,
    order: Seq<Position>,
    parent: Seq<usize>,
    dist: Seq<int>,
    seen: Seq<Vec<bool>>,
) -> bool {
    &&& order.len() > 0
    &&& order[0] == start
    &&& dist.len() == order.len()
    &&& parent.len() == order.len()
    &&& dist[0] == 0
    &&& bfs_parents(map, order, parent, dist)
    &&& bfs_monotone(dist)
    &&& bfs_seen(map, order, dist, seen)
}

/// Each visited position after the first was reached in one step from an earlier one, its
/// parent, and lies one step farther from `start`.
#[verifier::opaque]
spec fn bfs_parents(map: &WorldMap, order: Seq<Position>, parent: Seq<usize>, dist: Seq<int>) -> bool {
    forall|i: int|
        #![trigger parent[i]]
        0 < i < order.len() ==> {
            &&& parent[i] < i
            &&& map.neighbors(order[parent[i] as int]).contains(order[i])
            &&& dist[i] == dist[parent[i] as int] + 1
        }
}

/// Positions are visited in order of distance.
#[verifier::opaque]
spec fn bfs_monotone(dist: Seq<int>) -> bool {
    forall|i: int, j: int| 0 <= i <= j < dist.len() ==> #[trigger] dist[i] <= #[trigger] dist[j]
}

/// The visited grid has the map's shape and marks only positions that were enqueued.
#[verifier::opaque]
spec fn bfs_seen(map: &WorldMap, order: Seq<Position>, dist: Seq<int>, seen: Seq<Vec<bool>>) -> bool {
    &&& seen.len() == map.height
    &&& forall|y: int| 0 <= y < map.height ==> (#[trigger] seen[y])@.len() == map.width
    &&& forall|x: int, y: int|
        #![trigger seen[y]@[x]]
        map.inside_xy(x, y) && seen[y]@[x] ==> found(
            order,
            dist,
            Position { x: x as usize, y: y as usize },
            dist[order.len() - 1],
        )
}

/// Every position processed before `head` had all its neighbors enqueued, none farther than
/// one step beyond it.
#[verifier::opaque]
spec fn bfs_closed(map: &WorldMap, order: Seq<Position>, dist: Seq<int>, head: int) -> bool {
    forall|j: int, v: Position|
        0 <= j < head && #[trigger] map.neighbors(order[j]).contains(v) ==> found(
            order,
            dist,
            v,
            dist[j] + 1,
        )
}

/// The search tree: `tree[i]` is the walk from `start` to `order[i]` along the parent links,
/// one step per unit of distance.
#[verifier::opaque]
spec fn bfs_tree(
    map: &WorldMap,
    start: Position,
    order: Seq<Position>,
    parent: Seq<usize>,
    dist: Seq<int>,
    tree: Seq<Seq<Position>>,
) -> bool {
    &&& tree.len() == order.len()
    &&& tree[0] == Seq::<Position>::empty()
    &&& forall|i: int|
        #![trigger parent[i]]
        0 < i < order.len() ==> tree[i] == tree[parent[i] as int].push(order[i])
    &&& forall|i: int|
        #![trigger tree[i]]
        0 <= i < order.len() ==> tree[i].len() == dist[i] && map.is_path(start, tree[i], order[i])
}

/// Tree walks of one length come in the order in which they turn, and each tree walk turns
/// earlier than every other walk of its length to the same position.
#[verifier::opaque]
spec fn bfs_ranked(
    map: &WorldMap,
    start: Position,
    order: Seq<Position>,
    dist: Seq<int>,
    tree: Seq<Seq<Position>>,
) -> bool {
    &&& forall|i: int, j: int|
        0 <= i < j < order.len() && dist[i] == dist[j] ==> turns_earlier(
            map,
            start,
            #[trigger] tree[i],
            #[trigger] tree[j],
        )
    &&& forall|i: int, q: Seq<Position>|
        0 <= i < order.len() && #[trigger] map.is_path(start, q, order[i]) && q.len() == dist[i] && q
            != tree[i] ==> turns_earlier(map, start, tree[i], q)
}

/// Every visited position on the grid is marked in the visited grid.
#[verifier::opaque]
spec fn bfs_marked(map: &WorldMap, order: Seq<Position>, seen: Seq<Vec<bool>>) -> bool {
    forall|i: int|
        #![trigger order[i]]
        0 <= i < order.len() && map.inside(order[i]) ==> seen[order[i].y as int]@[order[i].x as int]
}

/// The positions enqueued from index `n0` on were all enqueued while processing `head`, each
/// as the neighbor listed at index `slot[..]`, below `k`.
spec fn enqueued_in_round(
    order: Seq<Position>,
    parent: Seq<usize>,
    neighbors: Seq<Position>,
    slot: Seq<int>,
    n0: int,
    head: int,
    k: int,
) -> bool {
    &&& slot.len() == order.len() - n0
    &&& forall|i: int|
        n0 <= i < order.len() ==> #[trigger] parent[i] == head && 0 <= slot[i - n0] < k && neighbors[slot[i
            - n0]] == order[i]
}

/// A path extended by a neighbor of its end is a path to that neighbor.
#[verifier::spinoff_prover]
proof fn lemma_path_push(map: &WorldMap, start: Position, w: Seq<Position>, goal: Position, next: Position)
    requires
        map.is_path(start, w, goal),
        map.neighbors(goal).contains(next),
    ensures
        map.is_path(start, w.push(next), next),
{
    let w2 = w.push(next);
    assert forall|k: int| 0 <= k < w2.len() implies map.neighbors(
        if k == 0 {
            start
        } else {
            w2[k - 1]
        },
    ).contains(#[trigger] w2[k]) by {
        if k < w.len() {
            assert(w2[k] == w[k]);
            if k > 0 {
                assert(w2[k - 1] == w[k - 1]);
            }
        } else if k > 0 {
            assert(w2[k - 1] == w.last());
        }
    }
}

/// The first steps of a path form a path to where they end.
proof fn lemma_path_drop_last(map: &WorldMap, start: Position, q: Seq<Position>, goal: Position)
    requires
        map.is_path(start, q, goal),
        q.len() > 0,
    ensures
        map.is_path(start, q.drop_last(), walk_end(start, q.drop_last())),
        map.neighbors(walk_end(start, q.drop_last())).contains(goal),
        q == q.drop_last().push(goal),
{
    let w = q.drop_last();
    assert forall|k: int| 0 <= k < w.len() implies map.neighbors(
        if k == 0 {
            start
        } else {
            w[k - 1]
        },
    ).contains(#[trigger] w[k]) by {
        assert(w[k] == q[k]);
        if k > 0 {
            assert(w[k - 1] == q[k - 1]);
        }
    }
    let k = q.len() - 1;
    assert(map.neighbors(
        if k == 0 {
            start
        } else {
            q[k - 1]
        },
    ).contains(q[k]));
    if k > 0 {
        assert(w.last() == q[k - 1]);
    }
    assert(q =~= w.push(goal));
}

/// A walk of one length to a position enqueued while `head` is processed turns later than
/// the tree walk the search gives it.
proof fn lemma_ranked_new(
    map: &WorldMap,
    start: Position,
    order: Seq<Position>,
    parent: Seq<usize>,
    dist: Seq<int>,
    seen: Seq<Vec<bool>>,
    tree: Seq<Seq<Position>>,
    head: int,
    next: Position,
    q: Seq<Position>,
)
    requires
        bfs_frame(map, start, order, parent, dist, seen),
        bfs_closed(map, order, dist, head),
        bfs_tree(map, start, order, parent, dist, tree),
        bfs_ranked(map, start, order, dist, tree),
        bfs_marked(map, order, seen),
        0 <= head < order.len(),
        map.neighbors(order[head]).contains(next),
        map.inside(next),
        !seen[next.y as int]@[next.x as int],
        map.is_path(start, q, next),
        q.len() == dist[head] + 1,
        q != tree[head].push(next),
    ensures
        turns_earlier(map, start, tree[head].push(next), q),
{
    reveal(bfs_tree);
    reveal(bfs_ranked);
    reveal(bfs_marked);
    reveal(bfs_monotone);
    let tn = tree[head].push(next);
    let qp = q.drop_last();
    lemma_path_drop_last(map, start, q, next);
    let u = walk_end(start, qp);
    let j = lemma_walk_found(map, start, order, parent, dist, seen, head, qp);
    assert(order[j] == u);
    if j < head {
        reveal(bfs_closed);
        assert(map.neighbors(order[j]).contains(next));
        assert(found(order, dist, next, dist[j] + 1));
        let i = choose|i: int| 0 <= i < order.len() && #[trigger] order[i] == next && dist[i] <= dist[j] + 1;
        assert(seen[order[i].y as int]@[order[i].x as int]);
        assert(false);
    }
    assert(dist[head] <= dist[j]);
    assert(dist[j] == dist[head]);
    assert(tree[head].len() == dist[head]);
    if j == head {
        if qp == tree[head] {
            assert(q == tn);
        } else {
            assert(map.is_path(start, qp, order[j]));
            assert(turns_earlier(map, start, tree[j], qp));
            lemma_turns_earlier_push(map, start, tree[head], qp, next, next);
        }
    } else {
        assert(turns_earlier(map, start, tree[head], tree[j]));
        if qp != tree[j] {
            assert(map.is_path(start, qp, order[j]));
            assert(turns_earlier(map, start, tree[j], qp));
            lemma_turns_earlier_trans(map, start, tree[head], tree[j], qp);
        }
        lemma_turns_earlier_push(map, start, tree[head], qp, next, next);
    }
}

/// Enqueuing a neighbor of the position at `head` extends the search tree by the tree walk
/// to `head` and one step.
#[verifier::spinoff_prover]
proof fn lemma_tree_push(
    map: &WorldMap,
    start: Position,
    order: Seq<Position>,
    parent: Seq<usize>,
    dist: Seq<int>,
    tree: Seq<Seq<Position>>,
    head: int,
    next: Position,
)
    requires
        bfs_tree(map, start, order, parent, dist, tree),
        bfs_parents(map, order, parent, dist),
        parent.len() == order.len(),
        dist.len() == order.len(),
        0 <= head < order.len(),
        head <= usize::MAX,
        map.neighbors(order[head]).contains(next),
    ensures
        bfs_tree(
            map,
            start,
            order.push(next),
            parent.push(head as usize),
            dist.push(dist[head] + 1),
            tree.push(tree[head].push(next)),
        ),
{
    let o2 = order.push(next);
    let p2 = parent.push(head as usize);
    let d2 = dist.push(dist[head] + 1);
    let t2 = tree.push(tree[head].push(next));
    let n = order.len() as int;
    assert(tree.len() == order.len() && tree[0] == Seq::<Position>::empty()) by {
        reveal(bfs_tree);
    }
    assert(map.is_path(start, tree[head], order[head])) by {
        reveal(bfs_tree);
    }
    lemma_path_push(map, start, tree[head], order[head], next);
    assert forall|i: int| #![trigger p2[i]] 0 < i < o2.len() implies t2[i] == t2[p2[i] as int].push(o2[i]) by {
        if i < n {
            assert(parent[i] < i) by {
                reveal(bfs_parents);
            }
            assert(t2[i] == tree[i] && p2[i] == parent[i] && o2[i] == order[i]);
            assert(t2[parent[i] as int] == tree[parent[i] as int]);
            assert(tree[i] == tree[parent[i] as int].push(order[i])) by {
                reveal(bfs_tree);
            }
        } else {
            assert(p2[i] == head && t2[head] == tree[head] && o2[i] == next);
            assert(t2[i] == tree[head].push(next));
        }
    }
    assert forall|i: int| #![trigger t2[i]] 0 <= i < o2.len() implies t2[i].len() == d2[i] && map.is_path(
        start,
        t2[i],
        o2[i],
    ) by {
        if i < n {
            assert(t2[i] == tree[i] && d2[i] == dist[i] && o2[i] == order[i]);
            assert(tree[i].len() == dist[i] && map.is_path(start, tree[i], order[i])) by {
                reveal(bfs_tree);
            }
        } else {
            assert(tree[head].len() == dist[head]) by {
                reveal(bfs_tree);
            }
            assert(t2[i] == tree[head].push(next) && o2[i] == next && d2[i] == dist[head] + 1);
        }
    }
    assert(t2[0] == tree[0]);
    reveal(bfs_tree);
}

/// The tree walk given to a position enqueued while `head` is processed, at index `k` of its
/// neighbor list, turns later than that of every position of its distance enqueued before:
/// those have an earlier parent, or the same one and an earlier-listed neighbor.
#[verifier::spinoff_prover]
proof fn lemma_ranked_after(
    map: &WorldMap,
    start: Position,
    order: Seq<Position>,
    parent: Seq<usize>,
    dist: Seq<int>,
    tree: Seq<Seq<Position>>,
    head: int,
    n0: int,
    slot: Seq<int>,
    k: int,
    next: Position,
    i: int,
)
    requires
        bfs_parents(map, order, parent, dist),
        bfs_tree(map, start, order, parent, dist, tree),
        bfs_ranked(map, start, order, dist, tree),
        parent.len() == order.len(),
        dist.len() == order.len(),
        dist[0] == 0,
        0 <= head < n0,
        n0 <= order.len(),
        forall|j: int| 0 < j < n0 ==> #[trigger] parent[j] < head,
        slot.len() == order.len() - n0,
        forall|j: int|
            n0 <= j < order.len() ==> #[trigger] parent[j] == head && 0 <= slot[j - n0] < k
                && map.neighbors(order[head])[slot[j - n0]] == order[j],
        0 <= k < map.neighbors(order[head]).len(),
        next == map.neighbors(order[head])[k],
        0 <= i < order.len(),
        0 <= dist[head],
        dist[i] == dist[head] + 1,
    ensures
        turns_earlier(map, start, tree[i], tree[head].push(next)),
{
    reveal(bfs_tree);
    reveal(bfs_ranked);
    reveal(bfs_parents);
    let nb = map.neighbors(order[head]);
    assert(i > 0);
    if i < n0 {
        let pi = parent[i] as int;
        assert(parent[i] < head);
        assert(dist[i] == dist[pi] + 1);
        assert(tree[i] == tree[pi].push(order[i]));
        assert(turns_earlier(map, start, tree[pi], tree[head]));
        lemma_turns_earlier_push(map, start, tree[pi], tree[head], order[i], next);
    } else {
        assert(parent[i] == head);
        assert(tree[i] == tree[head].push(order[i]));
        let m = slot[i - n0];
        assert(nb[m] == order[i]);
        assert(listed_before(nb, nb[m], nb[k]));
        assert(map.is_path(start, tree[head], order[head]));
        assert(walk_end(start, tree[head]) == order[head]);
        lemma_turns_earlier_last(map, start, tree[head], order[i], next);
    }
}

/// Enqueuing `next`, an unvisited neighbor of the position at `head` listed at index `k`,
/// keeps the ranking of the search tree.
#[verifier::spinoff_prover]
proof fn lemma_ranked_push(
    map: &WorldMap,
    start: Position,
    order: Seq<Position>,
    parent: Seq<usize>,
    dist: Seq<int>,
    seen: Seq<Vec<bool>>,
    tree: Seq<Seq<Position>>,
    head: int,
    n0: int,
    slot: Seq<int>,
    k: int,
    next: Position,
)
    requires
        bfs_frame(map, start, order, parent, dist, seen),
        bfs_closed(map, order, dist, head),
        bfs_tree(map, start, order, parent, dist, tree),
        bfs_ranked(map, start, order, dist, tree),
        bfs_marked(map, order, seen),
        0 <= head < n0,
        n0 <= order.len(),
        forall|i: int| 0 < i < n0 ==> #[trigger] parent[i] < head,
        slot.len() == order.len() - n0,
        forall|i: int|
            n0 <= i < order.len() ==> #[trigger] parent[i] == head && 0 <= slot[i - n0] < k
                && map.neighbors(order[head])[slot[i - n0]] == order[i],
        0 <= k < map.neighbors(order[head]).len(),
        next == map.neighbors(order[head])[k],
        map.inside(next),
        !seen[next.y as int]@[next.x as int],
    ensures
        bfs_ranked(map, start, order.push(next), dist.push(dist[head] + 1), tree.push(tree[head].push(next))),
{
    let d = dist[head] + 1;
    let tn = tree[head].push(next);
    let o2 = order.push(next);
    let d2 = dist.push(d);
    let t2 = tree.push(tn);
    let n = order.len() as int;
    assert(tree.len() == order.len()) by {
        reveal(bfs_tree);
    }
    assert(map.neighbors(order[head]).contains(next)) by {
        assert(map.neighbors(order[head])[k] == next);
    }
    assert forall|i: int, j: int| 0 <= i < j < o2.len() && d2[i] == d2[j] implies turns_earlier(
        map,
        start,
        #[trigger] t2[i],
        #[trigger] t2[j],
    ) by {
        assert(t2[i] == tree[i] && d2[i] == dist[i]);
        if j < n {
            assert(t2[j] == tree[j] && d2[j] == dist[j]);
            reveal(bfs_ranked);
        } else {
            assert(dist[0] <= dist[head]) by {
                reveal(bfs_monotone);
            }
            lemma_ranked_after(map, start, order, parent, dist, tree, head, n0, slot, k, next, i);
        }
    }
    assert forall|i: int, q: Seq<Position>|
        0 <= i < o2.len() && #[trigger] map.is_path(start, q, o2[i]) && q.len() == d2[i] && q != t2[i] implies turns_earlier(
        map,
        start,
        t2[i],
        q,
    ) by {
        if i < n {
            assert(t2[i] == tree[i] && d2[i] == dist[i] && o2[i] == order[i]);
            reveal(bfs_ranked);
        } else {
            lemma_ranked_new(map, start, order, parent, dist, seen, tree, head, next, q);
        }
    }
    reveal(bfs_ranked);
}

/// Marking a newly enqueued position keeps every visited position on the grid marked.
proof fn lemma_marked_push(
    map: &WorldMap,
    order: Seq<Position>,
    seen: Seq<Vec<bool>>,
    new_seen: Seq<Vec<bool>>,
    next: Position,
)
    requires
        bfs_marked(map, order, seen),
        map.inside(next),
        new_seen == seen.update(next.y as int, new_seen[next.y as int]),
        new_seen[next.y as int]@ == seen[next.y as int]@.update(next.x as int, true),
        seen.len() == map.height,
        forall|y: int| 0 <= y < map.height ==> (#[trigger] seen[y])@.len() == map.width,
    ensures
        bfs_marked(map, order.push(next), new_seen),
{
    reveal(bfs_marked);
    let o2 = order.push(next);
    assert forall|i: int|
        #![trigger o2[i]]
        0 <= i < o2.len() && map.inside(o2[i]) implies new_seen[o2[i].y as int]@[o2[i].x as int] by {
        if i < order.len() {
            let p = order[i];
            assert(o2[i] == p);
            assert(seen[p.y as int]@[p.x as int]);
            if p.y != next.y {
                assert(new_seen[p.y as int] == seen[p.y as int]);
            }
        } else {
            assert(o2[i] == next);
            assert(seen[next.y as int]@.len() == map.width);
        }
    }
}

proof fn lemma_found_push(
    order: Seq<Position>,
    dist: Seq<int>,
    v: Position,
    bound: int,
    p: Position,
    d: int,
)
    requires
        found(order, dist, v, bound),
        dist.len() == order.len(),
    ensures
        found(order.push(p), dist.push(d), v, bound),
{
    let i = choose|i: int| 0 <= i < order.len() && #[trigger] order[i] == v && dist[i] <= bound;
    assert(order.push(p)[i] == v);
}

proof fn lemma_found_weaken(order: Seq<Position>, dist: Seq<int>, v: Position, b1: int, b2: int)
    requires
        found(order, dist, v, b1),
        b1 <= b2,
    ensures
        found(order, dist, v, b2),
{
    let i = choose|i: int| 0 <= i < order.len() && #[trigger] order[i] == v && dist[i] <= b1;
    assert(order[i] == v);
}

proof fn lemma_parents_push(
    map: &WorldMap,
    order: Seq<Position>,
    parent: Seq<usize>,
    dist: Seq<int>,
    head: usize,
    next: Position,
)
    requires
        bfs_parents(map, order, parent, dist),
        order.len() == parent.len(),
        order.len() == dist.len(),
        head < order.len(),
        map.neighbors(order[head as int]).contains(next),
    ensures
        bfs_parents(map, order.push(next), parent.push(head), dist.push(dist[head as int] + 1)),
{
    reveal(bfs_parents);
    let order2 = order.push(next);
    let parent2 = parent.push(head);
    let dist2 = dist.push(dist[head as int] + 1);
    let n = order2.len();
    assert(parent2[n - 1] == head);
    assert forall|i: int|
        #![trigger parent2[i]]
        0 < i < order2.len() implies {
            &&& parent2[i] < i
            &&& map.neighbors(order2[parent2[i] as int]).contains(order2[i])
            &&& dist2[i] == dist2[parent2[i] as int] + 1
        } by {
        if i < n - 1 {
            assert(order[i] == order2[i]);
            assert(order[parent[i] as int] == order2[parent2[i] as int]);
        } else {
            assert(order2[head as int] == order[head as int]);
        }
    }
}

proof fn lemma_monotone_push(dist: Seq<int>, d: int)
    requires
        bfs_monotone(dist),
        forall|i: int| 0 <= i < dist.len() ==> #[trigger] dist[i] <= d,
    ensures
        bfs_monotone(dist.push(d)),
{
    reveal(bfs_monotone);
    let dist2 = dist.push(d);
    assert forall|a: int, b: int| 0 <= a <= b < dist2.len() implies #[trigger] dist2[a] <= #[trigger] dist2[b] by {
        if b == dist.len() {
            if a < dist.len() {
                assert(dist[a] <= d);
            }
        } else {
            assert(dist[a] <= dist[b]);
        }
    }
}

proof fn lemma_seen_mark(
    map: &WorldMap,
    order: Seq<Position>,
    dist: Seq<int>,
    seen: Seq<Vec<bool>>,
    new_seen: Seq<Vec<bool>>,
    next: Position,
    d: int,
)
    requires
        bfs_seen(map, order, dist, seen),
        order.len() == dist.len(),
        order.len() > 0,
        dist[order.len() - 1] <= d,
        map.inside(next),
        new_seen == seen.update(next.y as int, new_seen[next.y as int]),
        new_seen[next.y as int]@ == seen[next.y as int]@.update(next.x as int, true),
    ensures
        bfs_seen(map, order.push(next), dist.push(d), new_seen),
{
    reveal(bfs_seen);
    let order2 = order.push(next);
    let dist2 = dist.push(d);
    let n = order2.len();
    assert(order2[n - 1] == next);
    assert forall|y: int| 0 <= y < map.height implies (#[trigger] new_seen[y])@.len() == map.width by {
        if y != next.y {
            assert(new_seen[y] == seen[y]);
        }
    }
    assert forall|x: int, y: int|
        #![trigger new_seen[y]@[x]]
        map.inside_xy(x, y) && new_seen[y]@[x] implies found(
            order2,
            dist2,
            Position { x: x as usize, y: y as usize },
            dist2[order2.len() - 1],
        ) by {
        let p = Position { x: x as usize, y: y as usize };
        if x == next.x && y == next.y {
            assert(order2[n - 1] == p);
        } else {
            if y == next.y {
                assert(new_seen[y]@[x] == seen[y]@[x]);
            } else {
                assert(new_seen[y] == seen[y]);
            }
            assert(found(order, dist, p, dist[order.len() - 1]));
            lemma_found_push(order, dist, p, dist[order.len() - 1], next, d);
            lemma_found_weaken(order2, dist2, p, dist[order.len() - 1], dist2[n - 1]);
        }
    }
}

proof fn lemma_closed_push(
    map: &WorldMap,
    order: Seq<Position>,
    dist: Seq<int>,
    head: int,
    next: Position,
    d: int,
)
    requires
        bfs_closed(map, order, dist, head),
        order.len() == dist.len(),
        head <= order.len(),
    ensures
        bfs_closed(map, order.push(next), dist.push(d), head),
{
    reveal(bfs_closed);
    let order2 = order.push(next);
    let dist2 = dist.push(d);
    assert forall|j: int, v: Position|
        0 <= j < head && #[trigger] map.neighbors(order2[j]).contains(v) implies found(
            order2,
            dist2,
            v,
            dist2[j] + 1,
        ) by {
        assert(order[j] == order2[j]);
        assert(map.neighbors(order[j]).contains(v));
        lemma_found_push(order, dist, v, dist[j] + 1, next, d);
    }
}

/// A walk from `start` ends at a visited position at no greater distance than its length,
/// as long as the walk is no longer than the distance of the position at `head` (or the
/// queue is exhausted).
proof fn lemma_walk_found(
    map: &WorldMap,
    start: Position,
    order: Seq<Position>,
    parent: Seq<usize>,
    dist: Seq<int>,
    seen: Seq<Vec<bool>>,
    head: int,
    w: Seq<Position>,
) -> (i: int)
    requires
        bfs_frame(map, start, order, parent, dist, seen),
        bfs_closed(map, order, dist, head),
        0 <= head <= order.len(),
        head < order.len() ==> w.len() <= dist[head],
        map.is_walk(start, w),
    ensures
        0 <= i < order.len(),
        order[i] == walk_end(start, w),
        dist[i] <= w.len(),
    decreases w.len(),
{
    reveal(bfs_monotone);
    reveal(bfs_closed);
    if w.len() == 0 {
        0
    } else {
        let w0 = w.drop_last();
        assert(map.is_walk(start, w0)) by {
            assert forall|k: int| 0 <= k < w0.len() implies map.neighbors(
                if k == 0 {
                    start
                } else {
                    w0[k - 1]
                },
            ).contains(#[trigger] w0[k]) by {
                assert(w0[k] == w[k]);
                if k > 0 {
                    assert(w0[k - 1] == w[k - 1]);
                }
            }
        }
        let j = lemma_walk_found(map, start, order, parent, dist, seen, head, w0);
        if head < order.len() && j >= head {
            assert(dist[head] <= dist[j]);
        }
        let v = w.last();
        let k = w.len() - 1;
        assert(map.neighbors(
            if k == 0 {
                start
            } else {
                w[k - 1]
            },
        ).contains(w[k]));
        if k > 0 {
            assert(w0.last() == w[k - 1]);
        }
        assert(map.neighbors(order[j]).contains(v));
        assert(found(order, dist, v, dist[j] + 1));
        let i = choose|i: int| 0 <= i < order.len() && #[trigger] order[i] == v && dist[i] <= dist[j] + 1;
        i
    }
}

/// A walk stays a walk when a neighbor of the old start is put in front of it.
proof fn lemma_walk_prepend(map: &WorldMap, a: Position, b: Position, w: Seq<Position>, goal: Position)
    requires
        map.neighbors(a).contains(b),
        map.is_path(b, w, goal),
    ensures
        map.is_path(a, seq![b] + w, goal),
{
    let w2 = seq![b] + w;
    assert forall|k: int| 0 <= k < w2.len() implies map.neighbors(
        if k == 0 {
            a
        } else {
            w2[k - 1]
        },
    ).contains(#[trigger] w2[k]) by {
        if k > 0 {
            assert(w2[k] == w[k - 1]);
            if k > 1 {
                assert(w2[k - 1] == w[k - 2]);
            }
        }
    }
    if w.len() > 0 {
        assert(w2.last() == w.last());
    }
}

/// Breadth-first search over walkable cells from `start` to `goal`.
///
/// Returns the positions to walk through, `start` excluded and `goal` included: `None`
/// exactly when no path leads to `goal`, the empty list when `start == goal`, and otherwise
/// a path no longer than any other. Among the shortest paths it is the one the search
/// reaches first, trying neighbors up, down, left, right: where it parts from any other
/// shortest path, it steps to the neighbor listed earlier.
#[verifier::spinoff_prover]
#[verifier::rlimit(60)]
pub fn find_path(start: Position, goal: Position, map: &WorldMap) -> (res: Option<Vec<Position>>)
    requires
        map.wf(),
    ensures
        res is Some <==> map.reachable(start, goal),
        res matches Some(p) ==> map.is_shortest_path(start, p@, goal),
        res matches Some(p) ==> forall|q: Seq<Position>|
            #[trigger] map.is_path(start, q, goal) && q.len() == p@.len() && q != p@ ==> turns_earlier(
                map,
                start,
                p@,
                q,
            ),
{
    if start == goal {
        let path: Vec<Position> = Vec::new();
        proof {
            assert forall|other: Seq<Position>| #[trigger]
                map.is_path(start, other, goal) implies path@.len() <= other.len() by {}
            assert(map.is_path(start, path@, goal));
            assert forall|q: Seq<Position>|
                #[trigger] map.is_path(start, q, goal) && q.len() == path@.len() implies q == path@ by {
                assert(q =~= path@);
            }
        }
        return Some(path);
    }
    let mut seen: Vec<Vec<bool>> = Vec::new();
    let mut r: usize = 0;
    while r < map.height
        invariant
            map.wf(),
            r <= map.height,
            seen@.len() == r,
            forall|y: int| 0 <= y < r ==> (#[trigger] seen@[y])@.len() == map.width,
            forall|x: int, y: int| 0 <= y < r && 0 <= x < map.width ==> !(#[trigger] seen@[y]@[x]),
        decreases map.height - r,
    {
        let mut row: Vec<bool> = Vec::new();
        let mut c: usize = 0;
        while c < map.width
            invariant
                c <= map.width,
                row@.len() == c,
                forall|x: int| 0 <= x < c ==> !(#[trigger] row@[x]),
            decreases map.width - c,
        {
            row.push(false);
            c = c + 1;
        }
        seen.push(row);
        r = r + 1;
    }
    let mut order: Vec<Position> = Vec::new();
    let mut parent: Vec<usize> = Vec::new();
    let ghost mut dist: Seq<int> = seq![0int];
    let ghost mut tree: Seq<Seq<Position>> = seq![Seq::<Position>::empty()];
    order.push(start);
    parent.push(0);
    if map.is_inside(start) {
        seen[start.y][start.x] = true;
    }
    proof {
        reveal(bfs_parents);
        reveal(bfs_monotone);
        reveal(bfs_seen);
        reveal(bfs_closed);
        reveal(bfs_tree);
        reveal(bfs_ranked);
        reveal(bfs_marked);
        assert(map.is_path(start, tree[0], start));
        assert forall|i: int, q: Seq<Position>|
            0 <= i < order@.len() && #[trigger] map.is_path(start, q, order@[i]) && q.len() == dist[i]
                && q != tree[i] implies turns_earlier(map, start, tree[i], q) by {
            assert(q =~= tree[i]);
        }
        assert forall|x: int, y: int|
            #![trigger seen@[y]@[x]]
            map.inside_xy(x, y) && seen@[y]@[x] implies found(
                order@,
                dist,
                Position { x: x as usize, y: y as usize },
                dist[order@.len() - 1],
            ) by {
            assert(order@[0] == start);
        }
        assert forall|y: int| 0 <= y < map.height implies (#[trigger] seen@[y])@.len() == map.width by {}
    }
    let mut head: usize = 0;
    while head < order.len()
        invariant
            map.wf(),
            start != goal,
            bfs_frame(map, start, order@, parent@, dist, seen@),
            bfs_closed(map, order@, dist, head as int),
            bfs_tree(map, start, order@, parent@, dist, tree),
            bfs_ranked(map, start, order@, dist, tree),
            bfs_marked(map, order@, seen@),
            forall|i: int| 0 < i < order@.len() ==> #[trigger] parent@[i] < head,
            head <= order@.len(),
            head < order@.len() ==> forall|i: int|
                0 <= i < order@.len() ==> #[trigger] dist[i] <= dist[head as int] + 1,
            forall|j: int| 0 <= j < head ==> #[trigger] order@[j] != goal,
        decreases 2 * count_unseen(seen@) + order@.len() - head,
    {
        let current = order[head];
        if current == goal {
            return Some(
                rebuild_path(map, start, goal, &order, &parent, Ghost(dist), Ghost(seen@), Ghost(tree), head),
            );
        }
        let neighbors = map.get_neighbors(current);
        let ghost measure0 = 2 * count_unseen(seen@) + order@.len();
        let ghost n0 = order@.len() as int;
        let ghost mut slot: Seq<int> = Seq::empty();
        let mut k: usize = 0;
        while k < neighbors.len()
            invariant
                map.wf(),
                start != goal,
                neighbors@ == map.neighbors(current),
                current == order@[head as int],
                head < order@.len(),
                k <= neighbors@.len(),
                bfs_frame(map, start, order@, parent@, dist, seen@),
                bfs_closed(map, order@, dist, head as int),
                bfs_tree(map, start, order@, parent@, dist, tree),
                bfs_ranked(map, start, order@, dist, tree),
                bfs_marked(map, order@, seen@),
                head < n0 <= order@.len(),
                forall|i: int| 0 < i < n0 ==> #[trigger] parent@[i] < head,
                enqueued_in_round(order@, parent@, neighbors@, slot, n0, head as int, k as int),
                forall|i: int| 0 <= i < order@.len() ==> #[trigger] dist[i] <= dist[head as int] + 1,
                forall|j: int| 0 <= j < head ==> #[trigger] order@[j] != goal,
                forall|m: int| 0 <= m < k ==> found(order@, dist, #[trigger] neighbors@[m], dist[head as int] + 1),
                2 * count_unseen(seen@) + order@.len() <= measure0,
            decreases neighbors@.len() - k,
        {
            let next = neighbors[k];
            assert(map.neighbors(current).contains(next)) by {
                assert(neighbors@[k as int] == next);
            }
            assert(map.inside(next));
            proof {
                reveal(bfs_seen);
            }
            if !seen[next.y][next.x] {
                let ghost old_order = order@;
                let ghost old_parent = parent@;
                let ghost old_dist = dist;
                let ghost old_seen = seen@;
                let ghost old_row = seen@[next.y as int];
                let ghost d = dist[head as int] + 1;
                seen[next.y][next.x] = true;
                proof {
                    lemma_count_false_update(old_row@, next.x as int);
                    lemma_count_unseen_update(old_seen, next.y as int, seen@[next.y as int]);
                    assert(seen@ == old_seen.update(next.y as int, seen@[next.y as int]));
                }
                order.push(next);
                parent.push(head);
                proof {
                    assert(neighbors@[k as int] == next);
                    lemma_tree_push(map, start, old_order, old_parent, old_dist, tree, head as int, next);
                    lemma_ranked_push(
                        map,
                        start,
                        old_order,
                        old_parent,
                        old_dist,
                        old_seen,
                        tree,
                        head as int,
                        n0,
                        slot,
                        k as int,
                        next,
                    );
                    lemma_marked_push(map, old_order, old_seen, seen@, next);
                    tree = tree.push(tree[head as int].push(next));
                    dist = dist.push(d);
                    assert forall|i: int| 0 < i < n0 implies #[trigger] parent@[i] < head by {
                        assert(parent@[i] == old_parent[i]);
                    }
                    let old_slot = slot;
                    slot = slot.push(k as int);
                    assert forall|i: int|
                        n0 <= i < order@.len() implies #[trigger] parent@[i] == head && 0 <= slot[i - n0] < k + 1
                            && neighbors@[slot[i - n0]] == order@[i] by {
                        if i < order@.len() - 1 {
                            assert(parent@[i] == old_parent[i] && order@[i] == old_order[i]);
                            assert(slot[i - n0] == old_slot[i - n0]);
                        }
                    }
                    assert(enqueued_in_round(order@, parent@, neighbors@, slot, n0, head as int, k + 1));
                    lemma_parents_push(map, old_order, old_parent, old_dist, head, next);
                    lemma_monotone_push(old_dist, d);
                    lemma_seen_mark(map, old_order, old_dist, old_seen, seen@, next, d);
                    lemma_closed_push(map, old_order, old_dist, head as int, next, d);
                    let n = order@.len();
                    assert(order@[0] == start);
                    assert(dist[0] == 0);
                    assert(bfs_frame(map, start, order@, parent@, dist, seen@));
                    assert forall|i: int| 0 <= i < order@.len() implies #[trigger] dist[i] <= dist[head as int] + 1 by {
                        if i < n - 1 {
                            assert(old_dist[i] <= old_dist[head as int] + 1);
                        }
                    }
                    assert forall|m: int| 0 <= m <= k implies found(
                        order@,
                        dist,
                        #[trigger] neighbors@[m],
                        dist[head as int] + 1,
                    ) by {
                        if m < k {
                            lemma_found_push(old_order, old_dist, neighbors@[m], old_dist[head as int] + 1, next, d);
                        } else {
                            assert(order@[n - 1] == neighbors@[m]);
                        }
                    }
                    assert forall|j: int| 0 <= j < head implies #[trigger] order@[j] != goal by {
                        assert(old_order[j] == order@[j]);
                    }
                }
            } else {
                proof {
                    assert(found(order@, dist, next, dist[order@.len() - 1]));
                    lemma_found_weaken(order@, dist, next, dist[order@.len() - 1], dist[head as int] + 1);
                    assert(enqueued_in_round(order@, parent@, neighbors@, slot, n0, head as int, k + 1));
                }
            }
            k = k + 1;
        }
        proof {
            assert forall|i: int| 0 < i < order@.len() implies #[trigger] parent@[i] < head + 1 by {
                if i >= n0 {
                    assert(parent@[i] == head);
                }
            }
            reveal(bfs_closed);
            reveal(bfs_monotone);
            assert forall|j: int, v: Position|
                0 <= j < head + 1 && #[trigger] map.neighbors(order@[j]).contains(v) implies found(
                    order@,
                    dist,
                    v,
                    dist[j] + 1,
                ) by {
                if j == head {
                    let m = choose|m: int| 0 <= m < neighbors@.len() && neighbors@[m] == v;
                    assert(found(order@, dist, neighbors@[m], dist[head as int] + 1));
                }
            }
            if head + 1 < order@.len() {
                assert forall|i: int| 0 <= i < order@.len() implies #[trigger] dist[i] <= dist[head + 1] + 1 by {
                    assert(dist[head as int] <= dist[head + 1]);
                }
            }
        }
        head = head + 1;
    }
    proof {
        assert forall|path: Seq<Position>| !map.is_path(start, path, goal) by {
            if map.is_path(start, path, goal) {
                let i = lemma_walk_found(map, start, order@, parent@, dist, seen@, head as int, path);
                assert(order@[i] == goal);
            }
        }
    }
    None
}

/// One step back along the parent links extends the reversed path by one position.
#[verifier::spinoff_prover]
#[verifier::rlimit(40)]
proof fn lemma_rebuild_step(
    map: &WorldMap,
    order: Seq<Position>,
    parent: Seq<usize>,
    dist: Seq<int>,
    i: int,
    rev: Seq<Position>,
    goal: Position,
)
    requires
        bfs_parents(map, order, parent, dist),
        0 < i < order.len(),
        map.is_path(order[i], rev.reverse(), goal),
    ensures
        parent[i] < i,
        dist[i] == dist[parent[i] as int] + 1,
        map.is_path(order[parent[i] as int], rev.push(order[i]).reverse(), goal),
{
    reveal(bfs_parents);
    assert(parent[i] < i);
    assert(rev.push(order[i]).reverse() =~= seq![order[i]] + rev.reverse());
    lemma_walk_prepend(map, order[parent[i] as int], order[i], rev.reverse(), goal);
}

/// Once the goal is taken from the queue at index `h`, no path to it is shorter than its
/// distance.
proof fn lemma_no_shorter(
    map: &WorldMap,
    start: Position,
    goal: Position,
    order: Seq<Position>,
    parent: Seq<usize>,
    dist: Seq<int>,
    seen: Seq<Vec<bool>>,
    h: int,
)
    requires
        bfs_frame(map, start, order, parent, dist, seen),
        bfs_closed(map, order, dist, h),
        0 <= h < order.len(),
        order[h] == goal,
        forall|j: int| 0 <= j < h ==> #[trigger] order[j] != goal,
    ensures
        forall|other: Seq<Position>| #[trigger]
            map.is_path(start, other, goal) ==> dist[h] <= other.len(),
{
    assert forall|other: Seq<Position>| #[trigger] map.is_path(start, other, goal) implies dist[h]
        <= other.len() by {
        if other.len() < dist[h] {
            let j = lemma_walk_found(map, start, order, parent, dist, seen, h, other);
            assert(order[j] == goal);
            if j >= h {
                assert(dist[h] <= dist[j]) by {
                    reveal(bfs_monotone);
                }
            }
        }
    }
}

/// Follows the parent links back from the goal, found at index `h` of the search order, and
/// returns the positions from just after `start` to the goal.
#[verifier::spinoff_prover]
#[verifier::rlimit(30)]
fn rebuild_path(
    map: &WorldMap,
    start: Position,
    goal: Position,
    order: &Vec<Position>,
    parent: &Vec<usize>,
    Ghost(dist): Ghost<Seq<int>>,
    Ghost(seen): Ghost<Seq<Vec<bool>>>,
    Ghost(tree): Ghost<Seq<Seq<Position>>>,
    h: usize,
) -> (path: Vec<Position>)
    requires
        map.wf(),
        start != goal,
        bfs_frame(map, start, order@, parent@, dist, seen),
        bfs_tree(map, start, order@, parent@, dist, tree),
        bfs_ranked(map, start, order@, dist, tree),
        bfs_closed(map, order@, dist, h as int),
        h < order@.len(),
        order@[h as int] == goal,
        forall|i: int| 0 <= i < order@.len() ==> #[trigger] dist[i] <= dist[h as int] + 1,
        forall|j: int| 0 <= j < h ==> #[trigger] order@[j] != goal,
    ensures
        map.reachable(start, goal),
        map.is_shortest_path(start, path@, goal),
        forall|q: Seq<Position>|
            #[trigger] map.is_path(start, q, goal) && q.len() == path@.len() && q != path@ ==> turns_earlier(
                map,
                start,
                path@,
                q,
            ),
{
    let mut rev: Vec<Position> = Vec::new();
    let mut i: usize = h;
    proof {
        assert(tree[i as int] + rev@.reverse() =~= tree[h as int]);
    }
    while i != 0
        invariant
            bfs_frame(map, start, order@, parent@, dist, seen),
            bfs_tree(map, start, order@, parent@, dist, tree),
            i < order@.len(),
            h < order@.len(),
            rev@.len() + dist[i as int] == dist[h as int],
            map.is_path(order@[i as int], rev@.reverse(), goal),
            tree[i as int] + rev@.reverse() == tree[h as int],
        decreases i,
    {
        let ghost old_rev = rev@;
        let p = parent[i];
        rev.push(order[i]);
        proof {
            lemma_rebuild_step(map, order@, parent@, dist, i as int, old_rev, goal);
            assert(tree[i as int] == tree[p as int].push(order@[i as int])) by {
                reveal(bfs_tree);
            }
            assert(rev@.reverse() =~= seq![order@[i as int]] + old_rev.reverse());
            assert(tree[p as int] + rev@.reverse() =~= tree[i as int] + old_rev.reverse());
        }
        i = p;
    }
    let mut path: Vec<Position> = Vec::new();
    let mut k: usize = rev.len();
    while k > 0
        invariant
            k <= rev@.len(),
            path@ =~= rev@.reverse().take(rev@.len() - k),
        decreases k,
    {
        k = k - 1;
        path.push(rev[k]);
    }
    proof {
        assert(path@ =~= rev@.reverse());
        lemma_no_shorter(map, start, goal, order@, parent@, dist, seen, h as int);
        reveal(bfs_tree);
        assert(path@ =~= tree[h as int]);
        reveal(bfs_ranked);
    }
    path
}

/// Every position of a planned path is a walkable cell of the map, and it ends at the goal.
pub proof fn law_planned_path_walkable(map: &WorldMap, from: Position, to: Position, plan: Seq<Position>)
    requires
        path_plan(map, from, to, plan),
    ensures
        forall|i: int| 0 <= i < plan.len() ==> map.walkable(#[trigger] plan[i]),
        plan.len() > 0 ==> plan.last() == to,
{
    assert forall|i: int| 0 <= i < plan.len() implies map.walkable(#[trigger] plan[i]) by {
        let prev = if i == 0 {
            from
        } else {
            plan[i - 1]
        };
        assert(map.neighbors(prev).contains(plan[i]));
        lemma_neighbors_walkable(map, prev, plan[i]);
    }
}

/// The neighbors of a position are walkable cells of the map.
pub proof fn lemma_neighbors_walkable(map: &WorldMap, p: Position, q: Position)
    requires
        map.neighbors(p).contains(q),
    ensures
        map.walkable(q),
        p.x < usize::MAX && p.y < usize::MAX ==> p.adjacent(q),
{
    let a = map.step_to(p.x as int, p.y - 1);
    let b = map.step_to(p.x as int, wrapping_next(p.y));
    let c = map.step_to(p.x - 1, p.y as int);
    let d = map.step_to(wrapping_next(p.x), p.y as int);
    let n = map.neighbors(p);
    assert(n == a + b + c + d);
    let k = choose|k: int| 0 <= k < n.len() && n[k] == q;
    if k < a.len() {
        assert(a[k] == q);
    } else if k < a.len() + b.len() {
        assert(b[k - a.len()] == q);
    } else if k < a.len() + b.len() + c.len() {
        assert(c[k - a.len() - b.len()] == q);
    } else {
        assert(d[k - a.len() - b.len() - c.len()] == q);
    }
}

/// A collector's turn reports at most one message: a depletion only while collecting its
/// target, a delivery of one unit under its own number only while unloading; it asks to
/// synchronise exactly when unloading, and keeps its number and known version.
pub proof fn law_collector_reports(
    o: &CollectorRobot,
    om: &WorldMap,
    base: Position,
    known: Seq<KnownResource>,
    n: &CollectorRobot,
    nm: &WorldMap,
    msgs: Seq<RobotMessage>,
    sync: bool,
)
    requires
        collector_turn(o, om, base, known, n, nm, msgs, sync),
    ensures
        sync == (o.state == CollectorState::Unloading),
        msgs.len() <= 1,
        msgs.len() == 1 ==> match msgs[0] {
            RobotMessage::ResourceDepleted { position } => o.state == CollectorState::Collecting
                && o.target == Some(position),
            RobotMessage::ResourceCollected { robot_id, amount, .. } => o.state == CollectorState::Unloading
                && robot_id == o.id && amount == 1,
            _ => false,
        },
        n.id == o.id,
        n.knowledge_version == o.knowledge_version,
{
}

/// On its way, a collector reaches the collecting state exactly when it stands on its
/// target, and gives up only where it stands, dropping the target; on the way back, it
/// unloads exactly when it stands on the base.
pub proof fn law_collector_arrival(
    o: &CollectorRobot,
    om: &WorldMap,
    base: Position,
    known: Seq<KnownResource>,
    n: &CollectorRobot,
    nm: &WorldMap,
    msgs: Seq<RobotMessage>,
    sync: bool,
)
    requires
        collector_turn(o, om, base, known, n, nm, msgs, sync),
    ensures
        o.state == CollectorState::MovingToResource ==> match o.target {
            Some(t) => {
                &&& (n.state == CollectorState::Collecting <==> n.position == t)
                &&& (n.state == CollectorState::Idle ==> n.target is None && n.position == o.position)
            },
            None => true,
        },
        o.state == CollectorState::ReturningToBase ==> {
            &&& (n.state == CollectorState::ReturningToBase || n.state == CollectorState::Unloading)
            &&& (n.state == CollectorState::Unloading <==> n.position == base)
        },
{
}

/// Walking a path one step: the rest of a walk from `p` is a walk from its first position.
proof fn lemma_walk_rest(map: &WorldMap, p: Position, w: Seq<Position>)
    requires
        map.is_walk(p, w),
        w.len() > 0,
    ensures
        map.neighbors(p).contains(w[0]),
        map.is_walk(w[0], w.drop_first()),
{
    assert(map.neighbors(p).contains(w[0]));
    let r = w.drop_first();
    assert forall|i: int| 0 <= i < r.len() implies map.neighbors(
        if i == 0 {
            w[0]
        } else {
            r[i - 1]
        },
    ).contains(#[trigger] r[i]) by {
        assert(r[i] == w[i + 1]);
        assert(map.neighbors(w[i]).contains(w[i + 1]));
        if i > 0 {
            assert(r[i - 1] == w[i]);
        }
    }
}

/// A planned path is a walk from where it was planned.
proof fn lemma_plan_is_walk(map: &WorldMap, from: Position, to: Position, plan: Seq<Position>)
    requires
        path_plan(map, from, to, plan),
    ensures
        map.is_walk(from, plan),
{
}

/// A collector whose remaining path is a walk from where it stands moves, in one turn,
/// only to a walkable cell next to it (a step off the largest coordinate wraps round to
/// 0), and only while heading for its target or the base;
/// its remaining path is again a walk from where it then stands; and the map changes only
/// while it collects. With a fresh collector (empty path) and `apply_knowledge` (which
/// keeps or empties the path), this holds turn after turn.
pub proof fn law_collector_steps_along_walks(
    o: &CollectorRobot,
    om: &WorldMap,
    base: Position,
    known: Seq<KnownResource>,
    n: &CollectorRobot,
    nm: &WorldMap,
    msgs: Seq<RobotMessage>,
    sync: bool,
)
    requires
        collector_turn(o, om, base, known, n, nm, msgs, sync),
        o.walks_on(om),
    ensures
        n.walks_on(nm),
        steps_to_next_cell(o, om, n),
        n.position != o.position ==> (o.state == CollectorState::MovingToResource || o.state
            == CollectorState::ReturningToBase),
        o.state != CollectorState::Collecting ==> *nm == *om,
{
    if n.position != o.position {
        lemma_walk_rest(om, o.position, o.path@);
        lemma_neighbors_walkable(om, o.position, n.position);
    }
    match o.state {
        CollectorState::Idle => {
            if known.len() > 0 && o.position != known[0].position {
                lemma_plan_is_walk(om, o.position, known[0].position, n.path@);
            }
        },
        CollectorState::MovingToResource => {
            if let Some(t) = o.target {
                if o.position != t {
                    if o.path@.len() > 0 {
                        lemma_walk_rest(om, o.position, o.path@);
                    } else {
                        lemma_plan_is_walk(om, o.position, t, n.path@);
                    }
                }
            }
        },
        CollectorState::Collecting => {
            if let Some(t) = o.target {
                if om.holds_resource(t) {
                    lemma_plan_is_walk(nm, o.position, base, n.path@);
                }
            }
        },
        CollectorState::ReturningToBase => {
            if o.position != base {
                if o.path@.len() > 0 {
                    lemma_walk_rest(om, o.position, o.path@);
                } else {
                    lemma_plan_is_walk(om, o.position, base, n.path@);
                }
            }
        },
        CollectorState::Unloading => {},
    }
}

/// Taking a unit never changes which cells are walkable, so every walk on the map before
/// is still a walk after.
pub proof fn law_collection_keeps_walks(
    om: &WorldMap,
    t: Position,
    nm: &WorldMap,
    r: Option<(ResourceType, bool)>,
    p: Position,
    w: Seq<Position>,
)
    requires
        collect_outcome(om, t, nm, r),
        om.is_walk(p, w),
    ensures
        nm.is_walk(p, w),
{
    assert forall|x: int, y: int| #[trigger] nm.step_to(x, y) == om.step_to(x, y) by {
        if om.inside_xy(x, y) && om.holds_resource(t) {
            assert(nm.cell(x, y).walkable() == om.cell(x, y).walkable());
        }
    }
    assert forall|q: Position| #[trigger] nm.neighbors(q) == om.neighbors(q) by {
        assert(nm.step_to(q.x as int, q.y - 1) == om.step_to(q.x as int, q.y - 1));
        assert(nm.step_to(q.x as int, wrapping_next(q.y)) == om.step_to(q.x as int, wrapping_next(q.y)));
        assert(nm.step_to(q.x - 1, q.y as int) == om.step_to(q.x - 1, q.y as int));
        assert(nm.step_to(wrapping_next(q.x), q.y as int) == om.step_to(wrapping_next(q.x), q.y as int));
    }
    assert forall|i: int| 0 <= i < w.len() implies nm.neighbors(
        if i == 0 {
            p
        } else {
            w[i - 1]
        },
    ).contains(#[trigger] w[i]) by {
        let prev = if i == 0 {
            p
        } else {
            w[i - 1]
        };
        assert(nm.neighbors(prev) == om.neighbors(prev));
    }
}

/// The kind of the deposit in cell `c`, if it holds one.
pub open spec fn deposit_kind(c: Cell) -> Option<ResourceType> {
    match c.cell_type {
        CellType::Resource(r) => Some(r.resource_type),
        _ => None,
    }
}

/// A unit is delivered as the kind of the deposit it was taken from: taking a unit makes
/// the collector carry the deposit's kind; no other turn but unloading changes what it
/// carries; and unloading reports exactly one unit of the carried kind, from this collector,
/// and leaves it carrying nothing.
pub proof fn law_delivery_is_of_the_collected_kind(
    o: &CollectorRobot,
    om: &WorldMap,
    base: Position,
    known: Seq<KnownResource>,
    n: &CollectorRobot,
    nm: &WorldMap,
    msgs: Seq<RobotMessage>,
    sync: bool,
)
    requires
        collector_turn(o, om, base, known, n, nm, msgs, sync),
    ensures
        o.state == CollectorState::Collecting && o.target is Some && om.inside(o.target->0)
            && deposit_kind(om.at(o.target->0)) is Some ==> n.carried_resource == deposit_kind(
            om.at(o.target->0),
        ),
        o.state != CollectorState::Collecting && o.state != CollectorState::Unloading ==> n.carried_resource
            == o.carried_resource,
        o.state == CollectorState::Unloading ==> n.carried_resource is None,
        o.state == CollectorState::Unloading && o.carried_resource is Some ==> msgs == seq![
            RobotMessage::ResourceCollected {
                robot_id: o.id,
                resource_type: o.carried_resource->0,
                amount: 1,
            },
        ],
        o.state == CollectorState::Unloading && o.carried_resource is None ==> msgs.len() == 0,
        o.state != CollectorState::Unloading ==> forall|i: int|
            0 <= i < msgs.len() ==> !(#[trigger] msgs[i] is ResourceCollected),
{
    if o.state == CollectorState::Collecting {
        if let Some(t) = o.target {
            if om.holds_resource(t) {
                if msgs.len() > 0 {
                    assert(msgs[0] is ResourceDepleted);
                }
            }
        }
    }
}

/// Reading the base's history changes only a collector on its way to a deposit the history
/// reports depleted; any other collector, one carrying a unit back to the base among them,
/// keeps its state, target and path. Position, cargo and number never change, and the
/// version read is recorded.
pub proof fn law_knowledge_stops_only_approaches(
    o: &CollectorRobot,
    news: Seq<RobotMessage>,
    version: usize,
    n: &CollectorRobot,
)
    requires
        knowledge_applied(o, news, version, n),
    ensures
        n.knowledge_version == version,
        n.id == o.id,
        n.position == o.position,
        n.carried_resource == o.carried_resource,
        o.state != CollectorState::MovingToResource ==> {
            &&& n.state == o.state
            &&& n.target == o.target
            &&& n.path@ == o.path@
        },
        o.state == CollectorState::MovingToResource && o.target is Some && news.contains(
            RobotMessage::ResourceDepleted { position: o.target->0 },
        ) ==> n.state == CollectorState::Idle && n.target is None && n.path@.len() == 0,
        !news.contains(RobotMessage::ResourceDepleted { position: o.target->0 }) || o.target is None ==> {
            &&& n.state == o.state
            &&& n.target == o.target
            &&& n.path@ == o.path@
        },
{
}

} // verus!
