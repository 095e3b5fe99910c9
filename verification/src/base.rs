use std::collections::VecDeque;
use vstd::prelude::*;
use vstd::slice::slice_subrange;
use crate::message::RobotMessage;
use crate::position::{contains_position, Position};
use crate::resource::ResourceType;

verus! {

/// How many log lines the base keeps.
pub const MAX_LOGS: usize = 50;

/// A deposit the base knows of.
#[derive(Debug, Clone, Copy, PartialEq, Eq, Structural)]
pub struct KnownResource {
    pub position: Position,
    pub resource_type: ResourceType,
}

/// The base: what it knows of the map, the history of discoveries it hands to robots, its
/// log, and the units delivered to it.
///
/// `known_obstacles` and `reserved_targets` are sets: no position occurs twice in them.
/// No two entries of `known_resources` share a position.
pub struct Base {
    pub position: Position,
    pub known_obstacles: Vec<Position>,
    pub known_resources: Vec<KnownResource>,
    pub reserved_targets: Vec<Position>,
    pub history: Vec<RobotMessage>,
    pub logs: VecDeque<String>,
    pub energy: u32,
    pub crystals: u32,
}

/// The contents of a base as mathematical values.
pub struct BaseState {
    pub position: Position,
    pub known_obstacles: Seq<Position>,
    pub known_resources: Seq<KnownResource>,
    pub reserved_targets: Seq<Position>,
    pub history: Seq<RobotMessage>,
    pub logs: Seq<Seq<char>>,
    pub energy: int,
    pub crystals: int,
}

impl View for Base {
    type V = BaseState;

    open spec fn view(&self) -> BaseState {
        BaseState {
            position: self.position,
            known_obstacles: self.known_obstacles@,
            known_resources: self.known_resources@,
            reserved_targets: self.reserved_targets@,
            history: self.history@,
            logs: self.logs@.map_values(|s: String| s@),
            energy: self.energy as int,
            crystals: self.crystals as int,
        }
    }
}

/// No element occurs twice in `s`.
pub open spec fn distinct<T>(s: Seq<T>) -> bool {
    forall|i: int, j: int| 0 <= i < j < s.len() ==> s[i] != s[j]
}

/// No two deposits of `s` lie at the same position.
pub open spec fn distinct_positions(s: Seq<KnownResource>) -> bool {
    forall|i: int, j: int| 0 <= i < j < s.len() ==> s[i].position != s[j].position
}

/// Some deposit of `s` lies at `p`.
pub open spec fn has_position(s: Seq<KnownResource>, p: Position) -> bool {
    exists|i: int| 0 <= i < s.len() && #[trigger] s[i].position == p
}

/// `s` without the deposits at `p`, in the same order.
pub open spec fn without_position(s: Seq<KnownResource>, p: Position) -> Seq<KnownResource>
    decreases s.len(),
{
    if s.len() == 0 {
        s
    } else {
        without_position(s.drop_last(), p) + if s.last().position == p {
            Seq::<KnownResource>::empty()
        } else {
            seq![s.last()]
        }
    }
}

/// The decimal digits of `n`, as `{}` prints an unsigned integer.
pub open spec fn decimal(n: nat) -> Seq<char>
    decreases n,
{
    if n < 10 {
        seq![(48 + n) as char]
    } else {
        decimal(n / 10).push((48 + n % 10) as char)
    }
}

/// `logs` with `line` appended, keeping only the last `MAX_LOGS` lines.
pub open spec fn push_log(logs: Seq<Seq<char>>, line: Seq<char>) -> Seq<Seq<char>> {
    let l = logs.push(line);
    if l.len() > MAX_LOGS {
        l.drop_first()
    } else {
        l
    }
}

/// The log line `[Tour <turn>] <text>`.
pub open spec fn log_line_text(turn: u32, text: Seq<char>) -> Seq<char> {
    "[Tour "@ + decimal(turn as nat) + "] "@ + text
}

/// How `{:?}` prints the position `(x, y)`: the `Debug` form that `derive` writes, whose
/// layout std leaves unspecified.
pub uninterp spec fn position_debug(x: usize, y: usize) -> Seq<char>;

/// How `{:?}` prints a kind of deposit: the `Debug` form that `derive` writes, whose layout
/// std leaves unspecified.
pub uninterp spec fn kind_debug(kind: ResourceType) -> Seq<char>;

/// The text logged when an obstacle at `(x, y)` is first reported.
pub open spec fn obstacle_found_text(x: usize, y: usize) -> Seq<char> {
    "Nouvel obstacle découvert en "@ + position_debug(x, y)
}

/// The text logged when a deposit of `kind` at `(x, y)` is first reported.
pub open spec fn resource_found_text(kind: ResourceType, x: usize, y: usize) -> Seq<char> {
    "Nouvelle ressource "@ + kind_debug(kind) + " découverte en "@ + position_debug(x, y)
}

/// The text logged when robot `robot_id` delivers `amount` units of `kind`, with the totals
/// after the delivery.
pub open spec fn delivery_text(
    robot_id: usize,
    amount: u32,
    kind: ResourceType,
    energy: u32,
    crystals: u32,
) -> Seq<char> {
    "Robot "@ + decimal(robot_id as nat) + " a déposé "@ + decimal(amount as nat) + " unité(s) de "@
        + kind_debug(kind) + " (énergie="@ + decimal(energy as nat) + ", cristaux="@ + decimal(
        crystals as nat,
    ) + ")"@
}

/// The text logged when the deposit at `(x, y)` is reported empty.
pub open spec fn depleted_text(x: usize, y: usize) -> Seq<char> {
    "Ressource en "@ + position_debug(x, y) + " épuisée, retirée de la liste"@
}

/// Builds `[Tour <turn>] <text>` with `format!("[Tour {}] {}", turn, text)`: `{}` prints the
/// turn in decimal and the text as it is.
#[verifier::external_body]
fn format_log_line(turn: u32, text: String) -> (line: String)
    ensures
        line@ == log_line_text(turn, text@),
{
    format!("[Tour {}] {}", turn, text)
}

/// Builds the obstacle report with `format!`: the fixed words, then the position as `{:?}`
/// prints it (named `position_debug`).
#[verifier::external_body]
fn format_obstacle_found(position: Position) -> (text: String)
    ensures
        text@ == "Nouvel obstacle découvert en "@ + position_debug(position.x, position.y),
{
    format!("Nouvel obstacle découvert en {:?}", position)
}

/// Builds the deposit report with `format!`: the fixed words, the kind and the position as
/// `{:?}` prints them (named `kind_debug` and `position_debug`).
#[verifier::external_body]
fn format_resource_found(resource_type: ResourceType, position: Position) -> (text: String)
    ensures
        text@ == "Nouvelle ressource "@ + kind_debug(resource_type) + " découverte en "@ + position_debug(
            position.x,
            position.y,
        ),
{
    format!("Nouvelle ressource {:?} découverte en {:?}", resource_type, position)
}

/// Builds the delivery report with `format!`: the fixed words, the numbers in decimal as
/// `{}` prints them, and the kind as `{:?}` prints it (named `kind_debug`).
#[verifier::external_body]
fn format_delivery(
    robot_id: usize,
    amount: u32,
    resource_type: ResourceType,
    energy: u32,
    crystals: u32,
) -> (text: String)
    ensures
        text@ == "Robot "@ + decimal(robot_id as nat) + " a déposé "@ + decimal(amount as nat)
            + " unité(s) de "@ + kind_debug(resource_type) + " (énergie="@ + decimal(energy as nat)
            + ", cristaux="@ + decimal(crystals as nat) + ")"@,
{
    format!(
        "Robot {} a déposé {} unité(s) de {:?} (énergie={}, cristaux={})",
        robot_id,
        amount,
        resource_type,
        energy,
        crystals
    )
}

/// Builds the depletion report with `format!`: the fixed words around the position as
/// `{:?}` prints it (named `position_debug`).
#[verifier::external_body]
fn format_depleted(position: Position) -> (text: String)
    ensures
        text@ == "Ressource en "@ + position_debug(position.x, position.y) + " épuisée, retirée de la liste"@,
{
    format!("Ressource en {:?} épuisée, retirée de la liste", position)
}

/// Units of `kind` that the messages deliver.
pub open spec fn delivered(messages: Seq<RobotMessage>, kind: ResourceType) -> int
    decreases messages.len(),
{
    if messages.len() == 0 {
        0
    } else {
        delivered(messages.drop_last(), kind) + match messages.last() {
            RobotMessage::ResourceCollected { resource_type, amount, .. } => if resource_type
                == kind {
                amount as int
            } else {
                0
            },
            _ => 0,
        }
    }
}

impl BaseState {
    /// The state after logging `text` at `turn`.
    pub open spec fn logged(self, turn: u32, text: Seq<char>) -> BaseState {
        BaseState { logs: push_log(self.logs, log_line_text(turn, text)), ..self }
    }

    /// The state after handling one message at `turn`.
    pub open spec fn handle(self, message: RobotMessage, turn: u32) -> BaseState {
        match message {
            RobotMessage::ObstacleDiscovered { position } => {
                if self.known_obstacles.contains(position) {
                    self
                } else {
                    BaseState {
                        known_obstacles: self.known_obstacles.push(position),
                        history: self.history.push(message),
                        ..self.logged(turn, obstacle_found_text(position.x, position.y))
                    }
                }
            },
            RobotMessage::ResourceDiscovered { position, resource_type } => {
                if has_position(self.known_resources, position) {
                    self
                } else {
                    BaseState {
                        known_resources: self.known_resources.push(
                            KnownResource { position, resource_type },
                        ),
                        history: self.history.push(message),
                        ..self.logged(
                            turn,
                            resource_found_text(resource_type, position.x, position.y),
                        )
                    }
                }
            },
            RobotMessage::ResourceCollected { robot_id, resource_type, amount } => {
                let energy = if resource_type == ResourceType::Energy {
                    self.energy + amount
                } else {
                    self.energy
                };
                let crystals = if resource_type == ResourceType::Crystal {
                    self.crystals + amount
                } else {
                    self.crystals
                };
                BaseState {
                    energy,
                    crystals,
                    ..self.logged(
                        turn,
                        delivery_text(robot_id, amount, resource_type, energy as u32, crystals as u32),
                    )
                }
            },
            RobotMessage::ResourceDepleted { position } => {
                BaseState {
                    known_resources: without_position(self.known_resources, position),
                    history: self.history.push(message),
                    ..self.logged(turn, depleted_text(position.x, position.y))
                }
            },
        }
    }

    /// The state after handling `messages` in order at `turn`.
    pub open spec fn handle_all(self, messages: Seq<RobotMessage>, turn: u32) -> BaseState
        decreases messages.len(),
    {
        if messages.len() == 0 {
            self
        } else {
            self.handle_all(messages.drop_last(), turn).handle(messages.last(), turn)
        }
    }
}

impl Base {
    /// Known obstacles and reserved targets hold no position twice, known deposits lie at
    /// distinct positions, and at most `MAX_LOGS` log lines are kept.
    pub open spec fn wf(&self) -> bool {
        &&& distinct(self.known_obstacles@)
        &&& distinct_positions(self.known_resources@)
        &&& distinct(self.reserved_targets@)
        &&& self.logs@.len() <= MAX_LOGS
    }

    /// A base at `position` that knows nothing and holds nothing.
    pub fn new(position: Position) -> (base: Base)
        ensures
            base.wf(),
            base@ == (BaseState {
                position,
                known_obstacles: Seq::empty(),
                known_resources: Seq::empty(),
                reserved_targets: Seq::empty(),
                history: Seq::empty(),
                logs: Seq::empty(),
                energy: 0,
                crystals: 0,
            }),
    {
        let base = Base {
            position,
            known_obstacles: Vec::new(),
            known_resources: Vec::new(),
            reserved_targets: Vec::new(),
            history: Vec::new(),
            logs: VecDeque::new(),
            energy: 0,
            crystals: 0,
        };
        assert(base@.logs =~= Seq::<Seq<char>>::empty());
        base
    }

    /// Appends `[Tour <turn>] <text>` to the log, dropping the oldest line beyond `MAX_LOGS`.
    pub fn log(&mut self, turn: u32, text: String)
        requires
            old(self).wf(),
        ensures
            final(self).wf(),
            final(self)@ == old(self)@.logged(turn, text@),
    {
        let ghost before = self.logs@;
        let line = format_log_line(turn, text);
        self.logs.push_back(line);
        if self.logs.len() > MAX_LOGS {
            self.logs.pop_front();
        }
        assert(self@.logs =~= push_log(before.map_values(|s: String| s@), log_line_text(turn, text@)));
    }

    /// Handles the messages in order: new obstacles and deposits are recorded, logged and
    /// appended to the history; deliveries are added to the totals and logged; a depleted
    /// deposit is forgotten, logged and appended to the history.
    pub fn process_messages(&mut self, messages: Vec<RobotMessage>, turn: u32)
        requires
            old(self).wf(),
            old(self).energy + delivered(messages@, ResourceType::Energy) <= u32::MAX,
            old(self).crystals + delivered(messages@, ResourceType::Crystal) <= u32::MAX,
        ensures
            final(self).wf(),
            final(self)@ == old(self)@.handle_all(messages@, turn),
    {
        let ghost start = self@;
        let mut i: usize = 0;
        while i < messages.len()
            invariant
                self.wf(),
                i <= messages@.len(),
                self@ == start.handle_all(messages@.take(i as int), turn),
                start.energy + delivered(messages@, ResourceType::Energy) <= u32::MAX,
                start.crystals + delivered(messages@, ResourceType::Crystal) <= u32::MAX,
            decreases messages@.len() - i,
        {
            let message = messages[i];
            proof {
                assert(messages@.take(i + 1).drop_last() =~= messages@.take(i as int));
                lemma_handle_all_totals(start, messages@.take(i as int), turn);
                lemma_delivered_prefix(messages@, i as int + 1);
            }
            self.handle(message, turn);
            i = i + 1;
        }
        assert(messages@.take(messages@.len() as int) =~= messages@);
    }

    /// Handles one message.
    fn handle(&mut self, message: RobotMessage, turn: u32)
        requires
            old(self).wf(),
            message matches RobotMessage::ResourceCollected { resource_type, amount, .. } ==> (
            resource_type == ResourceType::Energy ==> old(self).energy + amount <= u32::MAX) && (
            resource_type == ResourceType::Crystal ==> old(self).crystals + amount <= u32::MAX),
        ensures
            final(self).wf(),
            final(self)@ == old(self)@.handle(message, turn),
    {
        match message {
            RobotMessage::ObstacleDiscovered { position } => {
                if !contains_position(&self.known_obstacles, position) {
                    self.known_obstacles.push(position);
                    self.log(turn, format_obstacle_found(position));
                    self.history.push(RobotMessage::ObstacleDiscovered { position });
                }
            },
            RobotMessage::ResourceDiscovered { position, resource_type } => {
                if !has_resource_at(&self.known_resources, position) {
                    self.log(turn, format_resource_found(resource_type, position));
                    self.known_resources.push(KnownResource { position, resource_type });
                    self.history.push(RobotMessage::ResourceDiscovered { position, resource_type });
                }
            },
            RobotMessage::ResourceCollected { robot_id, resource_type, amount } => {
                match resource_type {
                    ResourceType::Energy => self.energy = self.energy + amount,
                    ResourceType::Crystal => self.crystals = self.crystals + amount,
                }
                let text = format_delivery(robot_id, amount, resource_type, self.energy, self.crystals);
                self.log(turn, text);
            },
            RobotMessage::ResourceDepleted { position } => {
                remove_resources_at(&mut self.known_resources, position);
                self.log(turn, format_depleted(position));
                self.history.push(RobotMessage::ResourceDepleted { position });
            },
        }
    }

    /// True when adding the units that `messages` deliver keeps both totals within `u32`,
    /// which `process_messages` requires.
    pub fn totals_fit(&self, messages: &Vec<RobotMessage>) -> (b: bool)
        ensures
            b == (self.energy + delivered(messages@, ResourceType::Energy) <= u32::MAX && self.crystals
                + delivered(messages@, ResourceType::Crystal) <= u32::MAX),
    {
        let mut energy: u64 = self.energy as u64;
        let mut crystals: u64 = self.crystals as u64;
        let mut i: usize = 0;
        while i < messages.len()
            invariant
                i <= messages@.len(),
                energy == self.energy + delivered(messages@.take(i as int), ResourceType::Energy),
                crystals == self.crystals + delivered(messages@.take(i as int), ResourceType::Crystal),
                energy <= u32::MAX,
                crystals <= u32::MAX,
            decreases messages@.len() - i,
        {
            proof {
                assert(messages@.take(i + 1).drop_last() =~= messages@.take(i as int));
                lemma_delivered_prefix(messages@, i + 1);
                lemma_delivered_monotone(messages@, i + 1);
            }
            if let RobotMessage::ResourceCollected { resource_type, amount, .. } = messages[i] {
                match resource_type {
                    ResourceType::Energy => {
                        energy = energy + amount as u64;
                        if energy > u32::MAX as u64 {
                            return false;
                        }
                    },
                    ResourceType::Crystal => {
                        crystals = crystals + amount as u64;
                        if crystals > u32::MAX as u64 {
                            return false;
                        }
                    },
                }
            }
            i = i + 1;
        }
        assert(messages@.take(messages@.len() as int) =~= messages@);
        true
    }

    /// The history entries from `version` on; none when `version` is past its end.
    pub fn get_knowledge_since(&self, version: usize) -> (r: &[RobotMessage])
        ensures
            r@ == (if version < self.history@.len() {
                self.history@.subrange(version as int, self.history@.len() as int)
            } else {
                Seq::empty()
            }),
    {
        let len = self.history.len();
        if version < len {
            slice_subrange(self.history.as_slice(), version, len)
        } else {
            slice_subrange(self.history.as_slice(), len, len)
        }
    }

    /// The number of history entries.
    pub fn get_current_version(&self) -> (v: usize)
        ensures
            v == self.history@.len(),
    {
        self.history.len()
    }
}

/// True when some deposit of `s` lies at `p`.
fn has_resource_at(s: &Vec<KnownResource>, p: Position) -> (b: bool)
    ensures
        b == has_position(s@, p),
{
    let mut i: usize = 0;
    while i < s.len()
        invariant
            i <= s@.len(),
            forall|j: int| 0 <= j < i ==> s@[j].position != p,
        decreases s@.len() - i,
    {
        if s[i].position == p {
            assert(s@[i as int].position == p);
            return true;
        }
        i = i + 1;
    }
    false
}

/// Removes every deposit at `p`, keeping the others in order.
fn remove_resources_at(s: &mut Vec<KnownResource>, p: Position)
    requires
        distinct_positions(old(s)@),
    ensures
        final(s)@ == without_position(old(s)@, p),
        distinct_positions(final(s)@),
{
    let mut kept: Vec<KnownResource> = Vec::new();
    let mut i: usize = 0;
    while i < s.len()
        invariant
            i <= s@.len(),
            kept@ == without_position(s@.take(i as int), p),
        decreases s@.len() - i,
    {
        let r = s[i];
        proof {
            assert(s@.take(i + 1).drop_last() =~= s@.take(i as int));
        }
        if r.position != p {
            kept.push(r);
        }
        proof {
            assert(s@[i as int] == r);
        }
        i = i + 1;
    }
    proof {
        assert(s@.take(s@.len() as int) =~= s@);
        lemma_without_position_distinct(s@, p);
    }
    *s = kept;
}

proof fn lemma_without_position_distinct(s: Seq<KnownResource>, p: Position)
    requires
        distinct_positions(s),
    ensures
        distinct_positions(without_position(s, p)),
        forall|k: int|
            #![trigger without_position(s, p)[k]]
            0 <= k < without_position(s, p).len() ==> exists|j: int|
                0 <= j < s.len() && #[trigger] s[j] == without_position(s, p)[k],
    decreases s.len(),
{
    if s.len() > 0 {
        let s0 = s.drop_last();
        assert(distinct_positions(s0));
        lemma_without_position_distinct(s0, p);
        let w0 = without_position(s0, p);
        let w = without_position(s, p);
        assert forall|k: int| #![trigger w[k]] 0 <= k < w.len() implies exists|j: int|
            0 <= j < s.len() && #[trigger] s[j] == w[k] by {
            if k < w0.len() {
                let j = choose|j: int| 0 <= j < s0.len() && #[trigger] s0[j] == w0[k];
                assert(s[j] == w[k]);
            } else {
                assert(s[s.len() - 1] == w[k]);
            }
        }
        assert forall|a: int, b: int| 0 <= a < b < w.len() implies w[a].position != w[b].position by {
            if b >= w0.len() {
                let ja = choose|j: int| 0 <= j < s0.len() && #[trigger] s0[j] == w0[a];
                assert(s[ja] == w[a]);
                assert(w[b] == s.last());
            }
        }
    }
}

/// Handling messages adds to each total exactly the units of that kind they deliver.
pub proof fn lemma_handle_all_totals(s: BaseState, messages: Seq<RobotMessage>, turn: u32)
    ensures
        s.handle_all(messages, turn).energy == s.energy + delivered(messages, ResourceType::Energy),
        s.handle_all(messages, turn).crystals == s.crystals + delivered(messages, ResourceType::Crystal),
    decreases messages.len(),
{
    if messages.len() > 0 {
        lemma_handle_all_totals(s, messages.drop_last(), turn);
    }
}

/// No prefix of the messages delivers a negative number of units.
proof fn lemma_delivered_monotone(messages: Seq<RobotMessage>, i: int)
    requires
        0 <= i <= messages.len(),
    ensures
        delivered(messages.take(i), ResourceType::Energy) >= 0,
        delivered(messages.take(i), ResourceType::Crystal) >= 0,
    decreases i,
{
    if i > 0 {
        assert(messages.take(i).drop_last() =~= messages.take(i - 1));
        lemma_delivered_monotone(messages, i - 1);
    }
}

/// The units delivered by a prefix are at most those delivered by the whole.
proof fn lemma_delivered_prefix(messages: Seq<RobotMessage>, i: int)
    requires
        0 <= i <= messages.len(),
    ensures
        delivered(messages.take(i), ResourceType::Energy) <= delivered(messages, ResourceType::Energy),
        delivered(messages.take(i), ResourceType::Crystal) <= delivered(messages, ResourceType::Crystal),
    decreases messages.len(),
{
    if i < messages.len() {
        assert(messages.drop_last().take(i) =~= messages.take(i));
        lemma_delivered_prefix(messages.drop_last(), i);
    } else {
        assert(messages.take(i) =~= messages);
    }
}

/// The history only grows: handling messages keeps every earlier entry in place, so a
/// robot synchronised up to some version never misses an entry.
pub proof fn law_history_only_grows(s: BaseState, messages: Seq<RobotMessage>, turn: u32)
    ensures
        s.history.is_prefix_of(s.handle_all(messages, turn).history),
        s.history.len() <= s.handle_all(messages, turn).history.len(),
    decreases messages.len(),
{
    if messages.len() > 0 {
        law_history_only_grows(s, messages.drop_last(), turn);
        let before = s.handle_all(messages.drop_last(), turn);
        let after = before.handle(messages.last(), turn);
        assert(before.history.is_prefix_of(after.history));
    }
}

/// Every obstacle reported to the base is known to it afterwards.
pub proof fn law_reported_obstacles_known(s: BaseState, messages: Seq<RobotMessage>, turn: u32)
    ensures
        forall|p: Position|
            #![trigger s.handle_all(messages, turn).known_obstacles.contains(p)]
            messages.contains(RobotMessage::ObstacleDiscovered { position: p }) ==> s.handle_all(
                messages,
                turn,
            ).known_obstacles.contains(p),
    decreases messages.len(),
{
    if messages.len() > 0 {
        let m0 = messages.drop_last();
        law_reported_obstacles_known(s, m0, turn);
        lemma_known_obstacles_grow(s.handle_all(m0, turn), messages.last(), turn);
        assert forall|p: Position|
            messages.contains(RobotMessage::ObstacleDiscovered { position: p }) implies s.handle_all(
                messages,
                turn,
            ).known_obstacles.contains(p) by {
            let k = choose|k: int| 0 <= k < messages.len() && messages[k] == RobotMessage::ObstacleDiscovered { position: p };
            if k < m0.len() {
                assert(m0[k] == messages[k]);
                assert(m0.contains(RobotMessage::ObstacleDiscovered { position: p }));
                assert(s.handle_all(m0, turn).known_obstacles.contains(p));
            } else {
                let b = s.handle_all(m0, turn);
                if !b.known_obstacles.contains(p) {
                    assert(b.handle(messages.last(), turn).known_obstacles == b.known_obstacles.push(p));
                    assert(b.known_obstacles.push(p)[b.known_obstacles.len() as int] == p);
                }
            }
        }
    }
}

proof fn lemma_known_obstacles_grow(s: BaseState, message: RobotMessage, turn: u32)
    ensures
        forall|p: Position| s.known_obstacles.contains(p) ==> #[trigger] s.handle(message, turn).known_obstacles.contains(p),
{
    assert forall|p: Position| s.known_obstacles.contains(p) implies #[trigger] s.handle(
        message,
        turn,
    ).known_obstacles.contains(p) by {
        let k = choose|k: int| 0 <= k < s.known_obstacles.len() && s.known_obstacles[k] == p;
        assert(s.handle(message, turn).known_obstacles[k] == p);
    }
}

/// A deposit reported depleted is no longer known to the base.
pub proof fn law_depleted_forgotten(s: BaseState, p: Position, turn: u32)
    ensures
        !has_position(s.handle(RobotMessage::ResourceDepleted { position: p }, turn).known_resources, p),
{
    lemma_without_position_absent(s.known_resources, p);
}

proof fn lemma_without_position_absent(s: Seq<KnownResource>, p: Position)
    ensures
        !has_position(without_position(s, p), p),
    decreases s.len(),
{
    if s.len() > 0 {
        lemma_without_position_absent(s.drop_last(), p);
        let w0 = without_position(s.drop_last(), p);
        let w = without_position(s, p);
        if has_position(w, p) {
            let k = choose|k: int| 0 <= k < w.len() && #[trigger] w[k].position == p;
            if k < w0.len() {
                assert(w0[k].position == p);
            }
        }
    }
}

/// The log never holds more than `MAX_LOGS` lines.
pub proof fn law_log_bounded(s: BaseState, messages: Seq<RobotMessage>, turn: u32)
    requires
        s.logs.len() <= MAX_LOGS,
    ensures
        s.handle_all(messages, turn).logs.len() <= MAX_LOGS,
    decreases messages.len(),
{
    if messages.len() > 0 {
        law_log_bounded(s, messages.drop_last(), turn);
    }
}

impl BaseState {
    /// The history entry a message adds to this state: a new obstacle, a deposit at a
    /// position with no known deposit, or any depletion; nothing for a delivery.
    pub open spec fn recorded(self, message: RobotMessage) -> Seq<RobotMessage> {
        match message {
            RobotMessage::ObstacleDiscovered { position } => if self.known_obstacles.contains(position) {
                Seq::empty()
            } else {
                seq![message]
            },
            RobotMessage::ResourceDiscovered { position, .. } => if has_position(
                self.known_resources,
                position,
            ) {
                Seq::empty()
            } else {
                seq![message]
            },
            RobotMessage::ResourceCollected { .. } => Seq::empty(),
            RobotMessage::ResourceDepleted { .. } => seq![message],
        }
    }

    /// The history entries that handling `messages` in order adds.
    pub open spec fn recorded_all(self, messages: Seq<RobotMessage>, turn: u32) -> Seq<RobotMessage>
        decreases messages.len(),
    {
        if messages.len() == 0 {
            Seq::empty()
        } else {
            self.recorded_all(messages.drop_last(), turn) + self.handle_all(messages.drop_last(), turn).recorded(
                messages.last(),
            )
        }
    }
}

/// What a robot synchronised at the current version is handed after the base handles a
/// batch of messages is exactly what the batch recorded, in order: new obstacles, deposits
/// at positions with no known deposit, and every depletion; never a delivery.
pub proof fn law_knowledge_since_is_what_was_recorded(s: BaseState, messages: Seq<RobotMessage>, turn: u32)
    ensures
        s.handle_all(messages, turn).history == s.history + s.recorded_all(messages, turn),
        s.handle_all(messages, turn).history.subrange(
            s.history.len() as int,
            s.handle_all(messages, turn).history.len() as int,
        ) == s.recorded_all(messages, turn),
        forall|i: int|
            0 <= i < s.recorded_all(messages, turn).len() ==> !(#[trigger] s.recorded_all(
                messages,
                turn,
            )[i] is ResourceCollected),
    decreases messages.len(),
{
    if messages.len() > 0 {
        let m0 = messages.drop_last();
        law_knowledge_since_is_what_was_recorded(s, m0, turn);
        let b = s.handle_all(m0, turn);
        let rec = b.recorded(messages.last());
        assert(b.handle(messages.last(), turn).history =~= b.history + rec);
        assert(s.handle_all(messages, turn).history =~= s.history + s.recorded_all(messages, turn));
        let all = s.recorded_all(messages, turn);
        let r0 = s.recorded_all(m0, turn);
        assert forall|i: int| 0 <= i < all.len() implies !(#[trigger] all[i] is ResourceCollected) by {
            if i < r0.len() {
                assert(all[i] == r0[i]);
            } else {
                assert(all[i] == rec[i - r0.len()]);
            }
        }
    }
    assert(s.handle_all(messages, turn).history.subrange(
        s.history.len() as int,
        s.handle_all(messages, turn).history.len() as int,
    ) =~= s.recorded_all(messages, turn));
}

} // verus!
