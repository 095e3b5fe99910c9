use vstd::prelude::*;
use crate::base::{Base, KnownResource};
use crate::collector::CollectorState;
use crate::message::RobotMessage;
use crate::position::{contains_position, Position};
use crate::robot::{knows_more, law_learned_positions_known, lemma_learn_all_grows, learn_all, reported_position, Scan};
use crate::robot::RobotMessage as ScoutMessage;

verus! {

/// The two kinds of robot as the display shows them.
#[derive(Debug, Clone, Copy, PartialEq, Eq, Structural)]
pub enum RobotKind {
    Scout,
    Collector,
}

/// Where a robot stands and what kind it is, for the display.
#[derive(Debug, Clone, Copy, PartialEq, Eq, Structural)]
pub struct RobotView {
    pub kind: RobotKind,
    pub position: Position,
}

impl RobotKind {
    /// The character that stands for this kind of robot on the map.
    pub open spec fn spec_symbol(self) -> char {
        match self {
            RobotKind::Scout => 'x',
            RobotKind::Collector => 'o',
        }
    }

    /// The character that stands for this kind of robot on the map.
    pub fn symbol(&self) -> (ch: char)
        ensures
            ch == self.spec_symbol(),
    {
        match self {
            RobotKind::Scout => 'x',
            RobotKind::Collector => 'o',
        }
    }
}

/// How many views in `views` are of `kind`.
pub open spec fn spec_count_kind(views: Seq<RobotView>, kind: RobotKind) -> nat
    decreases views.len(),
{
    if views.len() == 0 {
        0
    } else {
        spec_count_kind(views.drop_last(), kind) + if views.last().kind == kind {
            1nat
        } else {
            0nat
        }
    }
}

/// How many robots of `kind` the views show.
pub fn count_kind(views: &[RobotView], kind: RobotKind) -> (n: usize)
    ensures
        n == spec_count_kind(views@, kind),
{
    let mut n: usize = 0;
    let mut i: usize = 0;
    while i < views.len()
        invariant
            i <= views@.len(),
            n == spec_count_kind(views@.take(i as int), kind),
            n <= i,
        decreases views@.len() - i,
    {
        proof {
            assert(views@.take(i + 1).drop_last() =~= views@.take(i as int));
        }
        if views[i].kind == kind {
            n = n + 1;
        }
        i = i + 1;
    }
    assert(views@.take(views@.len() as int) =~= views@);
    n
}

/// The base message a scout report becomes on the way to the base.
pub open spec fn base_message(m: ScoutMessage) -> RobotMessage {
    match m {
        ScoutMessage::ResourceDiscovered { position, resource_type } => RobotMessage::ResourceDiscovered {
            position,
            resource_type,
        },
        ScoutMessage::ObstacleDiscovered { position } => RobotMessage::ObstacleDiscovered { position },
    }
}

/// Hands a scout report to the base as the base's message of the same kind.
pub fn to_base_message(m: ScoutMessage) -> (r: RobotMessage)
    ensures
        r == base_message(m),
{
    match m {
        ScoutMessage::ResourceDiscovered { position, resource_type } => RobotMessage::ResourceDiscovered {
            position,
            resource_type,
        },
        ScoutMessage::ObstacleDiscovered { position } => RobotMessage::ObstacleDiscovered { position },
    }
}

/// What a scout learns from one history entry: the discoveries, as scout reports; nothing
/// from deliveries and depletions.
pub open spec fn scout_report(m: RobotMessage) -> Seq<ScoutMessage> {
    match m {
        RobotMessage::ResourceDiscovered { position, resource_type } => seq![
            ScoutMessage::ResourceDiscovered { position, resource_type },
        ],
        RobotMessage::ObstacleDiscovered { position } => seq![ScoutMessage::ObstacleDiscovered { position }],
        _ => Seq::empty(),
    }
}

/// The discoveries among history entries, in order, as scout reports.
pub open spec fn scout_reports(history: Seq<RobotMessage>) -> Seq<ScoutMessage>
    decreases history.len(),
{
    if history.len() == 0 {
        Seq::empty()
    } else {
        scout_reports(history.drop_last()) + scout_report(history.last())
    }
}

/// The discoveries among the base's history entries, in order, as reports a scout learns
/// from.
pub fn scout_knowledge(history: &[RobotMessage]) -> (r: Vec<ScoutMessage>)
    ensures
        r@ == scout_reports(history@),
{
    let mut out: Vec<ScoutMessage> = Vec::new();
    let mut i: usize = 0;
    while i < history.len()
        invariant
            i <= history@.len(),
            out@ == scout_reports(history@.take(i as int)),
        decreases history@.len() - i,
    {
        proof {
            assert(history@.take(i + 1).drop_last() =~= history@.take(i as int));
        }
        let ghost before = out@;
        match history[i] {
            RobotMessage::ResourceDiscovered { position, resource_type } => {
                out.push(ScoutMessage::ResourceDiscovered { position, resource_type });
            },
            RobotMessage::ObstacleDiscovered { position } => {
                out.push(ScoutMessage::ObstacleDiscovered { position });
            },
            _ => {},
        }
        proof {
            assert(out@ =~= before + scout_report(history@[i as int]));
        }
        i = i + 1;
    }
    assert(history@.take(history@.len() as int) =~= history@);
    out
}

/// The scout report a discovery in the base's history stands for.
pub open spec fn report_of(m: RobotMessage) -> ScoutMessage
    recommends
        m is ResourceDiscovered || m is ObstacleDiscovered,
{
    match m {
        RobotMessage::ResourceDiscovered { position, resource_type } => ScoutMessage::ResourceDiscovered {
            position,
            resource_type,
        },
        RobotMessage::ObstacleDiscovered { position } => ScoutMessage::ObstacleDiscovered { position },
        _ => arbitrary(),
    }
}

/// Every discovery among the history entries stands, as its scout report, in
/// `scout_reports` of them.
proof fn lemma_scout_reports_has(history: Seq<RobotMessage>, i: int)
    requires
        0 <= i < history.len(),
        history[i] is ResourceDiscovered || history[i] is ObstacleDiscovered,
    ensures
        scout_reports(history).contains(report_of(history[i])),
    decreases history.len(),
{
    let rest = history.drop_last();
    if i < rest.len() {
        assert(rest[i] == history[i]);
        lemma_scout_reports_has(rest, i);
        let k = choose|k: int| 0 <= k < scout_reports(rest).len() && scout_reports(rest)[k] == report_of(history[i]);
        assert(scout_reports(history)[k] == scout_reports(rest)[k]);
    } else {
        assert(scout_reports(history)[scout_reports(rest).len() as int] == report_of(history[i]));
    }
}

/// The scout knowledge `s` holds every obstacle and deposit that the first `v` entries of
/// the base's history report.
#[verifier::opaque]
pub open spec fn informed(s: Scan, history: Seq<RobotMessage>, v: int) -> bool {
    forall|i: int|
        0 <= i < v ==> match #[trigger] history[i] {
            RobotMessage::ObstacleDiscovered { position } => s.obstacles.contains(position),
            RobotMessage::ResourceDiscovered { position, .. } => s.resources.contains(position),
            _ => true,
        }
}

/// What may happen to a scout's knowledge `s`, the base's history `h` and the version `v`
/// the scout has read up to, before they are `t`, `h2` and `v2`: the history only grows by
/// new entries; and the scout either takes a turn (it forgets nothing, see `Robot::act`)
/// or synchronises, learning the discoveries of the entries after `v` (`scout_knowledge` of
/// `Base::get_knowledge_since(v)`, handed to `Robot::apply_knowledge`) and reading the
/// version `Base::get_current_version`.
#[verifier::opaque]
pub open spec fn scout_history_step(
    s: Scan,
    h: Seq<RobotMessage>,
    v: int,
    t: Scan,
    h2: Seq<RobotMessage>,
    v2: int,
) -> bool {
    &&& h.len() <= h2.len()
    &&& h2.subrange(0, h.len() as int) == h
    &&& {
        ||| v2 == v && knows_more(s, t)
        ||| v2 == h2.len() && t == learn_all(s, scout_reports(h2.subrange(v, h2.len() as int)))
    }
}

/// A scout that synchronises with the base knows what the base knows: along any history
/// that starts at version 0, its version never passes the base's, and it knows every
/// obstacle and deposit reported in the base's history before its version.
pub proof fn law_scout_stays_informed(ss: Seq<Scan>, hs: Seq<Seq<RobotMessage>>, vs: Seq<int>)
    requires
        ss.len() == hs.len(),
        vs.len() == hs.len(),
        ss.len() > 0,
        vs[0] == 0,
        forall|i: int, j: int|
            #![trigger ss[i], ss[j]]
            0 <= i && j == i + 1 && j < ss.len() ==> scout_history_step(ss[i], hs[i], vs[i], ss[j], hs[j], vs[j]),
    ensures
        forall|i: int| 0 <= i < ss.len() ==> 0 <= #[trigger] vs[i] <= hs[i].len(),
        forall|i: int| 0 <= i < ss.len() ==> informed(#[trigger] ss[i], hs[i], vs[i]),
    decreases ss.len(),
{
    let n = ss.len() - 1;
    if n == 0 {
        assert(informed(ss[0], hs[0], 0)) by {
            reveal(informed);
        }
        assert forall|i: int| 0 <= i < ss.len() implies 0 <= #[trigger] vs[i] <= hs[i].len() && informed(
            ss[i],
            hs[i],
            vs[i],
        ) by {
            assert(i == 0);
        }
    } else {
        let ps = ss.drop_last();
        let ph = hs.drop_last();
        let pv = vs.drop_last();
        assert forall|i: int, j: int|
            #![trigger ps[i], ps[j]]
            0 <= i && j == i + 1 && j < ps.len() implies scout_history_step(
            ps[i],
            ph[i],
            pv[i],
            ps[j],
            ph[j],
            pv[j],
        ) by {
            assert(scout_history_step(ss[i], hs[i], vs[i], ss[j], hs[j], vs[j]));
            assert(ps[i] == ss[i] && ph[i] == hs[i] && pv[i] == vs[i]);
            assert(ps[j] == ss[j] && ph[j] == hs[j] && pv[j] == vs[j]);
        }
        law_scout_stays_informed(ps, ph, pv);
        assert(ps[n - 1] == ss[n - 1] && ph[n - 1] == hs[n - 1] && pv[n - 1] == vs[n - 1]);
        assert(scout_history_step(ss[n - 1], hs[n - 1], vs[n - 1], ss[n], hs[n], vs[n]));
        lemma_scout_step_informed(ss[n - 1], hs[n - 1], vs[n - 1], ss[n], hs[n], vs[n]);
        assert forall|i: int| 0 <= i < ss.len() implies 0 <= #[trigger] vs[i] <= hs[i].len() && informed(
            ss[i],
            hs[i],
            vs[i],
        ) by {
            if i < n {
                assert(ps[i] == ss[i] && ph[i] == hs[i] && pv[i] == vs[i]);
            }
        }
    }
}

/// One step of a scout's history keeps it informed up to its version.
proof fn lemma_scout_step_informed(s: Scan, h: Seq<RobotMessage>, v: int, t: Scan, h2: Seq<RobotMessage>, v2: int)
    requires
        0 <= v <= h.len(),
        informed(s, h, v),
        scout_history_step(s, h, v, t, h2, v2),
    ensures
        0 <= v2 <= h2.len(),
        informed(t, h2, v2),
{
    reveal(informed);
    reveal(scout_history_step);
    assert forall|i: int| 0 <= i < v implies #[trigger] h2[i] == h[i] by {
        assert(h2.subrange(0, h.len() as int)[i] == h2[i]);
    }
    if v2 == v && knows_more(s, t) {
        assert forall|i: int| 0 <= i < v2 implies match #[trigger] h2[i] {
            RobotMessage::ObstacleDiscovered { position } => t.obstacles.contains(position),
            RobotMessage::ResourceDiscovered { position, .. } => t.resources.contains(position),
            _ => true,
        } by {
            assert(h2[i] == h[i]);
        }
    } else {
        let news = h2.subrange(v, h2.len() as int);
        let reports = scout_reports(news);
        lemma_learn_all_grows(s, reports);
        law_learned_positions_known(s, reports);
        assert forall|i: int| 0 <= i < v2 implies match #[trigger] h2[i] {
            RobotMessage::ObstacleDiscovered { position } => t.obstacles.contains(position),
            RobotMessage::ResourceDiscovered { position, .. } => t.resources.contains(position),
            _ => true,
        } by {
            if i < v {
                assert(h2[i] == h[i]);
            } else if h2[i] is ResourceDiscovered || h2[i] is ObstacleDiscovered {
                assert(news[i - v] == h2[i]);
                lemma_scout_reports_has(news, i - v);
                let k = choose|k: int| 0 <= k < reports.len() && reports[k] == report_of(h2[i]);
                assert(reports[k] is ObstacleDiscovered ==> t.obstacles.contains(reported_position(reports[k])));
            }
        }
    }
}

/// The first deposit of `known` whose position is not in `reserved`.
pub open spec fn first_unreserved(known: Seq<KnownResource>, reserved: Seq<Position>) -> Option<KnownResource>
    decreases known.len(),
{
    if known.len() == 0 {
        None
    } else if !reserved.contains(known[0].position) {
        Some(known[0])
    } else {
        first_unreserved(known.drop_first(), reserved)
    }
}

/// `s` without `p`.
pub open spec fn without(s: Seq<Position>, p: Position) -> Seq<Position>
    decreases s.len(),
{
    if s.len() == 0 {
        s
    } else {
        without(s.drop_last(), p) + if s.last() == p {
            Seq::<Position>::empty()
        } else {
            seq![s.last()]
        }
    }
}

proof fn lemma_first_unreserved_skip(known: Seq<KnownResource>, reserved: Seq<Position>, i: int)
    requires
        0 <= i <= known.len(),
        forall|j: int| 0 <= j < i ==> reserved.contains(#[trigger] known[j].position),
    ensures
        first_unreserved(known, reserved) == first_unreserved(known.subrange(i, known.len() as int), reserved),
    decreases i,
{
    if i > 0 {
        assert(reserved.contains(known[0].position));
        let rest = known.drop_first();
        assert forall|j: int| 0 <= j < i - 1 implies reserved.contains(#[trigger] rest[j].position) by {
            assert(rest[j] == known[j + 1]);
        }
        lemma_first_unreserved_skip(rest, reserved, i - 1);
        assert(rest.subrange(i - 1, rest.len() as int) =~= known.subrange(i, known.len() as int));
    } else {
        assert(known.subrange(0, known.len() as int) =~= known);
    }
}

proof fn lemma_without_props(s: Seq<Position>, p: Position)
    ensures
        !without(s, p).contains(p),
        forall|q: Position| q != p ==> (#[trigger] without(s, p).contains(q) <==> s.contains(q)),
        (forall|i: int, j: int| 0 <= i < j < s.len() ==> s[i] != s[j]) ==> (forall|i: int, j: int|
            0 <= i < j < without(s, p).len() ==> without(s, p)[i] != without(s, p)[j]),
    decreases s.len(),
{
    if s.len() > 0 {
        let s0 = s.drop_last();
        lemma_without_props(s0, p);
        let w0 = without(s0, p);
        let w = without(s, p);
        assert forall|q: Position| #[trigger] w.contains(q) implies q != p && s.contains(q) by {
            let k = choose|k: int| 0 <= k < w.len() && w[k] == q;
            if k < w0.len() {
                assert(w0[k] == q);
                assert(w0.contains(q));
                let m = choose|m: int| 0 <= m < s0.len() && s0[m] == q;
                assert(s[m] == q);
            } else {
                assert(s[s.len() - 1] == q);
            }
        }
        assert forall|q: Position| q != p && #[trigger] s.contains(q) implies w.contains(q) by {
            let m = choose|m: int| 0 <= m < s.len() && s[m] == q;
            if m < s.len() - 1 {
                assert(s0[m] == q);
                assert(s0.contains(q));
                assert(w0.contains(q));
                let k = choose|k: int| 0 <= k < w0.len() && w0[k] == q;
                assert(w[k] == q);
            } else {
                assert(w[w.len() - 1] == q);
            }
        }
        if forall|i: int, j: int| 0 <= i < j < s.len() ==> s[i] != s[j] {
            assert forall|i: int, j: int| 0 <= i < j < s0.len() implies s0[i] != s0[j] by {
                assert(s0[i] == s[i] && s0[j] == s[j]);
            }
            assert forall|i: int, j: int| 0 <= i < j < w.len() implies w[i] != w[j] by {
                if j >= w0.len() {
                    assert(w[j] == s.last());
                    assert(w[i] == w0[i]);
                    assert(w0.contains(w0[i]));
                    assert(s0.contains(w0[i]));
                    let m = choose|m: int| 0 <= m < s0.len() && s0[m] == w0[i];
                    assert(s[m] == s0[m]);
                }
            }
        }
    }
}

/// What the base offers a collector this turn. An idle collector with no reservation is
/// offered the first known deposit nobody has reserved, which it then holds reserved (or
/// nothing when there is none); any other collector sees every known deposit.
pub fn resources_for_collector(
    base: &mut Base,
    state: CollectorState,
    reserved: &mut Option<Position>,
) -> (offer: Vec<KnownResource>)
    requires
        old(base).wf(),
    ensures
        final(base).wf(),
        final(base).position == old(base).position,
        final(base).known_obstacles@ == old(base).known_obstacles@,
        final(base).known_resources@ == old(base).known_resources@,
        final(base).history@ == old(base).history@,
        final(base).logs@ == old(base).logs@,
        final(base).energy == old(base).energy,
        final(base).crystals == old(base).crystals,
        if state == CollectorState::Idle && *old(reserved) is None {
            match first_unreserved(old(base).known_resources@, old(base).reserved_targets@) {
                Some(r) => {
                    &&& offer@ == seq![r]
                    &&& !old(base).reserved_targets@.contains(r.position)
                    &&& final(base).reserved_targets@ == old(base).reserved_targets@.push(r.position)
                    &&& *final(reserved) == Some(r.position)
                },
                None => {
                    &&& offer@ == Seq::<KnownResource>::empty()
                    &&& final(base).reserved_targets@ == old(base).reserved_targets@
                    &&& *final(reserved) is None
                },
            }
        } else {
            &&& offer@ == old(base).known_resources@
            &&& final(base).reserved_targets@ == old(base).reserved_targets@
            &&& *final(reserved) == *old(reserved)
        },
{
    if state == CollectorState::Idle && reserved.is_none() {
        let mut i: usize = 0;
        while i < base.known_resources.len()
            invariant
                *base == *old(base),
                *reserved == *old(reserved),
                *reserved is None,
                state == CollectorState::Idle,
                base.wf(),
                i <= base.known_resources@.len(),
                forall|j: int|
                    0 <= j < i ==> base.reserved_targets@.contains(#[trigger] base.known_resources@[j].position),
            decreases base.known_resources@.len() - i,
        {
            let r = base.known_resources[i];
            if !contains_position(&base.reserved_targets, r.position) {
                proof {
                    lemma_first_unreserved_skip(base.known_resources@, base.reserved_targets@, i as int);
                    let sub = base.known_resources@.subrange(i as int, base.known_resources@.len() as int);
                    assert(sub[0] == r);
                    assert(!base.reserved_targets@.contains(sub[0].position));
                    assert(first_unreserved(sub, base.reserved_targets@) == Some(r));
                }
                base.reserved_targets.push(r.position);
                *reserved = Some(r.position);
                let mut offer: Vec<KnownResource> = Vec::new();
                offer.push(r);
                assert(offer@ =~= seq![r]);

                assert(base.reserved_targets@ =~= old(base).reserved_targets@.push(r.position));
                return offer;
            }
            i = i + 1;
        }
        proof {
            lemma_first_unreserved_skip(base.known_resources@, base.reserved_targets@, i as int);
        }
        Vec::new()
    } else {
        base.known_resources.clone()
    }
}

/// A collector left without a target gives up its reservation, if it held one.
pub fn release_reservation(base: &mut Base, target: Option<Position>, reserved: &mut Option<Position>)
    requires
        old(base).wf(),
    ensures
        final(base).wf(),
        final(base).position == old(base).position,
        final(base).known_obstacles@ == old(base).known_obstacles@,
        final(base).known_resources@ == old(base).known_resources@,
        final(base).history@ == old(base).history@,
        final(base).logs@ == old(base).logs@,
        final(base).energy == old(base).energy,
        final(base).crystals == old(base).crystals,
        match (target, *old(reserved)) {
            (None, Some(p)) => {
                &&& final(base).reserved_targets@ == without(old(base).reserved_targets@, p)
                &&& *final(reserved) is None
            },
            _ => {
                &&& final(base).reserved_targets@ == old(base).reserved_targets@
                &&& *final(reserved) == *old(reserved)
            },
        },
{
    if target.is_none() {
        if let Some(pos) = *reserved {
            remove_position(&mut base.reserved_targets, pos);
            *reserved = None;
        }
    }
}

/// Removes `p` from `s`, keeping the others in order.
fn remove_position(s: &mut Vec<Position>, p: Position)
    requires
        forall|i: int, j: int| 0 <= i < j < old(s)@.len() ==> old(s)@[i] != old(s)@[j],
    ensures
        final(s)@ == without(old(s)@, p),
        forall|i: int, j: int| 0 <= i < j < final(s)@.len() ==> final(s)@[i] != final(s)@[j],
{
    let mut kept: Vec<Position> = Vec::new();
    let mut i: usize = 0;
    while i < s.len()
        invariant
            i <= s@.len(),
            kept@ == without(s@.take(i as int), p),
        decreases s@.len() - i,
    {
        let q = s[i];
        proof {
            assert(s@.take(i + 1).drop_last() =~= s@.take(i as int));
        }
        if q != p {
            kept.push(q);
        }
        i = i + 1;
    }
    proof {
        assert(s@.take(s@.len() as int) =~= s@);
        lemma_without_props(s@, p);
    }
    *s = kept;
}

/// A deposit offered for reservation is one nobody holds yet and one the base knows of, so
/// adding it keeps the reservations free of repeats: no two collectors head for the same
/// deposit.
pub proof fn law_reservations_exclusive(known: Seq<KnownResource>, reserved: Seq<Position>)
    requires
        forall|i: int, j: int| 0 <= i < j < reserved.len() ==> reserved[i] != reserved[j],
    ensures
        first_unreserved(known, reserved) matches Some(r) ==> {
            &&& !reserved.contains(r.position)
            &&& known.contains(r)
            &&& forall|i: int, j: int|
                0 <= i < j < reserved.push(r.position).len() ==> reserved.push(r.position)[i]
                    != reserved.push(r.position)[j]
        },
    decreases known.len(),
{
    if known.len() > 0 {
        law_reservations_exclusive(known.drop_first(), reserved);
        if let Some(r) = first_unreserved(known, reserved) {
            if reserved.contains(known[0].position) {
                let k = choose|k: int| 0 <= k < known.drop_first().len() && known.drop_first()[k] == r;
                assert(known[k + 1] == r);
            } else {
                assert(known[0] == r);
            }
            let pushed = reserved.push(r.position);
            assert forall|i: int, j: int| 0 <= i < j < pushed.len() implies pushed[i] != pushed[j] by {
                if j == reserved.len() {
                    assert(pushed[i] == reserved[i]);
                }
            }
        }
    }
}

/// The base's reservations `reserved` and those the collector threads hold, `held`, agree:
/// no deposit is reserved twice, every held reservation is one of the base's, and no two
/// threads hold the same one.
pub open spec fn reservations_agree(reserved: Seq<Position>, held: Seq<Option<Position>>) -> bool {
    &&& forall|i: int, j: int| 0 <= i < j < reserved.len() ==> reserved[i] != reserved[j]
    &&& forall|t: int| 0 <= t < held.len() && (#[trigger] held[t]) is Some ==> reserved.contains(held[t]->0)
    &&& forall|t: int, u: int|
        0 <= t < u < held.len() && (#[trigger] held[t]) is Some && (#[trigger] held[u]) is Some ==> held[t]
            != held[u]
}

/// Thread `t` asks the base for deposits (`resources_for_collector`) with its collector idle
/// or not, turning the reservations `reserved` and `held` into `reserved2` and `held2`.
pub open spec fn offer_step(
    known: Seq<KnownResource>,
    reserved: Seq<Position>,
    held: Seq<Option<Position>>,
    t: int,
    idle: bool,
    reserved2: Seq<Position>,
    held2: Seq<Option<Position>>,
) -> bool {
    &&& 0 <= t < held.len()
    &&& if idle && held[t] is None {
        match first_unreserved(known, reserved) {
            Some(r) => reserved2 == reserved.push(r.position) && held2 == held.update(t, Some(r.position)),
            None => reserved2 == reserved && held2 == held,
        }
    } else {
        reserved2 == reserved && held2 == held
    }
}

/// Thread `t`, whose collector has the target `target`, gives up its reservation when it has
/// no target (`release_reservation`).
pub open spec fn release_step(
    reserved: Seq<Position>,
    held: Seq<Option<Position>>,
    t: int,
    target: Option<Position>,
    reserved2: Seq<Position>,
    held2: Seq<Option<Position>>,
) -> bool {
    &&& 0 <= t < held.len()
    &&& match (target, held[t]) {
        (None, Some(p)) => reserved2 == without(reserved, p) && held2 == held.update(t, None),
        _ => reserved2 == reserved && held2 == held,
    }
}

/// Each step of a collector thread, asking for deposits or giving up its reservation, keeps
/// the reservations in agreement. They agree at the start (nothing reserved, nothing held),
/// so however the threads take turns, no two of them ever hold the same deposit, and each
/// holds one the base has reserved.
pub proof fn law_reservations_stay_exclusive(
    known: Seq<KnownResource>,
    reserved: Seq<Position>,
    held: Seq<Option<Position>>,
    reserved2: Seq<Position>,
    held2: Seq<Option<Position>>,
    t: int,
    idle: bool,
    target: Option<Position>,
)
    requires
        reservations_agree(reserved, held),
        offer_step(known, reserved, held, t, idle, reserved2, held2) || release_step(
            reserved,
            held,
            t,
            target,
            reserved2,
            held2,
        ),
    ensures
        reservations_agree(reserved2, held2),
{
    if offer_step(known, reserved, held, t, idle, reserved2, held2) {
        law_reservations_exclusive(known, reserved);
        if idle && held[t] is None {
            if let Some(r) = first_unreserved(known, reserved) {
                let p = r.position;
                assert forall|u: int| 0 <= u < held2.len() && (#[trigger] held2[u]) is Some implies reserved2.contains(
                    held2[u]->0,
                ) by {
                    if u == t {
                        assert(reserved2[reserved.len() as int] == p);
                    } else {
                        assert(held2[u] == held[u]);
                        let k = choose|k: int| 0 <= k < reserved.len() && reserved[k] == held[u]->0;
                        assert(reserved2[k] == reserved[k]);
                    }
                }
                assert forall|a: int, b: int|
                    0 <= a < b < held2.len() && (#[trigger] held2[a]) is Some && (#[trigger] held2[b]) is Some implies held2[a]
                        != held2[b] by {
                    if a == t {
                        assert(held2[b] == held[b]);
                        assert(reserved.contains(held[b]->0));
                    } else if b == t {
                        assert(held2[a] == held[a]);
                        assert(reserved.contains(held[a]->0));
                    } else {
                        assert(held2[a] == held[a] && held2[b] == held[b]);
                    }
                }
            }
        }
    } else {
        if let (None, Some(p)) = (target, held[t]) {
            lemma_without_props(reserved, p);
            assert forall|u: int| 0 <= u < held2.len() && (#[trigger] held2[u]) is Some implies reserved2.contains(
                held2[u]->0,
            ) by {
                assert(u != t);
                assert(held2[u] == held[u]);
                if t < u {
                    assert(held[t] != held[u]);
                } else {
                    assert(held[u] != held[t]);
                }
            }
            assert forall|a: int, b: int|
                0 <= a < b < held2.len() && (#[trigger] held2[a]) is Some && (#[trigger] held2[b]) is Some implies held2[a]
                    != held2[b] by {
                assert(held2[a] == held[a] && held2[b] == held[b]);
            }
        }
    }
}

} // verus!
