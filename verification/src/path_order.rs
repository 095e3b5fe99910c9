use vstd::prelude::*;
use crate::collector::walk_end;
use crate::map::{WorldMap, wrapping_next};
use crate::position::Position;

verus! {

/// `x` stands before `y` in `s`.
pub open spec fn listed_before(s: Seq<Position>, x: Position, y: Position) -> bool {
    exists|a: int, b: int| 0 <= a < b < s.len() && #[trigger] s[a] == x && #[trigger] s[b] == y
}

/// Walks `p` and `q` from `start` agree up to some step, where `p` goes to a neighbor listed
/// earlier (up, down, left, right) than the one `q` goes to.
pub open spec fn turns_earlier(map: &WorldMap, start: Position, p: Seq<Position>, q: Seq<Position>) -> bool {
    exists|m: int|
        {
            &&& 0 <= m < p.len()
            &&& m < q.len()
            &&& #[trigger] p.take(m) == q.take(m)
            &&& listed_before(map.neighbors(walk_end(start, p.take(m))), p[m], q[m])
        }
}

/// No position is listed twice among the neighbors of `p`.
pub proof fn lemma_neighbors_distinct(map: &WorldMap, p: Position)
    ensures
        forall|a: int, b: int|
            0 <= a < b < map.neighbors(p).len() ==> map.neighbors(p)[a] != map.neighbors(p)[b],
{
    let s1 = map.step_to(p.x as int, p.y - 1);
    let s2 = map.step_to(p.x as int, wrapping_next(p.y));
    let s3 = map.step_to(p.x - 1, p.y as int);
    let s4 = map.step_to(wrapping_next(p.x), p.y as int);
    let n = map.neighbors(p);
    assert(n == s1 + s2 + s3 + s4);
    assert forall|a: int, b: int| 0 <= a < b < n.len() implies n[a] != n[b] by {
        let la = if a < s1.len() {
            1int
        } else if a < s1.len() + s2.len() {
            2int
        } else if a < s1.len() + s2.len() + s3.len() {
            3int
        } else {
            4int
        };
        let lb = if b < s1.len() {
            1int
        } else if b < s1.len() + s2.len() {
            2int
        } else if b < s1.len() + s2.len() + s3.len() {
            3int
        } else {
            4int
        };
        if la == 1 {
            assert(n[a] == s1[a]);
        } else if la == 2 {
            assert(n[a] == s2[a - s1.len()]);
        } else if la == 3 {
            assert(n[a] == s3[a - s1.len() - s2.len()]);
        } else {
            assert(n[a] == s4[a - s1.len() - s2.len() - s3.len()]);
        }
        if lb == 1 {
            assert(n[b] == s1[b]);
        } else if lb == 2 {
            assert(n[b] == s2[b - s1.len()]);
        } else if lb == 3 {
            assert(n[b] == s3[b - s1.len() - s2.len()]);
        } else {
            assert(n[b] == s4[b - s1.len() - s2.len() - s3.len()]);
        }
    }
}

/// Two walks that part with `p` turning earlier still do when each is extended.
pub proof fn lemma_turns_earlier_push(
    map: &WorldMap,
    start: Position,
    p: Seq<Position>,
    q: Seq<Position>,
    x: Position,
    y: Position,
)
    requires
        turns_earlier(map, start, p, q),
    ensures
        turns_earlier(map, start, p.push(x), q.push(y)),
{
    let m = choose|m: int|
        {
            &&& 0 <= m < p.len()
            &&& m < q.len()
            &&& #[trigger] p.take(m) == q.take(m)
            &&& listed_before(map.neighbors(walk_end(start, p.take(m))), p[m], q[m])
        };
    assert(p.push(x).take(m) =~= p.take(m));
    assert(q.push(y).take(m) =~= q.take(m));
    assert(p.push(x)[m] == p[m]);
    assert(q.push(y)[m] == q[m]);
}

/// Extending one walk by two neighbors of its end, the one listed earlier turns earlier.
pub proof fn lemma_turns_earlier_last(
    map: &WorldMap,
    start: Position,
    t: Seq<Position>,
    x: Position,
    y: Position,
)
    requires
        listed_before(map.neighbors(walk_end(start, t)), x, y),
    ensures
        turns_earlier(map, start, t.push(x), t.push(y)),
{
    let m = t.len() as int;
    assert(t.push(x).take(m) =~= t);
    assert(t.push(y).take(m) =~= t);
    assert(t.push(x)[m] == x);
    assert(t.push(y)[m] == y);
}

/// Turning earlier is transitive among walks of one length.
pub proof fn lemma_turns_earlier_trans(
    map: &WorldMap,
    start: Position,
    p: Seq<Position>,
    q: Seq<Position>,
    r: Seq<Position>,
)
    requires
        turns_earlier(map, start, p, q),
        turns_earlier(map, start, q, r),
        p.len() == q.len(),
        q.len() == r.len(),
    ensures
        turns_earlier(map, start, p, r),
{
    let m1 = choose|m: int|
        {
            &&& 0 <= m < p.len()
            &&& m < q.len()
            &&& #[trigger] p.take(m) == q.take(m)
            &&& listed_before(map.neighbors(walk_end(start, p.take(m))), p[m], q[m])
        };
    let m2 = choose|m: int|
        {
            &&& 0 <= m < q.len()
            &&& m < r.len()
            &&& #[trigger] q.take(m) == r.take(m)
            &&& listed_before(map.neighbors(walk_end(start, q.take(m))), q[m], r[m])
        };
    if m1 < m2 {
        assert(q.take(m1) =~= q.take(m2).take(m1));
        assert(r.take(m1) =~= r.take(m2).take(m1));
        assert(q[m1] == q.take(m2)[m1]);
        assert(r[m1] == r.take(m2)[m1]);
        assert(p.take(m1) == r.take(m1));
        assert(q[m1] == r[m1]);
    } else if m2 < m1 {
        assert(p.take(m2) =~= p.take(m1).take(m2));
        assert(q.take(m2) =~= q.take(m1).take(m2));
        assert(p[m2] == p.take(m1)[m2]);
        assert(q[m2] == q.take(m1)[m2]);
        assert(p.take(m2) == r.take(m2));
        assert(p[m2] == q[m2]);
    } else {
        let n = map.neighbors(walk_end(start, p.take(m1)));
        lemma_neighbors_distinct(map, walk_end(start, p.take(m1)));
        let (a, b) = choose|a: int, b: int| 0 <= a < b < n.len() && #[trigger] n[a] == p[m1] && #[trigger] n[b] == q[m1];
        let (c, d) = choose|c: int, d: int| 0 <= c < d < n.len() && #[trigger] n[c] == q[m1] && #[trigger] n[d] == r[m1];
        assert(b == c);
        assert(n[a] == p[m1] && n[d] == r[m1]);
        assert(p.take(m1) == r.take(m1));
    }
}

} // verus!
