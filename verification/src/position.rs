use vstd::prelude::*;

verus! {

/// A cell coordinate on the map: `x` is the column, `y` the row.
#[derive(Debug, Clone, Copy, PartialEq, Eq, Hash, Structural)]
pub struct Position {
    pub x: usize,
    pub y: usize,
}

impl Position {
    /// `other` is one step up, down, left or right of `self`.
    pub open spec fn adjacent(self, other: Position) -> bool {
        ||| self.x == other.x && (self.y + 1 == other.y || other.y + 1 == self.y)
        ||| self.y == other.y && (self.x + 1 == other.x || other.x + 1 == self.x)
    }

    /// Builds the position `(x, y)`.
    pub fn new(x: usize, y: usize) -> (p: Position)
        ensures
            p.x == x,
            p.y == y,
    {
        Position { x, y }
    }
}

/// True when `p` occurs in `s`.
pub fn contains_position(s: &Vec<Position>, p: Position) -> (b: bool)
    ensures
        b == s@.contains(p),
{
    let mut i: usize = 0;
    while i < s.len()
        invariant
            i <= s@.len(),
            forall|j: int| 0 <= j < i ==> s@[j] != p,
        decreases s@.len() - i,
    {
        if s[i] == p {
            assert(s@[i as int] == p);
            return true;
        }
        i = i + 1;
    }
    false
}

/// Adds `p` to `s` unless it is already there.
pub fn insert_position(s: &mut Vec<Position>, p: Position)
    ensures
        final(s)@ == (if old(s)@.contains(p) {
            old(s)@
        } else {
            old(s)@.push(p)
        }),
{
    if !contains_position(s, p) {
        s.push(p);
    }
}

} // verus!
