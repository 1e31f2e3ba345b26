//! Cell coordinates on the plane and their Moore neighbourhood.
use vstd::prelude::*;

verus! {

/// A cell position `(x, y)`. The plane is every pair of `isize` values: a
/// coordinate beyond that range does not exist, so a cell on the edge simply
/// has fewer neighbours.
#[derive(Clone, Copy, Debug, PartialEq, Eq, Hash, Structural)]
pub struct Coord {
    pub x: isize,
    pub y: isize,
}

/// Whether `n` is one of the eight cells of the Moore neighbourhood of `c`:
/// a distinct cell whose coordinates each differ from `c`'s by at most one.
pub open spec fn is_neighbor(c: Coord, n: Coord) -> bool {
    &&& n != c
    &&& -1 <= n.x - c.x <= 1
    &&& -1 <= n.y - c.y <= 1
}

/// Taking one more element of `s` adds exactly `s[i]` to what the prefix
/// contains.
pub proof fn lemma_take_succ_contains(s: Seq<Coord>, i: int)
    requires
        0 <= i < s.len(),
    ensures
        forall|d: Coord| #[trigger]
            s.take(i + 1).contains(d) <==> (s.take(i).contains(d) || d == s[i]),
{
    assert forall|d: Coord| #[trigger]
        s.take(i + 1).contains(d) <==> (s.take(i).contains(d) || d == s[i]) by {
        if d == s[i] {
            assert(s.take(i + 1)[i] == d);
        }
        if s.take(i).contains(d) {
            let k = choose|k: int| 0 <= k < i && #[trigger] s.take(i)[k] == d;
            assert(s.take(i + 1)[k] == d);
        }
        if s.take(i + 1).contains(d) && d != s[i] {
            let k = choose|k: int| 0 <= k < i + 1 && #[trigger] s.take(i + 1)[k] == d;
            assert(s.take(i)[k] == d);
        }
    }
}

/// Appending `x` to `s` adds exactly `x` to what it contains, and keeps it free
/// of duplicates when `x` was not in it.
pub proof fn lemma_push_contains(s: Seq<Coord>, x: Coord)
    ensures
        forall|d: Coord| #[trigger] s.push(x).contains(d) <==> (s.contains(d) || d == x),
        s.no_duplicates() && !s.contains(x) ==> s.push(x).no_duplicates(),
{
    assert forall|d: Coord| #[trigger] s.push(x).contains(d) <==> (s.contains(d) || d == x) by {
        if d == x {
            assert(s.push(x)[s.len() as int] == d);
        }
        if s.contains(d) {
            let k = choose|k: int| 0 <= k < s.len() && #[trigger] s[k] == d;
            assert(s.push(x)[k] == d);
        }
        if s.push(x).contains(d) && d != x {
            let k = choose|k: int| 0 <= k < s.len() + 1 && #[trigger] s.push(x)[k] == d;
            assert(s[k] == d);
        }
    }
    if s.no_duplicates() && !s.contains(x) {
        assert forall|i: int, j: int|
            0 <= i < s.len() + 1 && 0 <= j < s.len() + 1 && i != j implies s.push(x)[i]
            != s.push(x)[j] by {
            if i < s.len() && j < s.len() {
                assert(s[i] != s[j]);
            } else if i < s.len() {
                assert(s.contains(s[i]));
            } else {
                assert(s.contains(s[j]));
            }
        }
    }
}

impl Coord {
    pub fn new(x: isize, y: isize) -> (r: Coord)
        ensures
            r.x == x,
            r.y == y,
    {
        Coord { x, y }
    }

    /// Appends the cell at offset `(dx, dy)` from this one to `r`, if that
    /// cell lies on the plane.
    fn push_offset(self, r: &mut Vec<Coord>, dx: isize, dy: isize)
        requires
            -1 <= dx <= 1,
            -1 <= dy <= 1,
            old(r)@.no_duplicates(),
            forall|n: Coord| #[trigger]
                old(r)@.contains(n) ==> !(n.x == self.x + dx && n.y == self.y + dy),
        ensures
            final(r)@.no_duplicates(),
            final(r)@.len() <= old(r)@.len() + 1,
            forall|n: Coord| #[trigger]
                final(r)@.contains(n) <==> (old(r)@.contains(n) || (n.x == self.x + dx && n.y
                    == self.y + dy)),
    {
        if let (Some(x), Some(y)) = (self.x.checked_add(dx), self.y.checked_add(dy)) {
            let c = Coord { x, y };
            proof {
                lemma_push_contains(r@, c);
            }
            r.push(c);
        }
    }

    /// The cells of the Moore neighbourhood that lie on the plane, each once.
    pub fn neighbors(self) -> (r: Vec<Coord>)
        ensures
            r@.no_duplicates(),
            forall|n: Coord| r@.contains(n) <==> is_neighbor(self, n),
            r@.len() <= 8,
    {
        let mut r: Vec<Coord> = Vec::new();
        self.push_offset(&mut r, 1, 0);
        self.push_offset(&mut r, -1, 0);
        self.push_offset(&mut r, 0, 1);
        self.push_offset(&mut r, 0, -1);
        self.push_offset(&mut r, 1, 1);
        self.push_offset(&mut r, 1, -1);
        self.push_offset(&mut r, -1, 1);
        self.push_offset(&mut r, -1, -1);
        r
    }
}

impl Default for Coord {
    /// The origin.
    fn default() -> (r: Coord)
        ensures
            r.x == 0,
            r.y == 0,
    {
        Coord { x: 0, y: 0 }
    }
}

} // verus!
