//! The sparse grid: a map from coordinates to cell states, its mutations, and
//! the generation step.
use vstd::prelude::*;
use std::collections::HashMap;
use vstd::std_specs::hash::spec_hash_map_iter;
use vstd::std_specs::iter::IteratorSpec;
use crate::coord::{Coord, is_neighbor, lemma_push_contains, lemma_take_succ_contains};

verus! {

broadcast use vstd::std_specs::hash::group_hash_axioms;

/// The state of a cell: alive or dead.
#[derive(Clone, Copy, Debug, PartialEq, Eq, Structural)]
pub enum Cell {
    Alive,
    Dead,
}

/// The state of a cell, under its longer name.
pub type CellState = Cell;

/// The hash key under which a coordinate is stored: `x` in the high 64 bits
/// and `y`, shifted to be non-negative, in the low 64 bits. Distinct
/// coordinates get distinct keys.
pub open spec fn key_of(c: Coord) -> i128 {
    (c.x * 0x1_0000_0000_0000_0000 + (c.y + 0x8000_0000_0000_0000)) as i128
}

/// Distinct coordinates have distinct keys.
proof fn lemma_key_of_injective(a: Coord, b: Coord)
    requires
        key_of(a) == key_of(b),
    ensures
        a == b,
{
    let ka = a.x * 0x1_0000_0000_0000_0000 + (a.y + 0x8000_0000_0000_0000);
    let kb = b.x * 0x1_0000_0000_0000_0000 + (b.y + 0x8000_0000_0000_0000);
    assert(ka == key_of(a) && kb == key_of(b));
    if a.x < b.x {
        assert((a.x + 1) * 0x1_0000_0000_0000_0000 <= b.x * 0x1_0000_0000_0000_0000);
    } else if b.x < a.x {
        assert((b.x + 1) * 0x1_0000_0000_0000_0000 <= a.x * 0x1_0000_0000_0000_0000);
    }
}

/// The hash key of `c`.
fn key(c: Coord) -> (k: i128)
    ensures
        k == key_of(c),
{
    (c.x as i128) * 0x1_0000_0000_0000_0000i128 + ((c.y as i128) + 0x8000_0000_0000_0000i128)
}

/// Whether `c` is tracked as alive in `m`; an untracked cell is dead.
pub open spec fn is_alive(m: Map<Coord, Cell>, c: Coord) -> bool {
    m.contains_key(c) && m[c] == Cell::Alive
}

/// The living neighbours of `c` in `m`.
pub open spec fn live_neighbors(m: Map<Coord, Cell>, c: Coord) -> Set<Coord> {
    Set::new(|n: Coord| is_neighbor(c, n) && is_alive(m, n))
}

/// How many neighbours of `c` are alive in `m`.
pub open spec fn live_neighbor_count(m: Map<Coord, Cell>, c: Coord) -> nat {
    live_neighbors(m, c).len()
}

/// The grid `m` after `c` is made alive: `c` is tracked as alive, each
/// neighbour of `c` that was not tracked is tracked as dead, and every other
/// entry is kept as it was.
pub open spec fn with_alive(m: Map<Coord, Cell>, c: Coord) -> Map<Coord, Cell> {
    Map::new(
        |d: Coord| m.contains_key(d) || d == c || is_neighbor(c, d),
        |d: Coord|
            if d == c {
                Cell::Alive
            } else if m.contains_key(d) {
                m[d]
            } else {
                Cell::Dead
            },
    )
}

/// Whether a cell in state `s` with `n` living neighbours is alive in the
/// next generation: a living cell survives with two or three living
/// neighbours, and a dead cell is born with exactly three.
pub open spec fn lives_on(s: Cell, n: nat) -> bool {
    match s {
        Cell::Alive => n == 2 || n == 3,
        Cell::Dead => n == 3,
    }
}

/// The cells alive in the generation after `m`. Only tracked cells are
/// examined, each against its state and living-neighbour count in `m`.
pub open spec fn next_alive(m: Map<Coord, Cell>) -> Set<Coord> {
    Set::new(|c: Coord| m.contains_key(c) && lives_on(m[c], live_neighbor_count(m, c)))
}

/// The grid in which exactly the cells of `live` are alive and every other
/// neighbour of a cell of `live` is tracked as dead: what making each cell of
/// `live` alive in an empty grid yields.
pub open spec fn seeded(live: Set<Coord>) -> Map<Coord, Cell> {
    Map::new(
        |d: Coord| live.contains(d) || exists|a: Coord| live.contains(a) && #[trigger] is_neighbor(a, d),
        |d: Coord|
            if live.contains(d) {
                Cell::Alive
            } else {
                Cell::Dead
            },
    )
}

/// Making `c` alive in the grid seeded by `live` gives the grid seeded by
/// `live` with `c` added.
pub proof fn lemma_with_alive_seeded(live: Set<Coord>, c: Coord)
    ensures
        with_alive(seeded(live), c) == seeded(live.insert(c)),
{
    let l = with_alive(seeded(live), c);
    let r = seeded(live.insert(c));
    assert forall|d: Coord| #[trigger] l.contains_key(d) == r.contains_key(d) by {
        if seeded(live).contains_key(d) && !live.contains(d) {
            let a = choose|a: Coord| live.contains(a) && #[trigger] is_neighbor(a, d);
            assert(live.insert(c).contains(a) && is_neighbor(a, d));
        }
        if is_neighbor(c, d) {
            assert(live.insert(c).contains(c));
        }
        if r.contains_key(d) && !live.insert(c).contains(d) {
            let a = choose|a: Coord| live.insert(c).contains(a) && #[trigger] is_neighbor(a, d);
            if a != c {
                assert(live.contains(a));
            }
        }
    }
    assert(l =~= r);
}

/// The empty grid is the one seeded by no cell.
pub proof fn lemma_seeded_empty()
    ensures
        seeded(Set::empty()) == Map::<Coord, Cell>::empty(),
{
    assert(seeded(Set::empty()) =~= Map::<Coord, Cell>::empty());
}

/// Making a cell alive a second time changes nothing: the tracked cells and
/// their states are those after the first time.
pub proof fn lemma_set_alive_idempotent(m: Map<Coord, Cell>, c: Coord)
    ensures
        with_alive(with_alive(m, c), c) == with_alive(m, c),
{
    assert(with_alive(with_alive(m, c), c) =~= with_alive(m, c));
}

/// Making a cell dead a second time changes nothing.
pub proof fn lemma_set_dead_idempotent(m: Map<Coord, Cell>, c: Coord)
    ensures
        m.remove(c).remove(c) == m.remove(c),
{
    assert(m.remove(c).remove(c) =~= m.remove(c));
}

/// Whether every neighbour of every living cell of `m` is tracked, so that a
/// generation step examines each cell where a birth can happen.
pub open spec fn neighbors_tracked(m: Map<Coord, Cell>) -> bool {
    forall|c: Coord, n: Coord| is_alive(m, c) && #[trigger] is_neighbor(c, n) ==> m.contains_key(n)
}

/// Making a cell alive keeps every neighbour of a living cell tracked.
pub proof fn lemma_with_alive_keeps_neighbors_tracked(m: Map<Coord, Cell>, c: Coord)
    requires
        neighbors_tracked(m),
    ensures
        neighbors_tracked(with_alive(m, c)),
{
}

/// The grid that a generation step builds tracks every neighbour of each of
/// its living cells.
pub proof fn lemma_seeded_neighbors_tracked(live: Set<Coord>)
    ensures
        neighbors_tracked(seeded(live)),
{
    assert forall|c: Coord, n: Coord| is_alive(seeded(live), c) && #[trigger] is_neighbor(
        c,
        n,
    ) implies seeded(live).contains_key(n) by {
        assert(live.contains(c));
    }
}

/// A sparse grid. Every coordinate that is not tracked is dead.
pub struct Grid {
    cell_states: HashMap<i128, (Coord, Cell)>,
}

impl View for Grid {
    type V = Map<Coord, Cell>;

    /// The tracked cells and their states.
    closed spec fn view(&self) -> Map<Coord, Cell> {
        Map::new(
            |c: Coord| self.cell_states@.contains_key(key_of(c)),
            |c: Coord| self.cell_states@[key_of(c)].1,
        )
    }
}

impl Grid {
    /// Each entry is stored under the key of its own coordinate.
    #[verifier::type_invariant]
    spec fn keyed_by_position(self) -> bool {
        forall|k: i128| #[trigger]
            self.cell_states@.contains_key(k) ==> key_of(self.cell_states@[k].0) == k
    }

    /// An empty grid: every cell is dead and none is tracked.
    pub fn new() -> (r: Grid)
        ensures
            r@ == Map::<Coord, Cell>::empty(),
    {
        let r = Grid { cell_states: HashMap::new() };
        assert(r@ =~= Map::<Coord, Cell>::empty());
        r
    }

    /// Whether `c` is tracked.
    fn tracks(&self, c: Coord) -> (r: bool)
        ensures
            r == self@.contains_key(c),
    {
        self.cell_states.contains_key(&key(c))
    }

    /// Tracks `c` with state `s`, replacing any state it had.
    fn put(&mut self, c: Coord, s: Cell)
        ensures
            final(self)@ == old(self)@.insert(c, s),
    {
        let mut taken = Grid::new();
        std::mem::swap(self, &mut taken);
        proof {
            use_type_invariant(&taken);
        }
        let Grid { mut cell_states } = taken;
        cell_states.insert(key(c), (c, s));
        let mut updated = Grid { cell_states };
        std::mem::swap(self, &mut updated);
        proof {
            assert forall|d: Coord| #[trigger] self@.contains_key(d) == old(self)@.insert(
                c,
                s,
            ).contains_key(d) by {
                if key_of(d) == key_of(c) {
                    lemma_key_of_injective(d, c);
                }
            }
            assert(self@ =~= old(self)@.insert(c, s));
        }
    }

    /// The state of `c` if it is tracked, and `None` if it is not.
    pub fn get(&self, c: Coord) -> (r: Option<Cell>)
        ensures
            r == (if self@.contains_key(c) {
                Some(self@[c])
            } else {
                None
            }),
    {
        match self.cell_states.get(&key(c)) {
            Some(entry) => Some(entry.1),
            None => None,
        }
    }

    /// The state of `c`, where an untracked cell counts as dead.
    pub fn state(&self, c: Coord) -> (r: Cell)
        ensures
            r == (if is_alive(self@, c) {
                Cell::Alive
            } else {
                Cell::Dead
            }),
    {
        match self.get(c) {
            Some(Cell::Alive) => Cell::Alive,
            _ => Cell::Dead,
        }
    }

    /// Makes `c` alive and tracks each of its neighbours that was not yet
    /// tracked as dead, so that the next generation step examines them.
    pub fn set_alive(&mut self, c: Coord)
        ensures
            final(self)@ == with_alive(old(self)@, c),
            final(self)@.contains_key(c) && final(self)@[c] == Cell::Alive,
            forall|n: Coord| #[trigger] is_neighbor(c, n) ==> final(self)@.contains_key(n),
    {
        let ghost m0 = self@;
        self.put(c, Cell::Alive);
        let nbrs = c.neighbors();
        for i in 0..nbrs.len()
            invariant
                forall|n: Coord| nbrs@.contains(n) <==> is_neighbor(c, n),
                forall|d: Coord| #[trigger]
                    self@.contains_key(d) <==> (m0.contains_key(d) || d == c || nbrs@.take(
                        i as int,
                    ).contains(d)),
                forall|d: Coord| #[trigger]
                    self@.contains_key(d) ==> self@[d] == (if d == c {
                        Cell::Alive
                    } else if m0.contains_key(d) {
                        m0[d]
                    } else {
                        Cell::Dead
                    }),
        {
            let n = nbrs[i];
            proof {
                nbrs@.lemma_take_succ_push(i as int);
                assert(nbrs@.contains(n));
            }
            if !self.tracks(n) {
                self.put(n, Cell::Dead);
            }
            proof {
                lemma_take_succ_contains(nbrs@, i as int);
            }
        }
        proof {
            assert(nbrs@.take(nbrs@.len() as int) == nbrs@);
            assert(self@ =~= with_alive(m0, c));
        }
    }

    /// The living neighbours of `c`, each once, with their state.
    pub fn living_neighbors(&self, c: Coord) -> (r: Vec<(Coord, Cell)>)
        ensures
            r@.len() == live_neighbor_count(self@, c),
            r@.len() <= 8,
            forall|i: int|
                0 <= i < r@.len() ==> r@[i].1 == Cell::Alive && #[trigger] live_neighbors(
                    self@,
                    c,
                ).contains(r@[i].0),
            forall|i: int, j: int|
                0 <= i < r@.len() && 0 <= j < r@.len() && i != j ==> r@[i].0 != r@[j].0,
            forall|n: Coord|
                #[trigger] live_neighbors(self@, c).contains(n) ==> exists|i: int|
                    0 <= i < r@.len() && r@[i].0 == n,
    {
        let nbrs = c.neighbors();
        let mut r: Vec<(Coord, Cell)> = Vec::new();
        let ghost mut found: Seq<Coord> = Seq::empty();
        for i in 0..nbrs.len()
            invariant
                nbrs@.no_duplicates(),
                nbrs@.len() <= 8,
                forall|n: Coord| nbrs@.contains(n) <==> is_neighbor(c, n),
                found.len() == r@.len(),
                r@.len() <= i,
                forall|k: int| 0 <= k < r@.len() ==> #[trigger] r@[k] == (found[k], Cell::Alive),
                found.no_duplicates(),
                forall|n: Coord|
                    found.contains(n) <==> (nbrs@.take(i as int).contains(n) && is_alive(self@, n)),
        {
            let n = nbrs[i];
            proof {
                nbrs@.lemma_take_succ_push(i as int);
            }
            if let Some(Cell::Alive) = self.get(n) {
                proof {
                    assert(!nbrs@.take(i as int).contains(n)) by {
                        if nbrs@.take(i as int).contains(n) {
                            let k = choose|k: int| 0 <= k < i && nbrs@.take(i as int)[k] == n;
                            assert(nbrs@[k] == nbrs@[i as int]);
                        }
                    }
                    lemma_push_contains(found, n);
                    found = found.push(n);
                }
                r.push((n, Cell::Alive));
                assert(r@[r@.len() - 1] == (found[r@.len() - 1], Cell::Alive));
            }
            proof {
                lemma_take_succ_contains(nbrs@, i as int);
            }
        }
        proof {
            assert(nbrs@.take(nbrs@.len() as int) == nbrs@);
            assert(found.to_set() =~= live_neighbors(self@, c));
            found.unique_seq_to_set();
            assert forall|i: int| 0 <= i < r@.len() implies #[trigger] live_neighbors(
                self@,
                c,
            ).contains(r@[i].0) by {
                assert(r@[i] == (found[i], Cell::Alive));
                assert(found.contains(found[i]));
            }
            assert forall|n: Coord| #[trigger] live_neighbors(self@, c).contains(n) implies exists|
                i: int,
            | 0 <= i < r@.len() && r@[i].0 == n by {
                assert(found.contains(n));
                let k = choose|k: int| 0 <= k < found.len() && found[k] == n;
                assert(r@[k].0 == n);
            }
        }
        r
    }

    /// How many neighbours of `c` are alive: a number from 0 to 8.
    pub fn living_neighbor_count(&self, c: Coord) -> (r: usize)
        ensures
            r == live_neighbor_count(self@, c),
            r <= 8,
    {
        self.living_neighbors(c).len()
    }

    /// Every tracked cell with its state, each once, in no particular order.
    pub fn cells(&self) -> (r: Vec<(Coord, Cell)>)
        ensures
            forall|i: int|
                0 <= i < r@.len() ==> #[trigger] self@.contains_key(r@[i].0) && self@[r@[i].0]
                    == r@[i].1,
            forall|i: int, j: int|
                0 <= i < r@.len() && 0 <= j < r@.len() && i != j ==> r@[i].0 != r@[j].0,
            forall|c: Coord| #[trigger]
                self@.contains_key(c) ==> exists|i: int| 0 <= i < r@.len() && r@[i].0 == c,
    {
        proof {
            use_type_invariant(self);
        }
        let ghost all = spec_hash_map_iter(&self.cell_states).remaining();
        let mut r: Vec<(Coord, Cell)> = Vec::new();
        for entry in it: self.cell_states.iter()
            invariant
                it.seq() == all,
                all.no_duplicates(),
                r@.len() == it.index(),
                forall|k: int| 0 <= k < r@.len() ==> #[trigger] r@[k] == *it.seq()[k].1,
        {
            r.push(*entry.1);
        }
        proof {
            assert(r@.len() == all.len());
            assert forall|i: int| 0 <= i < r@.len() implies #[trigger] self@.contains_key(r@[i].0)
                && self@[r@[i].0] == r@[i].1 by {
                assert(r@[i] == *all[i].1);
                assert(self.cell_states@.contains_key(*all[i].0));
            }
            assert forall|i: int, j: int|
                0 <= i < r@.len() && 0 <= j < r@.len() && i != j implies r@[i].0 != r@[j].0 by {
                assert(r@[i] == *all[i].1 && r@[j] == *all[j].1);
                assert(self.cell_states@.contains_key(*all[i].0));
                assert(self.cell_states@.contains_key(*all[j].0));
                assert(all[i] != all[j]);
            }
            assert forall|c: Coord| #[trigger] self@.contains_key(c) implies exists|i: int|
                0 <= i < r@.len() && r@[i].0 == c by {
                let k = key_of(c);
                assert(self.cell_states@.contains_key(k));
                assert(all.contains((&k, &self.cell_states@[k])));
                let i = choose|i: int| 0 <= i < all.len() && all[i] == (&k, &self.cell_states@[k]);
                assert(r@[i] == self.cell_states@[k]);
                lemma_key_of_injective(self.cell_states@[k].0, c);
            }
        }
        r
    }

    /// The next generation, built as a new grid: every tracked cell that
    /// survives or is born is made alive in it, which also tracks its
    /// neighbours for the generation after.
    pub fn step(&self) -> (r: Grid)
        ensures
            r@ == seeded(next_alive(self@)),
    {
        let cells = self.cells();
        let mut next = Grid::new();
        let ghost mut born: Set<Coord> = Set::empty();
        proof {
            lemma_seeded_empty();
        }
        for i in 0..cells.len()
            invariant
                forall|j: int|
                    0 <= j < cells@.len() ==> #[trigger] self@.contains_key(cells@[j].0)
                        && self@[cells@[j].0] == cells@[j].1,
                next@ == seeded(born),
                forall|c: Coord|
                    #[trigger] born.contains(c) <==> (next_alive(self@).contains(c) && exists|j: int|
                        0 <= j < i && cells@[j].0 == c),
        {
            let (c, s) = cells[i];
            assert(self@.contains_key(cells@[i as int].0));
            let n = self.living_neighbor_count(c);
            let lives = match s {
                Cell::Alive => n == 2 || n == 3,
                Cell::Dead => n == 3,
            };
            if lives {
                next.set_alive(c);
                proof {
                    lemma_with_alive_seeded(born, c);
                    born = born.insert(c);
                }
            }
            assert forall|d: Coord| #[trigger] born.contains(d) <==> (next_alive(self@).contains(d)
                && exists|j: int| 0 <= j < i + 1 && cells@[j].0 == d) by {
                if d == c {
                    assert(cells@[i as int].0 == d);
                }
                if exists|j: int| 0 <= j < i + 1 && cells@[j].0 == d {
                    let j = choose|j: int| 0 <= j < i + 1 && cells@[j].0 == d;
                    if j < i {
                        assert(exists|j: int| 0 <= j < i && cells@[j].0 == d);
                    }
                }
                if exists|j: int| 0 <= j < i && cells@[j].0 == d {
                    let j = choose|j: int| 0 <= j < i && cells@[j].0 == d;
                    assert(0 <= j < i + 1 && cells@[j].0 == d);
                }
            }
        }
        proof {
            assert forall|c: Coord| #[trigger] born.contains(c) == next_alive(self@).contains(c) by {
                if next_alive(self@).contains(c) {
                    assert(self@.contains_key(c));
                    let j = choose|j: int| 0 <= j < cells@.len() && cells@[j].0 == c;
                }
            }
            assert(born =~= next_alive(self@));
        }
        next
    }

    /// Replaces this grid by its next generation.
    pub fn update(&mut self)
        ensures
            final(self)@ == seeded(next_alive(old(self)@)),
    {
        *self = self.step();
    }

    /// Stops tracking `c`, which is then dead.
    pub fn set_dead(&mut self, c: Coord)
        ensures
            final(self)@ == old(self)@.remove(c),
    {
        let mut taken = Grid::new();
        std::mem::swap(self, &mut taken);
        proof {
            use_type_invariant(&taken);
        }
        let Grid { mut cell_states } = taken;
        cell_states.remove(&key(c));
        let mut updated = Grid { cell_states };
        std::mem::swap(self, &mut updated);
        proof {
            assert forall|d: Coord| #[trigger] self@.contains_key(d) == old(self)@.remove(
                c,
            ).contains_key(d) by {
                if key_of(d) == key_of(c) {
                    lemma_key_of_injective(d, c);
                }
            }
            assert(self@ =~= old(self)@.remove(c));
        }
    }
}

impl Default for Grid {
    fn default() -> (r: Grid)
        ensures
            r@ == Map::<Coord, Cell>::empty(),
    {
        Grid::new()
    }
}

} // verus!
