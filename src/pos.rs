use vstd::prelude::*;

verus! {

/// A cell of the grid: column `0`, row `1`.
#[derive(Clone, Copy, PartialEq, Eq, Structural, Hash, Debug)]
pub struct Pos(pub i32, pub i32);

/// `q` is one of the eight cells around `p` (and not `p` itself).
pub open spec fn is_neighbour(q: Pos, p: Pos) -> bool {
    q != p && -1 <= q.0 - p.0 <= 1 && -1 <= q.1 - p.1 <= 1
}

/// The predicate "is one of the eight cells around `p`".
pub open spec fn around(p: Pos) -> spec_fn(Pos) -> bool {
    |q: Pos| is_neighbour(q, p)
}

/// The set of positions held by a cell vector.
pub open spec fn cell_set(v: Seq<Pos>) -> Set<Pos> {
    v.to_set()
}

/// How many live cells of `s` surround `p`.
pub open spec fn neighbour_count(s: Set<Pos>, p: Pos) -> nat {
    s.filter(around(p)).len()
}

/// The rule of the game: a live cell with two or three live neighbours
/// survives, a dead cell with exactly three is born.
pub open spec fn lives_next(s: Set<Pos>, p: Pos) -> bool {
    let n = neighbour_count(s, p);
    n == 3 || (n == 2 && s.contains(p))
}

/// The next generation of `s`.
pub open spec fn next_gen(s: Set<Pos>) -> Set<Pos> {
    Set::new(|p: Pos| lives_next(s, p))
}

} // verus!
