use crate::pos::{around, cell_set, is_neighbour, lives_next, neighbour_count, next_gen, Pos};
use vstd::prelude::*;

verus! {

/// Whether `p` is among `cells`.
pub fn contains(cells: &Vec<Pos>, p: Pos) -> (r: bool)
    ensures
        r == cell_set(cells@).contains(p),
{
    let mut i: usize = 0;
    while i < cells.len()
        invariant
            i <= cells@.len(),
            forall|j: int| 0 <= j < i ==> cells@[j] != p,
        decreases cells@.len() - i,
    {
        if cells[i] == p {
            assert(cells@.to_set().contains(cells@[i as int]));
            return true;
        }
        i = i + 1;
    }
    false
}

fn is_adjacent(q: Pos, p: Pos) -> (r: bool)
    ensures
        r == is_neighbour(q, p),
{
    let dx = q.0 as i64 - p.0 as i64;
    let dy = q.1 as i64 - p.1 as i64;
    !(q == p) && -1 <= dx && dx <= 1 && -1 <= dy && dy <= 1
}

/// Number of live cells among the eight around `p`.
pub fn count_neighbours(cells: &Vec<Pos>, p: Pos) -> (r: usize)
    requires
        cells@.no_duplicates(),
    ensures
        r == neighbour_count(cell_set(cells@), p),
{
    let ghost f = around(p);
    let mut n: usize = 0;
    let mut i: usize = 0;
    proof {
        assert(cells@.subrange(0, 0).to_set().filter(f) =~= Set::empty());
    }
    while i < cells.len()
        invariant
            i <= cells@.len(),
            cells@.no_duplicates(),
            f == around(p),
            n as nat == cells@.subrange(0, i as int).to_set().filter(f).len(),
            n <= i,
        decreases cells@.len() - i,
    {
        let ghost before = cells@.subrange(0, i as int).to_set();
        let q = cells[i];
        proof {
            let after = cells@.subrange(0, i + 1).to_set();
            assert(cells@.subrange(0, i + 1) =~= cells@.subrange(0, i as int).push(q));
            cells@.subrange(0, i as int).lemma_push_to_set_commute(q);
            assert(!before.contains(q));
            before.lemma_len_filter(f);
            if f(q) {
                assert(after.filter(f) =~= before.filter(f).insert(q));
            } else {
                assert(after.filter(f) =~= before.filter(f));
            }
        }
        if is_adjacent(q, p) {
            n = n + 1;
        }
        i = i + 1;
    }
    assert(cells@.subrange(0, i as int) =~= cells@);
    n
}

/// The eight offsets of the cells around a cell, in a fixed order.
pub open spec fn offset(k: int) -> (int, int) {
    if k == 0 {
        (-1, -1)
    } else if k == 1 {
        (-1, 0)
    } else if k == 2 {
        (-1, 1)
    } else if k == 3 {
        (1, -1)
    } else if k == 4 {
        (1, 0)
    } else if k == 5 {
        (1, 1)
    } else if k == 6 {
        (0, -1)
    } else {
        (0, 1)
    }
}

/// `q` lies at the `k`-th offset from `c`.
pub open spec fn at_offset(q: Pos, c: Pos, k: int) -> bool {
    q.0 == c.0 + offset(k).0 && q.1 == c.1 + offset(k).1
}

fn offset_of(k: usize) -> (r: (i64, i64))
    requires
        k < 8,
    ensures
        r.0 == offset(k as int).0,
        r.1 == offset(k as int).1,
{
    if k == 0 {
        (-1, -1)
    } else if k == 1 {
        (-1, 0)
    } else if k == 2 {
        (-1, 1)
    } else if k == 3 {
        (1, -1)
    } else if k == 4 {
        (1, 0)
    } else if k == 5 {
        (1, 1)
    } else if k == 6 {
        (0, -1)
    } else {
        (0, 1)
    }
}

proof fn lemma_neighbour_at_offset(q: Pos, c: Pos)
    requires
        is_neighbour(q, c),
    ensures
        exists|k: int| 0 <= k < 8 && at_offset(q, c, k),
{
    let dx = q.0 - c.0;
    let dy = q.1 - c.1;
    let k = if dx == -1 {
        dy + 1
    } else if dx == 1 {
        dy + 4
    } else if dy == -1 {
        6
    } else {
        7
    };
    assert(at_offset(q, c, k));
}

/// A cell that is alive in the next generation has a live neighbour now.
proof fn lemma_alive_next_has_neighbour(s: Set<Pos>, q: Pos)
    requires
        s.finite(),
        lives_next(s, q),
    ensures
        exists|c: Pos| s.contains(c) && is_neighbour(q, c),
{
    let f = around(q);
    s.lemma_len_filter(f);
    let c = s.filter(f).choose();
    assert(s.filter(f).contains(c));
    assert(is_neighbour(c, q));
    assert(is_neighbour(q, c));
}

/// Whether `q` is alive in the generation after `cells`.
fn alive_next(cells: &Vec<Pos>, q: Pos) -> (r: bool)
    requires
        cells@.no_duplicates(),
    ensures
        r == lives_next(cell_set(cells@), q),
{
    let n = count_neighbours(cells, q);
    n == 3 || (n == 2 && contains(cells, q))
}

/// `next` holds exactly the cells of `seen` that live in the next generation.
pub open spec fn decided(s: Set<Pos>, seen: Seq<Pos>, next: Seq<Pos>) -> bool {
    &&& seen.no_duplicates()
    &&& next.no_duplicates()
    &&& forall|x: Pos| next.contains(x) <==> (seen.contains(x) && lives_next(s, x))
}

/// Decides `q` once: records it as seen and keeps it if it lives on.
fn visit(cells: &Vec<Pos>, seen: &mut Vec<Pos>, next: &mut Vec<Pos>, q: Pos)
    requires
        cells@.no_duplicates(),
        decided(cell_set(cells@), old(seen)@, old(next)@),
    ensures
        decided(cell_set(cells@), final(seen)@, final(next)@),
        forall|x: Pos| final(seen)@.contains(x) <==> (old(seen)@.contains(x) || x == q),
{
    if contains(seen, q) {
        return;
    }
    let ghost s0 = seen@;
    let ghost n0 = next@;
    seen.push(q);
    assert(forall|x: Pos| seen@.contains(x) <==> (s0.contains(x) || x == q)) by {
        assert(forall|x: Pos| s0.contains(x) ==> seen@.contains(x)) by {
            assert(forall|j: int| 0 <= j < s0.len() ==> seen@[j] == s0[j]);
        }
        assert(seen@[s0.len() as int] == q);
    }
    let live = alive_next(cells, q);
    if live {
        next.push(q);
        assert(forall|x: Pos| n0.contains(x) ==> next@.contains(x)) by {
            assert(forall|j: int| 0 <= j < n0.len() ==> next@[j] == n0[j]);
        }
        assert(next@[n0.len() as int] == q);
        assert forall|x: Pos| next@.contains(x) implies n0.contains(x) || x == q by {
            let j = choose|j: int| 0 <= j < next@.len() && next@[j] == x;
            if j < n0.len() {
                assert(n0[j] == x);
            }
        }
        assert(!n0.contains(q));
    }
    assert(!s0.contains(q));
    assert forall|x: Pos| next@.contains(x) <==> (seen@.contains(x) && lives_next(cell_set(cells@), x)) by {
        if x != q {
            assert(next@.contains(x) <==> n0.contains(x));
        }
    }
}

/// The generation that follows `cells`.
///
/// Only the cells around live cells are examined, each once.
pub fn next_generation(cells: &Vec<Pos>) -> (r: Vec<Pos>)
    requires
        cells@.no_duplicates(),
    ensures
        r@.no_duplicates(),
        cell_set(r@) == next_gen(cell_set(cells@)),
{
    let ghost s = cell_set(cells@);
    let mut seen: Vec<Pos> = Vec::new();
    let mut next: Vec<Pos> = Vec::new();
    let mut i: usize = 0;
    while i < cells.len()
        invariant
            i <= cells@.len(),
            cells@.no_duplicates(),
            s == cell_set(cells@),
            decided(s, seen@, next@),
            forall|j: int, q: Pos|
                0 <= j < i && #[trigger] is_neighbour(q, cells@[j]) ==> seen@.contains(q),
        decreases cells@.len() - i,
    {
        let c = cells[i];
        let mut k: usize = 0;
        while k < 8
            invariant
                i < cells@.len(),
                c == cells@[i as int],
                k <= 8,
                cells@.no_duplicates(),
                s == cell_set(cells@),
                decided(s, seen@, next@),
                forall|j: int, q: Pos|
                    0 <= j < i && #[trigger] is_neighbour(q, cells@[j]) ==> seen@.contains(q),
                forall|k1: int, q: Pos|
                    0 <= k1 < k && #[trigger] at_offset(q, c, k1) ==> seen@.contains(q),
            decreases 8 - k,
        {
            let d = offset_of(k);
            let x = c.0 as i64 + d.0;
            let y = c.1 as i64 + d.1;
            if i32::MIN as i64 <= x && x <= i32::MAX as i64 && i32::MIN as i64 <= y && y
                <= i32::MAX as i64 {
                visit(cells, &mut seen, &mut next, Pos(x as i32, y as i32));
            }
            k = k + 1;
        }
        proof {
            assert forall|q: Pos| #[trigger] is_neighbour(q, c) implies seen@.contains(q) by {
                lemma_neighbour_at_offset(q, c);
            }
        }
        i = i + 1;
    }
    proof {
        assert forall|q: Pos| cell_set(next@).contains(q) <== next_gen(s).contains(q) by {
            if next_gen(s).contains(q) {
                lemma_alive_next_has_neighbour(s, q);
                let c = choose|c: Pos| s.contains(c) && is_neighbour(q, c);
                let j = choose|j: int| 0 <= j < cells@.len() && cells@[j] == c;
                assert(is_neighbour(q, cells@[j]));
            }
        }
        assert(cell_set(next@) =~= next_gen(s));
    }
    next
}

/// The empty board stays empty: no cell is born without live neighbours.
pub proof fn lemma_empty_stays_empty()
    ensures
        next_gen(Set::<Pos>::empty()) == Set::<Pos>::empty(),
{
    assert forall|p: Pos| !#[trigger] next_gen(Set::<Pos>::empty()).contains(p) by {
        assert(Set::<Pos>::empty().filter(around(p)) =~= Set::<Pos>::empty());
    }
    assert(next_gen(Set::<Pos>::empty()) =~= Set::<Pos>::empty());
}

/// A cell is never its own neighbour: whether `p` is alive does not change
/// how many live neighbours `p` has.
pub proof fn lemma_neighbour_count_ignores_self(s: Set<Pos>, p: Pos)
    ensures
        neighbour_count(s.insert(p), p) == neighbour_count(s.remove(p), p),
        neighbour_count(s, p) == neighbour_count(s.remove(p), p),
{
    assert(s.insert(p).filter(around(p)) =~= s.remove(p).filter(around(p)));
    assert(s.filter(around(p)) =~= s.remove(p).filter(around(p)));
}

} // verus!
