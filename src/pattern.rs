use crate::pos::{cell_set, Pos};
use vstd::prelude::*;

verus! {

/// Line of the character at index `i`: the number of newlines before it.
pub open spec fn row_of(s: Seq<char>, i: int) -> int
    decreases i,
{
    if i <= 0 {
        0
    } else {
        row_of(s, i - 1) + if s[i - 1] == '\n' {
            1int
        } else {
            0int
        }
    }
}

/// Column of the character at index `i`: how far it stands from the start of its line.
pub open spec fn col_of(s: Seq<char>, i: int) -> int
    decreases i,
{
    if i <= 0 {
        0
    } else if s[i - 1] == '\n' {
        0
    } else {
        col_of(s, i - 1) + 1
    }
}

/// The character at index `i` is a `#` standing at cell `p`.
pub open spec fn marks(s: Seq<char>, i: int, p: Pos) -> bool {
    0 <= i < s.len() && s[i] == '#' && row_of(s, i) == p.1 && col_of(s, i) == p.0
}

/// The live cells of a plaintext pattern: one `#` per live cell, rows separated by newlines.
pub open spec fn pattern_set(s: Seq<char>) -> Set<Pos> {
    Set::new(|p: Pos| exists|i: int| #[trigger] marks(s, i, p))
}

/// Reads a plaintext pattern: each `#` is a live cell at (column, line); all other characters are dead.
pub fn parse_pattern(text: &str) -> (r: Vec<Pos>)
    requires
        text@.len() <= i32::MAX,
    ensures
        r@.no_duplicates(),
        cell_set(r@) == pattern_set(text@),
{
    let ghost s = text@;
    let n = text.unicode_len();
    let mut out: Vec<Pos> = Vec::new();
    let mut row: i32 = 0;
    let mut col: i32 = 0;
    let mut i: usize = 0;
    while i < n
        invariant
            n == s.len(),
            s == text@,
            s.len() <= i32::MAX,
            i <= n,
            row == row_of(s, i as int),
            col == col_of(s, i as int),
            0 <= row <= i,
            0 <= col <= i,
            out@.no_duplicates(),
            forall|k: int|
                0 <= k < out@.len() ==> (#[trigger] out@[k]).1 < row || (out@[k].1 == row
                    && out@[k].0 < col),
            forall|p: Pos| out@.contains(p) <==> exists|j: int| 0 <= j < i && #[trigger] marks(s, j, p),
        decreases n - i,
    {
        let c = text.get_char(i);
        if c == '#' {
            let ghost o = out@;
            let p = Pos(col, row);
            assert(!o.contains(p)) by {
                if o.contains(p) {
                    let k = choose|k: int| 0 <= k < o.len() && o[k] == p;
                }
            }
            out.push(p);
            assert(marks(s, i as int, p));
            assert forall|q: Pos| out@.contains(q) <==> exists|j: int| 0 <= j < i + 1 && #[trigger] marks(s, j, q) by {
                if out@.contains(q) && q != p {
                    let k = choose|k: int| 0 <= k < out@.len() && out@[k] == q;
                    assert(o[k] == q);
                }
                if exists|j: int| 0 <= j < i + 1 && #[trigger] marks(s, j, q) {
                    let j = choose|j: int| 0 <= j < i + 1 && #[trigger] marks(s, j, q);
                    if j < i {
                        assert(exists|j: int| 0 <= j < i && #[trigger] marks(s, j, q));
                        assert(o.contains(q));
                        let k = choose|k: int| 0 <= k < o.len() && o[k] == q;
                        assert(out@[k] == q);
                    } else {
                        assert(out@[o.len() as int] == q);
                    }
                }
            }
        } else {
            assert forall|q: Pos| out@.contains(q) <==> exists|j: int| 0 <= j < i + 1 && #[trigger] marks(s, j, q) by {
                if exists|j: int| 0 <= j < i + 1 && #[trigger] marks(s, j, q) {
                    let j = choose|j: int| 0 <= j < i + 1 && #[trigger] marks(s, j, q);
                    assert(j != i);
                }
            }
        }
        if c == '\n' {
            row = row + 1;
            col = 0;
        } else {
            col = col + 1;
        }
        i = i + 1;
    }
    proof {
        assert forall|p: Pos| cell_set(out@).contains(p) <==> pattern_set(s).contains(p) by {
            if pattern_set(s).contains(p) {
                let j = choose|j: int| #[trigger] marks(s, j, p);
                assert(0 <= j < i && marks(s, j, p));
            }
        }
        assert(cell_set(out@) =~= pattern_set(s));
    }
    out
}

/// The cells that a seeding keeps: each cell `(x, y)` with `0 <= x, y <= board_size`
/// is alive exactly when its draw, `draws[x * (board_size + 1) + y]`, is `1`.
pub open spec fn seeded(board_size: int, draws: Seq<u8>) -> Set<Pos> {
    Set::new(
        |p: Pos|
            0 <= p.0 <= board_size && 0 <= p.1 <= board_size && draws[p.0 * (board_size + 1) + p.1]
                == 1,
    )
}

proof fn lemma_index_below(x: int, y: int, n: int)
    requires
        n > 0,
        0 <= x,
        0 <= y < n,
    ensures
        x * n + y < n * n <==> x < n,
{
    if x < n {
        assert(x * n + y < n * n) by (nonlinear_arith)
            requires
                0 <= x < n,
                0 <= y < n,
        ;
    } else {
        assert(x * n + y >= n * n) by (nonlinear_arith)
            requires
                x >= n,
                n > 0,
                0 <= y,
        ;
    }
}

proof fn lemma_index_unique(a: int, b: int, c: int, d: int, n: int)
    requires
        n > 0,
        0 <= b < n,
        0 <= d < n,
        a * n + b == c * n + d,
    ensures
        a == c,
        b == d,
{
    if a < c {
        assert(a * n + b < c * n + d) by (nonlinear_arith)
            requires
                a < c,
                n > 0,
                0 <= b < n,
                0 <= d,
        ;
    } else if a > c {
        assert(a * n + b > c * n + d) by (nonlinear_arith)
            requires
                a > c,
                n > 0,
                0 <= d < n,
                0 <= b,
        ;
    }
}

/// Seeds the square `0 <= x, y <= board_size` from one draw per cell, taken
/// column by column: a cell is alive when its draw is `1` (draws come from `{1, 2, 3}`).
pub fn random_cells(board_size: i32, draws: &Vec<u8>) -> (r: Vec<Pos>)
    requires
        board_size >= 0,
        draws@.len() == (board_size + 1) * (board_size + 1),
    ensures
        r@.no_duplicates(),
        cell_set(r@) == seeded(board_size as int, draws@),
{
    let ghost b = board_size as int;
    let ghost n = b + 1;
    let mut out: Vec<Pos> = Vec::new();
    let mut x: i64 = 0;
    let mut y: i64 = 0;
    let mut k: usize = 0;
    while k < draws.len()
        invariant
            b == board_size,
            n == b + 1,
            n > 0,
            draws@.len() == n * n,
            k <= draws@.len(),
            0 <= x <= n,
            0 <= y < n,
            k == x * n + y,
            out@.no_duplicates(),
            forall|p: Pos|
                #[trigger] out@.contains(p) <==> (0 <= p.0 && 0 <= p.1 < n && p.0 * n + p.1 < k
                    && draws@[p.0 * n + p.1] == 1),
        decreases draws@.len() - k,
    {
        proof {
            lemma_index_below(x as int, y as int, n);
        }
        if draws[k] == 1 {
            let ghost o = out@;
            let p = Pos(x as i32, y as i32);
            out.push(p);
            assert forall|q: Pos| #[trigger] out@.contains(q) <==> (0 <= q.0 && 0 <= q.1 < n && q.0 * n + q.1 < k + 1
                && draws@[q.0 * n + q.1] == 1) by {
                if out@.contains(q) && q != p {
                    let j = choose|j: int| 0 <= j < out@.len() && out@[j] == q;
                    assert(o[j] == q);
                    assert(o.contains(q));
                }
                if 0 <= q.0 && 0 <= q.1 < n && q.0 * n + q.1 < k + 1 && draws@[q.0 * n + q.1] == 1 {
                    if q.0 * n + q.1 < k {
                        assert(o.contains(q));
                        let j = choose|j: int| 0 <= j < o.len() && o[j] == q;
                        assert(out@[j] == q);
                    } else {
                        lemma_index_unique(q.0 as int, q.1 as int, x as int, y as int, n);
                        assert(out@[o.len() as int] == q);
                    }
                }
            }
            assert(!o.contains(p));
        } else {
            assert forall|q: Pos| #[trigger] out@.contains(q) <==> (0 <= q.0 && 0 <= q.1 < n && q.0 * n + q.1 < k + 1
                && draws@[q.0 * n + q.1] == 1) by {
                if 0 <= q.0 && 0 <= q.1 < n && q.0 * n + q.1 == k {
                    lemma_index_unique(q.0 as int, q.1 as int, x as int, y as int, n);
                }
            }
        }
        k = k + 1;
        if y == board_size as i64 {
            y = 0;
            x = x + 1;
            assert(k == x * n + y) by (nonlinear_arith)
                requires
                    k == (x - 1) * n + (n - 1) + 1,
                    y == 0,
            ;
        } else {
            y = y + 1;
        }
    }
    proof {
        assert forall|p: Pos| cell_set(out@).contains(p) <==> seeded(b, draws@).contains(p) by {
            if 0 <= p.0 && 0 <= p.1 < n {
                lemma_index_below(p.0 as int, p.1 as int, n);
            }
        }
        assert(cell_set(out@) =~= seeded(b, draws@));
    }
    out
}

} // verus!
