use crate::pos::{cell_set, Pos};
use vstd::prelude::*;

verus! {

/// The screen area the board is drawn in: its top-left corner and its size in pixels.
#[derive(Clone, Copy, PartialEq, Eq, Structural, Debug)]
pub struct Viewport {
    pub min_x: i32,
    pub min_y: i32,
    pub width: i32,
    pub height: i32,
}

/// The screen rectangle of one live cell.
#[derive(Clone, Copy, PartialEq, Eq, Structural, Debug)]
pub struct CellRect {
    pub min_x: i64,
    pub min_y: i64,
    pub max_x: i64,
    pub max_y: i64,
}

/// Side of a cell in pixels: the larger side of the viewport over the board size.
pub open spec fn cell_size_for(vp: Viewport, board_size: int) -> int {
    (if vp.width >= vp.height {
        vp.width as int
    } else {
        vp.height as int
    }) / board_size
}

/// Side of a cell in pixels for a viewport and a board size.
pub fn cell_size_of(vp: &Viewport, board_size: i32) -> (r: i32)
    requires
        board_size > 0,
        vp.width >= 0,
        vp.height >= 0,
    ensures
        r == cell_size_for(*vp, board_size as int),
        r >= 0,
{
    if vp.width >= vp.height {
        vp.width / board_size
    } else {
        vp.height / board_size
    }
}

/// `m` is the smallest column of a cell of `s`.
pub open spec fn is_low_x(s: Set<Pos>, m: int) -> bool {
    &&& exists|p: Pos| #[trigger] s.contains(p) && p.0 == m
    &&& forall|p: Pos| #[trigger] s.contains(p) ==> m <= p.0
}

/// `m` is the largest column of a cell of `s`.
pub open spec fn is_high_x(s: Set<Pos>, m: int) -> bool {
    &&& exists|p: Pos| #[trigger] s.contains(p) && p.0 == m
    &&& forall|p: Pos| #[trigger] s.contains(p) ==> p.0 <= m
}

/// `m` is the smallest row of a cell of `s`.
pub open spec fn is_low_y(s: Set<Pos>, m: int) -> bool {
    &&& exists|p: Pos| #[trigger] s.contains(p) && p.1 == m
    &&& forall|p: Pos| #[trigger] s.contains(p) ==> m <= p.1
}

/// `m` is the largest row of a cell of `s`.
pub open spec fn is_high_y(s: Set<Pos>, m: int) -> bool {
    &&& exists|p: Pos| #[trigger] s.contains(p) && p.1 == m
    &&& forall|p: Pos| #[trigger] s.contains(p) ==> p.1 <= m
}

/// Width of the bounding box of `s` (largest column minus smallest); zero when `s` is empty.
pub open spec fn span_x(s: Set<Pos>) -> int {
    if s == Set::<Pos>::empty() {
        0
    } else {
        (choose|m: int| is_high_x(s, m)) - (choose|m: int| is_low_x(s, m))
    }
}

/// Height of the bounding box of `s`; zero when `s` is empty.
pub open spec fn span_y(s: Set<Pos>) -> int {
    if s == Set::<Pos>::empty() {
        0
    } else {
        (choose|m: int| is_high_y(s, m)) - (choose|m: int| is_low_y(s, m))
    }
}

/// The shift that centres the bounding box of `s` in a `board_size` square.
pub open spec fn center_shift(s: Set<Pos>, board_size: int) -> (int, int) {
    (board_size / 2 - span_x(s) / 2, board_size / 2 - span_y(s) / 2)
}

/// Every cell of `s` moved by `(dx, dy)`.
pub open spec fn shifted(s: Set<Pos>, dx: int, dy: int) -> Set<Pos> {
    Set::new(|q: Pos| exists|p: Pos| #[trigger] s.contains(p) && q.0 == p.0 + dx && q.1 == p.1 + dy)
}

/// Every cell of `s` moved by `(dx, dy)` still has `i32` coordinates.
pub open spec fn shift_fits(s: Set<Pos>, dx: int, dy: int) -> bool {
    forall|p: Pos|
        #[trigger] s.contains(p) ==> i32::MIN <= p.0 + dx <= i32::MAX && i32::MIN <= p.1 + dy
            <= i32::MAX
}

/// The bounding box of a non-empty cell vector: smallest and largest column, smallest and largest row.
fn bounds(cells: &Vec<Pos>) -> (r: (i32, i32, i32, i32))
    requires
        cells@.len() > 0,
    ensures
        is_low_x(cell_set(cells@), r.0 as int),
        is_high_x(cell_set(cells@), r.1 as int),
        is_low_y(cell_set(cells@), r.2 as int),
        is_high_y(cell_set(cells@), r.3 as int),
{
    let first = cells[0];
    let mut lo_x = first.0;
    let mut hi_x = first.0;
    let mut lo_y = first.1;
    let mut hi_y = first.1;
    let mut i: usize = 1;
    while i < cells.len()
        invariant
            1 <= i <= cells@.len(),
            exists|j: int| 0 <= j < i && cells@[j].0 == lo_x,
            exists|j: int| 0 <= j < i && cells@[j].0 == hi_x,
            exists|j: int| 0 <= j < i && cells@[j].1 == lo_y,
            exists|j: int| 0 <= j < i && cells@[j].1 == hi_y,
            forall|j: int| 0 <= j < i ==> lo_x <= #[trigger] cells@[j].0 <= hi_x,
            forall|j: int| 0 <= j < i ==> lo_y <= #[trigger] cells@[j].1 <= hi_y,
        decreases cells@.len() - i,
    {
        let c = cells[i];
        if c.0 < lo_x {
            lo_x = c.0;
        }
        if c.0 > hi_x {
            hi_x = c.0;
        }
        if c.1 < lo_y {
            lo_y = c.1;
        }
        if c.1 > hi_y {
            hi_y = c.1;
        }
        i = i + 1;
    }
    let ghost s = cell_set(cells@);
    proof {
        let j0 = choose|j: int| 0 <= j < i && cells@[j].0 == lo_x;
        let j1 = choose|j: int| 0 <= j < i && cells@[j].0 == hi_x;
        let j2 = choose|j: int| 0 <= j < i && cells@[j].1 == lo_y;
        let j3 = choose|j: int| 0 <= j < i && cells@[j].1 == hi_y;
        assert(s.contains(cells@[j0]));
        assert(s.contains(cells@[j1]));
        assert(s.contains(cells@[j2]));
        assert(s.contains(cells@[j3]));
        assert forall|p: Pos| s.contains(p) implies lo_x <= p.0 <= hi_x && lo_y <= p.1 <= hi_y by {
            let j = choose|j: int| 0 <= j < cells@.len() && cells@[j] == p;
            assert(lo_x <= cells@[j].0 <= hi_x);
            assert(lo_y <= cells@[j].1 <= hi_y);
        }
    }
    (lo_x, hi_x, lo_y, hi_y)
}

/// The shift that centres the bounding box of `cells` in a `board_size` square.
pub fn center_offset(cells: &Vec<Pos>, board_size: i32) -> (r: (i64, i64))
    requires
        board_size > 0,
    ensures
        r.0 == center_shift(cell_set(cells@), board_size as int).0,
        r.1 == center_shift(cell_set(cells@), board_size as int).1,
        i32::MIN < r.0 <= i32::MAX,
        i32::MIN < r.1 <= i32::MAX,
{
    let ghost s = cell_set(cells@);
    let half = (board_size / 2) as i64;
    if cells.len() == 0 {
        assert(s =~= Set::<Pos>::empty());
        return (half, half);
    }
    let (lo_x, hi_x, lo_y, hi_y) = bounds(cells);
    proof {
        assert(s.contains(cells@[0]));
        let a = choose|m: int| is_low_x(s, m);
        let b = choose|m: int| is_high_x(s, m);
        let c = choose|m: int| is_low_y(s, m);
        let d = choose|m: int| is_high_y(s, m);
        assert(is_low_x(s, a) && is_high_x(s, b) && is_low_y(s, c) && is_high_y(s, d));
        assert(a == lo_x) by {
            let p = choose|p: Pos| s.contains(p) && p.0 == a;
            let q = choose|p: Pos| s.contains(p) && p.0 == lo_x;
            assert(lo_x <= p.0 && a <= q.0);
        }
        assert(b == hi_x) by {
            let p = choose|p: Pos| s.contains(p) && p.0 == b;
            let q = choose|p: Pos| s.contains(p) && p.0 == hi_x;
            assert(p.0 <= hi_x && q.0 <= b);
        }
        assert(c == lo_y) by {
            let p = choose|p: Pos| s.contains(p) && p.1 == c;
            let q = choose|p: Pos| s.contains(p) && p.1 == lo_y;
            assert(lo_y <= p.1 && c <= q.1);
        }
        assert(d == hi_y) by {
            let p = choose|p: Pos| s.contains(p) && p.1 == d;
            let q = choose|p: Pos| s.contains(p) && p.1 == hi_y;
            assert(p.1 <= hi_y && q.1 <= d);
        }
        assert(s != Set::<Pos>::empty());
    }
    let span_x = hi_x as i64 - lo_x as i64;
    let span_y = hi_y as i64 - lo_y as i64;
    (half - span_x / 2, half - span_y / 2)
}

/// Every cell moved by `(dx, dy)`; `None` when a moved cell would leave the `i32` grid.
pub fn shift_cells(cells: &Vec<Pos>, dx: i64, dy: i64) -> (r: Option<Vec<Pos>>)
    requires
        cells@.no_duplicates(),
        i32::MIN <= dx <= i32::MAX,
        i32::MIN <= dy <= i32::MAX,
    ensures
        r is Some <==> shift_fits(cell_set(cells@), dx as int, dy as int),
        r matches Some(v) ==> v@.no_duplicates() && cell_set(v@) == shifted(
            cell_set(cells@),
            dx as int,
            dy as int,
        ),
{
    let ghost s = cell_set(cells@);
    let mut out: Vec<Pos> = Vec::new();
    let mut i: usize = 0;
    while i < cells.len()
        invariant
            i <= cells@.len(),
            s == cell_set(cells@),
            cells@.no_duplicates(),
            i32::MIN <= dx <= i32::MAX,
            i32::MIN <= dy <= i32::MAX,
            out@.len() == i,
            forall|j: int|
                0 <= j < i ==> (#[trigger] out@[j]).0 == cells@[j].0 + dx && out@[j].1
                    == cells@[j].1 + dy,
        decreases cells@.len() - i,
    {
        let c = cells[i];
        let x = c.0 as i64 + dx;
        let y = c.1 as i64 + dy;
        if x < i32::MIN as i64 || x > i32::MAX as i64 || y < i32::MIN as i64 || y > i32::MAX as i64 {
            assert(s.contains(c));
            return None;
        }
        out.push(Pos(x as i32, y as i32));
        i = i + 1;
    }
    proof {
        assert forall|p: Pos| #[trigger] s.contains(p) implies i32::MIN <= p.0 + dx <= i32::MAX
            && i32::MIN <= p.1 + dy <= i32::MAX by {
            let j = choose|j: int| 0 <= j < cells@.len() && cells@[j] == p;
            assert(out@[j].0 == p.0 + dx);
            assert(out@[j].1 == p.1 + dy);
        }
        assert forall|j: int, k: int| 0 <= j < out@.len() && 0 <= k < out@.len() && j != k
            implies out@[j] != out@[k] by {
            assert(cells@[j] != cells@[k]);
        }
        assert forall|q: Pos| cell_set(out@).contains(q) <==> shifted(s, dx as int, dy as int).contains(q) by {
            if cell_set(out@).contains(q) {
                let j = choose|j: int| 0 <= j < out@.len() && out@[j] == q;
                assert(s.contains(cells@[j]));
            }
            if shifted(s, dx as int, dy as int).contains(q) {
                let p = choose|p: Pos| #[trigger] s.contains(p) && q.0 == p.0 + dx && q.1 == p.1 + dy;
                let j = choose|j: int| 0 <= j < cells@.len() && cells@[j] == p;
                assert(out@[j] == q);
                assert(cell_set(out@).contains(out@[j]));
            }
        }
        assert(cell_set(out@) =~= shifted(s, dx as int, dy as int));
    }
    Some(out)
}

/// `r` is where cell `c` is drawn: cells of side `cell_size`, moved left by
/// `pan_x` and up by `pan_y`, from the viewport's top-left corner.
pub open spec fn is_projection(
    r: CellRect,
    c: Pos,
    cell_size: int,
    pan_x: int,
    pan_y: int,
    vp: Viewport,
) -> bool {
    &&& r.min_x == vp.min_x + c.0 * cell_size - pan_x
    &&& r.min_y == vp.min_y + c.1 * cell_size - pan_y
    &&& r.max_x == r.min_x + cell_size
    &&& r.max_y == r.min_y + cell_size
}

proof fn lemma_product_bound(a: int, b: int)
    requires
        i32::MIN <= a <= i32::MAX,
        i32::MIN <= b <= i32::MAX,
    ensures
        -0x4000_0000_0000_0000 <= a * b <= 0x4000_0000_0000_0000,
{
    assert(-0x4000_0000_0000_0000 <= a * b <= 0x4000_0000_0000_0000) by (nonlinear_arith)
        requires
            -0x8000_0000 <= a <= 0x8000_0000,
            -0x8000_0000 <= b <= 0x8000_0000,
    ;
}

/// The screen rectangle of cell `c`.
pub fn project(c: Pos, cell_size: i32, pan_x: i32, pan_y: i32, vp: &Viewport) -> (r: CellRect)
    ensures
        is_projection(r, c, cell_size as int, pan_x as int, pan_y as int, *vp),
{
    proof {
        lemma_product_bound(c.0 as int, cell_size as int);
        lemma_product_bound(c.1 as int, cell_size as int);
    }
    let min_x = vp.min_x as i64 + c.0 as i64 * cell_size as i64 - pan_x as i64;
    let min_y = vp.min_y as i64 + c.1 as i64 * cell_size as i64 - pan_y as i64;
    CellRect { min_x, min_y, max_x: min_x + cell_size as i64, max_y: min_y + cell_size as i64 }
}

} // verus!
