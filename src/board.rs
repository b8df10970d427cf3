use crate::cells::{count_neighbours, next_generation};
use crate::pattern::{parse_pattern, pattern_set, random_cells, seeded};
use crate::pos::{cell_set, neighbour_count, next_gen, Pos};
use crate::view::{
    cell_size_for, cell_size_of, center_offset, center_shift, is_projection, project, shift_cells,
    shift_fits, shifted, CellRect, Viewport,
};
use vstd::prelude::*;

verus! {

/// A setting that was refused; the previous value stays.
#[derive(Clone, Copy, PartialEq, Eq, Structural, Debug)]
pub enum ConfigError {
    /// Frames per second outside `1..=60`.
    InvalidFps,
    /// A board size that is not positive.
    InvalidBoardSize,
}

/// A pattern that could not be loaded; the current cells stay.
#[derive(Clone, Copy, PartialEq, Eq, Structural, Debug)]
pub enum LoadError {
    /// The pattern's source could not be read.
    SourceUnavailable,
}

/// Milliseconds between two generations at `fps` frames per second: one
/// second over `fps` in whole nanoseconds, then in whole milliseconds.
pub open spec fn interval_ms(fps: int) -> int {
    1_000_000_000int / fps / 1_000_000int
}

/// What a board holds, as mathematical values.
#[verifier::ext_equal]
pub struct BoardView {
    pub fps: u32,
    pub speed: u128,
    pub board_size: i32,
    pub cells: Set<Pos>,
    pub last_step: u64,
    pub cell_size: i32,
    pub pan_x: i32,
    pub pan_y: i32,
}

/// The configuration of a board is consistent.
pub open spec fn board_inv(v: BoardView) -> bool {
    &&& 1 <= v.fps <= 60
    &&& v.speed == interval_ms(v.fps as int)
    &&& v.board_size > 0
    &&& v.cell_size >= 0
    &&& v.cells.finite()
}

/// The board after a tick at time `now` (in milliseconds), and whether a
/// generation was computed: only once `speed` milliseconds have passed since
/// the last one, and then a single one however long the pause.
pub open spec fn tick_result(v: BoardView, now: u64) -> (BoardView, bool) {
    if now < v.last_step || now - v.last_step < v.speed {
        (v, false)
    } else {
        (BoardView { cells: next_gen(v.cells), last_step: now, ..v }, true)
    }
}

/// Two ticks closer together than the interval compute at most one
/// generation, and when the first one computes it the second changes nothing.
pub proof fn lemma_ticks_within_interval(v: BoardView, t1: u64, t2: u64)
    requires
        t1 <= t2,
        t2 - t1 < v.speed,
    ensures
        !(tick_result(v, t1).1 && tick_result(tick_result(v, t1).0, t2).1),
        tick_result(v, t1).1 ==> tick_result(tick_result(v, t1).0, t2).0 == tick_result(v, t1).0,
{
}

/// `r` is the screen rectangle of one of the live cells of `v`.
pub open spec fn drawn_from(r: CellRect, v: BoardView, vp: Viewport) -> bool {
    exists|c: Pos|
        #[trigger] v.cells.contains(c) && is_projection(
            r,
            c,
            v.cell_size as int,
            v.pan_x as int,
            v.pan_y as int,
            vp,
        )
}

/// A Game of Life board: the live cells and the settings used to step and draw them.
pub struct Board {
    fps: u32,
    speed: u128,
    b_size: i32,
    cells: Vec<Pos>,
    last_frame_time: u64,
    cell_size: i32,
    pan_x: i32,
    pan_y: i32,
}

impl View for Board {
    type V = BoardView;

    closed spec fn view(&self) -> BoardView {
        BoardView {
            fps: self.fps,
            speed: self.speed,
            board_size: self.b_size,
            cells: cell_set(self.cells@),
            last_step: self.last_frame_time,
            cell_size: self.cell_size,
            pan_x: self.pan_x,
            pan_y: self.pan_y,
        }
    }
}

impl Board {
    /// The board is well formed: consistent settings and no cell listed twice.
    pub closed spec fn wf(&self) -> bool {
        &&& board_inv(self@)
        &&& self.cells@.no_duplicates()
    }

    /// An empty board at 30 frames per second, board size 100, no pan.
    pub fn new() -> (r: Self)
        ensures
            r.wf(),
            r@ == (BoardView {
                fps: 30,
                speed: 33,
                board_size: 100,
                cells: Set::empty(),
                last_step: 0,
                cell_size: 0,
                pan_x: 0,
                pan_y: 0,
            }),
    {
        let r = Board {
            fps: 30,
            speed: Board::fps_to_speed(30),
            cells: Vec::new(),
            last_frame_time: 0,
            b_size: 100,
            cell_size: 0,
            pan_x: 0,
            pan_y: 0,
        };
        assert(cell_set(r.cells@) =~= Set::<Pos>::empty());
        r
    }

    /// Number of live cells around `p`.
    pub fn neighbours(&self, p: &Pos) -> (r: usize)
        requires
            self.wf(),
        ensures
            r == neighbour_count(self@.cells, *p),
    {
        count_neighbours(&self.cells, *p)
    }

    /// Milliseconds between generations at `fps` frames per second.
    pub fn fps_to_speed(fps: u32) -> (r: u128)
        requires
            fps >= 1,
        ensures
            r == interval_ms(fps as int),
    {
        1_000_000_000u128 / fps as u128 / 1_000_000
    }

    /// Computes the next generation if `now` (milliseconds) is at least the
    /// interval past the last one; returns whether it did.
    pub fn update(&mut self, now: u64) -> (stepped: bool)
        requires
            old(self).wf(),
        ensures
            final(self).wf(),
            (final(self)@, stepped) == tick_result(old(self)@, now),
            !stepped ==> *final(self) == *old(self),
    {
        if now < self.last_frame_time || ((now - self.last_frame_time) as u128) < self.speed {
            return false;
        }
        let n_cells = next_generation(&self.cells);
        self.cells = n_cells;
        self.last_frame_time = now;
        proof {
            assert(self@ =~= tick_result(old(self)@, now).0);
        }
        true
    }

    /// Sets the cell size from the viewport, then moves the cells so that their
    /// bounding box is centred in the board-size square. Should a moved cell
    /// leave the `i32` grid, the cells stay where they are.
    pub fn center_cells(&mut self, rect: Viewport)
        requires
            old(self).wf(),
            rect.width >= 0,
            rect.height >= 0,
        ensures
            final(self).wf(),
            final(self)@.cell_size == cell_size_for(rect, old(self)@.board_size as int),
            ({
                let (dx, dy) = center_shift(old(self)@.cells, old(self)@.board_size as int);
                final(self)@.cells == if shift_fits(old(self)@.cells, dx, dy) {
                    shifted(old(self)@.cells, dx, dy)
                } else {
                    old(self)@.cells
                }
            }),
            final(self)@ == (BoardView {
                cell_size: final(self)@.cell_size,
                cells: final(self)@.cells,
                ..old(self)@
            }),
    {
        self.cell_size = cell_size_of(&rect, self.b_size);
        let (dx, dy) = center_offset(&self.cells, self.b_size);
        match shift_cells(&self.cells, dx, dy) {
            Some(moved) => {
                self.cells = moved;
            },
            None => {},
        }
        proof {
            lemma_set_of_unique_finite(self.cells@);
        }
    }

    /// Appends the screen rectangle of every live cell to `shapes`.
    pub fn generate_cells(&self, shapes: &mut Vec<CellRect>, rect: Viewport)
        requires
            self.wf(),
        ensures
            final(shapes)@.len() == old(shapes)@.len() + self@.cells.len(),
            final(shapes)@.subrange(0, old(shapes)@.len() as int) == old(shapes)@,
            forall|c: Pos|
                #[trigger] self@.cells.contains(c) ==> exists|j: int|
                    old(shapes)@.len() <= j < final(shapes)@.len() && is_projection(
                        #[trigger] final(shapes)@[j],
                        c,
                        self@.cell_size as int,
                        self@.pan_x as int,
                        self@.pan_y as int,
                        rect,
                    ),
            forall|j: int|
                old(shapes)@.len() <= j < final(shapes)@.len() ==> drawn_from(
                    #[trigger] final(shapes)@[j],
                    self@,
                    rect,
                ),
    {
        let ghost start = shapes@.len();
        let mut i: usize = 0;
        while i < self.cells.len()
            invariant
                i <= self.cells@.len(),
                shapes@.len() == start + i,
                shapes@.subrange(0, start as int) == old(shapes)@,
                start == old(shapes)@.len(),
                forall|j: int|
                    0 <= j < i ==> is_projection(
                        #[trigger] shapes@[start + j],
                        self.cells@[j],
                        self.cell_size as int,
                        self.pan_x as int,
                        self.pan_y as int,
                        rect,
                    ),
            decreases self.cells@.len() - i,
        {
            let r = project(self.cells[i], self.cell_size, self.pan_x, self.pan_y, &rect);
            let ghost before = shapes@;
            shapes.push(r);
            assert(shapes@.subrange(0, start as int) =~= before.subrange(0, start as int));
            assert forall|j: int| 0 <= j < i + 1 implies is_projection(
                #[trigger] shapes@[start + j],
                self.cells@[j],
                self.cell_size as int,
                self.pan_x as int,
                self.pan_y as int,
                rect,
            ) by {
                if j < i {
                    assert(shapes@[start + j] == before[start + j]);
                }
            }
            i = i + 1;
        }
        proof {
            self.cells@.unique_seq_to_set();
            assert forall|c: Pos| #[trigger] self@.cells.contains(c) implies exists|j: int|
                start <= j < shapes@.len() && is_projection(
                    #[trigger] shapes@[j],
                    c,
                    self@.cell_size as int,
                    self@.pan_x as int,
                    self@.pan_y as int,
                    rect,
                ) by {
                let k = choose|k: int| 0 <= k < self.cells@.len() && self.cells@[k] == c;
                assert(is_projection(
                    shapes@[start + k],
                    self.cells@[k],
                    self.cell_size as int,
                    self.pan_x as int,
                    self.pan_y as int,
                    rect,
                ));
            }
            assert forall|j: int| start <= j < shapes@.len() implies drawn_from(
                #[trigger] shapes@[j],
                self@,
                rect,
            ) by {
                let k = j - start;
                assert(is_projection(
                    shapes@[start + k],
                    self.cells@[k],
                    self.cell_size as int,
                    self.pan_x as int,
                    self.pan_y as int,
                    rect,
                ));
                assert(self@.cells.contains(self.cells@[k]));
            }
        }
    }

    /// Replaces the cells with a pattern's, given the text read from its
    /// source, or `None` when the source could not be read: then the board is
    /// left as it was and `SourceUnavailable` is returned.
    pub fn generate_from_file(&mut self, contents: Option<&str>) -> (r: Result<(), LoadError>)
        requires
            old(self).wf(),
            contents matches Some(t) ==> t@.len() <= i32::MAX,
        ensures
            final(self).wf(),
            contents is None ==> r == Err::<(), LoadError>(LoadError::SourceUnavailable)
                && *final(self) == *old(self),
            contents matches Some(t) ==> r is Ok && final(self)@ == (BoardView {
                cells: pattern_set(t@),
                ..old(self)@
            }),
    {
        match contents {
            None => Err(LoadError::SourceUnavailable),
            Some(text) => {
                self.cells = parse_pattern(text);
                proof {
                    lemma_set_of_unique_finite(self.cells@);
                    assert(self@ =~= (BoardView { cells: pattern_set(text@), ..old(self)@ }));
                }
                Ok(())
            },
        }
    }

    /// Replaces the cells with a random seeding of the board-size square, from
    /// one draw in `{1, 2, 3}` per cell (see `random_cells`).
    pub fn generate_random(&mut self, draws: &Vec<u8>)
        requires
            old(self).wf(),
            draws@.len() == (old(self)@.board_size + 1) * (old(self)@.board_size + 1),
        ensures
            final(self).wf(),
            final(self)@ == (BoardView {
                cells: seeded(old(self)@.board_size as int, draws@),
                ..old(self)@
            }),
    {
        self.cells = random_cells(self.b_size, draws);
        proof {
            lemma_set_of_unique_finite(self.cells@);
            assert(self@ =~= (BoardView {
                cells: seeded(old(self)@.board_size as int, draws@),
                ..old(self)@
            }));
        }
    }

    /// Sets the frames per second, and the interval with them; `InvalidFps`,
    /// with nothing changed, when `fps` is outside `1..=60`.
    pub fn set_fps(&mut self, fps: u32) -> (r: Result<(), ConfigError>)
        requires
            old(self).wf(),
        ensures
            final(self).wf(),
            1 <= fps <= 60 ==> r is Ok && final(self)@ == (BoardView {
                fps,
                speed: interval_ms(fps as int) as u128,
                ..old(self)@
            }),
            !(1 <= fps <= 60) ==> r == Err::<(), ConfigError>(ConfigError::InvalidFps)
                && final(self)@ == old(self)@,
    {
        if fps < 1 || fps > 60 {
            return Err(ConfigError::InvalidFps);
        }
        self.fps = fps;
        self.speed = Board::fps_to_speed(fps);
        Ok(())
    }

    /// Sets the board size used for centring and seeding; `InvalidBoardSize`,
    /// with nothing changed, when `size` is not positive.
    pub fn set_board_size(&mut self, size: i32) -> (r: Result<(), ConfigError>)
        requires
            old(self).wf(),
        ensures
            final(self).wf(),
            size > 0 ==> r is Ok && final(self)@ == (BoardView { board_size: size, ..old(self)@ }),
            size <= 0 ==> r == Err::<(), ConfigError>(ConfigError::InvalidBoardSize)
                && final(self)@ == old(self)@,
    {
        if size <= 0 {
            return Err(ConfigError::InvalidBoardSize);
        }
        self.b_size = size;
        Ok(())
    }

    /// Sets the pan offsets, in pixels.
    pub fn set_pan(&mut self, x: i32, y: i32)
        requires
            old(self).wf(),
        ensures
            final(self).wf(),
            final(self)@ == (BoardView { pan_x: x, pan_y: y, ..old(self)@ }),
    {
        self.pan_x = x;
        self.pan_y = y;
    }

    /// Moves the pan offsets by `(dx, dy)` pixels.
    pub fn pan(&mut self, dx: i32, dy: i32)
        requires
            old(self).wf(),
            i32::MIN <= old(self)@.pan_x + dx <= i32::MAX,
            i32::MIN <= old(self)@.pan_y + dy <= i32::MAX,
        ensures
            final(self).wf(),
            final(self)@ == (BoardView {
                pan_x: (old(self)@.pan_x + dx) as i32,
                pan_y: (old(self)@.pan_y + dy) as i32,
                ..old(self)@
            }),
    {
        self.pan_x = self.pan_x + dx;
        self.pan_y = self.pan_y + dy;
    }

    /// Frames per second.
    pub fn fps(&self) -> (r: u32)
        ensures
            r == self@.fps,
    {
        self.fps
    }

    /// Milliseconds between generations.
    pub fn speed(&self) -> (r: u128)
        ensures
            r == self@.speed,
    {
        self.speed
    }

    /// The nominal board size.
    pub fn board_size(&self) -> (r: i32)
        ensures
            r == self@.board_size,
    {
        self.b_size
    }

    /// Side of a cell in pixels.
    pub fn cell_size(&self) -> (r: i32)
        ensures
            r == self@.cell_size,
    {
        self.cell_size
    }

    /// Horizontal pan offset in pixels.
    pub fn pan_x(&self) -> (r: i32)
        ensures
            r == self@.pan_x,
    {
        self.pan_x
    }

    /// Vertical pan offset in pixels.
    pub fn pan_y(&self) -> (r: i32)
        ensures
            r == self@.pan_y,
    {
        self.pan_y
    }

    /// Time of the last generation, in milliseconds.
    pub fn last_step(&self) -> (r: u64)
        ensures
            r == self@.last_step,
    {
        self.last_frame_time
    }

    /// The live cells, each once.
    pub fn cells(&self) -> (r: Vec<Pos>)
        requires
            self.wf(),
        ensures
            r@.no_duplicates(),
            cell_set(r@) == self@.cells,
    {
        let mut out: Vec<Pos> = Vec::new();
        let mut i: usize = 0;
        while i < self.cells.len()
            invariant
                i <= self.cells@.len(),
                out@ == self.cells@.subrange(0, i as int),
            decreases self.cells@.len() - i,
        {
            out.push(self.cells[i]);
            i = i + 1;
        }
        assert(out@ =~= self.cells@);
        out
    }

    /// Removes every live cell.
    pub fn clean(&mut self)
        requires
            old(self).wf(),
        ensures
            final(self).wf(),
            final(self)@ == (BoardView { cells: Set::empty(), ..old(self)@ }),
    {
        self.cells = Vec::new();
        assert(self@ =~= (BoardView { cells: Set::empty(), ..old(self)@ }));
    }
}

/// The positions of a cell vector form a finite set.
proof fn lemma_set_of_unique_finite(v: Seq<Pos>)
    ensures
        cell_set(v).finite(),
{
}

} // verus!
