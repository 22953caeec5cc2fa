//! The interactive solving-grid engine: a command-driven state machine over
//! a player grid, a read-only solution grid, a cursor, a typing direction,
//! and the current word selection.

use vstd::prelude::*;

use crate::api_types::{Direction, Msg, Pos, TypingDir};
use crate::numbering::Pos2ClueIdx;

verus! {

/// One grid square of either the solution or the player grid.
#[derive(Debug, Clone, Copy, PartialEq, Eq, Structural)]
pub enum Cell {
    Empty,
    OccupiedRight(char),
    OccupiedWrong(char),
    Black,
}

impl Cell {
    /// The letter a cell displays; a space for an empty or black cell.
    pub open spec fn spec_get_char(self) -> char {
        match self {
            Cell::Empty => ' ',
            Cell::Black => ' ',
            Cell::OccupiedRight(c) => c,
            Cell::OccupiedWrong(c) => c,
        }
    }

    pub fn get_char(&self) -> (r: char)
        ensures
            r == self.spec_get_char(),
    {
        match self {
            Self::Empty => ' ',
            Self::Black => ' ',
            Self::OccupiedRight(c) => *c,
            Self::OccupiedWrong(c) => *c,
        }
    }
}

/// The maximal contiguous run of non-black cells through the cursor along
/// the current typing axis, in ascending row-major order.
#[derive(Debug, Clone)]
pub struct SelectedWord {
    pub poss: Vec<Pos>,
}

impl View for SelectedWord {
    type V = Seq<Pos>;

    open spec fn view(&self) -> Seq<Pos> {
        self.poss@
    }
}

impl SelectedWord {
    pub open spec fn spec_contains(self, pos: Pos) -> bool {
        exists|i: int| 0 <= i < self@.len() && self@[i] == pos
    }

    pub fn contains(&self, pos: &Pos) -> (r: bool)
        ensures
            r == self.spec_contains(*pos),
    {
        let mut i: usize = 0;
        while i < self.poss.len()
            invariant
                i <= self@.len(),
                forall|j: int| 0 <= j < i ==> self@[j] != *pos,
            decreases self@.len() - i,
        {
            if self.poss[i].row == pos.row && self.poss[i].col == pos.col {
                return true;
            }
            i = i + 1;
        }
        false
    }

    /// The smallest selected position in row-major order: the word's start.
    pub fn first_pos(&self) -> (r: Option<Pos>)
        ensures
            self@.len() == 0 ==> r is None,
            self@.len() > 0 ==> r == Some(self@[0]),
    {
        if self.poss.len() > 0 {
            Some(self.poss[0])
        } else {
            None
        }
    }
}

/// A grid-engine construction error: the grids cannot support a session.
#[derive(Debug, Clone, Copy, PartialEq, Eq, Structural)]
pub enum BoardError {
    /// The solution grid is empty, ragged, or has no non-black cell.
    DegenerateGrid,
    /// The player grid does not have the solution grid's dimensions.
    MismatchedGrids,
}

/// Whether a solution grid marks `(r, c)` as black.
pub open spec fn sol_black(sol: Seq<Vec<Cell>>, r: int, c: int) -> bool {
    sol[r]@[c] is Black
}

/// The leftmost column of the across run through `(r, c)`.
pub open spec fn sol_run_lo_col(sol: Seq<Vec<Cell>>, r: int, c: int) -> int
    decreases c,
{
    if c <= 0 || sol_black(sol, r, c - 1) {
        c
    } else {
        sol_run_lo_col(sol, r, c - 1)
    }
}

/// The rightmost column of the across run through `(r, c)`.
pub open spec fn sol_run_hi_col(sol: Seq<Vec<Cell>>, r: int, c: int) -> int
    decreases sol[0]@.len() - c,
{
    if c + 1 >= sol[0]@.len() || sol_black(sol, r, c + 1) {
        c
    } else {
        sol_run_hi_col(sol, r, c + 1)
    }
}

/// The topmost row of the down run through `(r, c)`.
pub open spec fn sol_run_lo_row(sol: Seq<Vec<Cell>>, r: int, c: int) -> int
    decreases r,
{
    if r <= 0 || sol_black(sol, r - 1, c) {
        r
    } else {
        sol_run_lo_row(sol, r - 1, c)
    }
}

/// The bottommost row of the down run through `(r, c)`.
pub open spec fn sol_run_hi_row(sol: Seq<Vec<Cell>>, r: int, c: int) -> int
    decreases sol.len() - r,
{
    if r + 1 >= sol.len() || sol_black(sol, r + 1, c) {
        r
    } else {
        sol_run_hi_row(sol, r + 1, c)
    }
}

/// Two boards over the same solution grid have the same open cells.
pub proof fn lemma_open_cell_preserved(a: Board, b: Board)
    requires
        a.solution@ == b.solution@,
        exists|p: Pos| a.open_at(p),
    ensures
        exists|p: Pos| b.open_at(p),
{
    let p0 = choose|p: Pos| a.open_at(p);
    assert(b.open_at(p0));
}

/// One modular step of the cursor: the moved axis wraps around its own
/// dimension; the other coordinate is untouched.
pub open spec fn step_pos(p: Pos, dir: Direction, h: int, w: int) -> Pos {
    match dir {
        Direction::Up => Pos {
            row: if p.row >= 1 {
                (p.row - 1) as usize
            } else {
                (h - 1) as usize
            },
            col: p.col,
        },
        Direction::Down => Pos { row: ((p.row + 1) % h) as usize, col: p.col },
        Direction::Left => Pos {
            row: p.row,
            col: if p.col >= 1 {
                (p.col - 1) as usize
            } else {
                (w - 1) as usize
            },
        },
        Direction::Right => Pos { row: p.row, col: ((p.col + 1) % w) as usize },
    }
}

/// Whether the single step from `p` crosses the grid edge.
pub open spec fn step_wraps(p: Pos, dir: Direction, h: int, w: int) -> bool {
    match dir {
        Direction::Up => p.row == 0,
        Direction::Down => p.row + 1 == h,
        Direction::Left => p.col == 0,
        Direction::Right => p.col + 1 == w,
    }
}

/// The full "typewriter carriage" step: one modular step, and on a wrap one
/// extra step in the paired alternate direction.
pub open spec fn carriage_step(p: Pos, dir: Direction, h: int, w: int) -> Pos {
    if step_wraps(p, dir, h, w) {
        step_pos(step_pos(p, dir, h, w), dir.alternate_spec(), h, w)
    } else {
        step_pos(p, dir, h, w)
    }
}

/// `d` carriage steps from `p`.
pub open spec fn walk(p: Pos, dir: Direction, h: int, w: int, d: nat) -> Pos
    decreases d,
{
    if d == 0 {
        p
    } else {
        carriage_step(walk(p, dir, h, w, (d - 1) as nat), dir, h, w)
    }
}

/// Whether carriage steps in `dir` move forward (Right, Down) or backward
/// (Left, Up) through the grid's cell cycle.
pub open spec fn dir_forward(dir: Direction) -> bool {
    dir == Direction::Right || dir == Direction::Down
}

/// The cell cycle a carriage walk follows: row-major order for horizontal
/// movement, column-major for vertical.
pub open spec fn lin_idx(p: Pos, dir: Direction, h: int, w: int) -> int {
    match dir {
        Direction::Left | Direction::Right => p.row * w + p.col,
        Direction::Up | Direction::Down => p.col * h + p.row,
    }
}

/// The successor of cycle index `i` among `n` cells.
pub open spec fn idx_next(i: int, n: int, forward: bool) -> int {
    if forward {
        if i + 1 < n {
            i + 1
        } else {
            0
        }
    } else {
        if i > 0 {
            i - 1
        } else {
            n - 1
        }
    }
}

/// How many forward (or backward) cycle steps lead from `i` to `j`; `n` for
/// a full lap when they coincide.
pub open spec fn cyc_dist(i: int, j: int, n: int, forward: bool) -> int {
    if i == j {
        n
    } else if forward {
        if j > i {
            j - i
        } else {
            j + n - i
        }
    } else {
        if j < i {
            i - j
        } else {
            i + n - j
        }
    }
}

/// An in-bounds position's cycle index lies in `[0, h * w)`.
pub proof fn lemma_lin_idx_bounds(p: Pos, dir: Direction, h: int, w: int)
    requires
        0 < h,
        0 < w,
        p.row < h,
        p.col < w,
    ensures
        0 <= lin_idx(p, dir, h, w) < h * w,
{
    assert(0 <= p.row * w + p.col < h * w && 0 <= p.col * h + p.row < h * w)
        by (nonlinear_arith)
        requires
            0 < h && 0 < w && 0 <= p.row < h && 0 <= p.col < w,
    ;
}

/// Distinct in-bounds positions have distinct cycle indices.
pub proof fn lemma_lin_idx_inj(p: Pos, q: Pos, dir: Direction, h: int, w: int)
    requires
        0 < h,
        0 < w,
        p.row < h,
        p.col < w,
        q.row < h,
        q.col < w,
        lin_idx(p, dir, h, w) == lin_idx(q, dir, h, w),
    ensures
        p == q,
{
    assert((p.row * w + p.col == q.row * w + q.col && 0 <= p.col < w && 0 <= q.col < w ==> p.row
        == q.row && p.col == q.col) && (p.col * h + p.row == q.col * h + q.row && 0 <= p.row < h
        && 0 <= q.row < h ==> p.row == q.row && p.col == q.col)) by (nonlinear_arith)
        requires
            0 < h && 0 < w && 0 <= p.row < h && 0 <= p.col < w && 0 <= q.row < h && 0 <= q.col
                < w,
    ;
}

/// A carriage step stays in bounds and advances the cycle index by one, in
/// the direction's orientation.
pub proof fn lemma_carriage_step(p: Pos, dir: Direction, h: int, w: int)
    requires
        0 < h <= usize::MAX,
        0 < w <= usize::MAX,
        p.row < h,
        p.col < w,
    ensures
        carriage_step(p, dir, h, w).row < h,
        carriage_step(p, dir, h, w).col < w,
        lin_idx(carriage_step(p, dir, h, w), dir, h, w) == idx_next(
            lin_idx(p, dir, h, w),
            h * w,
            dir_forward(dir),
        ),
{
    let q = carriage_step(p, dir, h, w);
    let n = h * w;
    let i = lin_idx(p, dir, h, w);
    lemma_lin_idx_bounds(p, dir, h, w);
    match dir {
        Direction::Right => {
            if p.col + 1 < w {
                assert((p.col + 1) % w == p.col + 1) by (nonlinear_arith)
                    requires
                        0 <= p.col + 1 < w,
                ;
                assert(i + 1 < n) by (nonlinear_arith)
                    requires
                        0 < h && 0 < w && 0 <= p.row < h && 0 <= p.col && p.col + 1 < w && i
                            == p.row * w + p.col && n == h * w,
                ;
                assert(lin_idx(q, dir, h, w) == i + 1);
            } else {
                assert(p.col + 1 == w);
                assert((p.col + 1) % w == 0) by (nonlinear_arith)
                    requires
                        0 < w && p.col + 1 == w,
                ;
                if p.row + 1 < h {
                    assert((p.row + 1) % h == p.row + 1) by (nonlinear_arith)
                        requires
                            0 <= p.row + 1 < h,
                    ;
                    assert(q.row * w == p.row * w + w) by (nonlinear_arith)
                        requires
                            q.row == p.row + 1,
                    ;
                    assert(i + 1 < n) by (nonlinear_arith)
                        requires
                            0 < w && p.row + 1 < h && i == p.row * w + w - 1 && n == h * w,
                    ;
                    assert(lin_idx(q, dir, h, w) == i + 1);
                } else {
                    assert((p.row + 1) % h == 0) by (nonlinear_arith)
                        requires
                            0 < h && p.row + 1 == h,
                    ;
                    assert(i + 1 == n) by (nonlinear_arith)
                        requires
                            p.row + 1 == h && p.col + 1 == w && i == p.row * w + p.col && n == h
                                * w,
                    ;
                    assert(q.row == 0 && q.col == 0);
                    assert(q.row * w + q.col == 0) by (nonlinear_arith)
                        requires
                            q.row == 0 && q.col == 0,
                    ;
                    assert(lin_idx(q, dir, h, w) == 0);
                }
            }
        },
        Direction::Down => {
            if p.row + 1 < h {
                assert((p.row + 1) % h == p.row + 1) by (nonlinear_arith)
                    requires
                        0 <= p.row + 1 < h,
                ;
                assert(i + 1 < n) by (nonlinear_arith)
                    requires
                        0 < h && 0 < w && 0 <= p.col < w && 0 <= p.row && p.row + 1 < h && i
                            == p.col * h + p.row && n == h * w,
                ;
                assert(lin_idx(q, dir, h, w) == i + 1);
            } else {
                assert(p.row + 1 == h);
                assert((p.row + 1) % h == 0) by (nonlinear_arith)
                    requires
                        0 < h && p.row + 1 == h,
                ;
                if p.col + 1 < w {
                    assert((p.col + 1) % w == p.col + 1) by (nonlinear_arith)
                        requires
                            0 <= p.col + 1 < w,
                    ;
                    assert(q.col * h == p.col * h + h) by (nonlinear_arith)
                        requires
                            q.col == p.col + 1,
                    ;
                    assert(i + 1 < n) by (nonlinear_arith)
                        requires
                            0 < h && p.col + 1 < w && i == p.col * h + h - 1 && n == h * w,
                    ;
                    assert(lin_idx(q, dir, h, w) == i + 1);
                } else {
                    assert((p.col + 1) % w == 0) by (nonlinear_arith)
                        requires
                            0 < w && p.col + 1 == w,
                    ;
                    assert(i + 1 == n) by (nonlinear_arith)
                        requires
                            p.col + 1 == w && p.row + 1 == h && i == p.col * h + p.row && n == h
                                * w,
                    ;
                    assert(q.row == 0 && q.col == 0);
                    assert(q.col * h + q.row == 0) by (nonlinear_arith)
                        requires
                            q.row == 0 && q.col == 0,
                    ;
                    assert(lin_idx(q, dir, h, w) == 0);
                }
            }
        },
        Direction::Left => {
            if p.col >= 1 {
                assert(i > 0) by (nonlinear_arith)
                    requires
                        0 <= p.row && 0 < w && p.col >= 1 && i == p.row * w + p.col,
                ;
                assert(lin_idx(q, dir, h, w) == i - 1);
            } else {
                if p.row >= 1 {
                    assert(q.row * w == p.row * w - w) by (nonlinear_arith)
                        requires
                            q.row == p.row - 1,
                    ;
                    assert(i > 0) by (nonlinear_arith)
                        requires
                            p.row >= 1 && 0 < w && i == p.row * w,
                    ;
                    assert(lin_idx(q, dir, h, w) == i - 1);
                } else {
                    assert(i == 0) by (nonlinear_arith)
                        requires
                            p.row == 0 && p.col == 0 && i == p.row * w + p.col,
                    ;
                    assert(q.row * w + q.col == n - 1) by (nonlinear_arith)
                        requires
                            q.row == h - 1 && q.col == w - 1 && n == h * w,
                    ;
                    assert(lin_idx(q, dir, h, w) == n - 1);
                }
            }
        },
        Direction::Up => {
            if p.row >= 1 {
                assert(i > 0) by (nonlinear_arith)
                    requires
                        0 <= p.col && 0 < h && p.row >= 1 && i == p.col * h + p.row,
                ;
                assert(lin_idx(q, dir, h, w) == i - 1);
            } else {
                if p.col >= 1 {
                    assert(q.col * h == p.col * h - h) by (nonlinear_arith)
                        requires
                            q.col == p.col - 1,
                    ;
                    assert(i > 0) by (nonlinear_arith)
                        requires
                            p.col >= 1 && 0 < h && i == p.col * h,
                    ;
                    assert(lin_idx(q, dir, h, w) == i - 1);
                } else {
                    assert(i == 0) by (nonlinear_arith)
                        requires
                            p.row == 0 && p.col == 0 && i == p.col * h + p.row,
                    ;
                    assert(q.col * h + q.row == n - 1) by (nonlinear_arith)
                        requires
                            q.col == w - 1 && q.row == h - 1 && n == h * w,
                    ;
                    assert(lin_idx(q, dir, h, w) == n - 1);
                }
            }
        },
    }
}


/// Where a wrap-and-skip move from `start` must stop: after `d` carriage
/// steps, on the first open cell the walk meets.
pub open spec fn advance_ok(
    sol: Seq<Vec<Cell>>,
    start: Pos,
    dir: Direction,
    d: nat,
    end: Pos,
) -> bool {
    let h = sol.len() as int;
    let w = sol[0]@.len() as int;
    &&& 1 <= d <= h * w
    &&& end == walk(start, dir, h, w, d)
    &&& !sol_black(sol, end.row as int, end.col as int)
    &&& forall|s: int|
        1 <= s < d ==> sol_black(
            sol,
            (#[trigger] walk(start, dir, h, w, s as nat)).row as int,
            walk(start, dir, h, w, s as nat).col as int,
        )
}

/// The cursor moved to the first open cell reachable by carriage steps.
pub open spec fn advanced(sol: Seq<Vec<Cell>>, start: Pos, dir: Direction, end: Pos) -> bool {
    exists|d: nat| advance_ok(sol, start, dir, d, end)
}

/// The mutable session state of one puzzle.
#[derive(Debug)]
pub struct Board {
    pub content: Vec<Vec<Cell>>,
    pub solution: Vec<Vec<Cell>>,
    pub clues: Vec<String>,
    pub pos_2_clue_idx: Pos2ClueIdx,
    pub cur_pos: Pos,
    pub cur_dir: TypingDir,
    pub cur_sel: SelectedWord,
    pub title: String,
}

impl Board {
    pub open spec fn spec_height(self) -> int {
        self.solution@.len() as int
    }

    pub open spec fn spec_width(self) -> int {
        self.solution@[0]@.len() as int
    }

    /// Both grids are rectangular, non-empty, and share their dimensions.
    pub open spec fn dims_ok(self) -> bool {
        &&& 0 < self.spec_height() <= usize::MAX
        &&& 0 < self.spec_width() <= usize::MAX
        &&& forall|r: int|
            0 <= r < self.spec_height() ==> (#[trigger] self.solution@[r])@.len()
                == self.spec_width()
        &&& self.content@.len() == self.spec_height()
        &&& forall|r: int|
            0 <= r < self.spec_height() ==> (#[trigger] self.content@[r])@.len()
                == self.spec_width()
    }

    pub open spec fn in_bounds(self, p: Pos) -> bool {
        p.row < self.spec_height() && p.col < self.spec_width()
    }

    /// Whether the solution marks `p` as a black (unusable) cell.
    pub open spec fn black_at(self, p: Pos) -> bool {
        sol_black(self.solution@, p.row as int, p.col as int)
    }

    /// An in-bounds, non-black cell: somewhere the cursor may rest.
    pub open spec fn open_at(self, p: Pos) -> bool {
        self.in_bounds(p) && !self.black_at(p)
    }

    /// A well-formed session: sound grids, an in-bounds cursor, at least one
    /// open cell to hold the cursor, and a selection that matches the
    /// cursor, direction, and solution grid.
    pub open spec fn wf(self) -> bool {
        &&& self.dims_ok()
        &&& self.in_bounds(self.cur_pos)
        &&& exists|p: Pos| self.open_at(p)
        &&& self.cur_sel@ == self.sel_seq()
    }

    /// The leftmost column of the across run through `(r, c)`.
    pub open spec fn run_lo_col(self, r: int, c: int) -> int {
        sol_run_lo_col(self.solution@, r, c)
    }

    /// The rightmost column of the across run through `(r, c)`.
    pub open spec fn run_hi_col(self, r: int, c: int) -> int {
        sol_run_hi_col(self.solution@, r, c)
    }

    /// The topmost row of the down run through `(r, c)`.
    pub open spec fn run_lo_row(self, r: int, c: int) -> int {
        sol_run_lo_row(self.solution@, r, c)
    }

    /// The bottommost row of the down run through `(r, c)`.
    pub open spec fn run_hi_row(self, r: int, c: int) -> int {
        sol_run_hi_row(self.solution@, r, c)
    }

    /// The selection the current cursor and typing direction induce: the
    /// full word run through the cursor, ascending; empty when the cursor
    /// rests on a black cell.
    pub open spec fn sel_seq(self) -> Seq<Pos> {
        let r = self.cur_pos.row as int;
        let c = self.cur_pos.col as int;
        if self.black_at(self.cur_pos) {
            Seq::empty()
        } else if self.cur_dir == TypingDir::Across {
            let lo = self.run_lo_col(r, c);
            let hi = self.run_hi_col(r, c);
            Seq::new((hi - lo + 1) as nat, |i: int| Pos { row: r as usize, col: (lo + i) as usize })
        } else {
            let lo = self.run_lo_row(r, c);
            let hi = self.run_hi_row(r, c);
            Seq::new((hi - lo + 1) as nat, |i: int| Pos { row: (lo + i) as usize, col: c as usize })
        }
    }

    pub fn height(&self) -> (r: usize)
        requires
            self.dims_ok(),
        ensures
            r == self.spec_height(),
    {
        self.content.len()
    }

    pub fn width(&self) -> (r: usize)
        requires
            self.dims_ok(),
        ensures
            r == self.spec_width(),
    {
        if !self.content.is_empty() {
            self.content[0].len()
        } else {
            unreached()
        }
    }

    /// The solution cell at `pos`, or `None` out of bounds.
    pub fn solution_tile_at(&self, pos: &Pos) -> (r: Option<Cell>)
        requires
            self.dims_ok(),
        ensures
            self.in_bounds(*pos) ==> r == Some(self.solution@[pos.row as int]@[pos.col as int]),
            !self.in_bounds(*pos) ==> r is None,
    {
        if pos.row < self.height() && pos.col < self.width() {
            Some(self.solution[pos.row][pos.col])
        } else {
            None
        }
    }

    /// The across run's left end lies at or left of `c`, every cell from it
    /// through `c` is open, and it is bounded by the edge or a black cell.
    pub proof fn lemma_run_lo_col_props(self, r: int, c: int)
        requires
            self.dims_ok(),
            0 <= r < self.spec_height(),
            0 <= c < self.spec_width(),
        ensures
            0 <= self.run_lo_col(r, c) <= c,
            forall|x: usize|
                self.run_lo_col(r, c) <= x <= c && x != c ==> !(#[trigger] self.black_at(Pos { row: r as usize, col: x })),
            self.run_lo_col(r, c) == 0 || self.black_at(
                Pos { row: r as usize, col: (self.run_lo_col(r, c) - 1) as usize },
            ),
        decreases c,
    {
        if !(c <= 0 || self.black_at(Pos { row: r as usize, col: (c - 1) as usize })) {
            self.lemma_run_lo_col_props(r, c - 1);
        }
    }

    /// Identifies the right end of an across run: open through `x`, then a
    /// black cell or the edge.
    pub proof fn lemma_run_hi_col_unique(self, r: int, c: int, x: int)
        requires
            self.dims_ok(),
            0 <= r < self.spec_height(),
            0 <= c <= x < self.spec_width(),
            forall|y: usize|
                c <= y <= x && y != c ==> !(#[trigger] self.black_at(Pos { row: r as usize, col: y })),
            x + 1 == self.spec_width() || self.black_at(
                Pos { row: r as usize, col: (x + 1) as usize },
            ),
        ensures
            self.run_hi_col(r, c) == x,
        decreases x - c,
    {
        if c < x {
            assert(!self.black_at(Pos { row: r as usize, col: (c + 1) as usize }));
            self.lemma_run_hi_col_unique(r, c + 1, x);
        }
    }

    /// The down run's top end lies at or above `r`, every cell from it
    /// through `r` is open, and it is bounded by the edge or a black cell.
    pub proof fn lemma_run_lo_row_props(self, r: int, c: int)
        requires
            self.dims_ok(),
            0 <= r < self.spec_height(),
            0 <= c < self.spec_width(),
        ensures
            0 <= self.run_lo_row(r, c) <= r,
            forall|x: usize|
                self.run_lo_row(r, c) <= x <= r && x != r ==> !(#[trigger] self.black_at(Pos { row: x, col: c as usize })),
            self.run_lo_row(r, c) == 0 || self.black_at(
                Pos { row: (self.run_lo_row(r, c) - 1) as usize, col: c as usize },
            ),
        decreases r,
    {
        if !(r <= 0 || self.black_at(Pos { row: (r - 1) as usize, col: c as usize })) {
            self.lemma_run_lo_row_props(r - 1, c);
        }
    }

    /// Identifies the bottom end of a down run: open through `x`, then a
    /// black cell or the edge.
    pub proof fn lemma_run_hi_row_unique(self, r: int, c: int, x: int)
        requires
            self.dims_ok(),
            0 <= c < self.spec_width(),
            0 <= r <= x < self.spec_height(),
            forall|y: usize|
                r <= y <= x && y != r ==> !(#[trigger] self.black_at(Pos { row: y, col: c as usize })),
            x + 1 == self.spec_height() || self.black_at(
                Pos { row: (x + 1) as usize, col: c as usize },
            ),
        ensures
            self.run_hi_row(r, c) == x,
        decreases x - r,
    {
        if r < x {
            assert(!self.black_at(Pos { row: (r + 1) as usize, col: c as usize }));
            self.lemma_run_hi_row_unique(r + 1, c, x);
        }
    }

    /// `is_black_cell` by row and column, convenient in loop conditions.
    fn is_black_rc(&self, row: usize, col: usize) -> (r: bool)
        requires
            self.dims_ok(),
        ensures
            r == (self.in_bounds(Pos { row, col }) && self.black_at(Pos { row, col })),
    {
        self.is_black_cell(&Pos { row, col })
    }

    /// Rebuilds the selection from the cursor outward along the typing
    /// axis, accumulating every open cell until a black cell or an edge.
    pub fn recalc_selection(&self) -> (r: SelectedWord)
        requires
            self.dims_ok(),
            self.in_bounds(self.cur_pos),
        ensures
            r@ == self.sel_seq(),
    {
        if self.is_black_cell(&Pos { row: self.cur_pos.row, col: self.cur_pos.col }) {
            return SelectedWord { poss: Vec::new() };
        }
        let width = self.width();
        let height = self.height();
        let mut poss: Vec<Pos> = Vec::new();
        if matches!(self.cur_dir, TypingDir::Across) {
            let row = self.cur_pos.row;
            let mut lo = self.cur_pos.col;
            while lo > 0 && !self.is_black_rc(row, lo - 1)
                invariant
                    self.dims_ok(),
                    self.in_bounds(self.cur_pos),
                    row == self.cur_pos.row,
                    lo <= self.cur_pos.col,
                    self.run_lo_col(row as int, self.cur_pos.col as int) == self.run_lo_col(
                        row as int,
                        lo as int,
                    ),
                decreases lo,
            {
                lo = lo - 1;
            }
            proof {
                self.lemma_run_lo_col_props(row as int, self.cur_pos.col as int);
            }
            let mut cc = lo;
            while cc < width && !self.is_black_rc(row, cc)
                invariant
                    self.dims_ok(),
                    self.in_bounds(self.cur_pos),
                    row == self.cur_pos.row,
                    width == self.spec_width(),
                    lo == self.run_lo_col(row as int, self.cur_pos.col as int),
                    lo <= cc <= width,
                    forall|x: usize|
                        lo <= x < cc ==> !(#[trigger] self.black_at(Pos { row, col: x })),
                    poss@ == Seq::new(
                        (cc - lo) as nat,
                        |i: int| Pos { row, col: (lo + i) as usize },
                    ),
                decreases width - cc,
            {
                poss.push(Pos { row, col: cc });
                proof {
                    assert(poss@ =~= Seq::new(
                        (cc + 1 - lo) as nat,
                        |i: int| Pos { row, col: (lo + i) as usize },
                    ));
                }
                cc = cc + 1;
            }
            proof {
                self.lemma_run_lo_col_props(row as int, self.cur_pos.col as int);
                assert(cc > self.cur_pos.col);
                self.lemma_run_hi_col_unique(
                    row as int,
                    self.cur_pos.col as int,
                    cc as int - 1,
                );
                assert(poss@ =~= self.sel_seq());
            }
        } else {
            let col = self.cur_pos.col;
            let mut lo = self.cur_pos.row;
            while lo > 0 && !self.is_black_rc(lo - 1, col)
                invariant
                    self.dims_ok(),
                    self.in_bounds(self.cur_pos),
                    col == self.cur_pos.col,
                    lo <= self.cur_pos.row,
                    self.run_lo_row(self.cur_pos.row as int, col as int) == self.run_lo_row(
                        lo as int,
                        col as int,
                    ),
                decreases lo,
            {
                lo = lo - 1;
            }
            proof {
                self.lemma_run_lo_row_props(self.cur_pos.row as int, col as int);
            }
            let mut rr = lo;
            while rr < height && !self.is_black_rc(rr, col)
                invariant
                    self.dims_ok(),
                    self.in_bounds(self.cur_pos),
                    col == self.cur_pos.col,
                    height == self.spec_height(),
                    lo == self.run_lo_row(self.cur_pos.row as int, col as int),
                    lo <= rr <= height,
                    forall|x: usize|
                        lo <= x < rr ==> !(#[trigger] self.black_at(Pos { row: x, col })),
                    poss@ == Seq::new(
                        (rr - lo) as nat,
                        |i: int| Pos { row: (lo + i) as usize, col },
                    ),
                decreases height - rr,
            {
                poss.push(Pos { row: rr, col });
                proof {
                    assert(poss@ =~= Seq::new(
                        (rr + 1 - lo) as nat,
                        |i: int| Pos { row: (lo + i) as usize, col },
                    ));
                }
                rr = rr + 1;
            }
            proof {
                self.lemma_run_lo_row_props(self.cur_pos.row as int, col as int);
                assert(rr > self.cur_pos.row) by {
                    if rr < self.cur_pos.row {
                        assert(!self.black_at(
                            Pos { row: rr, col: ((col as int)) as usize },
                        ));
                    } else if rr == self.cur_pos.row {
                        assert(Pos { row: rr, col } == self.cur_pos);
                    }
                };
                self.lemma_run_hi_row_unique(
                    self.cur_pos.row as int,
                    col as int,
                    rr as int - 1,
                );
                assert(poss@ =~= self.sel_seq());
            }
        }
        SelectedWord { poss }
    }

    /// Replaces the stored selection with the one the current cursor and
    /// typing direction induce.
    pub fn update_selection(&mut self)
        requires
            old(self).dims_ok(),
            old(self).in_bounds(old(self).cur_pos),
        ensures
            *final(self) == (Board { cur_sel: final(self).cur_sel, ..*old(self) }),
            final(self).cur_sel@ == final(self).sel_seq(),
    {
        self.cur_sel = self.recalc_selection();
    }

    /// Flips the typing axis and recomputes the selection; the cursor does
    /// not move.
    pub fn toggle_typing_dir(&mut self)
        requires
            old(self).wf(),
        ensures
            final(self).wf(),
            final(self).cur_dir == old(self).cur_dir.toggle_spec(),
            *final(self) == (Board {
                cur_dir: final(self).cur_dir,
                cur_sel: final(self).cur_sel,
                ..*old(self)
            }),
    {
        self.cur_dir = self.cur_dir.toggle();
        self.update_selection();
        proof {
            lemma_open_cell_preserved(*old(self), *self);
        }
    }

    /// Advances the cursor one cell with modular wraparound on the moved
    /// axis, recomputes the selection, and reports whether the step wrapped
    /// around an edge.
    pub fn move_cursor(&mut self, dir: Direction) -> (wrapped: bool)
        requires
            old(self).wf(),
        ensures
            final(self).wf(),
            *final(self) == (Board {
                cur_pos: final(self).cur_pos,
                cur_sel: final(self).cur_sel,
                ..*old(self)
            }),
            final(self).cur_pos == step_pos(
                old(self).cur_pos,
                dir,
                old(self).spec_height(),
                old(self).spec_width(),
            ),
            wrapped == step_wraps(
                old(self).cur_pos,
                dir,
                old(self).spec_height(),
                old(self).spec_width(),
            ),
    {
        let height = self.height();
        let width = self.width();

        let mut result = self.cur_pos;

        let wrapped: bool = match dir {
            Direction::Up => {
                result.row = if result.row >= 1 {
                    result.row - 1
                } else {
                    height - 1
                };
                result.row == height - 1
            },
            Direction::Down => {
                result.row = (result.row + 1) % height;
                result.row == 0
            },
            Direction::Left => {
                result.col = if result.col >= 1 {
                    result.col - 1
                } else {
                    width - 1
                };
                result.col == width - 1
            },
            Direction::Right => {
                result.col = (result.col + 1) % width;
                result.col == 0
            },
        };

        proof {
            let p = old(self).cur_pos;
            let hh = old(self).spec_height();
            let ww = old(self).spec_width();
            assert((p.row + 1) % hh == (if p.row + 1 < hh {
                p.row + 1
            } else {
                0int
            })) by (nonlinear_arith)
                requires
                    0 <= p.row < hh,
            ;
            assert((p.col + 1) % ww == (if p.col + 1 < ww {
                p.col + 1
            } else {
                0int
            })) by (nonlinear_arith)
                requires
                    0 <= p.col < ww,
            ;
        }
        self.cur_pos = result;
        self.update_selection();
        proof {
            lemma_open_cell_preserved(*old(self), *self);
        }
        wrapped
    }

    /// Repeats the carriage step (a modular step, plus one step in the
    /// paired alternate direction on a wrap) until the cursor rests on a
    /// non-black cell, then leaves the selection recomputed there.
    pub fn move_cursor_until_not_black(&mut self, dir: Direction)
        requires
            old(self).wf(),
        ensures
            final(self).wf(),
            *final(self) == (Board {
                cur_pos: final(self).cur_pos,
                cur_sel: final(self).cur_sel,
                ..*old(self)
            }),
            advanced(old(self).solution@, old(self).cur_pos, dir, final(self).cur_pos),
    {
        let ghost sol = self.solution@;
        let ghost start = self.cur_pos;
        let ghost h = self.spec_height();
        let ghost w = self.spec_width();
        let ghost n = h * w;
        let ghost fwd = dir_forward(dir);
        let ghost target = choose|p: Pos| old(self).open_at(p);
        let ghost mut steps: nat = 0;

        proof {
            lemma_lin_idx_bounds(target, dir, h, w);
            lemma_lin_idx_bounds(start, dir, h, w);
        }

        let alter_dir = dir.alternate();
        loop
            invariant_except_break
                self.wf(),
                *self == (Board { cur_pos: self.cur_pos, cur_sel: self.cur_sel, ..*old(self) }),
                sol == self.solution@,
                h == self.spec_height(),
                w == self.spec_width(),
                n == h * w,
                fwd == dir_forward(dir),
                alter_dir == dir.alternate_spec(),
                target.row < h,
                target.col < w,
                !sol_black(sol, target.row as int, target.col as int),
                self.cur_pos == walk(start, dir, h, w, steps),
                forall|s: int|
                    1 <= s <= steps ==> sol_black(
                        sol,
                        (#[trigger] walk(start, dir, h, w, s as nat)).row as int,
                        walk(start, dir, h, w, s as nat).col as int,
                    ),
                steps + cyc_dist(
                    lin_idx(self.cur_pos, dir, h, w),
                    lin_idx(target, dir, h, w),
                    n,
                    fwd,
                ) <= n,
            ensures
                self.wf(),
                *self == (Board { cur_pos: self.cur_pos, cur_sel: self.cur_sel, ..*old(self) }),
                advanced(sol, start, dir, self.cur_pos),
            decreases n - steps,
        {
            let ghost pos_before = self.cur_pos;
            let wrapped = self.move_cursor(dir);
            if wrapped {
                let _ = self.move_cursor(alter_dir);
            }
            proof {
                steps = steps + 1;
                assert(self.cur_pos == carriage_step(pos_before, dir, h, w));
                assert(self.cur_pos == walk(start, dir, h, w, steps));
                lemma_carriage_step(pos_before, dir, h, w);
                lemma_lin_idx_bounds(self.cur_pos, dir, h, w);
            }
            if !self.is_black_cell(&Pos { row: self.cur_pos.row, col: self.cur_pos.col }) {
                proof {
                    lemma_lin_idx_bounds(pos_before, dir, h, w);
                    lemma_lin_idx_bounds(target, dir, h, w);
                    assert(n >= 1) by (nonlinear_arith)
                        requires
                            0 < h && 0 < w && n == h * w,
                    ;
                    assert(cyc_dist(
                        lin_idx(pos_before, dir, h, w),
                        lin_idx(target, dir, h, w),
                        n,
                        fwd,
                    ) >= 1);
                    assert(steps <= n);
                    assert(advance_ok(sol, start, dir, steps, self.cur_pos));
                }
                break ;
            }
            proof {
                lemma_lin_idx_bounds(pos_before, dir, h, w);
                lemma_lin_idx_bounds(target, dir, h, w);
                assert(self.cur_pos != target);
                if lin_idx(self.cur_pos, dir, h, w) == lin_idx(target, dir, h, w) {
                    lemma_lin_idx_inj(self.cur_pos, target, dir, h, w);
                }
                assert(cyc_dist(lin_idx(self.cur_pos, dir, h, w), lin_idx(target, dir, h, w), n, fwd)
                    == cyc_dist(lin_idx(pos_before, dir, h, w), lin_idx(target, dir, h, w), n, fwd)
                    - 1);
            }
        }
    }

    /// Whether `pos` names an in-bounds black cell.
    pub fn is_black_cell(&self, pos: &Pos) -> (r: bool)
        requires
            self.dims_ok(),
        ensures
            r == (self.in_bounds(*pos) && self.black_at(*pos)),
    {
        match self.solution_tile_at(pos) {
            Some(t) => match t {
                Cell::Black => true,
                _ => false,
            },
            None => false,
        }
    }

    /// Writes the typed letter at the cursor — correct iff it matches the
    /// solution letter there, a space clears the cell — then, when
    /// `move_next` holds, advances to the next open cell: Across typing
    /// always advances Right, Down typing always advances Down.
    pub fn type_letter(&mut self, ch: char, move_next: bool)
        requires
            old(self).wf(),
        ensures
            final(self).wf(),
            final(self).solution == old(self).solution,
            final(self).clues == old(self).clues,
            final(self).pos_2_clue_idx == old(self).pos_2_clue_idx,
            final(self).title == old(self).title,
            final(self).cur_dir == old(self).cur_dir,
            final(self).content@.len() == old(self).content@.len(),
            forall|rr: int|
                0 <= rr < old(self).content@.len() ==> (#[trigger] final(self).content@[rr])@.len()
                    == old(self).content@[rr]@.len(),
            forall|rr: int, cc: int|
                0 <= rr < old(self).spec_height() && 0 <= cc < old(self).spec_width() ==> (
                #[trigger] final(self).content@[rr]@[cc]) == if rr == old(self).cur_pos.row as int
                    && cc == old(self).cur_pos.col as int {
                    typed_cell(
                        ch,
                        old(self).solution@[old(self).cur_pos.row as int]@[old(
                            self,
                        ).cur_pos.col as int],
                    )
                } else {
                    old(self).content@[rr]@[cc]
                },
            move_next ==> advanced(
                old(self).solution@,
                old(self).cur_pos,
                old(self).cur_dir.advance_dir_spec(),
                final(self).cur_pos,
            ),
            !move_next ==> final(self).cur_pos == old(self).cur_pos && final(self).cur_sel == old(
                self,
            ).cur_sel,
    {
        let ri = self.cur_pos.row;
        let ci = self.cur_pos.col;
        let new_cell = if ch != ' ' {
            let right = self.solution[ri][ci].get_char();
            if ch == right {
                Cell::OccupiedRight(ch)
            } else {
                Cell::OccupiedWrong(ch)
            }
        } else {
            Cell::Empty
        };
        grid_set(&mut self.content, ri, ci, new_cell);
        proof {
            assert forall|i: int|
                0 <= i < self.content@.len() implies (#[trigger] self.content@[i])@.len()
                == self.spec_width() by {
                if i != ri as int {
                    assert(self.content@[i] == old(self).content@[i]);
                } else {
                    assert(self.content@[i]@ == old(self).content@[i]@.update(
                        ci as int,
                        new_cell,
                    ));
                }
            }
            assert(self.wf()) by {
                lemma_open_cell_preserved(*old(self), *self);
            };
        }

        let dir = self.cur_dir.advance_dir();
        if move_next {
            self.move_cursor_until_not_black(dir);
        }
    }

    /// The text of the clue for the word under the cursor: the selection's
    /// first position and the typing direction key the clue-index table.
    /// A failed lookup yields a diagnostic placeholder, never an error.
    pub fn current_clue(&self) -> (r: String)
        requires
            self.wf(),
        ensures
            self.cur_sel@.len() == 0 ==> r@ == "no word is selected"@,
            self.cur_sel@.len() > 0 ==> match self.pos_2_clue_idx.spec_lookup(
                self.cur_sel@[0],
                self.cur_dir,
            ) {
                Some(idx) => if idx < self.clues@.len() {
                    r@ == self.clues@[idx as int]@
                } else {
                    r@ == "clue not found"@
                },
                None => r@ == "clue not found"@,
            },
    {
        match self.cur_sel.first_pos() {
            None => String::from_str("no word is selected"),
            Some(first_pos) => {
                match self.pos_2_clue_idx.get(&first_pos, &self.cur_dir) {
                    Some(clue_idx) => {
                        if clue_idx < self.clues.len() {
                            self.clues[clue_idx].clone()
                        } else {
                            String::from_str("clue not found")
                        }
                    },
                    None => String::from_str("clue not found"),
                }
            },
        }
    }

    /// Builds a session over validated grids: the solution grid must be
    /// rectangular and non-empty with at least one open cell, and the
    /// player grid must share its dimensions. The cursor starts at the
    /// top-left corner, typing Across.
    pub fn new(
        title: String,
        content: Vec<Vec<Cell>>,
        solution: Vec<Vec<Cell>>,
        clues: Vec<String>,
        pos_2_clue_idx: Pos2ClueIdx,
    ) -> (r: Result<Board, BoardError>)
        ensures
            r is Ok <==> sol_dims_ok(solution@) && grids_match(solution@, content@)
                && sol_has_open(solution@),
            r == Err::<Board, BoardError>(BoardError::DegenerateGrid) <==> (!sol_dims_ok(solution@)
                || (sol_dims_ok(solution@) && grids_match(solution@, content@) && !sol_has_open(
                solution@,
            ))),
            r == Err::<Board, BoardError>(BoardError::MismatchedGrids) <==> (sol_dims_ok(solution@)
                && !grids_match(solution@, content@)),
            r matches Ok(b) ==> {
                &&& b.wf()
                &&& b.content == content
                &&& b.solution == solution
                &&& b.clues == clues
                &&& b.pos_2_clue_idx == pos_2_clue_idx
                &&& b.title == title
                &&& b.cur_pos == (Pos { row: 0, col: 0 })
                &&& b.cur_dir == TypingDir::Across
            },
    {
        let sh = solution.len();
        if sh == 0 {
            return Err(BoardError::DegenerateGrid);
        }
        let sw = solution[0].len();
        if sw == 0 {
            return Err(BoardError::DegenerateGrid);
        }
        let mut r: usize = 0;
        while r < sh
            invariant
                sh == solution@.len(),
                sw == solution@[0]@.len(),
                r <= sh,
                forall|i: int| 0 <= i < r ==> (#[trigger] solution@[i])@.len() == sw,
            decreases sh - r,
        {
            if solution[r].len() != sw {
                return Err(BoardError::DegenerateGrid);
            }
            r = r + 1;
        }
        if content.len() != sh {
            return Err(BoardError::MismatchedGrids);
        }
        let mut r: usize = 0;
        while r < sh
            invariant
                sh == solution@.len(),
                sh == content@.len(),
                sw == solution@[0]@.len(),
                0 < sh <= usize::MAX,
                0 < sw <= usize::MAX,
                forall|i: int| 0 <= i < sh ==> (#[trigger] solution@[i])@.len() == sw,
                r <= sh,
                forall|i: int| 0 <= i < r ==> (#[trigger] content@[i])@.len() == sw,
            decreases sh - r,
        {
            if content[r].len() != sw {
                return Err(BoardError::MismatchedGrids);
            }
            r = r + 1;
        }
        let mut open_found = false;
        let ghost mut open_pos = Pos { row: 0, col: 0 };
        let mut r: usize = 0;
        while r < sh && !open_found
            invariant
                sh == solution@.len(),
                sw == solution@[0]@.len(),
                0 < sh <= usize::MAX,
                0 < sw <= usize::MAX,
                forall|i: int| 0 <= i < sh ==> (#[trigger] solution@[i])@.len() == sw,
                grids_match(solution@, content@),
                r <= sh,
                open_found ==> open_pos.row < sh && open_pos.col < sw && !sol_black(
                    solution@,
                    open_pos.row as int,
                    open_pos.col as int,
                ),
                !open_found ==> forall|rr: usize, cc: usize|
                    rr < r && cc < sw ==> #[trigger] sol_black(solution@, rr as int, cc as int),
            decreases sh - r,
        {
            let mut c: usize = 0;
            while c < sw && !open_found
                invariant
                    sh == solution@.len(),
                    sw == solution@[0]@.len(),
                    forall|i: int| 0 <= i < sh ==> (#[trigger] solution@[i])@.len() == sw,
                    r < sh,
                    c <= sw,
                    open_found ==> open_pos.row < sh && open_pos.col < sw && !sol_black(
                        solution@,
                        open_pos.row as int,
                        open_pos.col as int,
                    ),
                    !open_found ==> forall|rr: usize, cc: usize|
                        rr < r && cc < sw ==> #[trigger] sol_black(solution@, rr as int, cc as int),
                    !open_found ==> forall|cc: usize|
                        cc < c ==> #[trigger] sol_black(solution@, r as int, cc as int),
                decreases sw - c,
            {
                match solution[r][c] {
                    Cell::Black => {},
                    _ => {
                        open_found = true;
                        proof {
                            open_pos = Pos { row: r, col: c };
                        }
                    },
                }
                c = c + 1;
            }
            r = r + 1;
        }
        if !open_found {
            proof {
                assert forall|p: Pos| p.row < sh && p.col < sw implies sol_black(
                    solution@,
                    p.row as int,
                    p.col as int,
                ) by {
                    assert(sol_black(solution@, p.row as int, p.col as int));
                }
            }
            return Err(BoardError::DegenerateGrid);
        }

        let mut ret = Board {
            content,
            solution,
            title,
            cur_pos: Pos::new(0, 0),
            cur_dir: TypingDir::Across,
            cur_sel: SelectedWord { poss: Vec::new() },
            clues,
            pos_2_clue_idx,
        };
        proof {
            assert(ret.open_at(open_pos));
        }
        ret.update_selection();
        proof {
            assert(ret.open_at(open_pos));
        }
        Ok(ret)
    }

    /// The synchronous command dispatcher: applies one presentation-layer
    /// message to the session. Commands never fail; each is a total,
    /// deterministic transition.
    pub fn update(&mut self, message: Msg)
        requires
            old(self).wf(),
        ensures
            final(self).wf(),
            final(self).solution == old(self).solution,
            final(self).clues == old(self).clues,
            final(self).pos_2_clue_idx == old(self).pos_2_clue_idx,
            final(self).title == old(self).title,
            message matches Msg::MoveCursor(dir) ==> final(self).content == old(self).content
                && final(self).cur_dir == old(self).cur_dir && advanced(
                old(self).solution@,
                old(self).cur_pos,
                dir,
                final(self).cur_pos,
            ),
            message matches Msg::TypeLetter(ch) ==> final(self).cur_dir == old(self).cur_dir
                && typed_at(*old(self), *final(self), ch) && advanced(
                old(self).solution@,
                old(self).cur_pos,
                old(self).cur_dir.advance_dir_spec(),
                final(self).cur_pos,
            ),
            message is ClearCell ==> final(self).cur_dir == old(self).cur_dir && typed_at(
                *old(self),
                *final(self),
                ' ',
            ) && final(self).cur_pos == old(self).cur_pos,
            message is ToggleTypingDir ==> final(self).content == old(self).content
                && final(self).cur_pos == old(self).cur_pos && final(self).cur_dir == old(
                self,
            ).cur_dir.toggle_spec(),
    {
        match message {
            Msg::MoveCursor(dir) => self.move_cursor_until_not_black(dir),
            Msg::TypeLetter(ch) => self.type_letter(ch, true),
            Msg::ClearCell => self.type_letter(' ', false),
            Msg::ToggleTypingDir => self.toggle_typing_dir(),
        }
    }
}

/// What typing `ch` leaves in a player cell whose solution cell is `sol`:
/// a space clears the cell; a letter fills it, marked correct exactly when
/// it matches the solution letter.
pub open spec fn typed_cell(ch: char, sol: Cell) -> Cell {
    if ch == ' ' {
        Cell::Empty
    } else if ch == sol.spec_get_char() {
        Cell::OccupiedRight(ch)
    } else {
        Cell::OccupiedWrong(ch)
    }
}

/// The player grid of `b` is that of `a` with `typed_cell(ch, ..)` written
/// at `a`'s cursor.
pub open spec fn typed_at(a: Board, b: Board, ch: char) -> bool {
    &&& b.content@.len() == a.content@.len()
    &&& forall|rr: int|
        0 <= rr < a.content@.len() ==> (#[trigger] b.content@[rr])@.len() == a.content@[rr]@.len()
    &&& forall|rr: int, cc: int|
        0 <= rr < a.spec_height() && 0 <= cc < a.spec_width() ==> (#[trigger] b.content@[rr]@[cc])
            == if rr == a.cur_pos.row as int && cc == a.cur_pos.col as int {
            typed_cell(ch, a.solution@[a.cur_pos.row as int]@[a.cur_pos.col as int])
        } else {
            a.content@[rr]@[cc]
        }
}

/// The solution grid is rectangular and non-empty, with dimensions a
/// machine word can hold.
pub open spec fn sol_dims_ok(sol: Seq<Vec<Cell>>) -> bool {
    &&& 0 < sol.len() <= usize::MAX
    &&& 0 < sol[0]@.len() <= usize::MAX
    &&& forall|r: int| 0 <= r < sol.len() ==> (#[trigger] sol[r])@.len() == sol[0]@.len()
}

/// The player grid shares the solution grid's dimensions.
pub open spec fn grids_match(sol: Seq<Vec<Cell>>, content: Seq<Vec<Cell>>) -> bool {
    &&& content.len() == sol.len()
    &&& forall|r: int| 0 <= r < content.len() ==> (#[trigger] content[r])@.len() == sol[0]@.len()
}

/// At least one cell of the solution grid is open (non-black), so the
/// cursor always has somewhere to rest.
pub open spec fn sol_has_open(sol: Seq<Vec<Cell>>) -> bool {
    exists|p: Pos|
        p.row < sol.len() && p.col < sol[0]@.len() && !sol_black(sol, p.row as int, p.col as int)
}

/// Replaces one cell of a rectangular grid, leaving every other cell and
/// every row length unchanged.
fn grid_set(g: &mut Vec<Vec<Cell>>, r: usize, c: usize, v: Cell)
    requires
        r < old(g)@.len(),
        c < old(g)@[r as int]@.len(),
    ensures
        final(g)@.len() == old(g)@.len(),
        forall|i: int| 0 <= i < old(g)@.len() && i != r ==> final(g)@[i] == old(g)@[i],
        final(g)@[r as int]@ == old(g)@[r as int]@.update(c as int, v),
{
    let mut row = g.remove(r);
    row.set(c, v);
    g.insert(r, row);
    proof {
        assert forall|i: int| 0 <= i < old(g)@.len() && i != r implies final(g)@[i] == old(g)@[i]
        by {
        }
    }
}


/// The player-grid cell a solution character denotes: `'.'` is a black
/// cell, `'_'` an empty one, anything else a correct letter of the answer
/// key.
pub open spec fn cell_from_char(c: char) -> Cell {
    if c == '.' {
        Cell::Black
    } else if c == '_' {
        Cell::Empty
    } else {
        Cell::OccupiedRight(c)
    }
}

/// Turns a decoded puzzle's character answer key into a cell grid.
pub fn solution_from(imported_puz: &crate::import_puz::ImportedPuz) -> (r: Vec<Vec<Cell>>)
    requires
        imported_puz.wf(),
    ensures
        r@.len() == imported_puz.header.height,
        forall|rr: int|
            0 <= rr < r@.len() ==> (#[trigger] r@[rr])@.len() == imported_puz.header.width,
        forall|rr: int, cc: int|
            0 <= rr < imported_puz.header.height && 0 <= cc < imported_puz.header.width ==> (
            #[trigger] r@[rr]@[cc]) == cell_from_char(
                imported_puz.solution.grid()[rr][cc],
            ),
{
    let height = imported_puz.height();
    let width = imported_puz.width();
    let mut ret: Vec<Vec<Cell>> = Vec::new();
    let mut r_idx: usize = 0;
    while r_idx < height
        invariant
            imported_puz.wf(),
            height == imported_puz.header.height,
            width == imported_puz.header.width,
            r_idx <= height,
            ret@.len() == r_idx,
            forall|rr: int| 0 <= rr < r_idx ==> (#[trigger] ret@[rr])@.len() == width,
            forall|rr: int, cc: int|
                0 <= rr < r_idx && 0 <= cc < width ==> (#[trigger] ret@[rr]@[cc])
                    == cell_from_char(imported_puz.solution.grid()[rr][cc]),
        decreases height - r_idx,
    {
        let mut row: Vec<Cell> = Vec::new();
        let mut c_idx: usize = 0;
        while c_idx < width
            invariant
                imported_puz.wf(),
                height == imported_puz.header.height,
                width == imported_puz.header.width,
                r_idx < height,
                c_idx <= width,
                row@.len() == c_idx,
                forall|cc: int|
                    0 <= cc < c_idx ==> (#[trigger] row@[cc]) == cell_from_char(
                        imported_puz.solution.grid()[r_idx as int][cc],
                    ),
            decreases width - c_idx,
        {
            let ch = imported_puz.solution_at(r_idx, c_idx);
            let cell = if ch == '.' {
                Cell::Black
            } else if ch == '_' {
                Cell::Empty
            } else {
                Cell::OccupiedRight(ch)
            };
            row.push(cell);
            c_idx = c_idx + 1;
        }
        ret.push(row);
        r_idx = r_idx + 1;
    }
    ret
}

/// The across run's right end lies at or right of `c`, every cell from
/// `c` through it is open, and it is bounded by the edge or a black cell.
pub proof fn lemma_run_hi_col_props(b: Board, r: int, c: int)
    requires
        b.dims_ok(),
        0 <= r < b.spec_height(),
        0 <= c < b.spec_width(),
    ensures
        c <= b.run_hi_col(r, c) < b.spec_width(),
        forall|x: usize|
            c <= x <= b.run_hi_col(r, c) && x != c ==> !(#[trigger] b.black_at(
                Pos { row: r as usize, col: x },
            )),
        b.run_hi_col(r, c) + 1 == b.spec_width() || b.black_at(
            Pos { row: r as usize, col: (b.run_hi_col(r, c) + 1) as usize },
        ),
    decreases b.spec_width() - c,
{
    if !(c + 1 >= b.spec_width() || b.black_at(Pos { row: r as usize, col: (c + 1) as usize })) {
        lemma_run_hi_col_props(b, r, c + 1);
    }
}

/// The down run's bottom end lies at or below `r`, every cell from `r`
/// through it is open, and it is bounded by the edge or a black cell.
pub proof fn lemma_run_hi_row_props(b: Board, r: int, c: int)
    requires
        b.dims_ok(),
        0 <= r < b.spec_height(),
        0 <= c < b.spec_width(),
    ensures
        r <= b.run_hi_row(r, c) < b.spec_height(),
        forall|x: usize|
            r <= x <= b.run_hi_row(r, c) && x != r ==> !(#[trigger] b.black_at(
                Pos { row: x, col: c as usize },
            )),
        b.run_hi_row(r, c) + 1 == b.spec_height() || b.black_at(
            Pos { row: (b.run_hi_row(r, c) + 1) as usize, col: c as usize },
        ),
    decreases b.spec_height() - r,
{
    if !(r + 1 >= b.spec_height() || b.black_at(Pos { row: (r + 1) as usize, col: c as usize })) {
        lemma_run_hi_row_props(b, r + 1, c);
    }
}

/// The selection always contains the cursor whenever the cursor rests on
/// an open cell.
pub proof fn lemma_selection_contains_cursor(b: Board)
    requires
        b.dims_ok(),
        b.in_bounds(b.cur_pos),
        !b.black_at(b.cur_pos),
    ensures
        exists|i: int| 0 <= i < b.sel_seq().len() && b.sel_seq()[i] == b.cur_pos,
{
    let r = b.cur_pos.row as int;
    let c = b.cur_pos.col as int;
    if b.cur_dir == TypingDir::Across {
        b.lemma_run_lo_col_props(r, c);
        lemma_run_hi_col_props(b, r, c);
        let lo = b.run_lo_col(r, c);
        assert(b.sel_seq()[c - lo] == b.cur_pos);
    } else {
        b.lemma_run_lo_row_props(r, c);
        lemma_run_hi_row_props(b, r, c);
        let lo = b.run_lo_row(r, c);
        assert(b.sel_seq()[r - lo] == b.cur_pos);
    }
}

/// Extending the selection never crosses a black cell or the grid edge:
/// every selected position is an in-bounds, open cell.
pub proof fn lemma_selection_open(b: Board)
    requires
        b.dims_ok(),
        b.in_bounds(b.cur_pos),
    ensures
        forall|i: int|
            0 <= i < b.sel_seq().len() ==> b.in_bounds(#[trigger] b.sel_seq()[i]) && !b.black_at(
                b.sel_seq()[i],
            ),
{
    let r = b.cur_pos.row as int;
    let c = b.cur_pos.col as int;
    if b.black_at(b.cur_pos) {
    } else if b.cur_dir == TypingDir::Across {
        b.lemma_run_lo_col_props(r, c);
        lemma_run_hi_col_props(b, r, c);
        let lo = b.run_lo_col(r, c);
        let hi = b.run_hi_col(r, c);
        assert forall|i: int|
            0 <= i < b.sel_seq().len() implies b.in_bounds(#[trigger] b.sel_seq()[i])
            && !b.black_at(b.sel_seq()[i]) by {
            let x = (lo + i) as usize;
            assert(b.sel_seq()[i] == (Pos { row: r as usize, col: x }));
            if lo + i < c {
                assert(!b.black_at(Pos { row: r as usize, col: x }));
            } else if lo + i == c {
                assert(Pos { row: r as usize, col: x } == b.cur_pos);
            } else {
                assert(!b.black_at(Pos { row: r as usize, col: x }));
            }
        }
    } else {
        b.lemma_run_lo_row_props(r, c);
        lemma_run_hi_row_props(b, r, c);
        let lo = b.run_lo_row(r, c);
        let hi = b.run_hi_row(r, c);
        assert forall|i: int|
            0 <= i < b.sel_seq().len() implies b.in_bounds(#[trigger] b.sel_seq()[i])
            && !b.black_at(b.sel_seq()[i]) by {
            let x = (lo + i) as usize;
            assert(b.sel_seq()[i] == (Pos { row: x, col: c as usize }));
            if lo + i < r {
                assert(!b.black_at(Pos { row: x, col: c as usize }));
            } else if lo + i == r {
                assert(Pos { row: x, col: c as usize } == b.cur_pos);
            } else {
                assert(!b.black_at(Pos { row: x, col: c as usize }));
            }
        }
    }
}

/// The selection degenerates to the cursor alone when both neighbours
/// along the typing axis are black or out of bounds.
pub proof fn lemma_selection_degenerate(b: Board)
    requires
        b.dims_ok(),
        b.in_bounds(b.cur_pos),
        !b.black_at(b.cur_pos),
        b.cur_dir == TypingDir::Across ==> (b.cur_pos.col == 0 || b.black_at(
            Pos { row: b.cur_pos.row, col: (b.cur_pos.col - 1) as usize },
        )) && (b.cur_pos.col + 1 == b.spec_width() || b.black_at(
            Pos { row: b.cur_pos.row, col: (b.cur_pos.col + 1) as usize },
        )),
        b.cur_dir == TypingDir::Down ==> (b.cur_pos.row == 0 || b.black_at(
            Pos { row: (b.cur_pos.row - 1) as usize, col: b.cur_pos.col },
        )) && (b.cur_pos.row + 1 == b.spec_height() || b.black_at(
            Pos { row: (b.cur_pos.row + 1) as usize, col: b.cur_pos.col },
        )),
    ensures
        b.sel_seq() =~= seq![b.cur_pos],
{
    let r = b.cur_pos.row as int;
    let c = b.cur_pos.col as int;
    if b.cur_dir == TypingDir::Across {
        assert(b.run_lo_col(r, c) == c);
        assert(b.run_hi_col(r, c) == c);
    } else {
        assert(b.run_lo_row(r, c) == r);
        assert(b.run_hi_row(r, c) == r);
    }
}

/// In a four-wide grid, four Right moves return the cursor to where it
/// started: the column cycles modulo the width and the row is untouched.
pub proof fn lemma_four_rights(p: Pos, h: int, w: int)
    requires
        w == 4,
        0 < h <= usize::MAX,
        p.row < h,
        p.col < 4,
    ensures
        step_pos(
            step_pos(
                step_pos(step_pos(p, Direction::Right, h, w), Direction::Right, h, w),
                Direction::Right,
                h,
                w,
            ),
            Direction::Right,
            h,
            w,
        ) == p,
{
    assert(((p.col + 1) % 4 + 3) % 4 == p.col % 4);
}

/// At a row's last column, the Right move and its paired alternate Down
/// step land the cursor at the start of the next row: the "typewriter
/// carriage" wraparound.
pub proof fn lemma_carriage_at_row_end(p: Pos, h: int, w: int)
    requires
        0 < h <= usize::MAX,
        0 < w <= usize::MAX,
        p.row < h,
        p.col + 1 == w,
    ensures
        carriage_step(p, Direction::Right, h, w) == (Pos {
            row: ((p.row + 1) % h) as usize,
            col: 0,
        }),
{
    assert((p.col + 1) % w == 0) by (nonlinear_arith)
        requires
            0 < w && p.col + 1 == w,
    ;
}

} // verus!
