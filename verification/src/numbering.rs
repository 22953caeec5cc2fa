//! Clue-numbering derivation and clue-index enumeration.
//!
//! `BoardContents` holds a raw character grid (`'.'` marks a black cell).
//! `calc_cell_numbers` scans it row-major and assigns crossword numbers to
//! across/down word starts; `calc_num_2_clue_idx` turns that numbering into
//! the contiguous 0-based clue-index table, ordered by ascending number with
//! across before down on ties.

use vstd::prelude::*;

use crate::api_types::{Pos, TypingDir};

verus! {

/// The character marking a black (unusable) cell in a raw grid.
pub open spec fn black_char() -> char {
    '.'
}

/// A rectangular character grid with at least one row and one column, with
/// dimensions a machine word can hold.
pub open spec fn grid_wf(g: Seq<Seq<char>>) -> bool {
    &&& 0 < g.len() <= usize::MAX
    &&& 0 < g[0].len() <= usize::MAX
    &&& forall|r: int| 0 <= r < g.len() ==> (#[trigger] g[r]).len() == g[0].len()
}

pub open spec fn grid_height(g: Seq<Seq<char>>) -> int {
    g.len() as int
}

pub open spec fn grid_width(g: Seq<Seq<char>>) -> int {
    g[0].len() as int
}

pub open spec fn grid_black(g: Seq<Seq<char>>, r: int, c: int) -> bool {
    g[r][c] == black_char()
}

/// A non-black cell starts an across word iff nothing usable lies to its
/// left and a usable cell lies to its right.
pub open spec fn spec_needs_across(g: Seq<Seq<char>>, r: int, c: int) -> bool {
    &&& (c == 0 || grid_black(g, r, c - 1))
    &&& c + 1 < grid_width(g) && !grid_black(g, r, c + 1)
}

/// A non-black cell starts a down word iff nothing usable lies above it and
/// a usable cell lies below it.
pub open spec fn spec_needs_down(g: Seq<Seq<char>>, r: int, c: int) -> bool {
    &&& (r == 0 || grid_black(g, r - 1, c))
    &&& r + 1 < grid_height(g) && !grid_black(g, r + 1, c)
}

/// A cell carries a crossword number iff it is not black and starts an
/// across word, a down word, or both.
pub open spec fn spec_needs_number(g: Seq<Seq<char>>, r: int, c: int) -> bool {
    &&& !grid_black(g, r, c)
    &&& (spec_needs_across(g, r, c) || spec_needs_down(g, r, c))
}

/// The positions that carry a number, in row-major scan order, starting the
/// scan at row `r`, column `c`.
pub open spec fn scan_from(g: Seq<Seq<char>>, r: int, c: int) -> Seq<Pos>
    decreases grid_height(g) - r, grid_width(g) - c,
{
    if r < 0 || c < 0 || r >= grid_height(g) {
        Seq::empty()
    } else if c >= grid_width(g) {
        scan_from(g, r + 1, 0)
    } else if spec_needs_number(g, r, c) {
        seq![Pos { row: r as usize, col: c as usize }] + scan_from(g, r, c + 1)
    } else {
        scan_from(g, r, c + 1)
    }
}

/// Strict row-major order on positions.
pub open spec fn row_major_lt(p: Pos, q: Pos) -> bool {
    p.row < q.row || (p.row == q.row && p.col < q.col)
}

/// One crossword number: the cell it sits on and which of the two word
/// kinds it numbers (at least one flag is set).
#[derive(Debug, Clone, Copy, PartialEq, Eq, Structural)]
pub struct NumEntry {
    pub num: usize,
    pub pos: Pos,
    pub across: bool,
    pub down: bool,
}

/// The numbering a grid induces: entries in scan order, numbered 1, 2, ...
/// with a single shared counter (a cell that starts both an across and a
/// down word gets one number and one entry).
#[derive(Debug, Clone)]
pub struct CellNumbers {
    pub entries: Vec<NumEntry>,
}

/// The numbering a grid must receive: one entry per scanned position, with
/// consecutive numbers starting at 1 and the start flags read off the grid.
pub open spec fn entries_spec(g: Seq<Seq<char>>) -> Seq<NumEntry> {
    Seq::new(
        scan_from(g, 0, 0).len(),
        |i: int|
            NumEntry {
                num: (i + 1) as usize,
                pos: scan_from(g, 0, 0)[i],
                across: spec_needs_across(
                    g,
                    scan_from(g, 0, 0)[i].row as int,
                    scan_from(g, 0, 0)[i].col as int,
                ),
                down: spec_needs_down(
                    g,
                    scan_from(g, 0, 0)[i].row as int,
                    scan_from(g, 0, 0)[i].col as int,
                ),
            },
    )
}

/// Every scanned position is in bounds, needs a number, lies at or after
/// the scan start, and the scan is strictly increasing row-major.
pub proof fn lemma_scan_props(g: Seq<Seq<char>>, r: int, c: int)
    requires
        grid_wf(g),
    ensures
        forall|i: int|
            0 <= i < scan_from(g, r, c).len() ==> {
                let p = #[trigger] scan_from(g, r, c)[i];
                &&& p.row < grid_height(g)
                &&& p.col < grid_width(g)
                &&& spec_needs_number(g, p.row as int, p.col as int)
                &&& p.row > r || (p.row == r && p.col >= c)
            },
        forall|i: int, j: int|
            0 <= i < j < scan_from(g, r, c).len() ==> row_major_lt(
                #[trigger] scan_from(g, r, c)[i],
                #[trigger] scan_from(g, r, c)[j],
            ),
    decreases grid_height(g) - r, grid_width(g) - c,
{
    if r < 0 || c < 0 || r >= grid_height(g) {
    } else if c >= grid_width(g) {
        lemma_scan_props(g, r + 1, 0);
        assert forall|i: int| 0 <= i < scan_from(g, r, c).len() implies {
            let p = #[trigger] scan_from(g, r, c)[i];
            &&& p.row < grid_height(g)
            &&& p.col < grid_width(g)
            &&& spec_needs_number(g, p.row as int, p.col as int)
            &&& p.row > r || (p.row == r && p.col >= c)
        } by {
            assert(scan_from(g, r, c)[i] == scan_from(g, r + 1, 0)[i]);
        }
    } else {
        lemma_scan_props(g, r, c + 1);
        if spec_needs_number(g, r, c) {
            let p0 = Pos { row: r as usize, col: c as usize };
            assert forall|i: int| 0 <= i < scan_from(g, r, c).len() implies {
                let p = #[trigger] scan_from(g, r, c)[i];
                &&& p.row < grid_height(g)
                &&& p.col < grid_width(g)
                &&& spec_needs_number(g, p.row as int, p.col as int)
                &&& p.row > r || (p.row == r && p.col >= c)
            } by {
                if i == 0 {
                    assert(scan_from(g, r, c)[0] == p0);
                } else {
                    assert(scan_from(g, r, c)[i] == scan_from(g, r, c + 1)[i - 1]);
                }
            }
            assert forall|i: int, j: int|
                0 <= i < j < scan_from(g, r, c).len() implies row_major_lt(
                #[trigger] scan_from(g, r, c)[i],
                #[trigger] scan_from(g, r, c)[j],
            ) by {
                if i > 0 {
                    assert(scan_from(g, r, c)[i] == scan_from(g, r, c + 1)[i - 1]);
                }
                assert(scan_from(g, r, c)[j] == scan_from(g, r, c + 1)[j - 1]);
            }
        } else {
            assert(scan_from(g, r, c) == scan_from(g, r, c + 1));
        }
    }
}

/// The scan visits each cell at most once, so it cannot yield more entries
/// than the grid has cells.
pub proof fn lemma_scan_len(g: Seq<Seq<char>>, r: int, c: int)
    requires
        grid_wf(g),
        0 <= r <= grid_height(g),
        0 <= c <= grid_width(g),
    ensures
        r < grid_height(g) ==> scan_from(g, r, c).len() <= (grid_height(g) - r) * grid_width(g)
            - c,
        r >= grid_height(g) ==> scan_from(g, r, c).len() == 0,
    decreases grid_height(g) - r, grid_width(g) - c,
{
    let h = grid_height(g);
    let w = grid_width(g);
    if r >= h {
    } else if c == w {
        lemma_scan_len(g, r + 1, 0);
        assert((h - r) * w - c == (h - (r + 1)) * w) by (nonlinear_arith)
            requires
                c == w,
        ;
    } else {
        lemma_scan_len(g, r, c + 1);
    }
}

impl CellNumbers {
    /// Looks a number up; `None` if no cell carries it.
    pub fn pos_of_num(&self, num: usize) -> (r: Option<Pos>)
        ensures
            match r {
                Some(p) => exists|i: int|
                    0 <= i < self.entries@.len() && (#[trigger] self.entries@[i]).num == num
                        && self.entries@[i].pos == p,
                None => forall|i: int|
                    0 <= i < self.entries@.len() ==> (#[trigger] self.entries@[i]).num != num,
            },
    {
        let mut i: usize = 0;
        while i < self.entries.len()
            invariant
                i <= self.entries@.len(),
                forall|j: int| 0 <= j < i ==> (#[trigger] self.entries@[j]).num != num,
            decreases self.entries@.len() - i,
        {
            if self.entries[i].num == num {
                return Some(self.entries[i].pos);
            }
            i = i + 1;
        }
        None
    }
}

/// One row of the clue-index table: the start cell of a word, its axis, and
/// the 0-based index of its clue text.
#[derive(Debug, Clone, Copy, PartialEq, Eq, Structural)]
pub struct ClueIdxEntry {
    pub pos: Pos,
    pub dir: TypingDir,
    pub idx: usize,
}

/// The clue-index table: rows in ascending clue-index order (row `k` has
/// index `k`), which is ascending crossword number with across before down
/// on a tied number.
#[derive(Debug, Clone)]
pub struct Pos2ClueIdx(pub Vec<ClueIdxEntry>);

/// The clue slots a single numbered cell contributes, across first.
pub open spec fn entry_clues(e: NumEntry) -> Seq<(NumEntry, TypingDir)> {
    (if e.across {
        seq![(e, TypingDir::Across)]
    } else {
        Seq::empty()
    }) + (if e.down {
        seq![(e, TypingDir::Down)]
    } else {
        Seq::empty()
    })
}

/// All clue slots of a numbering, walking the entries in order.
pub open spec fn clue_seq(s: Seq<NumEntry>) -> Seq<(NumEntry, TypingDir)>
    decreases s.len(),
{
    if s.len() == 0 {
        Seq::empty()
    } else {
        clue_seq(s.drop_last()) + entry_clues(s.last())
    }
}

/// The clue-index table a numbering must receive: its clue slots in order,
/// indexed consecutively from 0.
pub open spec fn table_spec(s: Seq<NumEntry>) -> Seq<ClueIdxEntry> {
    Seq::new(
        clue_seq(s).len(),
        |k: int|
            ClueIdxEntry { pos: clue_seq(s)[k].0.pos, dir: clue_seq(s)[k].1, idx: k as usize },
    )
}

/// How many entries carry an across number.
pub open spec fn count_across(s: Seq<NumEntry>) -> int
    decreases s.len(),
{
    if s.len() == 0 {
        0
    } else {
        count_across(s.drop_last()) + if s.last().across {
            1int
        } else {
            0int
        }
    }
}

/// How many entries carry a down number.
pub open spec fn count_down(s: Seq<NumEntry>) -> int
    decreases s.len(),
{
    if s.len() == 0 {
        0
    } else {
        count_down(s.drop_last()) + if s.last().down {
            1int
        } else {
            0int
        }
    }
}

/// A numbering with `a` across numbers and `d` down numbers has exactly
/// `a + d` clue slots.
pub proof fn lemma_clue_seq_len(s: Seq<NumEntry>)
    ensures
        clue_seq(s).len() == count_across(s) + count_down(s),
        clue_seq(s).len() <= 2 * s.len(),
    decreases s.len(),
{
    if s.len() > 0 {
        lemma_clue_seq_len(s.drop_last());
    }
}

/// Every clue slot comes from one of the numbering's entries.
pub proof fn lemma_clue_seq_elems(s: Seq<NumEntry>)
    ensures
        forall|k: int|
            0 <= k < clue_seq(s).len() ==> exists|i: int|
                0 <= i < s.len() && s[i] == (#[trigger] clue_seq(s)[k]).0,
    decreases s.len(),
{
    if s.len() > 0 {
        lemma_clue_seq_elems(s.drop_last());
        assert forall|k: int| 0 <= k < clue_seq(s).len() implies exists|i: int|
            0 <= i < s.len() && s[i] == (#[trigger] clue_seq(s)[k]).0 by {
            if k < clue_seq(s.drop_last()).len() {
                let i = choose|i: int|
                    0 <= i < s.drop_last().len() && s.drop_last()[i] == clue_seq(
                        s.drop_last(),
                    )[k].0;
                assert(s[i] == clue_seq(s)[k].0);
            } else {
                assert(clue_seq(s)[k].0 == s.last());
                assert(s[s.len() - 1] == s.last());
            }
        }
    }
}

/// Clue slots are ordered by ascending crossword number, and across comes
/// before down where both share a number.
pub proof fn lemma_clue_seq_order(s: Seq<NumEntry>)
    requires
        forall|i: int, j: int| 0 <= i < j < s.len() ==> (#[trigger] s[i]).num < (#[trigger] s[j]).num,
    ensures
        forall|k1: int, k2: int|
            0 <= k1 < k2 < clue_seq(s).len() ==> {
                let c1 = #[trigger] clue_seq(s)[k1];
                let c2 = #[trigger] clue_seq(s)[k2];
                c1.0.num < c2.0.num || (c1.0.num == c2.0.num && c1.1 == TypingDir::Across
                    && c2.1 == TypingDir::Down)
            },
    decreases s.len(),
{
    if s.len() > 0 {
        let st = s.drop_last();
        assert forall|i: int, j: int| 0 <= i < j < st.len() implies (#[trigger] st[i]).num < (
        #[trigger] st[j]).num by {
            assert(st[i] == s[i] && st[j] == s[j]);
        }
        lemma_clue_seq_order(st);
        lemma_clue_seq_elems(st);
        assert forall|k1: int, k2: int| 0 <= k1 < k2 < clue_seq(s).len() implies {
            let c1 = #[trigger] clue_seq(s)[k1];
            let c2 = #[trigger] clue_seq(s)[k2];
            c1.0.num < c2.0.num || (c1.0.num == c2.0.num && c1.1 == TypingDir::Across && c2.1
                == TypingDir::Down)
        } by {
            let n = clue_seq(st).len() as int;
            if k2 < n {
            } else if k1 >= n {
                assert(clue_seq(s)[k1] == entry_clues(s.last())[k1 - n]);
                assert(clue_seq(s)[k2] == entry_clues(s.last())[k2 - n]);
                assert(s.last().across && s.last().down);
            } else {
                let e1 = clue_seq(st)[k1].0;
                let i = choose|i: int| 0 <= i < st.len() && st[i] == e1;
                assert(s[i] == e1);
                assert(clue_seq(s)[k2].0 == s.last());
                assert(s[s.len() - 1] == s.last());
                assert(e1.num < s.last().num);
            }
        }
    }
}

impl Pos2ClueIdx {
    /// The first table row matching `(pos, dir)`, scanning from row `i`.
    pub open spec fn lookup_from(s: Seq<ClueIdxEntry>, i: int, pos: Pos, dir: TypingDir) -> Option<
        usize,
    >
        decreases s.len() - i,
    {
        if i < 0 || i >= s.len() {
            None
        } else if s[i].pos == pos && s[i].dir == dir {
            Some(s[i].idx)
        } else {
            Self::lookup_from(s, i + 1, pos, dir)
        }
    }

    /// The clue index keyed by `(pos, dir)`, if the table has it.
    pub open spec fn spec_lookup(self, pos: Pos, dir: TypingDir) -> Option<usize> {
        Self::lookup_from(self.0@, 0, pos, dir)
    }

    pub fn get(&self, pos: &Pos, dir: &TypingDir) -> (r: Option<usize>)
        ensures
            r == self.spec_lookup(*pos, *dir),
    {
        let mut i: usize = 0;
        while i < self.0.len()
            invariant
                i <= self.0@.len(),
                Self::lookup_from(self.0@, 0, *pos, *dir) == Self::lookup_from(
                    self.0@,
                    i as int,
                    *pos,
                    *dir,
                ),
            decreases self.0@.len() - i,
        {
            if self.0[i].pos == *pos && self.0[i].dir == *dir {
                return Some(self.0[i].idx);
            }
            i = i + 1;
        }
        None
    }
}

impl CellNumbers {
    /// Walks the numbering in ascending order of crossword number and hands
    /// out consecutive clue indices starting at 0, across before down for a
    /// cell numbering both kinds.
    pub fn calc_num_2_clue_idx(&self) -> (r: Pos2ClueIdx)
        requires
            2 * self.entries@.len() <= usize::MAX,
        ensures
            r.0@ == table_spec(self.entries@),
    {
        let mut ret: Vec<ClueIdxEntry> = Vec::new();
        let mut clue_idx: usize = 0;

        let mut i: usize = 0;
        while i < self.entries.len()
            invariant
                i <= self.entries@.len(),
                2 * self.entries@.len() <= usize::MAX,
                ret@ == table_spec(self.entries@.take(i as int)),
                clue_idx == ret@.len(),
            decreases self.entries@.len() - i,
        {
            let e = self.entries[i];
            proof {
                lemma_clue_seq_len(self.entries@.take(i as int));
                assert(self.entries@.take(i as int).len() == i as int);
                assert(self.entries@.take(i as int + 1).drop_last() =~= self.entries@.take(
                    i as int,
                ));
                assert(self.entries@.take(i as int + 1).last() == e);
            }
            if e.across {
                ret.push(ClueIdxEntry { pos: e.pos, dir: TypingDir::Across, idx: clue_idx });
                clue_idx = clue_idx + 1;
            }
            if e.down {
                ret.push(ClueIdxEntry { pos: e.pos, dir: TypingDir::Down, idx: clue_idx });
                clue_idx = clue_idx + 1;
            }
            proof {
                assert(clue_seq(self.entries@.take(i as int + 1)) == clue_seq(
                    self.entries@.take(i as int),
                ) + entry_clues(e));
                assert(ret@ =~= table_spec(self.entries@.take(i as int + 1)));
            }
            i = i + 1;
        }
        proof {
            assert(self.entries@.take(self.entries@.len() as int) =~= self.entries@);
        }
        Pos2ClueIdx(ret)
    }
}


/// A numbering's clue-index table is contiguous from 0, has exactly
/// `|across| + |down|` rows, and is ordered by ascending crossword number
/// with across before down on a tied number.
pub proof fn lemma_clue_index_table(s: Seq<NumEntry>)
    requires
        2 * s.len() <= usize::MAX,
        forall|i: int, j: int| 0 <= i < j < s.len() ==> (#[trigger] s[i]).num < (#[trigger] s[j]).num,
    ensures
        table_spec(s).len() == count_across(s) + count_down(s),
        forall|k: int| 0 <= k < table_spec(s).len() ==> (#[trigger] table_spec(s)[k]).idx == k,
        forall|k1: int, k2: int|
            0 <= k1 < k2 < clue_seq(s).len() ==> {
                let c1 = #[trigger] clue_seq(s)[k1];
                let c2 = #[trigger] clue_seq(s)[k2];
                c1.0.num < c2.0.num || (c1.0.num == c2.0.num && c1.1 == TypingDir::Across
                    && c2.1 == TypingDir::Down)
            },
{
    lemma_clue_seq_len(s);
    lemma_clue_seq_order(s);
}

/// The raw character grid of a puzzle, row-major.
#[derive(Debug, Clone)]
pub struct BoardContents {
    pub data: Vec<Vec<char>>,
}

impl BoardContents {
    /// The grid as a mathematical sequence of rows.
    pub open spec fn grid(self) -> Seq<Seq<char>> {
        self.data@.map_values(|v: Vec<char>| v@)
    }

    pub open spec fn wf(self) -> bool {
        grid_wf(self.grid())
    }

    pub fn height(&self) -> (r: usize)
        ensures
            r == grid_height(self.grid()),
    {
        self.data.len()
    }

    pub fn width(&self) -> (r: usize)
        requires
            self.grid().len() > 0,
        ensures
            r == grid_width(self.grid()),
    {
        self.data[0].len()
    }

    pub fn is_black_cell(&self, r_idx: usize, c_idx: usize) -> (r: bool)
        requires
            r_idx < self.grid().len(),
            c_idx < self.grid()[r_idx as int].len(),
        ensures
            r == grid_black(self.grid(), r_idx as int, c_idx as int),
    {
        self.data[r_idx][c_idx] == '.'
    }

    pub fn cell_needs_across_number(&self, r_idx: usize, c_idx: usize) -> (r: bool)
        requires
            self.wf(),
            r_idx < grid_height(self.grid()),
            c_idx < grid_width(self.grid()),
        ensures
            r == spec_needs_across(self.grid(), r_idx as int, c_idx as int),
    {
        (c_idx == 0 || self.is_black_cell(r_idx, c_idx - 1)) && (c_idx + 1 < self.width()
            && !self.is_black_cell(r_idx, c_idx + 1))
    }

    pub fn cell_needs_down_number(&self, r_idx: usize, c_idx: usize) -> (r: bool)
        requires
            self.wf(),
            r_idx < grid_height(self.grid()),
            c_idx < grid_width(self.grid()),
        ensures
            r == spec_needs_down(self.grid(), r_idx as int, c_idx as int),
    {
        (r_idx == 0 || self.is_black_cell(r_idx - 1, c_idx)) && (r_idx + 1 < self.height()
            && !self.is_black_cell(r_idx + 1, c_idx))
    }

    /// Derives the crossword numbering: one row-major scan, a single shared
    /// counter starting at 1, one increment per numbered cell even when the
    /// cell starts both an across and a down word.
    pub fn calc_cell_numbers(&self) -> (r: CellNumbers)
        requires
            self.wf(),
            grid_height(self.grid()) * grid_width(self.grid()) < usize::MAX,
        ensures
            r.entries@ == entries_spec(self.grid()),
    {
        let ghost g = self.grid();
        let height = self.height();
        let width = self.width();

        let mut entries: Vec<NumEntry> = Vec::new();
        let mut cur_cell_number: usize = 1;

        proof {
            lemma_scan_len(g, 0, 0);
        }

        let mut r_idx: usize = 0;
        while r_idx < height
            invariant
                self.wf(),
                g == self.grid(),
                height == grid_height(g),
                width == grid_width(g),
                height * width < usize::MAX,
                r_idx <= height,
                scan_from(g, 0, 0).len() <= height * width,
                scan_from(g, 0, 0) == entries@.map_values(|e: NumEntry| e.pos) + scan_from(
                    g,
                    r_idx as int,
                    0,
                ),
                cur_cell_number == entries@.len() + 1,
                forall|i: int|
                    0 <= i < entries@.len() ==> {
                        let e = #[trigger] entries@[i];
                        &&& e.num == i + 1
                        &&& e.pos == scan_from(g, 0, 0)[i]
                        &&& e.across == spec_needs_across(g, e.pos.row as int, e.pos.col as int)
                        &&& e.down == spec_needs_down(g, e.pos.row as int, e.pos.col as int)
                    },
            decreases height - r_idx,
        {
            let mut c_idx: usize = 0;
            while c_idx < width
                invariant
                    self.wf(),
                    g == self.grid(),
                    height == grid_height(g),
                    width == grid_width(g),
                    height * width < usize::MAX,
                    r_idx < height,
                    c_idx <= width,
                    scan_from(g, 0, 0).len() <= height * width,
                    scan_from(g, 0, 0) == entries@.map_values(|e: NumEntry| e.pos) + scan_from(
                        g,
                        r_idx as int,
                        c_idx as int,
                    ),
                    cur_cell_number == entries@.len() + 1,
                    forall|i: int|
                        0 <= i < entries@.len() ==> {
                            let e = #[trigger] entries@[i];
                            &&& e.num == i + 1
                            &&& e.pos == scan_from(g, 0, 0)[i]
                            &&& e.across == spec_needs_across(g, e.pos.row as int, e.pos.col as int)
                            &&& e.down == spec_needs_down(g, e.pos.row as int, e.pos.col as int)
                        },
                decreases width - c_idx,
            {
                if !self.is_black_cell(r_idx, c_idx) {
                    let na = self.cell_needs_across_number(r_idx, c_idx);
                    let nd = self.cell_needs_down_number(r_idx, c_idx);
                    if na || nd {
                        let p = Pos { row: r_idx, col: c_idx };
                        let ghost old_entries = entries@;
                        proof {
                            assert(scan_from(g, r_idx as int, c_idx as int) == seq![p]
                                + scan_from(g, r_idx as int, c_idx as int + 1));
                            assert(entries@.map_values(|e: NumEntry| e.pos).len()
                                == entries@.len());
                            assert(entries@.len() < scan_from(g, 0, 0).len());
                        }
                        entries.push(
                            NumEntry { num: cur_cell_number, pos: p, across: na, down: nd },
                        );
                        proof {
                            assert(entries@.map_values(|e: NumEntry| e.pos)
                                == old_entries.map_values(|e: NumEntry| e.pos) + seq![p]);
                            assert(scan_from(g, 0, 0) == entries@.map_values(
                                |e: NumEntry| e.pos,
                            ) + scan_from(g, r_idx as int, c_idx as int + 1));
                            assert(scan_from(g, 0, 0)[entries@.len() - 1] == p);
                        }
                        cur_cell_number = cur_cell_number + 1;
                    } else {
                        proof {
                            assert(scan_from(g, r_idx as int, c_idx as int) == scan_from(
                                g,
                                r_idx as int,
                                c_idx as int + 1,
                            ));
                        }
                    }
                } else {
                    proof {
                        assert(scan_from(g, r_idx as int, c_idx as int) == scan_from(
                            g,
                            r_idx as int,
                            c_idx as int + 1,
                        ));
                    }
                }
                c_idx = c_idx + 1;
            }
            proof {
                assert(scan_from(g, r_idx as int, width as int) == scan_from(
                    g,
                    r_idx as int + 1,
                    0,
                ));
            }
            r_idx = r_idx + 1;
        }
        proof {
            assert(scan_from(g, height as int, 0) =~= Seq::<Pos>::empty());
            assert(scan_from(g, 0, 0) =~= entries@.map_values(|e: NumEntry| e.pos));
            assert(entries@ =~= entries_spec(g));
        }
        CellNumbers { entries }
    }
}

/// Every grid's numbering assigns each number exactly once, numbers are
/// strictly increasing in scan order (consecutive from 1, in fact), and
/// every numbered cell starts an across word, a down word, or both.
pub proof fn lemma_numbering_sound(g: Seq<Seq<char>>)
    requires
        grid_wf(g),
        grid_height(g) * grid_width(g) <= usize::MAX,
    ensures
        forall|i: int|
            0 <= i < entries_spec(g).len() ==> (#[trigger] entries_spec(g)[i]).num == i + 1,
        forall|i: int, j: int|
            0 <= i < j < entries_spec(g).len() ==> (#[trigger] entries_spec(g)[i]).num < (
            #[trigger] entries_spec(g)[j]).num,
        forall|i: int, j: int|
            0 <= i < entries_spec(g).len() && 0 <= j < entries_spec(g).len() && i != j ==> (
            #[trigger] entries_spec(g)[i]).num != (#[trigger] entries_spec(g)[j]).num,
        forall|i: int|
            0 <= i < entries_spec(g).len() ==> ((#[trigger] entries_spec(g)[i]).across
                || entries_spec(g)[i].down),
        forall|i: int, j: int|
            0 <= i < j < entries_spec(g).len() ==> row_major_lt(
                (#[trigger] entries_spec(g)[i]).pos,
                (#[trigger] entries_spec(g)[j]).pos,
            ),
{
    lemma_scan_props(g, 0, 0);
    lemma_scan_len(g, 0, 0);
    assert forall|i: int| 0 <= i < entries_spec(g).len() implies ((
    #[trigger] entries_spec(g)[i]).across || entries_spec(g)[i].down) by {
        let p = scan_from(g, 0, 0)[i];
        assert(spec_needs_number(g, p.row as int, p.col as int));
    }
}

} // verus!
