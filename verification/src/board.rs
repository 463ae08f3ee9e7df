//! The 9x9 board: an array of candidate sets, the peer relation, and text
//! import and export.

use vstd::prelude::*;

use crate::candidates::Candidates;
use crate::candidates::cand_str;
use crate::candidates::char_mask;
use crate::candidates::is_digit_char;
use crate::candidates::lucky_char;
use crate::candidates::mask_count;
use crate::candidates::mask_subset;
use crate::candidates::push_char;
use vstd::string::StringExecFns;

verus! {

broadcast use vstd::array::group_array_axioms;

/// Flat index of the cell at row `r`, column `c`.
pub open spec fn cell_idx(r: int, c: int) -> int {
    9 * r + c
}

/// Whether `c` counts as a cell token of the textual puzzle format: a given
/// digit or the blank placeholder.  Every other character is ignored.
pub open spec fn is_token(c: char) -> bool {
    is_digit_char(c) || c == '.'
}

/// The cell tokens of a text, in order, with all other characters dropped.
pub open spec fn tokens(s: Seq<char>) -> Seq<char>
    decreases s.len(),
{
    if s.len() == 0 {
        Seq::empty()
    } else {
        let t = tokens(s.drop_last());
        if is_token(s.last()) {
            t.push(s.last())
        } else {
            t
        }
    }
}

/// Whether the cells at rows `r1`, `r2` and columns `c1`, `c2` are distinct
/// cells sharing a row, a column, or a 3x3 block: each cell has exactly 20
/// peers.
pub open spec fn is_peer(r1: int, c1: int, r2: int, c2: int) -> bool {
    &&& 0 <= r1 < 9
    &&& 0 <= c1 < 9
    &&& 0 <= r2 < 9
    &&& 0 <= c2 < 9
    &&& !(r1 == r2 && c1 == c2)
    &&& (r1 == r2 || c1 == c2 || (r1 / 3 == r2 / 3 && c1 / 3 == c2 / 3))
}

/// Board of the game.
///
/// A board has 9*9 cells, stored row-major; the cell at row `i`, column `j`
/// is at index `9 * i + j`.  The view is the sequence of the 81 cell masks.
#[derive(Clone, Copy, Debug, PartialEq, Eq)]
pub struct Board([Candidates; 81]);

impl View for Board {
    type V = Seq<u16>;

    closed spec fn view(&self) -> Seq<u16> {
        Seq::new(81, |k: int| self.0@[k]@)
    }
}

/// A board always views as its 81 cells.
pub broadcast proof fn lemma_board_len(b: Board)
    ensures
        (#[trigger] b@).len() == 81,
{
}

impl Board {
    /// Parse a board from text.  Characters are read left to right, top to
    /// bottom; `'1'..='9'` and `'.'` are cell tokens and every other
    /// character is ignored.  Parsing succeeds exactly when the text holds
    /// 81 tokens.
    pub fn new(s: &str) -> (r: Option<Board>)
        ensures
            (r is Some) == (tokens(s@).len() == 81),
            r matches Some(b) ==> forall|k: int|
                0 <= k < 81 ==> b@[k] == char_mask(tokens(s@)[k]),
    {
        let n = s.unicode_len();
        let mut b = Board([Candidates::new(); 81]);
        let mut t: usize = 0;
        let mut p: usize = 0;
        proof {
            assert(s@.take(0) =~= Seq::<char>::empty());
        }
        while p < n
            invariant
                n == s@.len(),
                p <= n,
                t == tokens(s@.take(p as int)).len(),
                t <= p,
                forall|k: int|
                    0 <= k < t && k < 81 ==> b@[k] == char_mask(tokens(s@.take(p as int))[k]),
            decreases n - p,
        {
            let c = s.get_char(p);
            let u = c as u32;
            let tok = (49 <= u && u <= 57) || c == '.';
            proof {
                assert(s@.take(p + 1).drop_last() =~= s@.take(p as int));
                assert(s@.take(p + 1).last() == s@[p as int]);
                assert(tok == is_token(c));
                if tok {
                    assert(tokens(s@.take(p + 1)) =~= tokens(s@.take(p as int)).push(c));
                } else {
                    assert(tokens(s@.take(p + 1)) =~= tokens(s@.take(p as int)));
                }
            }
            if tok {
                if t < 81 {
                    let ghost b_pre = b@;
                    b.0[t] = Candidates::from(c);
                    proof {
                        assert(b@ =~= b_pre.update(t as int, char_mask(c)));
                    }
                }
                t += 1;
            }
            p += 1;
        }
        proof {
            assert(s@.take(n as int) =~= s@);
        }
        if t == 81 {
            Some(b)
        } else {
            None
        }
    }

    /// Build a board from a 9x9 character grid, each cell read with the
    /// token alphabet of the textual format.
    pub fn from(puzzle: [[char; 9]; 9]) -> (r: Board)
        ensures
            forall|i: int, j: int|
                0 <= i < 9 && 0 <= j < 9 ==> r@[cell_idx(i, j)] == char_mask(puzzle@[i]@[j]),
    {
        let mut b = Board([Candidates::new(); 81]);
        let mut i: usize = 0;
        while i < 9
            invariant
                i <= 9,
                forall|r0: int, c0: int|
                    0 <= r0 < i && 0 <= c0 < 9 ==> b@[cell_idx(r0, c0)] == char_mask(
                        puzzle@[r0]@[c0],
                    ),
            decreases 9 - i,
        {
            let mut j: usize = 0;
            while j < 9
                invariant
                    i < 9,
                    j <= 9,
                    forall|r0: int, c0: int|
                        0 <= r0 < i && 0 <= c0 < 9 ==> b@[cell_idx(r0, c0)] == char_mask(
                            puzzle@[r0]@[c0],
                        ),
                    forall|c0: int|
                        0 <= c0 < j ==> b@[cell_idx(i as int, c0)] == char_mask(
                            puzzle@[i as int]@[c0],
                        ),
                decreases 9 - j,
            {
                b.0[9 * i + j] = Candidates::from(puzzle[i][j]);
                j += 1;
            }
            i += 1;
        }
        b
    }

    /// The 20 peers of the cell at row `row`, column `col`: every other
    /// cell in the same row, the same column, or the same 3x3 block.
    /// The contract fixes the set of entries exactly; their order is the
    /// fixed construction order below - row and column peers interleaved
    /// by index, then the four remaining block peers - the same on every
    /// call, rather than ascending.  The order is only a determinism
    /// device and never affects solving.
    pub fn peers_of(row: usize, col: usize) -> (v: Vec<(u8, u8)>)
        requires
            row < 9,
            col < 9,
        ensures
            v@.len() == 20,
            forall|k: int|
                0 <= k < 20 ==> is_peer(row as int, col as int, v@[k].0 as int, v@[k].1 as int),
            forall|r2: int, c2: int|
                is_peer(row as int, col as int, r2, c2) ==> v@.contains((r2 as u8, c2 as u8)),
    {
        let mut v: Vec<(u8, u8)> = Vec::new();
        let mut i: usize = 0;
        // same row and same column
        while i < 9
            invariant
                row < 9,
                col < 9,
                i <= 9,
                v@.len() == 2 * i - (if (col as int) < i { 1int } else { 0int }) - (if (
                row as int) < i {
                    1int
                } else {
                    0int
                }),
                forall|k: int|
                    0 <= k < v@.len() ==> is_peer(
                        row as int,
                        col as int,
                        v@[k].0 as int,
                        v@[k].1 as int,
                    ),
                forall|c2: int|
                    0 <= c2 < i && c2 != col ==> #[trigger] v@.contains((row as u8, c2 as u8)),
                forall|r2: int|
                    0 <= r2 < i && r2 != row ==> #[trigger] v@.contains((r2 as u8, col as u8)),
            decreases 9 - i,
        {
            let ghost v0 = v@;
            if i != col {
                v.push((row as u8, i as u8));
            }
            if i != row {
                v.push((i as u8, col as u8));
            }
            proof {
                assert forall|x: (u8, u8)| v0.contains(x) implies v@.contains(x) by {
                    let n = choose|n: int| 0 <= n < v0.len() && v0[n] == x;
                    assert(v@[n] == x);
                }
                if i != col {
                    assert(v@[v0.len() as int] == (row as u8, i as u8));
                    assert(v@.contains((row as u8, i as u8)));
                }
                if i != row {
                    assert(v@[v@.len() - 1] == (i as u8, col as u8));
                    assert(v@.contains((i as u8, col as u8)));
                }
                assert forall|c2: int|
                    0 <= c2 < i + 1 && c2 != col implies #[trigger] v@.contains(
                    (row as u8, c2 as u8),
                ) by {
                    if c2 < i {
                        assert(v0.contains((row as u8, c2 as u8)));
                    } else {
                        assert(c2 == i);
                    }
                }
                assert forall|r2: int|
                    0 <= r2 < i + 1 && r2 != row implies #[trigger] v@.contains(
                    (r2 as u8, col as u8),
                ) by {
                    if r2 < i {
                        assert(v0.contains((r2 as u8, col as u8)));
                    } else {
                        assert(r2 == i);
                    }
                }
            }
            i += 1;
        }
        // the four cells of the same block outside this row and column
        let rb = row / 3 * 3;
        let cb = col / 3 * 3;
        let (ra, rc) = if row == rb {
            (rb + 1, rb + 2)
        } else if row == rb + 1 {
            (rb, rb + 2)
        } else {
            (rb, rb + 1)
        };
        let (ca, cc) = if col == cb {
            (cb + 1, cb + 2)
        } else if col == cb + 1 {
            (cb, cb + 2)
        } else {
            (cb, cb + 1)
        };
        let ghost v0 = v@;
        v.push((ra as u8, ca as u8));
        v.push((ra as u8, cc as u8));
        v.push((rc as u8, ca as u8));
        v.push((rc as u8, cc as u8));
        proof {
            assert forall|x: (u8, u8)| v0.contains(x) implies v@.contains(x) by {
                let i = choose|i: int| 0 <= i < v0.len() && v0[i] == x;
                assert(v@[i] == x);
            }
            assert(v@[v0.len() as int] == (ra as u8, ca as u8));
            assert(v@[v0.len() as int + 1] == (ra as u8, cc as u8));
            assert(v@[v0.len() as int + 2] == (rc as u8, ca as u8));
            assert(v@[v0.len() as int + 3] == (rc as u8, cc as u8));
            assert forall|r2: int, c2: int|
                is_peer(row as int, col as int, r2, c2) implies v@.contains(
                (r2 as u8, c2 as u8),
            ) by {
                if r2 == row && c2 != col {
                    assert(v0.contains((row as u8, c2 as u8)));
                } else if c2 == col && r2 != row {
                    assert(v0.contains((r2 as u8, col as u8)));
                } else {
                    assert(r2 / 3 == row as int / 3 && c2 / 3 == col as int / 3);
                    assert(r2 == ra as int || r2 == rc as int);
                    assert(c2 == ca as int || c2 == cc as int);
                }
            }
        }
        v
    }

    /// The candidate set of the cell at row `i`, column `j`.
    pub fn cell(&self, i: usize, j: usize) -> (r: Candidates)
        requires
            i < 9,
            j < 9,
        ensures
            r@ == self@[cell_idx(i as int, j as int)],
    {
        self.0[9 * i + j]
    }

    /// Replace the candidate set of the cell at row `i`, column `j`.
    pub fn set_cell(&mut self, i: usize, j: usize, cs: Candidates)
        requires
            i < 9,
            j < 9,
        ensures
            final(self)@ == old(self)@.update(cell_idx(i as int, j as int), cs@),
    {
        self.0[9 * i + j] = cs;
        proof {
            assert(self@ =~= old(self)@.update(cell_idx(i as int, j as int), cs@));
        }
    }

    /// Whether one digit or fewer remains in the cell at row `i`, column
    /// `j` (see `Candidates::is_done` on the empty set).
    pub fn is_done(&self, i: usize, j: usize) -> (r: bool)
        requires
            i < 9,
            j < 9,
        ensures
            r == (mask_count(self@[cell_idx(i as int, j as int)]) <= 1),
    {
        self.0[9 * i + j].is_done()
    }

    /// The single rendered character of the cell at row `i`, column `j`.
    pub fn lucky(&self, i: usize, j: usize) -> (r: char)
        requires
            i < 9,
            j < 9,
        ensures
            r == lucky_char(self@[cell_idx(i as int, j as int)]),
    {
        self.0[9 * i + j].lucky()
    }

    /// Remove the digits of `cs` from the cell at row `i`, column `j`.
    pub fn substract(&mut self, i: usize, j: usize, cs: Candidates)
        requires
            i < 9,
            j < 9,
        ensures
            final(self)@ == old(self)@.update(
                cell_idx(i as int, j as int),
                old(self)@[cell_idx(i as int, j as int)] & !cs@,
            ),
            mask_subset(
                final(self)@[cell_idx(i as int, j as int)],
                old(self)@[cell_idx(i as int, j as int)],
            ),
    {
        let mut c = self.0[9 * i + j];
        proof {
            crate::candidates::lemma_and_not(c@, cs@);
        }
        c.substract(&cs);
        self.0[9 * i + j] = c;
        proof {
            assert(self@ =~= old(self)@.update(
                cell_idx(i as int, j as int),
                old(self)@[cell_idx(i as int, j as int)] & !cs@,
            ));
        }
    }

    /// An iterator over the nine rows of the board.
    pub fn iter(&self) -> (r: BoardIter)
        ensures
            r.board() == self@,
            r.row() == 0,
    {
        BoardIter { b: *self, row: 0 }
    }

    /// Write each cell's rendered character into the 9x9 character grid.
    pub fn write_arr(&self, arr: &mut [[char; 9]; 9])
        ensures
            forall|i: int, j: int|
                0 <= i < 9 && 0 <= j < 9 ==> final(arr)@[i]@[j] == lucky_char(
                    self@[cell_idx(i, j)],
                ),
    {
        let mut i: usize = 0;
        while i < 9
            invariant
                i <= 9,
                forall|r0: int, c0: int|
                    0 <= r0 < i && 0 <= c0 < 9 ==> arr@[r0]@[c0] == lucky_char(
                        self@[cell_idx(r0, c0)],
                    ),
            decreases 9 - i,
        {
            let mut line: [char; 9] = ['X'; 9];
            let mut j: usize = 0;
            while j < 9
                invariant
                    i < 9,
                    j <= 9,
                    forall|c0: int|
                        0 <= c0 < j ==> line@[c0] == lucky_char(self@[cell_idx(i as int, c0)]),
                decreases 9 - j,
            {
                line[j] = self.cell(i, j).lucky();
                j += 1;
            }
            arr[i] = line;
            i += 1;
        }
    }

    /// Render the board for human inspection: a boxed 9x9 grid showing
    /// each cell's remaining candidate digits, column-aligned, with block
    /// separators every three rows and columns.
    #[verifier::rlimit(100)]
    pub fn to_string(&self) -> (r: String)
        ensures
            r@ == board_render(self@),
    {
        let ghost g = self@;
        // column widths for alignment
        let mut widths: Vec<usize> = Vec::new();
        let mut j: usize = 0;
        while j < 9
            invariant
                j <= 9,
                widths@.len() == j,
                forall|n: int| 0 <= n < j ==> #[trigger] widths@[n] == col_width(g, n),
                forall|n: int| 0 <= n < j ==> #[trigger] widths@[n] <= 16,
                g == self@,
            decreases 9 - j,
        {
            let mut w: usize = 0;
            let mut r: usize = 0;
            while r < 9
                invariant
                    j < 9,
                    r <= 9,
                    w == col_width_upto(g, j as int, r as int),
                    w <= 16,
                    g == self@,
                decreases 9 - r,
            {
                let l = self.cell(r, j).len();
                proof {
                    crate::candidates::lemma_count_bounds(g[cell_idx(r as int, j as int)]);
                }
                if l > w {
                    w = l;
                }
                r += 1;
            }
            widths.push(w);
            j += 1;
        }
        // total inner width of a rendered row
        let mut total: usize = 14;
        let mut j2: usize = 0;
        while j2 < 9
            invariant
                j2 <= 9,
                widths@.len() == 9,
                forall|n: int| 0 <= n < 9 ==> #[trigger] widths@[n] == col_width(g, n),
                forall|n: int| 0 <= n < 9 ==> #[trigger] widths@[n] <= 16,
                total == width_sum_upto(g, j2 as int) + 14,
                total <= 14 + 16 * j2,
                g == self@,
            decreases 9 - j2,
        {
            total = total + widths[j2];
            j2 += 1;
        }
        let mut s = String::new();
        let mut i: usize = 0;
        proof {
            assert(s@ =~= rows_upto(g, 0));
        }
        while i < 9
            invariant
                i <= 9,
                widths@.len() == 9,
                forall|n: int| 0 <= n < 9 ==> #[trigger] widths@[n] == col_width(g, n),
                forall|n: int| 0 <= n < 9 ==> #[trigger] widths@[n] <= 16,
                total == total_width(g),
                s@ == rows_upto(g, i as int),
                g == self@,
            decreases 9 - i,
        {
            let ghost base = s@;
            // separator line before each band of three rows
            if i % 3 == 0 {
                push_char(&mut s, ' ');
                push_char(&mut s, '+');
                push_repeat(&mut s, '-', total);
                push_char(&mut s, '+');
                push_char(&mut s, '\n');
                proof {
                    assert(s@ =~= base + sep_line(g));
                }
            }
            let ghost mid = s@;
            let mut jj: usize = 0;
            proof {
                assert(s@ =~= mid + row_upto(g, i as int, 0));
            }
            while jj < 9
                invariant
                    i < 9,
                    jj <= 9,
                    widths@.len() == 9,
                    forall|n: int| 0 <= n < 9 ==> #[trigger] widths@[n] == col_width(g, n),
                    forall|n: int| 0 <= n < 9 ==> #[trigger] widths@[n] <= 16,
                    s@ == mid + row_upto(g, i as int, jj as int),
                    g == self@,
                decreases 9 - jj,
            {
                // block bar before each group of three cells
                if jj % 3 == 0 {
                    push_char(&mut s, ' ');
                    push_char(&mut s, '|');
                }
                let cellv = self.cell(i, jj);
                let l = cellv.len();
                let l1 = if l < 1 {
                    1
                } else {
                    l
                };
                proof {
                    lemma_col_width_bound(g, jj as int, i as int, 9);
                }
                let w2 = widths[jj] + 1;
                let spaces = w2 - l1;
                push_repeat(&mut s, ' ', (spaces + 1) / 2);
                let cstr = cellv.to_string();
                s.append(cstr.as_str());
                push_repeat(&mut s, ' ', spaces / 2);
                jj += 1;
                proof {
                    assert(s@ =~= mid + row_upto(g, i as int, jj as int));
                }
            }
            push_char(&mut s, ' ');
            push_char(&mut s, '|');
            push_char(&mut s, '\n');
            i += 1;
            proof {
                assert(s@ =~= rows_upto(g, i as int));
            }
        }
        let ghost base2 = s@;
        push_char(&mut s, ' ');
        push_char(&mut s, '+');
        push_repeat(&mut s, '-', total);
        push_char(&mut s, '+');
        push_char(&mut s, '\n');
        proof {
            assert(s@ =~= base2 + sep_line(g));
        }
        s
    }
}

/// Width of column `j` over the first `r` rows: the largest candidate
/// count among those cells.
pub open spec fn col_width_upto(g: Seq<u16>, j: int, r: int) -> int
    decreases r,
{
    if r <= 0 {
        0
    } else {
        let w = col_width_upto(g, j, r - 1);
        let l = mask_count(g[cell_idx(r - 1, j)]);
        if l > w {
            l
        } else {
            w
        }
    }
}

/// Width of column `j`: the largest candidate count in the column, used
/// to align the diagnostic rendering.
pub open spec fn col_width(g: Seq<u16>, j: int) -> int {
    col_width_upto(g, j, 9)
}

/// The sum of the first `j` column widths.
pub open spec fn width_sum_upto(g: Seq<u16>, j: int) -> int
    decreases j,
{
    if j <= 0 {
        0
    } else {
        width_sum_upto(g, j - 1) + col_width(g, j - 1)
    }
}

/// The inner width of a rendered row: nine cells, each one space wider
/// than its column, plus the space before each of the three block bars
/// and before the closing bar, and one leading space per block bar.
pub open spec fn total_width(g: Seq<u16>) -> int {
    width_sum_upto(g, 9) + 9 + 5
}

/// `n` copies of the character `c`.
pub open spec fn repeat_char(c: char, n: int) -> Seq<char>
    decreases n,
{
    if n <= 0 {
        Seq::empty()
    } else {
        repeat_char(c, n - 1).push(c)
    }
}

/// The horizontal separator line of the diagnostic rendering.
pub open spec fn sep_line(g: Seq<u16>) -> Seq<char> {
    seq![' ', '+'] + repeat_char('-', total_width(g)) + seq!['+', '\n']
}

/// One cell of the diagnostic rendering: its candidates, centred in the
/// column's width plus one (an empty cell takes the width of its one
/// `'X'`).
pub open spec fn cell_str(g: Seq<u16>, i: int, j: int) -> Seq<char> {
    let w = col_width(g, j) + 1;
    let l = mask_count(g[cell_idx(i, j)]);
    let l1 = if l < 1 {
        1
    } else {
        l
    };
    let spaces = w - l1;
    repeat_char(' ', (spaces + 1) / 2) + cand_str(g[cell_idx(i, j)]) + repeat_char(
        ' ',
        spaces / 2,
    )
}

/// The first `j` cells of row `i` of the diagnostic rendering, with a
/// block bar before each group of three.
pub open spec fn row_upto(g: Seq<u16>, i: int, j: int) -> Seq<char>
    decreases j,
{
    if j <= 0 {
        Seq::empty()
    } else {
        let pre = row_upto(g, i, j - 1);
        let withbar = if (j - 1) % 3 == 0 {
            pre + seq![' ', '|']
        } else {
            pre
        };
        withbar + cell_str(g, i, j - 1)
    }
}

/// One full row line of the diagnostic rendering.
pub open spec fn row_line(g: Seq<u16>, i: int) -> Seq<char> {
    row_upto(g, i, 9) + seq![' ', '|', '\n']
}

/// The first `i` row lines, with a separator line before each band of
/// three rows.
pub open spec fn rows_upto(g: Seq<u16>, i: int) -> Seq<char>
    decreases i,
{
    if i <= 0 {
        Seq::empty()
    } else {
        let pre = rows_upto(g, i - 1);
        let withsep = if (i - 1) % 3 == 0 {
            pre + sep_line(g)
        } else {
            pre
        };
        withsep + row_line(g, i - 1)
    }
}

/// The whole diagnostic rendering of a board: nine aligned rows of
/// candidate lists in a box, with separators between the three bands.
pub open spec fn board_render(g: Seq<u16>) -> Seq<char> {
    rows_upto(g, 9) + sep_line(g)
}

proof fn lemma_col_width_bound(g: Seq<u16>, j: int, i: int, r: int)
    requires
        0 <= i < r <= 9,
    ensures
        mask_count(g[cell_idx(i, j)]) <= col_width_upto(g, j, r),
    decreases r,
{
    if i < r - 1 {
        lemma_col_width_bound(g, j, i, r - 1);
    }
}

/// Append `n` copies of `c` to the string.
fn push_repeat(s: &mut String, c: char, n: usize)
    ensures
        final(s)@ == old(s)@ + repeat_char(c, n as int),
{
    let mut k: usize = 0;
    proof {
        assert(s@ =~= s@ + repeat_char(c, 0));
    }
    while k < n
        invariant
            k <= n,
            s@ == old(s)@ + repeat_char(c, k as int),
        decreases n - k,
    {
        push_char(s, c);
        k += 1;
        proof {
            assert(s@ =~= old(s)@ + repeat_char(c, k as int));
        }
    }
}

/// Iterates over the rows of a board, top to bottom.
pub struct BoardIter {
    b: Board,
    row: usize,
}

impl BoardIter {
    /// The cells of the board being iterated.
    pub closed spec fn board(&self) -> Seq<u16> {
        self.b@
    }

    /// The index of the next row to yield.
    pub closed spec fn row(&self) -> int {
        self.row as int
    }

    /// The next row of nine cells, or `None` past the last row.
    pub fn next(&mut self) -> (r: Option<[Candidates; 9]>)
        ensures
            final(self).board() == old(self).board(),
            old(self).row() >= 9 ==> r is None && final(self).row() == old(self).row(),
            old(self).row() < 9 ==> (r matches Some(line) && final(self).row() == old(self).row()
                + 1 && forall|j: int|
                0 <= j < 9 ==> line@[j]@ == old(self).board()[cell_idx(old(self).row(), j)]),
    {
        if self.row >= 9 {
            None
        } else {
            let mut line: [Candidates; 9] = [Candidates::new(); 9];
            let mut j: usize = 0;
            while j < 9
                invariant
                    self.row < 9,
                    j <= 9,
                    forall|c0: int|
                        0 <= c0 < j ==> line@[c0]@ == self.b@[cell_idx(self.row as int, c0)],
            decreases 9 - j,
            {
                line[j] = self.b.cell(self.row, j);
                j += 1;
            }
            self.row += 1;
            Some(line)
        }
    }
}

} // verus!
