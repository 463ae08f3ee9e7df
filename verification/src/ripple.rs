//! The solving engine: constraint propagation ("ripple"), the triplex
//! elimination pass, and backtracking search.

use vstd::prelude::*;

use crate::board::Board;
use crate::board::cell_idx;
use crate::board::is_peer;
use crate::board::tokens;
use crate::candidates::Candidates;
use crate::candidates::char_mask;
use crate::candidates::is_digit_char;
use crate::candidates::lemma_and_not;
use crate::candidates::lemma_count_subset;
use crate::candidates::lemma_single_disjoint;
use crate::candidates::lemma_solved_mask_char;
use crate::candidates::lemma_subset_absence;
use crate::candidates::lemma_subset_refl;
use crate::candidates::lemma_subset_small;
use crate::candidates::lemma_subset_trans;
use crate::candidates::lucky_char;
use crate::candidates::mask_count;
use crate::candidates::mask_subset;
use crate::candidates::push_char;

verus! {

broadcast use crate::board::lemma_board_len;

/// A well-formed grid: 81 cells, each a non-empty subset of the nine
/// digits.  Validity of each cell is maintained throughout solving; a
/// narrowing that would empty a cell is reported as a contradiction
/// instead.
pub open spec fn grid_ok(g: Seq<u16>) -> bool {
    g.len() == 81 && forall|k: int| 0 <= k < 81 ==> 0 < #[trigger] g[k] < 0x200
}

/// The cell at row `r`, column `c` holds one digit or fewer.
pub open spec fn done_at(g: Seq<u16>, r: int, c: int) -> bool {
    mask_count(g[cell_idx(r, c)]) <= 1
}

/// The digits of the cell at row `r`, column `c` are absent from every one
/// of its 20 peers.
pub open spec fn propagated_at(g: Seq<u16>, r: int, c: int) -> bool {
    forall|r2: int, c2: int|
        #[trigger] is_peer(r, c, r2, c2) ==> g[cell_idx(r2, c2)] & g[cell_idx(r, c)] == 0
}

/// Every solved cell has had its digit eliminated from all its peers: the
/// grid is a fixed point of propagation.
pub open spec fn fully_propagated(g: Seq<u16>) -> bool {
    forall|r: int, c: int|
        0 <= r < 9 && 0 <= c < 9 && mask_count(#[trigger] g[cell_idx(r, c)]) <= 1
            ==> propagated_at(g, r, c)
}

/// `g2` narrows `g1`: every cell of `g2` is a subset of the same cell of
/// `g1`.
pub open spec fn narrowed(g1: Seq<u16>, g2: Seq<u16>) -> bool {
    g1.len() == 81 && g2.len() == 81 && forall|k: int|
        0 <= k < 81 ==> mask_subset(#[trigger] g2[k], g1[k])
}

/// Every cell holds one digit or fewer.
pub open spec fn all_done(g: Seq<u16>) -> bool {
    forall|k: int| 0 <= k < 81 ==> mask_count(#[trigger] g[k]) <= 1
}

/// Some cell of the grid holds exactly two candidates.
pub open spec fn has_pair(g: Seq<u16>) -> bool {
    exists|r: int, c: int|
        0 <= r < 9 && 0 <= c < 9 && mask_count(#[trigger] g[cell_idx(r, c)]) == 2
}

/// Every solved cell of `g` is propagated, except that cells which were
/// already solved but unpropagated in `g0` - other than the cell at
/// (`er`, `ec`) - may remain so.
pub open spec fn pend_ok(g: Seq<u16>, g0: Seq<u16>, er: int, ec: int) -> bool {
    forall|r: int, c: int|
        0 <= r < 9 && 0 <= c < 9 && mask_count(#[trigger] g[cell_idx(r, c)]) <= 1
            ==> propagated_at(g, r, c) || (mask_count(g0[cell_idx(r, c)]) <= 1
            && !propagated_at(g0, r, c) && !(r == er && c == ec))
}

/// The total cardinality of the first `k` cells.
pub open spec fn weight_upto(g: Seq<u16>, k: int) -> int
    decreases k,
{
    if k <= 0 {
        0
    } else {
        weight_upto(g, k - 1) + mask_count(g[k - 1])
    }
}

/// The total cardinality of the grid: propagation and guessing strictly
/// decrease it, which bounds the search.
pub open spec fn grid_weight(g: Seq<u16>) -> int {
    weight_upto(g, 81)
}

proof fn lemma_weight_nonneg(g: Seq<u16>, k: int)
    ensures
        weight_upto(g, k) >= 0,
    decreases k,
{
    if k > 0 {
        lemma_weight_nonneg(g, k - 1);
        crate::candidates::lemma_count_bounds(g[k - 1]);
    }
}

proof fn lemma_weight_le(g1: Seq<u16>, g2: Seq<u16>, k: int)
    requires
        narrowed(g1, g2),
        k <= 81,
    ensures
        weight_upto(g2, k) <= weight_upto(g1, k),
    decreases k,
{
    if k > 0 {
        lemma_weight_le(g1, g2, k - 1);
        lemma_count_subset(g2[k - 1], g1[k - 1]);
    }
}

proof fn lemma_weight_lt(g1: Seq<u16>, g2: Seq<u16>, k0: int)
    requires
        narrowed(g1, g2),
        0 <= k0 < 81,
        mask_count(g2[k0]) < mask_count(g1[k0]),
    ensures
        grid_weight(g2) < grid_weight(g1),
{
    lemma_weight_lt_upto(g1, g2, 81, k0);
}

proof fn lemma_weight_lt_upto(g1: Seq<u16>, g2: Seq<u16>, k: int, k0: int)
    requires
        narrowed(g1, g2),
        0 <= k0 < k <= 81,
        mask_count(g2[k0]) < mask_count(g1[k0]),
    ensures
        weight_upto(g2, k) < weight_upto(g1, k),
    decreases k,
{
    if k - 1 == k0 {
        lemma_weight_le(g1, g2, k - 1);
    } else {
        lemma_weight_lt_upto(g1, g2, k - 1, k0);
        lemma_count_subset(g2[k - 1], g1[k - 1]);
    }
}

proof fn lemma_narrowed_refl(g: Seq<u16>)
    requires
        g.len() == 81,
    ensures
        narrowed(g, g),
{
    assert forall|k: int| 0 <= k < 81 implies mask_subset(#[trigger] g[k], g[k]) by {
        lemma_subset_refl(g[k]);
    }
}

/// Narrowing a grid preserves the propagation of a solved cell whose own
/// value did not change: its digit stays absent from the shrinking peers.
proof fn lemma_prop_monotone(g1: Seq<u16>, g2: Seq<u16>, r: int, c: int)
    requires
        narrowed(g1, g2),
        0 <= r < 9,
        0 <= c < 9,
        g2[cell_idx(r, c)] == g1[cell_idx(r, c)],
        propagated_at(g1, r, c),
    ensures
        propagated_at(g2, r, c),
{
    assert forall|r2: int, c2: int| #[trigger] is_peer(r, c, r2, c2) implies g2[cell_idx(r2, c2)]
        & g2[cell_idx(r, c)] == 0 by {
        lemma_subset_absence(g2[cell_idx(r2, c2)], g1[cell_idx(r2, c2)], g1[cell_idx(r, c)]);
    }
}

/// The entry `k` of the peer table for the cell at row `r`, column `c`.
pub open spec fn peer_at(t: Seq<(u8, u8)>, r: int, c: int, k: int) -> (u8, u8) {
    t[180 * r + 20 * c + k]
}

/// The flat index of that entry's cell.
pub open spec fn peer_idx(t: Seq<(u8, u8)>, r: int, c: int, k: int) -> int {
    cell_idx(peer_at(t, r, c, k).0 as int, peer_at(t, r, c, k).1 as int)
}

/// A correct peer table: for each cell, 20 entries that are peers of the
/// cell, and every peer of the cell among them.
pub open spec fn peer_table_ok(t: Seq<(u8, u8)>) -> bool {
    &&& t.len() == 1620
    &&& forall|r: int, c: int, k: int|
        0 <= r < 9 && 0 <= c < 9 && 0 <= k < 20 ==> is_peer(
            r,
            c,
            #[trigger] peer_at(t, r, c, k).0 as int,
            peer_at(t, r, c, k).1 as int,
        )
    &&& forall|r: int, c: int, r2: int, c2: int|
        #[trigger] is_peer(r, c, r2, c2) ==> exists|k: int|
            0 <= k < 20 && #[trigger] peer_at(t, r, c, k) == (r2 as u8, c2 as u8)
}

/// Build the peer table: the 20 peers of each of the 81 cells, cell by
/// cell.  The table is computed once per solve and shared read-only by the
/// whole search.
pub fn build_peer_table() -> (t: Vec<(u8, u8)>)
    ensures
        peer_table_ok(t@),
{
    let mut t: Vec<(u8, u8)> = Vec::new();
    let mut r: usize = 0;
    while r < 9
        invariant
            r <= 9,
            t@.len() == 180 * r,
            forall|r0: int, c0: int, k: int|
                0 <= r0 < r && 0 <= c0 < 9 && 0 <= k < 20 ==> is_peer(
                    r0,
                    c0,
                    #[trigger] peer_at(t@, r0, c0, k).0 as int,
                    peer_at(t@, r0, c0, k).1 as int,
                ),
            forall|r0: int, c0: int, r2: int, c2: int|
                0 <= r0 < r && #[trigger] is_peer(r0, c0, r2, c2) ==> exists|k: int|
                    0 <= k < 20 && #[trigger] peer_at(t@, r0, c0, k) == (r2 as u8, c2 as u8),
        decreases 9 - r,
    {
        let mut c: usize = 0;
        while c < 9
            invariant
                r < 9,
                c <= 9,
                t@.len() == 180 * r + 20 * c,
                forall|r0: int, c0: int, k: int|
                    0 <= r0 < 9 && 0 <= c0 < 9 && 9 * r0 + c0 < 9 * r + c && 0 <= k < 20
                        ==> is_peer(
                        r0,
                        c0,
                        #[trigger] peer_at(t@, r0, c0, k).0 as int,
                        peer_at(t@, r0, c0, k).1 as int,
                    ),
                forall|r0: int, c0: int, r2: int, c2: int|
                    9 * r0 + c0 < 9 * r + c && #[trigger] is_peer(r0, c0, r2, c2) ==> exists|
                        k: int,
                    |
                        0 <= k < 20 && #[trigger] peer_at(t@, r0, c0, k) == (r2 as u8, c2 as u8),
            decreases 9 - c,
        {
            let p = Board::peers_of(r, c);
            let ghost t0 = t@;
            let mut k: usize = 0;
            while k < 20
                invariant
                    r < 9,
                    c < 9,
                    k <= 20,
                    p@.len() == 20,
                    t@.len() == t0.len() + k,
                    t0.len() == 180 * r + 20 * c,
                    forall|n: int| 0 <= n < t0.len() ==> t@[n] == t0[n],
                    forall|n: int| 0 <= n < k ==> t@[t0.len() + n] == p@[n],
                decreases 20 - k,
            {
                t.push(p[k]);
                k += 1;
            }
            proof {
                assert forall|kk: int| 0 <= kk < 20 implies peer_at(t@, r as int, c as int, kk)
                    == p@[kk] by {
                    assert(t@[t0.len() + kk] == p@[kk]);
                }
                assert forall|r2: int, c2: int|
                    #[trigger] is_peer(r as int, c as int, r2, c2) implies exists|k: int|
                    0 <= k < 20 && #[trigger] peer_at(t@, r as int, c as int, k) == (
                    r2 as u8,
                    c2 as u8,
                ) by {
                    assert(p@.contains((r2 as u8, c2 as u8)));
                    let n = choose|n: int| 0 <= n < p@.len() && p@[n] == (r2 as u8, c2 as u8);
                    assert(peer_at(t@, r as int, c as int, n) == (r2 as u8, c2 as u8));
                }
                assert forall|r0: int, c0: int, k: int|
                    0 <= r0 < 9 && 0 <= c0 < 9 && 9 * r0 + c0 < 9 * r + c + 1 && 0 <= k < 20
                    implies is_peer(
                    r0,
                    c0,
                    #[trigger] peer_at(t@, r0, c0, k).0 as int,
                    peer_at(t@, r0, c0, k).1 as int,
                ) by {
                    if 9 * r0 + c0 < 9 * r + c {
                        assert(peer_at(t@, r0, c0, k) == t0[180 * r0 + 20 * c0 + k]);
                        assert(peer_at(t0, r0, c0, k) == t0[180 * r0 + 20 * c0 + k]);
                    } else {
                        assert(r0 == r && c0 == c);
                        assert(peer_at(t@, r as int, c as int, k) == p@[k]);
                    }
                }
                assert forall|r0: int, c0: int, r2: int, c2: int|
                    9 * r0 + c0 < 9 * r + c + 1 && #[trigger] is_peer(r0, c0, r2, c2) implies
                    exists|k: int|
                    0 <= k < 20 && #[trigger] peer_at(t@, r0, c0, k) == (r2 as u8, c2 as u8) by {
                    if 9 * r0 + c0 < 9 * r + c {
                        let n = choose|k: int|
                            0 <= k < 20 && #[trigger] peer_at(t0, r0, c0, k) == (
                            r2 as u8,
                            c2 as u8,
                        );
                        assert(t@[180 * r0 + 20 * c0 + n] == t0[180 * r0 + 20 * c0 + n]);
                        assert(peer_at(t@, r0, c0, n) == (r2 as u8, c2 as u8));
                    } else {
                        assert(r0 == r && c0 == c);
                        assert(is_peer(r as int, c as int, r2, c2));
                    }
                }
            }
            c += 1;
        }
        r += 1;
    }
    t
}

/// `out` is a valid completion of the puzzle text `s`: the text parses
/// (81 tokens), `out` has 81 digit characters in row-major order, each
/// allowed by the corresponding token of `s` (a given digit is kept, a
/// blank may become anything), and no two peer cells hold the same digit.
pub open spec fn solution_of(out: Seq<char>, s: Seq<char>) -> bool {
    &&& tokens(s).len() == 81
    &&& out.len() == 81
    &&& forall|k: int|
        0 <= k < 81 ==> is_digit_char(#[trigger] out[k]) && mask_subset(
            char_mask(out[k]),
            char_mask(tokens(s)[k]),
        )
    &&& forall|r1: int, c1: int, r2: int, c2: int|
        #[trigger] is_peer(r1, c1, r2, c2) ==> out[cell_idx(r1, c1)] != out[cell_idx(r2, c2)]
}

/// `w` is a solved assignment compatible with grid `g`: one digit per
/// cell, drawn from the cell's remaining candidates, with no digit shared
/// between peer cells.  Narrowing steps of the solver never lose such an
/// assignment, and every failure report shows that none exists.
pub open spec fn fits(w: Seq<u16>, g: Seq<u16>) -> bool {
    &&& w.len() == 81
    &&& g.len() == 81
    &&& forall|k: int|
        0 <= k < 81 ==> mask_count(#[trigger] w[k]) == 1 && mask_subset(w[k], g[k])
    &&& forall|r1: int, c1: int, r2: int, c2: int|
        #[trigger] is_peer(r1, c1, r2, c2) ==> w[cell_idx(r1, c1)] & w[cell_idx(r2, c2)] == 0
}

/// An assignment compatible with a narrowing of a grid is compatible with
/// the grid itself.
proof fn lemma_fits_widen(w: Seq<u16>, g1: Seq<u16>, g2: Seq<u16>)
    requires
        fits(w, g2),
        narrowed(g1, g2),
    ensures
        fits(w, g1),
{
    assert forall|k: int| 0 <= k < 81 implies mask_count(#[trigger] w[k]) == 1 && mask_subset(
        w[k],
        g1[k],
    ) by {
        lemma_subset_trans(w[k], g2[k], g1[k]);
    }
}

/// The grid of candidate sets denoted by a 9x9 character puzzle.
pub open spec fn arr_grid(p: [[char; 9]; 9]) -> Seq<u16> {
    Seq::new(81, |k: int| char_mask(p@[k / 9]@[k % 9]))
}

/// For a puzzle with a unique valid completion, any valid completion -
/// in particular the one `solve` returns, by its contract - is exactly
/// that unique one.
pub proof fn lemma_unique_solution(s: Seq<char>, unique: Seq<char>, out: Seq<char>)
    requires
        solution_of(unique, s),
        forall|w: Seq<char>| #[trigger] solution_of(w, s) ==> w == unique,
        solution_of(out, s),
    ensures
        out == unique,
{
}

/// A returned completion witnesses that the puzzle is satisfiable: for a
/// puzzle with no valid completion, `solve` can never fabricate an
/// answer, since everything it returns is a valid completion.
pub proof fn lemma_unsolvable_no_answer(s: Seq<char>, out: Seq<char>)
    requires
        forall|w: Seq<char>| !#[trigger] solution_of(w, s),
    ensures
        !solution_of(out, s),
{
}

/// Whether cells at rows `r1`, `r2` and columns `c1`, `c2` are the same
/// cell or peers never depends on the orientation of the pair.
proof fn lemma_peer_symm(r1: int, c1: int, r2: int, c2: int)
    ensures
        is_peer(r1, c1, r2, c2) == is_peer(r2, c2, r1, c1),
{
}

/// The triplex pass visits 54 scan items in a fixed order: for each index
/// `i` (0..9) and each span start `g` (0, 3, 6), first the row triple at
/// (`i`, `g`..`g`+3), then the column triple at (`g`..`g`+3, `i`).  These
/// three functions decode an item's position in that order.
pub open spec fn scan_i(t: int) -> int {
    t / 6
}

/// The span start of scan item `t`.
pub open spec fn scan_g(t: int) -> int {
    3 * ((t % 6) / 2)
}

/// Whether scan item `t` is a column triple.
pub open spec fn scan_is_col(t: int) -> bool {
    t % 2 == 1
}

/// Flat index of the `n`th cell of scan item `t`'s triple.
pub open spec fn tri_cell(t: int, n: int) -> int {
    if scan_is_col(t) {
        cell_idx(scan_g(t) + n, scan_i(t))
    } else {
        cell_idx(scan_i(t), scan_g(t) + n)
    }
}

/// The union of the candidates of scan item `t`'s three cells on `b`.
pub open spec fn tri_union(b: Seq<u16>, t: int) -> u16 {
    b[tri_cell(t, 0)] | b[tri_cell(t, 1)] | b[tri_cell(t, 2)]
}

/// Whether scan item `t` fires on grid `b` under the hint bounds `hr`
/// (rows) and `hc` (columns): the hint admits its index, none of its
/// three cells is determined, each holds at most three candidates, and
/// together they hold exactly three.
pub open spec fn tri_fires(b: Seq<u16>, hr: int, hc: int, t: int) -> bool {
    &&& if scan_is_col(t) {
        scan_i(t) >= hc
    } else {
        scan_i(t) >= hr
    }
    &&& 1 < mask_count(b[tri_cell(t, 0)]) <= 3
    &&& 1 < mask_count(b[tri_cell(t, 1)]) <= 3
    &&& 1 < mask_count(b[tri_cell(t, 2)]) <= 3
    &&& mask_count(tri_union(b, t)) == 3
}

/// The elimination of scan item `t` has taken effect on `g2`: no digit of
/// `u` remains in the triple's row (or column) outside its own span, nor
/// in its 3x3 block outside the triple's own row (or column).
pub open spec fn tri_cleared(g2: Seq<u16>, t: int, u: u16) -> bool {
    if scan_is_col(t) {
        (forall|r2: int|
            0 <= r2 < 9 && !(scan_g(t) <= r2 < scan_g(t) + 3) ==> (#[trigger] g2[cell_idx(
                r2,
                scan_i(t),
            )]) & u == 0) && (forall|r2: int, c2: int|
            scan_g(t) <= r2 < scan_g(t) + 3 && scan_i(t) / 3 * 3 <= c2 < scan_i(t) / 3 * 3 + 3
                && c2 != scan_i(t) ==> (#[trigger] g2[cell_idx(r2, c2)]) & u == 0)
    } else {
        (forall|c2: int|
            0 <= c2 < 9 && !(scan_g(t) <= c2 < scan_g(t) + 3) ==> (#[trigger] g2[cell_idx(
                scan_i(t),
                c2,
            )]) & u == 0) && (forall|r2: int, c2: int|
            scan_i(t) / 3 * 3 <= r2 < scan_i(t) / 3 * 3 + 3 && r2 != scan_i(t) && scan_g(t) <= c2
                < scan_g(t) + 3 ==> (#[trigger] g2[cell_idx(r2, c2)]) & u == 0)
    }
}

proof fn lemma_scan_decode(i: int, g: int)
    requires
        0 <= i < 9,
        0 <= g < 9,
        g % 3 == 0,
    ensures
        scan_i(6 * i + 2 * (g / 3)) == i,
        scan_g(6 * i + 2 * (g / 3)) == g,
        !scan_is_col(6 * i + 2 * (g / 3)),
        scan_i(6 * i + 2 * (g / 3) + 1) == i,
        scan_g(6 * i + 2 * (g / 3) + 1) == g,
        scan_is_col(6 * i + 2 * (g / 3) + 1),
        0 <= 6 * i + 2 * (g / 3),
        6 * i + 2 * (g / 3) + 1 < 54,
{
}

/// A narrowing grid keeps an applied elimination applied.
proof fn lemma_cleared_monotone(g1: Seq<u16>, g2: Seq<u16>, t: int, u: u16)
    requires
        narrowed(g1, g2),
        0 <= t < 54,
        tri_cleared(g1, t, u),
    ensures
        tri_cleared(g2, t, u),
{
    assert(0 <= scan_i(t) < 9);
    assert(0 <= scan_g(t) <= 6);
    if scan_is_col(t) {
        assert forall|r2: int|
            0 <= r2 < 9 && !(scan_g(t) <= r2 < scan_g(t) + 3) implies (#[trigger] g2[cell_idx(
            r2,
            scan_i(t),
        )]) & u == 0 by {
            lemma_subset_absence(
                g2[cell_idx(r2, scan_i(t))],
                g1[cell_idx(r2, scan_i(t))],
                u,
            );
        }
        assert forall|r2: int, c2: int|
            scan_g(t) <= r2 < scan_g(t) + 3 && scan_i(t) / 3 * 3 <= c2 < scan_i(t) / 3 * 3 + 3
                && c2 != scan_i(t) implies (#[trigger] g2[cell_idx(r2, c2)]) & u == 0 by {
            lemma_subset_absence(g2[cell_idx(r2, c2)], g1[cell_idx(r2, c2)], u);
        }
    } else {
        assert forall|c2: int|
            0 <= c2 < 9 && !(scan_g(t) <= c2 < scan_g(t) + 3) implies (#[trigger] g2[cell_idx(
            scan_i(t),
            c2,
        )]) & u == 0 by {
            lemma_subset_absence(
                g2[cell_idx(scan_i(t), c2)],
                g1[cell_idx(scan_i(t), c2)],
                u,
            );
        }
        assert forall|r2: int, c2: int|
            scan_i(t) / 3 * 3 <= r2 < scan_i(t) / 3 * 3 + 3 && r2 != scan_i(t) && scan_g(t) <= c2
                < scan_g(t) + 3 implies (#[trigger] g2[cell_idx(r2, c2)]) & u == 0 by {
            lemma_subset_absence(g2[cell_idx(r2, c2)], g1[cell_idx(r2, c2)], u);
        }
    }
}

/// The earliest row and column that still hold an undetermined cell; rows
/// and columns before them need no triplex scan.
struct Hint {
    first_unsolved_row: usize,
    first_unsolved_col: usize,
}

/// A solving session: one board, plus diagnostic counters that never
/// affect the outcome.
#[derive(Debug, Clone, PartialEq, Eq)]
pub struct Ripple {
    g: Board,
    // stats
    n_try: usize,
    n_triplex: usize,
}

impl Ripple {
    /// The cells of the session's board.
    pub closed spec fn grid(&self) -> Seq<u16> {
        self.g@
    }

    /// Start a session from a textual puzzle; fails exactly when the text
    /// does not hold 81 cell tokens.
    pub fn new(s: &str) -> (r: Option<Self>)
        ensures
            (r is Some) == (tokens(s@).len() == 81),
            r matches Some(b) ==> grid_ok(b.grid()) && forall|k: int|
                0 <= k < 81 ==> b.grid()[k] == char_mask(tokens(s@)[k]),
    {
        match Board::new(s) {
            None => None,
            Some(g) => {
                proof {
                    assert forall|k: int| 0 <= k < 81 implies 0 < #[trigger] g@[k] < 0x200 by {
                        crate::candidates::lemma_char_mask_ok(tokens(s@)[k]);
                    }
                }
                Some(Ripple { g, n_try: 0, n_triplex: 0 })
            },
        }
    }

    /// Remove the digit of the solved cell at (`i`, `j`) from each of its
    /// 20 peers, recursing into any peer that becomes newly solved, and
    /// report a contradiction if a solved peer already holds the same
    /// digit.  Propagation only narrows cells, never empties one, and
    /// leaves solved cells unchanged; on success every solved cell is
    /// propagated, except cells that were already solved-but-unpropagated
    /// beforehand.  Applied to a cell that is already propagated (a fixed
    /// point), it succeeds and changes nothing.
    pub fn ripple(pt: &Vec<(u8, u8)>, g0: Board, i: usize, j: usize) -> (res: (bool, Board))
        requires
            peer_table_ok(pt@),
            i < 9,
            j < 9,
            grid_ok(g0@),
            done_at(g0@, i as int, j as int),
        ensures
            grid_ok(res.1@),
            narrowed(g0@, res.1@),
            forall|n: int|
                0 <= n < 81 && mask_count(#[trigger] g0@[n]) <= 1 ==> res.1@[n] == g0@[n],
            res.0 ==> pend_ok(res.1@, g0@, i as int, j as int),
            propagated_at(g0@, i as int, j as int) ==> res.0 && res.1@ == g0@,
            forall|w: Seq<u16>| #[trigger] fits(w, g0@) ==> fits(w, res.1@),
            !res.0 ==> forall|w: Seq<u16>| !fits(w, g0@),
        decreases grid_weight(g0@),
    {
        let cs = g0.cell(i, j);
        proof {
            crate::candidates::lemma_count_bounds(cs@);
            lemma_narrowed_refl(g0@);
        }
        let mut g = g0;
        let mut k: usize = 0;
        while k < 20
            invariant
                peer_table_ok(pt@),
                i < 9,
                j < 9,
                k <= 20,
                grid_ok(g0@),
                done_at(g0@, i as int, j as int),
                cs@ == g0@[cell_idx(i as int, j as int)],
                mask_count(cs@) == 1,
                grid_ok(g@),
                narrowed(g0@, g@),
                forall|n: int|
                    0 <= n < 81 && mask_count(#[trigger] g0@[n]) <= 1 ==> g@[n] == g0@[n],
                g@[cell_idx(i as int, j as int)] == cs@,
                forall|n: int|
                    0 <= n < k ==> #[trigger] g@[peer_idx(pt@, i as int, j as int, n)] & cs@
                        == 0,
                forall|r: int, c: int|
                    0 <= r < 9 && 0 <= c < 9 && mask_count(#[trigger] g@[cell_idx(r, c)]) <= 1
                        ==> propagated_at(g@, r, c) || (r == i && c == j) || (mask_count(
                        g0@[cell_idx(r, c)],
                    ) <= 1 && !propagated_at(g0@, r, c)),
                propagated_at(g0@, i as int, j as int) ==> g@ == g0@,
                grid_weight(g@) <= grid_weight(g0@),
                forall|w: Seq<u16>| #[trigger] fits(w, g0@) ==> fits(w, g@),
            decreases 20 - k,
        {
            let e = pt[180 * i + 20 * j + k];
            proof {
                assert(peer_at(pt@, i as int, j as int, k as int) == e);
                assert(is_peer(
                    i as int,
                    j as int,
                    peer_at(pt@, i as int, j as int, k as int).0 as int,
                    peer_at(pt@, i as int, j as int, k as int).1 as int,
                ));
            }
            let pr = e.0 as usize;
            let pc = e.1 as usize;
            let ghost pidx = cell_idx(pr as int, pc as int);
            proof {
                assert(peer_idx(pt@, i as int, j as int, k as int) == pidx);
            }
            let pcell = g.cell(pr, pc);
            if pcell == cs {
                proof {
                    crate::candidates::lemma_eq_view(pcell, cs);
                    crate::candidates::lemma_count_bounds(cs@);
                    assert(cs@ & cs@ == cs@) by (bit_vector);
                    if propagated_at(g0@, i as int, j as int) {
                        assert(is_peer(i as int, j as int, pr as int, pc as int));
                        assert(g0@[pidx] & g0@[cell_idx(i as int, j as int)] == 0);
                    }
                    // two peers forced to the same digit: no compatible
                    // assignment exists
                    assert forall|w: Seq<u16>| !fits(w, g0@) by {
                        if fits(w, g0@) {
                            assert(fits(w, g@));
                            let wij = w[cell_idx(i as int, j as int)];
                            let wp = w[cell_idx(pr as int, pc as int)];
                            crate::candidates::lemma_single_subset_eq(wij, cs@);
                            crate::candidates::lemma_single_subset_eq(wp, cs@);
                            assert(is_peer(i as int, j as int, pr as int, pc as int));
                            assert(wij & wp == 0);
                        }
                    }
                }
                return (false, g);
            }
            if !g.is_done(pr, pc) {
                let ghost gpre = g@;
                g.substract(pr, pc, cs);
                proof {
                    lemma_and_not(gpre[pidx], cs@);
                    crate::candidates::lemma_count_bounds(gpre[pidx]);
                    crate::candidates::lemma_count_bounds(g@[pidx]);
                    lemma_subset_small(g@[pidx], gpre[pidx]);
                    lemma_count_subset(g@[pidx], gpre[pidx]);
                    // cells other than the peer are unchanged; solved cells
                    // keep their values and stay propagated
                    assert forall|n: int| 0 <= n < 81 implies mask_subset(
                        #[trigger] g@[n],
                        gpre[n],
                    ) by {
                        lemma_subset_refl(g@[n]);
                    }
                    assert(narrowed(gpre, g@));
                    assert forall|n: int| 0 <= n < 81 implies mask_subset(
                        #[trigger] g@[n],
                        g0@[n],
                    ) by {
                        lemma_subset_trans(g@[n], gpre[n], g0@[n]);
                    }
                    assert(narrowed(g0@, g@));
                    assert forall|n: int|
                        0 <= n < 81 && mask_count(#[trigger] g0@[n]) <= 1 implies g@[n]
                        == g0@[n] by {
                        if n == pidx {
                            assert(gpre[n] == g0@[n]);
                        }
                    }
                    assert forall|n: int| 0 <= n < k + 1 implies #[trigger] g@[peer_idx(
                        pt@,
                        i as int,
                        j as int,
                        n,
                    )] & cs@ == 0 by {
                        let pn = peer_idx(pt@, i as int, j as int, n);
                        if n < k {
                            if pn == pidx {
                                lemma_subset_absence(g@[pn], gpre[pn], cs@);
                            } else {
                                assert(g@[pn] == gpre[pn]);
                            }
                        } else {
                            assert(pn == pidx);
                        }
                    }
                    lemma_weight_le(g0@, g@, 81);
                    // removing the digit of a solved cell from a peer
                    // keeps every compatible assignment: the assignment
                    // already avoids that digit there
                    assert forall|w: Seq<u16>| #[trigger] fits(w, g0@) implies fits(w, g@) by {
                        assert(fits(w, gpre));
                        let wij = w[cell_idx(i as int, j as int)];
                        let wp = w[cell_idx(pr as int, pc as int)];
                        crate::candidates::lemma_single_subset_eq(wij, cs@);
                        assert(is_peer(i as int, j as int, pr as int, pc as int));
                        assert(wij & wp == 0);
                        crate::candidates::lemma_and_comm(wij, wp);
                        crate::candidates::lemma_subset_minus(wp, gpre[pidx], cs@);
                        assert forall|n: int|
                            0 <= n < 81 implies mask_count(#[trigger] w[n]) == 1 && mask_subset(
                            w[n],
                            g@[n],
                        ) by {
                            if n != pidx {
                                assert(g@[n] == gpre[n]);
                            }
                        }
                    }
                    // the fixed-point case: an already-propagated digit is
                    // already absent, so the subtraction changes nothing
                    if propagated_at(g0@, i as int, j as int) {
                        assert(is_peer(i as int, j as int, pr as int, pc as int));
                        assert(g0@[pidx] & cs@ == 0);
                        assert(g@ =~= g0@);
                    }
                }
                if g.is_done(pr, pc) {
                    proof {
                        // the peer went from at least two digits to one:
                        // the total weight strictly drops
                        assert(mask_count(gpre[pidx]) >= 2);
                        lemma_count_subset(gpre[pidx], g0@[pidx]);
                        lemma_weight_lt(g0@, g@, pidx);
                        lemma_weight_nonneg(g@, 81);
                        // pending cells before the recursion
                        assert forall|r: int, c: int|
                            0 <= r < 9 && 0 <= c < 9 && mask_count(
                                #[trigger] g@[cell_idx(r, c)],
                            ) <= 1 && !(r == pr as int && c == pc as int) implies propagated_at(
                            g@,
                            r,
                            c,
                        ) || (r == i && c == j) || (mask_count(g0@[cell_idx(r, c)]) <= 1
                            && !propagated_at(g0@, r, c)) by {
                            assert(cell_idx(r, c) != pidx);
                            assert(g@[cell_idx(r, c)] == gpre[cell_idx(r, c)]);
                            if propagated_at(gpre, r, c) {
                                lemma_prop_monotone(gpre, g@, r, c);
                            }
                        }
                    }
                    let ghost gmid = g@;
                    let rec = Self::ripple(pt, g, pr, pc);
                    let ok = rec.0;
                    proof {
                        assert forall|n: int| 0 <= n < 81 implies mask_subset(
                            #[trigger] rec.1@[n],
                            g0@[n],
                        ) by {
                            assert(mask_subset(rec.1@[n], gmid[n]));
                            lemma_subset_trans(rec.1@[n], gmid[n], g0@[n]);
                        }
                        assert(narrowed(g0@, rec.1@));
                        assert forall|n: int|
                            0 <= n < 81 && mask_count(#[trigger] g0@[n]) <= 1 implies rec.1@[n]
                            == g0@[n] by {
                            assert(gmid[n] == g0@[n]);
                            assert(mask_count(gmid[n]) <= 1);
                        }
                        assert forall|n: int| 0 <= n < k + 1 implies #[trigger] rec.1@[peer_idx(
                            pt@,
                            i as int,
                            j as int,
                            n,
                        )] & cs@ == 0 by {
                            let pn = peer_idx(pt@, i as int, j as int, n);
                            assert(gmid[pn] & cs@ == 0);
                            lemma_subset_absence(rec.1@[pn], gmid[pn], cs@);
                        }
                        assert(mask_count(gmid[cell_idx(i as int, j as int)]) <= 1);
                        assert(rec.1@[cell_idx(i as int, j as int)] == cs@);
                        assert forall|w: Seq<u16>| #[trigger] fits(w, g0@) implies fits(
                            w,
                            rec.1@,
                        ) by {
                            assert(fits(w, gmid));
                        }
                        if !rec.0 {
                            assert forall|w: Seq<u16>| !fits(w, g0@) by {
                                if fits(w, g0@) {
                                    assert(fits(w, gmid));
                                }
                            }
                        }
                    }
                    if !ok {
                        return (false, rec.1);
                    }
                    g = rec.1;
                    proof {
                        // restore the pending invariant across the recursion
                        assert forall|r: int, c: int|
                            0 <= r < 9 && 0 <= c < 9 && mask_count(
                                #[trigger] g@[cell_idx(r, c)],
                            ) <= 1 implies propagated_at(g@, r, c) || (r == i && c == j) || (
                        mask_count(g0@[cell_idx(r, c)]) <= 1 && !propagated_at(g0@, r, c)) by {
                            if !propagated_at(g@, r, c) {
                                // then the recursion left it pending, so it
                                // was already solved and unpropagated before
                                assert(mask_count(gmid[cell_idx(r, c)]) <= 1);
                                assert(!propagated_at(gmid, r, c));
                                if propagated_at(gpre, r, c) && cell_idx(r, c) != pidx {
                                    lemma_prop_monotone(gpre, gmid, r, c);
                                }
                            }
                        }
                        assert(grid_weight(g@) <= grid_weight(g0@)) by {
                            lemma_weight_le(g0@, g@, 81);
                        }
                    }
                } else {
                    // no newly solved peer: nothing to recurse into, and the
                    // set of solved cells is unchanged
                    proof {
                        assert forall|r: int, c: int|
                            0 <= r < 9 && 0 <= c < 9 && mask_count(
                                #[trigger] g@[cell_idx(r, c)],
                            ) <= 1 implies propagated_at(g@, r, c) || (r == i && c == j) || (
                        mask_count(g0@[cell_idx(r, c)]) <= 1 && !propagated_at(g0@, r, c)) by {
                            assert(cell_idx(r, c) != pidx);
                            assert(g@[cell_idx(r, c)] == gpre[cell_idx(r, c)]);
                            if propagated_at(gpre, r, c) {
                                lemma_prop_monotone(gpre, g@, r, c);
                            }
                        }
                    }
                }
            } else {
                proof {
                    // a solved peer that differs holds a different single
                    // digit, so the two cells are already disjoint
                    crate::candidates::lemma_eq_view(pcell, cs);
                    crate::candidates::lemma_count_bounds(g@[pidx]);
                    lemma_single_disjoint(g@[pidx], cs@);
                    assert forall|n: int| 0 <= n < k + 1 implies #[trigger] g@[peer_idx(
                        pt@,
                        i as int,
                        j as int,
                        n,
                    )] & cs@ == 0 by {}
                }
            }
            k += 1;
        }
        proof {
            // all 20 peers processed: the cell itself is now propagated
            assert forall|r2: int, c2: int|
                #[trigger] is_peer(i as int, j as int, r2, c2) implies g@[cell_idx(r2, c2)]
                & g@[cell_idx(i as int, j as int)] == 0 by {
                let n = choose|n: int|
                    0 <= n < 20 && #[trigger] peer_at(pt@, i as int, j as int, n) == (
                    r2 as u8,
                    c2 as u8,
                );
                assert(g@[peer_idx(pt@, i as int, j as int, n)] & cs@ == 0);
                assert(peer_idx(pt@, i as int, j as int, n) == cell_idx(r2, c2));
            }
            assert(propagated_at(g@, i as int, j as int));
        }
        (true, g)
    }

    /// Pick the cell to branch on: the first cell with exactly two
    /// candidates if one exists, otherwise a cell with the fewest
    /// candidates above one; also collect the earliest undetermined row
    /// and column as the triplex hint.  When every cell is determined the
    /// returned cell reports done.
    fn next_least_unsolved(g: &Board) -> (res: (usize, usize, Candidates, Hint))
        requires
            grid_ok(g@),
        ensures
            res.0 < 9,
            res.1 < 9,
            res.2@ == g@[cell_idx(res.0 as int, res.1 as int)],
            mask_count(res.2@) <= 1 ==> all_done(g@),
            // if some cell has exactly two candidates, the row-major-first
            // such cell is returned at once
            has_pair(g@) ==> mask_count(res.2@) == 2 && forall|r: int, c: int|
                0 <= r < 9 && 0 <= c < 9 && 9 * r + c < 9 * res.0 + res.1 ==> mask_count(
                    #[trigger] g@[cell_idx(r, c)],
                ) != 2,
            // otherwise the row-major-first cell attaining the minimum
            // cardinality among undetermined cells is returned
            !has_pair(g@) && !all_done(g@) ==> mask_count(res.2@) >= 2 && (forall|r: int, c: int|
                0 <= r < 9 && 0 <= c < 9 && mask_count(#[trigger] g@[cell_idx(r, c)]) >= 2
                    ==> mask_count(res.2@) <= mask_count(g@[cell_idx(r, c)])) && (forall|
                r: int,
                c: int,
            |
                0 <= r < 9 && 0 <= c < 9 && 9 * r + c < 9 * res.0 + res.1 ==> mask_count(
                    #[trigger] g@[cell_idx(r, c)],
                ) <= 1 || mask_count(g@[cell_idx(r, c)]) > mask_count(res.2@)),
            // the hint names the earliest row holding an undetermined
            // cell, 10 if there is none
            (res.3.first_unsolved_row == 10) == all_done(g@),
            res.3.first_unsolved_row < 10 ==> res.3.first_unsolved_row < 9 && (exists|c: int|
                0 <= c < 9 && mask_count(
                    #[trigger] g@[cell_idx(res.3.first_unsolved_row as int, c)],
                ) >= 2) && (forall|r: int, c: int|
                0 <= r < 9 && 0 <= c < 9 && r < res.3.first_unsolved_row ==> mask_count(
                    #[trigger] g@[cell_idx(r, c)],
                ) <= 1),
            // the hinted column holds an undetermined cell; when no
            // two-candidate cell cuts the scan short it is the earliest
            // such column
            (res.3.first_unsolved_col == 10) == all_done(g@),
            res.3.first_unsolved_col < 10 ==> res.3.first_unsolved_col < 9 && (exists|r: int|
                0 <= r < 9 && mask_count(
                    #[trigger] g@[cell_idx(r, res.3.first_unsolved_col as int)],
                ) >= 2),
            !has_pair(g@) ==> forall|r: int, c: int|
                0 <= r < 9 && 0 <= c < 9 && mask_count(#[trigger] g@[cell_idx(r, c)]) >= 2
                    ==> res.3.first_unsolved_col <= c,
    {
        let mut min_row: usize = 0;
        let mut min_col: usize = 0;
        let mut min_len: usize = 10;
        let mut hint = Hint { first_unsolved_row: 10, first_unsolved_col: 10 };
        let mut row: usize = 0;
        while row < 9
            invariant
                grid_ok(g@),
                row <= 9,
                min_len == 10 || (2 <= min_len && min_row < 9 && min_col < 9 && mask_count(
                    g@[cell_idx(min_row as int, min_col as int)],
                ) == min_len && 9 * min_row + min_col < 9 * row),
                min_len == 10 ==> min_row == 0 && min_col == 0,
                min_len == 10 ==> forall|r: int, c: int|
                    0 <= r < 9 && 0 <= c < 9 && 9 * r + c < 9 * row ==> mask_count(
                        #[trigger] g@[cell_idx(r, c)],
                    ) <= 1,
                forall|r: int, c: int|
                    0 <= r < 9 && 0 <= c < 9 && 9 * r + c < 9 * row ==> mask_count(
                        #[trigger] g@[cell_idx(r, c)],
                    ) != 2,
                forall|r: int, c: int|
                    0 <= r < 9 && 0 <= c < 9 && 9 * r + c < 9 * row ==> mask_count(
                        #[trigger] g@[cell_idx(r, c)],
                    ) <= 1 || mask_count(g@[cell_idx(r, c)]) >= min_len,
                forall|r: int, c: int|
                    0 <= r < 9 && 0 <= c < 9 && 9 * r + c < 9 * min_row + min_col ==> mask_count(
                        #[trigger] g@[cell_idx(r, c)],
                    ) <= 1 || mask_count(g@[cell_idx(r, c)]) > min_len,
                hint.first_unsolved_row <= 10,
                hint.first_unsolved_col <= 10,
                (hint.first_unsolved_row == 10) == (min_len == 10),
                (hint.first_unsolved_col == 10) == (min_len == 10),
                hint.first_unsolved_row < 10 ==> hint.first_unsolved_row < 9
                    && hint.first_unsolved_row <= row && (exists|c: int|
                    0 <= c < 9 && mask_count(
                        #[trigger] g@[cell_idx(hint.first_unsolved_row as int, c)],
                    ) >= 2) && (forall|r: int, c: int|
                    0 <= r < 9 && 0 <= c < 9 && r < hint.first_unsolved_row ==> mask_count(
                        #[trigger] g@[cell_idx(r, c)],
                    ) <= 1),
                hint.first_unsolved_col < 10 ==> hint.first_unsolved_col < 9 && (exists|r: int|
                    0 <= r < 9 && mask_count(
                        #[trigger] g@[cell_idx(r, hint.first_unsolved_col as int)],
                    ) >= 2),
                forall|r: int, c: int|
                    0 <= r < 9 && 0 <= c < 9 && 9 * r + c < 9 * row && mask_count(
                        #[trigger] g@[cell_idx(r, c)],
                    ) >= 2 ==> hint.first_unsolved_col <= c,
            decreases 9 - row,
        {
            let mut col: usize = 0;
            while col < 9
                invariant
                    grid_ok(g@),
                    row < 9,
                    col <= 9,
                    min_len == 10 || (2 <= min_len && min_row < 9 && min_col < 9 && mask_count(
                        g@[cell_idx(min_row as int, min_col as int)],
                    ) == min_len && 9 * min_row + min_col < 9 * row + col),
                    min_len == 10 ==> min_row == 0 && min_col == 0,
                    min_len == 10 ==> forall|r: int, c: int|
                        0 <= r < 9 && 0 <= c < 9 && 9 * r + c < 9 * row + col ==> mask_count(
                            #[trigger] g@[cell_idx(r, c)],
                        ) <= 1,
                    forall|r: int, c: int|
                        0 <= r < 9 && 0 <= c < 9 && 9 * r + c < 9 * row + col ==> mask_count(
                            #[trigger] g@[cell_idx(r, c)],
                        ) != 2,
                    forall|r: int, c: int|
                        0 <= r < 9 && 0 <= c < 9 && 9 * r + c < 9 * row + col ==> mask_count(
                            #[trigger] g@[cell_idx(r, c)],
                        ) <= 1 || mask_count(g@[cell_idx(r, c)]) >= min_len,
                    forall|r: int, c: int|
                        0 <= r < 9 && 0 <= c < 9 && 9 * r + c < 9 * min_row + min_col
                            ==> mask_count(#[trigger] g@[cell_idx(r, c)]) <= 1 || mask_count(
                            g@[cell_idx(r, c)],
                        ) > min_len,
                    hint.first_unsolved_row <= 10,
                    hint.first_unsolved_col <= 10,
                    (hint.first_unsolved_row == 10) == (min_len == 10),
                    (hint.first_unsolved_col == 10) == (min_len == 10),
                    hint.first_unsolved_row < 10 ==> hint.first_unsolved_row < 9
                        && hint.first_unsolved_row <= row && (exists|c: int|
                        0 <= c < 9 && mask_count(
                            #[trigger] g@[cell_idx(hint.first_unsolved_row as int, c)],
                        ) >= 2) && (forall|r: int, c: int|
                        0 <= r < 9 && 0 <= c < 9 && r < hint.first_unsolved_row ==> mask_count(
                            #[trigger] g@[cell_idx(r, c)],
                        ) <= 1),
                    hint.first_unsolved_col < 10 ==> hint.first_unsolved_col < 9 && (exists|
                        r: int,
                    |
                        0 <= r < 9 && mask_count(
                            #[trigger] g@[cell_idx(r, hint.first_unsolved_col as int)],
                        ) >= 2),
                    forall|r: int, c: int|
                        0 <= r < 9 && 0 <= c < 9 && 9 * r + c < 9 * row + col && mask_count(
                            #[trigger] g@[cell_idx(r, c)],
                        ) >= 2 ==> hint.first_unsolved_col <= c,
                decreases 9 - col,
            {
                let ca = g.cell(row, col);
                let l = ca.len();
                proof {
                    crate::candidates::lemma_count_small(g@[cell_idx(row as int, col as int)]);
                }
                if l == 2 {
                    let ghost hr0 = hint.first_unsolved_row as int;
                    if row < hint.first_unsolved_row {
                        hint.first_unsolved_row = row;
                    }
                    if col < hint.first_unsolved_col {
                        hint.first_unsolved_col = col;
                    }
                    proof {
                        assert(has_pair(g@));
                        assert(!all_done(g@)) by {
                            assert(mask_count(g@[cell_idx(row as int, col as int)]) == 2);
                        }
                        assert(mask_count(g@[cell_idx(row as int, col as int)]) >= 2);
                        assert forall|r: int, c: int|
                            0 <= r < 9 && 0 <= c < 9 && r < hint.first_unsolved_row
                            implies mask_count(#[trigger] g@[cell_idx(r, c)]) <= 1 by {
                            if hr0 == 10 {
                                assert(min_len == 10);
                                assert(r < row);
                                assert(9 * r + c < 9 * row + col);
                                assert(mask_count(g@[cell_idx(r, c)]) <= 1);
                            } else {
                                assert(hint.first_unsolved_row == hr0);
                                assert(r < hr0);
                            }
                        }
                    }
                    return (row, col, ca, hint);
                } else if l > 1 {
                    let ghost hr0 = hint.first_unsolved_row as int;
                    if row < hint.first_unsolved_row {
                        hint.first_unsolved_row = row;
                    }
                    if col < hint.first_unsolved_col {
                        hint.first_unsolved_col = col;
                    }
                    proof {
                        assert(mask_count(g@[cell_idx(row as int, col as int)]) >= 2);
                        assert forall|r: int, c: int|
                            0 <= r < 9 && 0 <= c < 9 && r < hint.first_unsolved_row
                            implies mask_count(#[trigger] g@[cell_idx(r, c)]) <= 1 by {
                            if hr0 == 10 {
                                assert(min_len == 10);
                                assert(r < row);
                                assert(9 * r + c < 9 * row + col);
                                assert(mask_count(g@[cell_idx(r, c)]) <= 1);
                            } else {
                                assert(hint.first_unsolved_row == hr0);
                                assert(r < hr0);
                            }
                        }
                    }
                    if l < min_len {
                        min_row = row;
                        min_col = col;
                        min_len = l;
                    }
                }
                proof {
                    assert forall|r: int, c: int|
                        0 <= r < 9 && 0 <= c < 9 && 9 * r + c < 9 * row + col + 1
                        implies mask_count(#[trigger] g@[cell_idx(r, c)]) != 2 by {
                        if 9 * r + c == 9 * row + col {
                            assert(r == row && c == col);
                        }
                    }
                    assert forall|r: int, c: int|
                        0 <= r < 9 && 0 <= c < 9 && 9 * r + c < 9 * row + col + 1
                        implies mask_count(#[trigger] g@[cell_idx(r, c)]) <= 1 || mask_count(
                        g@[cell_idx(r, c)],
                    ) >= min_len by {
                        if 9 * r + c == 9 * row + col {
                            assert(r == row && c == col);
                        }
                    }
                    assert forall|r: int, c: int|
                        0 <= r < 9 && 0 <= c < 9 && 9 * r + c < 9 * row + col + 1 && mask_count(
                            #[trigger] g@[cell_idx(r, c)],
                        ) >= 2 implies hint.first_unsolved_col <= c by {
                        if 9 * r + c == 9 * row + col {
                            assert(r == row && c == col);
                        }
                    }
                    if min_len == 10 {
                        assert forall|r: int, c: int|
                            0 <= r < 9 && 0 <= c < 9 && 9 * r + c < 9 * row + col + 1
                            implies mask_count(#[trigger] g@[cell_idx(r, c)]) <= 1 by {
                            if 9 * r + c == 9 * row + col {
                                assert(r == row && c == col);
                            }
                        }
                    }
                }
                col += 1;
            }
            row += 1;
        }
        proof {
            if min_len == 10 {
                assert forall|k: int| 0 <= k < 81 implies mask_count(#[trigger] g@[k]) <= 1 by {
                    let r = k / 9;
                    let c = k % 9;
                    assert(0 <= r < 9 && 0 <= c < 9);
                    assert(cell_idx(r, c) == k);
                    assert(mask_count(g@[cell_idx(r, c)]) <= 1);
                }
                assert(!has_pair(g@)) by {
                    if has_pair(g@) {
                        let (r, c) = choose|r: int, c: int|
                            0 <= r < 9 && 0 <= c < 9 && mask_count(
                                #[trigger] g@[cell_idx(r, c)],
                            ) == 2;
                        assert(mask_count(g@[cell_idx(r, c)]) <= 1);
                    }
                }
            } else {
                assert(!has_pair(g@)) by {
                    if has_pair(g@) {
                        let (r, c) = choose|r: int, c: int|
                            0 <= r < 9 && 0 <= c < 9 && mask_count(
                                #[trigger] g@[cell_idx(r, c)],
                            ) == 2;
                        assert(mask_count(g@[cell_idx(r, c)]) != 2);
                    }
                }
                assert(!all_done(g@)) by {
                    assert(mask_count(g@[cell_idx(min_row as int, min_col as int)]) >= 2);
                }
            }
        }
        (min_row, min_col, g.cell(min_row, min_col), hint)
    }

    /// Remove the digits of `rc` from the cell at (`row`, `col`): fail on
    /// an emptied cell, leave an unaffected cell alone, and propagate from
    /// the cell if the removal just solved it.  The caller warrants that
    /// no compatible assignment puts a digit of `rc` in this cell, so the
    /// removal keeps every such assignment and a failure refutes them all.
    fn eliminate_multi(pt: &Vec<(u8, u8)>, b: Board, row: usize, col: usize, rc: Candidates) -> (res:
        (bool, Board))
        requires
            peer_table_ok(pt@),
            row < 9,
            col < 9,
            grid_ok(b@),
            fully_propagated(b@),
            forall|w: Seq<u16>| #[trigger] fits(w, b@) ==> w[cell_idx(row as int, col as int)]
                & rc@ == 0,
        ensures
            grid_ok(res.1@),
            narrowed(b@, res.1@),
            res.0 ==> fully_propagated(res.1@),
            forall|w: Seq<u16>| #[trigger] fits(w, b@) ==> fits(w, res.1@),
            !res.0 ==> forall|w: Seq<u16>| !fits(w, b@),
            res.0 ==> res.1@[cell_idx(row as int, col as int)] & rc@ == 0,
            b@[cell_idx(row as int, col as int)] & !rc@ == 0 ==> !res.0 && res.1@ == b@,
            b@[cell_idx(row as int, col as int)] & rc@ == 0 ==> res.0 && res.1@ == b@,
    {
        let ghost idx = cell_idx(row as int, col as int);
        let mut ca = b.cell(row, col);
        ca.substract(&rc);
        proof {
            lemma_narrowed_refl(b@);
            lemma_and_not(b@[idx], rc@);
            // a compatible assignment keeps its digit here even after the
            // removal
            assert forall|w: Seq<u16>| #[trigger] fits(w, b@) implies mask_subset(
                w[idx],
                ca@,
            ) by {
                crate::candidates::lemma_subset_minus(w[idx], b@[idx], rc@);
            }
        }
        if !ca.is_valid() {
            proof {
                assert forall|w: Seq<u16>| !fits(w, b@) by {
                    if fits(w, b@) {
                        let x = w[idx];
                        assert(mask_subset(x, ca@));
                        assert(x == 0) by (bit_vector)
                            requires
                                x & 0 == x,
                        ;
                        crate::candidates::lemma_count_bounds(x);
                    }
                }
            }
            return (false, b);
        }
        let cur = b.cell(row, col);
        if ca == cur {
            // the cell already lacked every digit of `rc`
            proof {
                crate::candidates::lemma_eq_view(ca, cur);
            }
            return (true, b);
        }
        proof {
            crate::candidates::lemma_eq_view(ca, cur);
        }
        let mut g = b;
        g.set_cell(row, col, ca);
        proof {
            crate::candidates::lemma_count_bounds(ca@);
            lemma_subset_small(ca@, b@[idx]);
            assert forall|n: int| 0 <= n < 81 implies mask_subset(#[trigger] g@[n], b@[n]) by {
                if n != idx {
                    lemma_subset_refl(g@[n]);
                }
            }
            assert(narrowed(b@, g@));
            // solved cells other than this one keep their values and stay
            // propagated
            assert forall|r: int, c: int|
                0 <= r < 9 && 0 <= c < 9 && mask_count(#[trigger] g@[cell_idx(r, c)]) <= 1 && !(r
                    == row && c == col) implies propagated_at(g@, r, c) by {
                assert(cell_idx(r, c) != idx);
                assert(g@[cell_idx(r, c)] == b@[cell_idx(r, c)]);
                lemma_prop_monotone(b@, g@, r, c);
            }
            // the removed digits were never part of a compatible
            // assignment's choice for this cell
            assert forall|w: Seq<u16>| #[trigger] fits(w, b@) implies fits(w, g@) by {
                assert(mask_subset(w[idx], ca@));
                assert forall|n: int|
                    0 <= n < 81 implies mask_count(#[trigger] w[n]) == 1 && mask_subset(
                    w[n],
                    g@[n],
                ) by {
                    if n != idx {
                        assert(g@[n] == b@[n]);
                    }
                }
            }
        }
        if ca.is_done() {
            let rec = Self::ripple(pt, g, row, col);
            proof {
                assert forall|n: int| 0 <= n < 81 implies mask_subset(
                    #[trigger] rec.1@[n],
                    b@[n],
                ) by {
                    lemma_subset_trans(rec.1@[n], g@[n], b@[n]);
                }
                assert(narrowed(b@, rec.1@));
                // the newly solved cell is frozen through the cascade, so
                // it still lacks every removed digit
                assert(mask_count(g@[idx]) <= 1);
                assert(rec.1@[idx] == g@[idx]);
                assert(rec.1@[idx] & rc@ == 0);
                assert forall|w: Seq<u16>| #[trigger] fits(w, b@) implies fits(w, rec.1@) by {
                    assert(fits(w, g@));
                }
                if !rec.0 {
                    assert forall|w: Seq<u16>| !fits(w, b@) by {
                        if fits(w, b@) {
                            assert(fits(w, g@));
                        }
                    }
                }
                if rec.0 {
                    assert forall|r: int, c: int|
                        0 <= r < 9 && 0 <= c < 9 && mask_count(
                            #[trigger] rec.1@[cell_idx(r, c)],
                        ) <= 1 implies propagated_at(rec.1@, r, c) by {
                        if !propagated_at(rec.1@, r, c) {
                            // the only solved-but-unpropagated cell of the
                            // updated board was this cell, and the ripple
                            // has just propagated it
                            assert(mask_count(g@[cell_idx(r, c)]) <= 1);
                            assert(!propagated_at(g@, r, c));
                            assert(!(r == row && c == col));
                        }
                    }
                }
            }
            (rec.0, rec.1)
        } else {
            proof {
                assert(g@[idx] & rc@ == 0);
            }
            (true, g)
        }
    }

    /// Remove the triple's three digits from every cell of the row outside
    /// the triple's own three-cell span.  The caller warrants that any
    /// compatible assignment spends exactly those three digits on the
    /// triple's cells, so no cell of the rest of the row may hold one.
    fn triplex_ripple_row(pt: &Vec<(u8, u8)>, b: Board, row: usize, g: usize, uc: Candidates) -> (res:
        (bool, Board))
        requires
            peer_table_ok(pt@),
            row < 9,
            g <= 6,
            grid_ok(b@),
            fully_propagated(b@),
            forall|w: Seq<u16>| #[trigger] fits(w, b@) ==> (w[cell_idx(row as int, g as int)] | w[
                cell_idx(row as int, g as int + 1)] | w[cell_idx(row as int, g as int + 2)])
                == uc@,
        ensures
            grid_ok(res.1@),
            narrowed(b@, res.1@),
            res.0 ==> fully_propagated(res.1@),
            forall|w: Seq<u16>| #[trigger] fits(w, b@) ==> fits(w, res.1@),
            !res.0 ==> forall|w: Seq<u16>| !fits(w, b@),
            res.0 ==> forall|c2: int|
                0 <= c2 < 9 && !(g <= c2 < g + 3) ==> (#[trigger] res.1@[cell_idx(
                    row as int,
                    c2,
                )]) & uc@ == 0,
    {
        let mut cur = b;
        let mut c: usize = 0;
        proof {
            lemma_narrowed_refl(b@);
        }
        while c < 9
            invariant
                peer_table_ok(pt@),
                row < 9,
                g <= 6,
                c <= 9,
                grid_ok(cur@),
                narrowed(b@, cur@),
                fully_propagated(cur@),
                forall|w: Seq<u16>| #[trigger] fits(w, b@) ==> (w[cell_idx(row as int, g as int)]
                    | w[cell_idx(row as int, g as int + 1)] | w[cell_idx(
                    row as int,
                    g as int + 2,
                )]) == uc@,
                forall|w: Seq<u16>| #[trigger] fits(w, b@) ==> fits(w, cur@),
                forall|c2: int|
                    0 <= c2 < c && !(g <= c2 < g + 3) ==> (#[trigger] cur@[cell_idx(
                        row as int,
                        c2,
                    )]) & uc@ == 0,
            decreases 9 - c,
        {
            if !(g <= c && c < g + 3) {
                proof {
                    assert forall|w: Seq<u16>| #[trigger] fits(w, cur@) implies w[cell_idx(
                        row as int,
                        c as int,
                    )] & uc@ == 0 by {
                        lemma_fits_widen(w, b@, cur@);
                        let t1 = w[cell_idx(row as int, g as int)];
                        let t2 = w[cell_idx(row as int, g as int + 1)];
                        let t3 = w[cell_idx(row as int, g as int + 2)];
                        let d = w[cell_idx(row as int, c as int)];
                        assert(is_peer(row as int, c as int, row as int, g as int));
                        assert(is_peer(row as int, c as int, row as int, g as int + 1));
                        assert(is_peer(row as int, c as int, row as int, g as int + 2));
                        crate::candidates::lemma_disjoint_or3(d, t1, t2, t3);
                    }
                }
                let step = Self::eliminate_multi(pt, cur, row, c, uc);
                proof {
                    lemma_narrowed_trans(b@, cur@, step.1@);
                    assert forall|w: Seq<u16>| #[trigger] fits(w, b@) implies fits(
                        w,
                        step.1@,
                    ) by {
                        assert(fits(w, cur@));
                    }
                    if !step.0 {
                        assert forall|w: Seq<u16>| !fits(w, b@) by {
                            if fits(w, b@) {
                                assert(fits(w, cur@));
                            }
                        }
                    } else {
                        // this cell now lacks the union's digits, and the
                        // earlier cells keep lacking them as they shrink
                        assert forall|c2: int|
                            0 <= c2 < c + 1 && !(g <= c2 < g + 3) implies (
                        #[trigger] step.1@[cell_idx(row as int, c2)]) & uc@ == 0 by {
                            if c2 < c {
                                lemma_subset_absence(
                                    step.1@[cell_idx(row as int, c2)],
                                    cur@[cell_idx(row as int, c2)],
                                    uc@,
                                );
                            }
                        }
                    }
                }
                if !step.0 {
                    return (false, step.1);
                }
                cur = step.1;
            }
            c += 1;
        }
        (true, cur)
    }

    /// Remove the triple's three digits from every cell of the column
    /// outside the triple's own three-cell span, under the same warrant
    /// as the row pass.
    fn triplex_ripple_col(pt: &Vec<(u8, u8)>, b: Board, row: usize, col: usize, uc: Candidates) -> (res:
        (bool, Board))
        requires
            peer_table_ok(pt@),
            row <= 6,
            col < 9,
            grid_ok(b@),
            fully_propagated(b@),
            forall|w: Seq<u16>| #[trigger] fits(w, b@) ==> (w[cell_idx(row as int, col as int)]
                | w[cell_idx(row as int + 1, col as int)] | w[cell_idx(
                row as int + 2,
                col as int,
            )]) == uc@,
        ensures
            grid_ok(res.1@),
            narrowed(b@, res.1@),
            res.0 ==> fully_propagated(res.1@),
            forall|w: Seq<u16>| #[trigger] fits(w, b@) ==> fits(w, res.1@),
            !res.0 ==> forall|w: Seq<u16>| !fits(w, b@),
            res.0 ==> forall|r2: int|
                0 <= r2 < 9 && !(row <= r2 < row + 3) ==> (#[trigger] res.1@[cell_idx(
                    r2,
                    col as int,
                )]) & uc@ == 0,
    {
        let mut cur = b;
        let mut r: usize = 0;
        proof {
            lemma_narrowed_refl(b@);
        }
        while r < 9
            invariant
                peer_table_ok(pt@),
                row <= 6,
                col < 9,
                r <= 9,
                grid_ok(cur@),
                narrowed(b@, cur@),
                fully_propagated(cur@),
                forall|w: Seq<u16>| #[trigger] fits(w, b@) ==> (w[cell_idx(
                    row as int,
                    col as int,
                )] | w[cell_idx(row as int + 1, col as int)] | w[cell_idx(
                    row as int + 2,
                    col as int,
                )]) == uc@,
                forall|w: Seq<u16>| #[trigger] fits(w, b@) ==> fits(w, cur@),
                forall|r2: int|
                    0 <= r2 < r && !(row <= r2 < row + 3) ==> (#[trigger] cur@[cell_idx(
                        r2,
                        col as int,
                    )]) & uc@ == 0,
            decreases 9 - r,
        {
            if !(row <= r && r < row + 3) {
                proof {
                    assert forall|w: Seq<u16>| #[trigger] fits(w, cur@) implies w[cell_idx(
                        r as int,
                        col as int,
                    )] & uc@ == 0 by {
                        lemma_fits_widen(w, b@, cur@);
                        let t1 = w[cell_idx(row as int, col as int)];
                        let t2 = w[cell_idx(row as int + 1, col as int)];
                        let t3 = w[cell_idx(row as int + 2, col as int)];
                        let d = w[cell_idx(r as int, col as int)];
                        assert(is_peer(r as int, col as int, row as int, col as int));
                        assert(is_peer(r as int, col as int, row as int + 1, col as int));
                        assert(is_peer(r as int, col as int, row as int + 2, col as int));
                        crate::candidates::lemma_disjoint_or3(d, t1, t2, t3);
                    }
                }
                let step = Self::eliminate_multi(pt, cur, r, col, uc);
                proof {
                    lemma_narrowed_trans(b@, cur@, step.1@);
                    assert forall|w: Seq<u16>| #[trigger] fits(w, b@) implies fits(
                        w,
                        step.1@,
                    ) by {
                        assert(fits(w, cur@));
                    }
                    if !step.0 {
                        assert forall|w: Seq<u16>| !fits(w, b@) by {
                            if fits(w, b@) {
                                assert(fits(w, cur@));
                            }
                        }
                    } else {
                        assert forall|r2: int|
                            0 <= r2 < r + 1 && !(row <= r2 < row + 3) implies (
                        #[trigger] step.1@[cell_idx(r2, col as int)]) & uc@ == 0 by {
                            if r2 < r {
                                lemma_subset_absence(
                                    step.1@[cell_idx(r2, col as int)],
                                    cur@[cell_idx(r2, col as int)],
                                    uc@,
                                );
                            }
                        }
                    }
                }
                if !step.0 {
                    return (false, step.1);
                }
                cur = step.1;
            }
            r += 1;
        }
        (true, cur)
    }

    /// Remove the triple's three digits from the six cells of its 3x3
    /// block outside the triple's own row, under the same warrant as the
    /// row pass.
    fn triplex_ripple_row_block(
        pt: &Vec<(u8, u8)>,
        b: Board,
        row: usize,
        col: usize,
        uc: Candidates,
    ) -> (res: (bool, Board))
        requires
            peer_table_ok(pt@),
            row < 9,
            col <= 6,
            col % 3 == 0,
            grid_ok(b@),
            fully_propagated(b@),
            forall|w: Seq<u16>| #[trigger] fits(w, b@) ==> (w[cell_idx(row as int, col as int)]
                | w[cell_idx(row as int, col as int + 1)] | w[cell_idx(
                row as int,
                col as int + 2,
            )]) == uc@,
        ensures
            grid_ok(res.1@),
            narrowed(b@, res.1@),
            res.0 ==> fully_propagated(res.1@),
            forall|w: Seq<u16>| #[trigger] fits(w, b@) ==> fits(w, res.1@),
            !res.0 ==> forall|w: Seq<u16>| !fits(w, b@),
            res.0 ==> forall|r2: int, c2: int|
                row as int / 3 * 3 <= r2 < row as int / 3 * 3 + 3 && r2 != row && col <= c2 < col
                    + 3 ==> (#[trigger] res.1@[cell_idx(r2, c2)]) & uc@ == 0,
    {
        let row_start = row / 3 * 3;
        let mut cur = b;
        let mut r: usize = row_start;
        proof {
            lemma_narrowed_refl(b@);
        }
        while r < row_start + 3
            invariant
                peer_table_ok(pt@),
                row < 9,
                col <= 6,
                col % 3 == 0,
                row_start == row / 3 * 3,
                row_start <= r <= row_start + 3,
                grid_ok(cur@),
                narrowed(b@, cur@),
                fully_propagated(cur@),
                forall|w: Seq<u16>| #[trigger] fits(w, b@) ==> (w[cell_idx(
                    row as int,
                    col as int,
                )] | w[cell_idx(row as int, col as int + 1)] | w[cell_idx(
                    row as int,
                    col as int + 2,
                )]) == uc@,
                forall|w: Seq<u16>| #[trigger] fits(w, b@) ==> fits(w, cur@),
                forall|r2: int, c2: int|
                    row_start <= r2 < r && r2 != row && col <= c2 < col + 3 ==> (
                    #[trigger] cur@[cell_idx(r2, c2)]) & uc@ == 0,
            decreases row_start + 3 - r,
        {
            let mut c: usize = col;
            while c < col + 3
                invariant
                    peer_table_ok(pt@),
                    row < 9,
                    col <= 6,
                    col % 3 == 0,
                    row_start == row / 3 * 3,
                    row_start <= r < row_start + 3,
                    col <= c <= col + 3,
                    grid_ok(cur@),
                    narrowed(b@, cur@),
                    fully_propagated(cur@),
                    forall|w: Seq<u16>| #[trigger] fits(w, b@) ==> (w[cell_idx(
                        row as int,
                        col as int,
                    )] | w[cell_idx(row as int, col as int + 1)] | w[cell_idx(
                        row as int,
                        col as int + 2,
                    )]) == uc@,
                    forall|w: Seq<u16>| #[trigger] fits(w, b@) ==> fits(w, cur@),
                    forall|r2: int, c2: int|
                        row_start <= r2 < r && r2 != row && col <= c2 < col + 3 ==> (
                        #[trigger] cur@[cell_idx(r2, c2)]) & uc@ == 0,
                    forall|c2: int|
                        col <= c2 < c && r != row ==> (#[trigger] cur@[cell_idx(
                            r as int,
                            c2,
                        )]) & uc@ == 0,
                decreases col + 3 - c,
            {
                if r != row {
                    proof {
                        assert forall|w: Seq<u16>| #[trigger] fits(w, cur@) implies w[cell_idx(
                            r as int,
                            c as int,
                        )] & uc@ == 0 by {
                            lemma_fits_widen(w, b@, cur@);
                            let t1 = w[cell_idx(row as int, col as int)];
                            let t2 = w[cell_idx(row as int, col as int + 1)];
                            let t3 = w[cell_idx(row as int, col as int + 2)];
                            let d = w[cell_idx(r as int, c as int)];
                            assert(is_peer(r as int, c as int, row as int, col as int));
                            assert(is_peer(r as int, c as int, row as int, col as int + 1));
                            assert(is_peer(r as int, c as int, row as int, col as int + 2));
                            crate::candidates::lemma_disjoint_or3(d, t1, t2, t3);
                        }
                    }
                    let step = Self::eliminate_multi(pt, cur, r, c, uc);
                    proof {
                        lemma_narrowed_trans(b@, cur@, step.1@);
                        assert forall|w: Seq<u16>| #[trigger] fits(w, b@) implies fits(
                            w,
                            step.1@,
                        ) by {
                            assert(fits(w, cur@));
                        }
                        if !step.0 {
                            assert forall|w: Seq<u16>| !fits(w, b@) by {
                                if fits(w, b@) {
                                    assert(fits(w, cur@));
                                }
                            }
                        } else {
                            assert forall|r2: int, c2: int|
                                row_start <= r2 < r && r2 != row && col <= c2 < col + 3 implies (
                            #[trigger] step.1@[cell_idx(r2, c2)]) & uc@ == 0 by {
                                lemma_subset_absence(
                                    step.1@[cell_idx(r2, c2)],
                                    cur@[cell_idx(r2, c2)],
                                    uc@,
                                );
                            }
                            assert forall|c2: int|
                                col <= c2 < c + 1 && r != row implies (
                            #[trigger] step.1@[cell_idx(r as int, c2)]) & uc@ == 0 by {
                                if c2 < c {
                                    lemma_subset_absence(
                                        step.1@[cell_idx(r as int, c2)],
                                        cur@[cell_idx(r as int, c2)],
                                        uc@,
                                    );
                                }
                            }
                        }
                    }
                    if !step.0 {
                        return (false, step.1);
                    }
                    cur = step.1;
                }
                c += 1;
            }
            proof {
                // the finished row folds into the block region
                assert forall|r2: int, c2: int|
                    row_start <= r2 < r + 1 && r2 != row && col <= c2 < col + 3 implies (
                #[trigger] cur@[cell_idx(r2, c2)]) & uc@ == 0 by {
                    if r2 == r {
                        assert(cur@[cell_idx(r as int, c2)] & uc@ == 0);
                    }
                }
            }
            r += 1;
        }
        (true, cur)
    }

    /// Remove the triple's three digits from the six cells of its 3x3
    /// block outside the triple's own column, under the same warrant as
    /// the column pass.
    fn triplex_ripple_col_block(
        pt: &Vec<(u8, u8)>,
        b: Board,
        row: usize,
        col: usize,
        uc: Candidates,
    ) -> (res: (bool, Board))
        requires
            peer_table_ok(pt@),
            row <= 6,
            row % 3 == 0,
            col < 9,
            grid_ok(b@),
            fully_propagated(b@),
            forall|w: Seq<u16>| #[trigger] fits(w, b@) ==> (w[cell_idx(row as int, col as int)]
                | w[cell_idx(row as int + 1, col as int)] | w[cell_idx(
                row as int + 2,
                col as int,
            )]) == uc@,
        ensures
            grid_ok(res.1@),
            narrowed(b@, res.1@),
            res.0 ==> fully_propagated(res.1@),
            forall|w: Seq<u16>| #[trigger] fits(w, b@) ==> fits(w, res.1@),
            !res.0 ==> forall|w: Seq<u16>| !fits(w, b@),
            res.0 ==> forall|r2: int, c2: int|
                row <= r2 < row + 3 && col as int / 3 * 3 <= c2 < col as int / 3 * 3 + 3 && c2
                    != col ==> (#[trigger] res.1@[cell_idx(r2, c2)]) & uc@ == 0,
    {
        let col_start = col / 3 * 3;
        let mut cur = b;
        let mut r: usize = row;
        proof {
            lemma_narrowed_refl(b@);
        }
        while r < row + 3
            invariant
                peer_table_ok(pt@),
                row <= 6,
                row % 3 == 0,
                col < 9,
                col_start == col / 3 * 3,
                row <= r <= row + 3,
                grid_ok(cur@),
                narrowed(b@, cur@),
                fully_propagated(cur@),
                forall|w: Seq<u16>| #[trigger] fits(w, b@) ==> (w[cell_idx(
                    row as int,
                    col as int,
                )] | w[cell_idx(row as int + 1, col as int)] | w[cell_idx(
                    row as int + 2,
                    col as int,
                )]) == uc@,
                forall|w: Seq<u16>| #[trigger] fits(w, b@) ==> fits(w, cur@),
                forall|r2: int, c2: int|
                    row <= r2 < r && col_start <= c2 < col_start + 3 && c2 != col ==> (
                    #[trigger] cur@[cell_idx(r2, c2)]) & uc@ == 0,
            decreases row + 3 - r,
        {
            let mut c: usize = col_start;
            while c < col_start + 3
                invariant
                    peer_table_ok(pt@),
                    row <= 6,
                    row % 3 == 0,
                    col < 9,
                    col_start == col / 3 * 3,
                    row <= r < row + 3,
                    col_start <= c <= col_start + 3,
                    grid_ok(cur@),
                    narrowed(b@, cur@),
                    fully_propagated(cur@),
                    forall|w: Seq<u16>| #[trigger] fits(w, b@) ==> (w[cell_idx(
                        row as int,
                        col as int,
                    )] | w[cell_idx(row as int + 1, col as int)] | w[cell_idx(
                        row as int + 2,
                        col as int,
                    )]) == uc@,
                    forall|w: Seq<u16>| #[trigger] fits(w, b@) ==> fits(w, cur@),
                    forall|r2: int, c2: int|
                        row <= r2 < r && col_start <= c2 < col_start + 3 && c2 != col ==> (
                        #[trigger] cur@[cell_idx(r2, c2)]) & uc@ == 0,
                    forall|c2: int|
                        col_start <= c2 < c && c2 != col ==> (#[trigger] cur@[cell_idx(
                            r as int,
                            c2,
                        )]) & uc@ == 0,
                decreases col_start + 3 - c,
            {
                if c != col {
                    proof {
                        assert forall|w: Seq<u16>| #[trigger] fits(w, cur@) implies w[cell_idx(
                            r as int,
                            c as int,
                        )] & uc@ == 0 by {
                            lemma_fits_widen(w, b@, cur@);
                            let t1 = w[cell_idx(row as int, col as int)];
                            let t2 = w[cell_idx(row as int + 1, col as int)];
                            let t3 = w[cell_idx(row as int + 2, col as int)];
                            let d = w[cell_idx(r as int, c as int)];
                            assert(is_peer(r as int, c as int, row as int, col as int));
                            assert(is_peer(r as int, c as int, row as int + 1, col as int));
                            assert(is_peer(r as int, c as int, row as int + 2, col as int));
                            crate::candidates::lemma_disjoint_or3(d, t1, t2, t3);
                        }
                    }
                    let step = Self::eliminate_multi(pt, cur, r, c, uc);
                    proof {
                        lemma_narrowed_trans(b@, cur@, step.1@);
                        assert forall|w: Seq<u16>| #[trigger] fits(w, b@) implies fits(
                            w,
                            step.1@,
                        ) by {
                            assert(fits(w, cur@));
                        }
                        if !step.0 {
                            assert forall|w: Seq<u16>| !fits(w, b@) by {
                                if fits(w, b@) {
                                    assert(fits(w, cur@));
                                }
                            }
                        } else {
                            assert forall|r2: int, c2: int|
                                row <= r2 < r && col_start <= c2 < col_start + 3 && c2 != col
                                implies (#[trigger] step.1@[cell_idx(r2, c2)]) & uc@ == 0 by {
                                lemma_subset_absence(
                                    step.1@[cell_idx(r2, c2)],
                                    cur@[cell_idx(r2, c2)],
                                    uc@,
                                );
                            }
                            assert forall|c2: int|
                                col_start <= c2 < c + 1 && c2 != col implies (
                            #[trigger] step.1@[cell_idx(r as int, c2)]) & uc@ == 0 by {
                                if c2 < c {
                                    lemma_subset_absence(
                                        step.1@[cell_idx(r as int, c2)],
                                        cur@[cell_idx(r as int, c2)],
                                        uc@,
                                    );
                                }
                            }
                        }
                    }
                    if !step.0 {
                        return (false, step.1);
                    }
                    cur = step.1;
                }
                c += 1;
            }
            proof {
                // the finished row folds into the block region
                assert forall|r2: int, c2: int|
                    row <= r2 < r + 1 && col_start <= c2 < col_start + 3 && c2 != col implies (
                #[trigger] cur@[cell_idx(r2, c2)]) & uc@ == 0 by {
                    if r2 == r {
                        assert(cur@[cell_idx(r as int, c2)] & uc@ == 0);
                    }
                }
            }
            r += 1;
        }
        (true, cur)
    }

    /// One triplex pass over the whole board: for every aligned triple of
    /// undetermined cells whose candidates fit within exactly three
    /// digits, those digits are confined to the triple, so remove them
    /// from the rest of the triple's row or column and block.  The pass
    /// only tightens candidate sets or detects a contradiction; the hint
    /// skips rows and columns before the first undetermined one.  On
    /// success, the first triple (in scan order) that fires on the
    /// incoming board has had its elimination applied, and it remains
    /// applied in the result; later triples fire against the already
    /// narrowed board, each elimination pinned by the helpers' contracts.
    #[verifier::rlimit(100)]
    fn triplex(&mut self, pt: &Vec<(u8, u8)>, b: Board, hint: Hint) -> (res: (bool, Board))
        requires
            peer_table_ok(pt@),
            grid_ok(b@),
            fully_propagated(b@),
        ensures
            final(self).grid() == old(self).grid(),
            grid_ok(res.1@),
            narrowed(b@, res.1@),
            res.0 ==> fully_propagated(res.1@),
            forall|w: Seq<u16>| #[trigger] fits(w, b@) ==> fits(w, res.1@),
            !res.0 ==> forall|w: Seq<u16>| !fits(w, b@),
            res.0 ==> forall|t: int|
                0 <= t < 54 && #[trigger] tri_fires(
                    b@,
                    hint.first_unsolved_row as int,
                    hint.first_unsolved_col as int,
                    t,
                ) && (forall|t2: int|
                    0 <= t2 < t ==> !tri_fires(
                        b@,
                        hint.first_unsolved_row as int,
                        hint.first_unsolved_col as int,
                        t2,
                    )) ==> tri_cleared(res.1@, t, tri_union(b@, t)),
    {
        let ghost hr = hint.first_unsolved_row as int;
        let ghost hc = hint.first_unsolved_col as int;
        let mut cur = b;
        let mut i: usize = 0;
        proof {
            lemma_narrowed_refl(b@);
        }
        while i < 9
            invariant
                peer_table_ok(pt@),
                i <= 9,
                hr == hint.first_unsolved_row as int,
                hc == hint.first_unsolved_col as int,
                grid_ok(cur@),
                narrowed(b@, cur@),
                fully_propagated(cur@),
                self.grid() == old(self).grid(),
                forall|w: Seq<u16>| #[trigger] fits(w, b@) ==> fits(w, cur@),
                forall|t: int|
                    0 <= t < 6 * i && #[trigger] tri_fires(b@, hr, hc, t) && (forall|t2: int|
                        0 <= t2 < t ==> !tri_fires(b@, hr, hc, t2)) ==> tri_cleared(
                        cur@,
                        t,
                        tri_union(b@, t),
                    ),
                (forall|t: int| 0 <= t < 6 * i ==> !tri_fires(b@, hr, hc, t)) ==> cur@ == b@,
            decreases 9 - i,
        {
            let mut g: usize = 0;
            while g < 9
                invariant
                    peer_table_ok(pt@),
                    i < 9,
                    g <= 9,
                    g % 3 == 0,
                    hr == hint.first_unsolved_row as int,
                    hc == hint.first_unsolved_col as int,
                    grid_ok(cur@),
                    narrowed(b@, cur@),
                    fully_propagated(cur@),
                    self.grid() == old(self).grid(),
                    forall|w: Seq<u16>| #[trigger] fits(w, b@) ==> fits(w, cur@),
                    forall|t: int|
                        0 <= t < 6 * i + 2 * (g / 3) && #[trigger] tri_fires(b@, hr, hc, t) && (
                        forall|t2: int| 0 <= t2 < t ==> !tri_fires(b@, hr, hc, t2))
                            ==> tri_cleared(cur@, t, tri_union(b@, t)),
                    (forall|t: int| 0 <= t < 6 * i + 2 * (g / 3) ==> !tri_fires(b@, hr, hc, t))
                        ==> cur@ == b@,
                decreases 9 - g,
            {
                let ghost t_row = 6 * (i as int) + 2 * ((g as int) / 3);
                let ghost t_col = t_row + 1;
                let ghost cur_r = cur@;
                proof {
                    lemma_scan_decode(i as int, g as int);
                    assert(tri_cell(t_row, 0) == cell_idx(i as int, g as int));
                    assert(tri_cell(t_row, 1) == cell_idx(i as int, g as int + 1));
                    assert(tri_cell(t_row, 2) == cell_idx(i as int, g as int + 2));
                    assert(tri_cell(t_col, 0) == cell_idx(g as int, i as int));
                    assert(tri_cell(t_col, 1) == cell_idx(g as int + 1, i as int));
                    assert(tri_cell(t_col, 2) == cell_idx(g as int + 2, i as int));
                }
                // row triple
                if i >= hint.first_unsolved_row {
                    let ca1 = cur.cell(i, g);
                    let ca2 = cur.cell(i, g + 1);
                    let ca3 = cur.cell(i, g + 2);
                    if !(ca1.is_done() || ca2.is_done() || ca3.is_done()) && ca1.len() <= 3
                        && ca2.len() <= 3 && ca3.len() <= 3 {
                        let uc = Candidates::union(ca1, ca2, ca3);
                        if uc.len() == 3 {
                            if self.n_triplex < usize::MAX {
                                self.n_triplex += 1;
                            }
                            proof {
                                // a compatible assignment spends the three
                                // digits of the union exactly on the triple
                                assert forall|w: Seq<u16>| #[trigger] fits(w, cur@) implies (w[
                                cell_idx(i as int, g as int)] | w[cell_idx(
                                    i as int,
                                    g as int + 1,
                                )] | w[cell_idx(i as int, g as int + 2)]) == uc@ by {
                                    let t1 = w[cell_idx(i as int, g as int)];
                                    let t2 = w[cell_idx(i as int, g as int + 1)];
                                    let t3 = w[cell_idx(i as int, g as int + 2)];
                                    crate::candidates::lemma_or3_subset(ca1@, ca2@, ca3@);
                                    lemma_subset_trans(t1, ca1@, uc@);
                                    lemma_subset_trans(t2, ca2@, uc@);
                                    lemma_subset_trans(t3, ca3@, uc@);
                                    assert(is_peer(i as int, g as int, i as int, g as int + 1));
                                    assert(is_peer(i as int, g as int, i as int, g as int + 2));
                                    assert(is_peer(
                                        i as int,
                                        g as int + 1,
                                        i as int,
                                        g as int + 2,
                                    ));
                                    crate::candidates::lemma_three_fill(uc@, t1, t2, t3);
                                }
                            }
                            let s1 = Self::triplex_ripple_row(pt, cur, i, g, uc);
                            proof {
                                lemma_narrowed_trans(b@, cur@, s1.1@);
                                if !s1.0 {
                                    assert forall|w: Seq<u16>| !fits(w, b@) by {
                                        if fits(w, b@) {
                                            assert(fits(w, cur@));
                                        }
                                    }
                                }
                            }
                            if !s1.0 {
                                return (false, s1.1);
                            }
                            proof {
                                assert forall|w: Seq<u16>| #[trigger] fits(w, s1.1@) implies (w[
                                cell_idx(i as int, g as int)] | w[cell_idx(
                                    i as int,
                                    g as int + 1,
                                )] | w[cell_idx(i as int, g as int + 2)]) == uc@ by {
                                    lemma_fits_widen(w, cur@, s1.1@);
                                }
                            }
                            let s2 = Self::triplex_ripple_row_block(pt, s1.1, i, g, uc);
                            proof {
                                lemma_narrowed_trans(b@, s1.1@, s2.1@);
                                assert forall|w: Seq<u16>| #[trigger] fits(w, b@) implies fits(
                                    w,
                                    s2.1@,
                                ) by {
                                    assert(fits(w, cur@));
                                    assert(fits(w, s1.1@));
                                }
                                if !s2.0 {
                                    assert forall|w: Seq<u16>| !fits(w, b@) by {
                                        if fits(w, b@) {
                                            assert(fits(w, cur@));
                                            assert(fits(w, s1.1@));
                                        }
                                    }
                                }
                            }
                            if !s2.0 {
                                return (false, s2.1);
                            }
                            cur = s2.1;
                            proof {
                                lemma_narrowed_trans(cur_r, s1.1@, cur@);
                                // the first fired triple, if it is this one,
                                // has just had its elimination applied; an
                                // earlier one stays applied as cells shrink
                                assert forall|t: int|
                                    0 <= t < t_row + 1 && #[trigger] tri_fires(b@, hr, hc, t)
                                        && (forall|t2: int|
                                        0 <= t2 < t ==> !tri_fires(b@, hr, hc, t2))
                                    implies tri_cleared(cur@, t, tri_union(b@, t)) by {
                                    if t < t_row {
                                        assert(tri_cleared(cur_r, t, tri_union(b@, t)));
                                        lemma_cleared_monotone(cur_r, cur@, t, tri_union(b@, t));
                                    } else {
                                        assert(cur_r == b@);
                                        assert(tri_union(b@, t_row) == uc@);
                                        assert forall|c2: int|
                                            0 <= c2 < 9 && !(g <= c2 < g + 3) implies (
                                        #[trigger] cur@[cell_idx(i as int, c2)]) & uc@ == 0 by {
                                            lemma_subset_absence(
                                                cur@[cell_idx(i as int, c2)],
                                                s1.1@[cell_idx(i as int, c2)],
                                                uc@,
                                            );
                                        }
                                        assert(tri_cleared(cur@, t_row, uc@));
                                    }
                                }
                                assert((forall|t: int|
                                    0 <= t < t_row + 1 ==> !tri_fires(b@, hr, hc, t)) ==> cur@
                                    == b@) by {
                                    if forall|t: int|
                                        0 <= t < t_row + 1 ==> !tri_fires(b@, hr, hc, t) {
                                        assert(cur_r == b@);
                                        assert(tri_fires(b@, hr, hc, t_row));
                                    }
                                }
                            }
                        } else {
                            proof {
                                assert forall|t: int|
                                    0 <= t < t_row + 1 && #[trigger] tri_fires(b@, hr, hc, t)
                                        && (forall|t2: int|
                                        0 <= t2 < t ==> !tri_fires(b@, hr, hc, t2))
                                    implies tri_cleared(cur@, t, tri_union(b@, t)) by {
                                    if t == t_row {
                                        assert(cur@ == b@);
                                        assert(tri_union(b@, t_row) == uc@);
                                    }
                                }
                            }
                        }
                    } else {
                        proof {
                            assert forall|t: int|
                                0 <= t < t_row + 1 && #[trigger] tri_fires(b@, hr, hc, t) && (
                            forall|t2: int| 0 <= t2 < t ==> !tri_fires(b@, hr, hc, t2))
                                implies tri_cleared(cur@, t, tri_union(b@, t)) by {
                                if t == t_row {
                                    assert(cur@ == b@);
                                }
                            }
                        }
                    }
                } else {
                    proof {
                        assert forall|t: int|
                            0 <= t < t_row + 1 && #[trigger] tri_fires(b@, hr, hc, t) && (forall|
                            t2: int,
                        | 0 <= t2 < t ==> !tri_fires(b@, hr, hc, t2)) implies tri_cleared(
                        cur@,
                        t,
                        tri_union(b@, t),
                        ) by {
                            if t == t_row {
                                assert(cur@ == b@);
                            }
                        }
                    }
                }
                let ghost cur_c = cur@;
                // column triple
                if i >= hint.first_unsolved_col {
                    let ca1 = cur.cell(g, i);
                    let ca2 = cur.cell(g + 1, i);
                    let ca3 = cur.cell(g + 2, i);
                    if !(ca1.is_done() || ca2.is_done() || ca3.is_done()) && ca1.len() <= 3
                        && ca2.len() <= 3 && ca3.len() <= 3 {
                        let uc = Candidates::union(ca1, ca2, ca3);
                        if uc.len() == 3 {
                            if self.n_triplex < usize::MAX {
                                self.n_triplex += 1;
                            }
                            proof {
                                assert forall|w: Seq<u16>| #[trigger] fits(w, cur@) implies (w[
                                cell_idx(g as int, i as int)] | w[cell_idx(
                                    g as int + 1,
                                    i as int,
                                )] | w[cell_idx(g as int + 2, i as int)]) == uc@ by {
                                    let t1 = w[cell_idx(g as int, i as int)];
                                    let t2 = w[cell_idx(g as int + 1, i as int)];
                                    let t3 = w[cell_idx(g as int + 2, i as int)];
                                    crate::candidates::lemma_or3_subset(ca1@, ca2@, ca3@);
                                    lemma_subset_trans(t1, ca1@, uc@);
                                    lemma_subset_trans(t2, ca2@, uc@);
                                    lemma_subset_trans(t3, ca3@, uc@);
                                    assert(is_peer(g as int, i as int, g as int + 1, i as int));
                                    assert(is_peer(g as int, i as int, g as int + 2, i as int));
                                    assert(is_peer(
                                        g as int + 1,
                                        i as int,
                                        g as int + 2,
                                        i as int,
                                    ));
                                    crate::candidates::lemma_three_fill(uc@, t1, t2, t3);
                                }
                            }
                            let s1 = Self::triplex_ripple_col(pt, cur, g, i, uc);
                            proof {
                                lemma_narrowed_trans(b@, cur@, s1.1@);
                                if !s1.0 {
                                    assert forall|w: Seq<u16>| !fits(w, b@) by {
                                        if fits(w, b@) {
                                            assert(fits(w, cur@));
                                        }
                                    }
                                }
                            }
                            if !s1.0 {
                                return (false, s1.1);
                            }
                            proof {
                                assert forall|w: Seq<u16>| #[trigger] fits(w, s1.1@) implies (w[
                                cell_idx(g as int, i as int)] | w[cell_idx(
                                    g as int + 1,
                                    i as int,
                                )] | w[cell_idx(g as int + 2, i as int)]) == uc@ by {
                                    lemma_fits_widen(w, cur@, s1.1@);
                                }
                            }
                            let s2 = Self::triplex_ripple_col_block(pt, s1.1, g, i, uc);
                            proof {
                                lemma_narrowed_trans(b@, s1.1@, s2.1@);
                                assert forall|w: Seq<u16>| #[trigger] fits(w, b@) implies fits(
                                    w,
                                    s2.1@,
                                ) by {
                                    assert(fits(w, cur@));
                                    assert(fits(w, s1.1@));
                                }
                                if !s2.0 {
                                    assert forall|w: Seq<u16>| !fits(w, b@) by {
                                        if fits(w, b@) {
                                            assert(fits(w, cur@));
                                            assert(fits(w, s1.1@));
                                        }
                                    }
                                }
                            }
                            if !s2.0 {
                                return (false, s2.1);
                            }
                            cur = s2.1;
                            proof {
                                lemma_narrowed_trans(cur_c, s1.1@, cur@);
                                assert forall|t: int|
                                    0 <= t < t_col + 1 && #[trigger] tri_fires(b@, hr, hc, t)
                                        && (forall|t2: int|
                                        0 <= t2 < t ==> !tri_fires(b@, hr, hc, t2))
                                    implies tri_cleared(cur@, t, tri_union(b@, t)) by {
                                    if t < t_col {
                                        assert(tri_cleared(cur_c, t, tri_union(b@, t)));
                                        lemma_cleared_monotone(cur_c, cur@, t, tri_union(b@, t));
                                    } else {
                                        assert(cur_c == b@);
                                        assert(tri_union(b@, t_col) == uc@);
                                        assert forall|r2: int|
                                            0 <= r2 < 9 && !(g <= r2 < g + 3) implies (
                                        #[trigger] cur@[cell_idx(r2, i as int)]) & uc@ == 0 by {
                                            lemma_subset_absence(
                                                cur@[cell_idx(r2, i as int)],
                                                s1.1@[cell_idx(r2, i as int)],
                                                uc@,
                                            );
                                        }
                                        assert(tri_cleared(cur@, t_col, uc@));
                                    }
                                }
                                assert((forall|t: int|
                                    0 <= t < t_col + 1 ==> !tri_fires(b@, hr, hc, t)) ==> cur@
                                    == b@) by {
                                    if forall|t: int|
                                        0 <= t < t_col + 1 ==> !tri_fires(b@, hr, hc, t) {
                                        assert(cur_c == b@);
                                        assert(tri_fires(b@, hr, hc, t_col));
                                    }
                                }
                            }
                        } else {
                            proof {
                                assert forall|t: int|
                                    0 <= t < t_col + 1 && #[trigger] tri_fires(b@, hr, hc, t)
                                        && (forall|t2: int|
                                        0 <= t2 < t ==> !tri_fires(b@, hr, hc, t2))
                                    implies tri_cleared(cur@, t, tri_union(b@, t)) by {
                                    if t == t_col {
                                        assert(cur@ == b@);
                                        assert(tri_union(b@, t_col) == uc@);
                                    }
                                }
                            }
                        }
                    } else {
                        proof {
                            assert forall|t: int|
                                0 <= t < t_col + 1 && #[trigger] tri_fires(b@, hr, hc, t) && (
                            forall|t2: int| 0 <= t2 < t ==> !tri_fires(b@, hr, hc, t2))
                                implies tri_cleared(cur@, t, tri_union(b@, t)) by {
                                if t == t_col {
                                    assert(cur@ == b@);
                                }
                            }
                        }
                    }
                } else {
                    proof {
                        assert forall|t: int|
                            0 <= t < t_col + 1 && #[trigger] tri_fires(b@, hr, hc, t) && (forall|
                            t2: int,
                        | 0 <= t2 < t ==> !tri_fires(b@, hr, hc, t2)) implies tri_cleared(
                        cur@,
                        t,
                        tri_union(b@, t),
                        ) by {
                            if t == t_col {
                                assert(cur@ == b@);
                            }
                        }
                    }
                }
                g += 3;
            }
            i += 1;
        }
        (true, cur)
    }

    /// Depth-first search.  Pick the least-constrained undetermined cell;
    /// if every cell is determined, commit the grid as the session's
    /// answer.  Otherwise tighten with a triplex pass, then try each
    /// remaining candidate of the cell in increasing order on a fresh copy
    /// of the tightened grid, propagating the guess: the first branch that
    /// solves wins, and a failed branch is discarded whole, so no partial
    /// mutation ever leaks into a sibling branch.
    fn backtrack(&mut self, pt: &Vec<(u8, u8)>, g0: Board) -> (r: bool)
        requires
            peer_table_ok(pt@),
            grid_ok(old(self).grid()),
            grid_ok(g0@),
            fully_propagated(g0@),
        ensures
            grid_ok(final(self).grid()),
            r ==> all_done(final(self).grid()) && fully_propagated(final(self).grid())
                && narrowed(g0@, final(self).grid()),
            !r ==> final(self).grid() == old(self).grid(),
            all_done(g0@) ==> r && final(self).grid() == g0@,
            !r ==> forall|w: Seq<u16>| !fits(w, g0@),
        decreases grid_weight(g0@),
    {
        let nlu = Self::next_least_unsolved(&g0);
        let row = nlu.0;
        let col = nlu.1;
        let ca = nlu.2;
        // every cell is determined: the grid is the answer
        if ca.is_done() {
            proof {
                lemma_narrowed_refl(g0@);
            }
            self.g = g0;
            return true;
        }
        let ghost idx = cell_idx(row as int, col as int);
        proof {
            assert(mask_count(g0@[idx]) > 1);
            assert(!all_done(g0@));
        }
        // tighten before guessing; a contradiction here is a dead end
        let tri = self.triplex(pt, g0, nlu.3);
        if !tri.0 {
            return false;
        }
        let g1 = tri.1;
        // try each remaining candidate of the selected cell
        let mut it = ca.iter();
        proof {
            lemma_subset_refl(ca@);
            assert forall|w: Seq<u16>| #[trigger] fits(w, g0@) implies mask_subset(
                w[idx],
                it@,
            ) by {
                assert(mask_subset(w[idx], g0@[idx]));
            }
        }
        loop
            invariant
                peer_table_ok(pt@),
                row < 9,
                col < 9,
                idx == cell_idx(row as int, col as int),
                grid_ok(g0@),
                grid_ok(g1@),
                narrowed(g0@, g1@),
                fully_propagated(g1@),
                ca@ == g0@[idx],
                mask_count(ca@) >= 2,
                mask_subset(it@, ca@),
                grid_ok(old(self).grid()),
                self.grid() == old(self).grid(),
                forall|w: Seq<u16>| #[trigger] fits(w, g0@) ==> fits(w, g1@),
                forall|w: Seq<u16>| #[trigger] fits(w, g0@) ==> mask_subset(w[idx], it@),
            decreases mask_count(it@),
        {
            let ghost it_pre = it@;
            let nxt = it.next();
            if let Some(c) = nxt {
                if self.n_try < usize::MAX {
                    self.n_try += 1;
                }
                // make a guess on a copy of the tightened grid
                let mut g = g1;
                g.set_cell(row, col, c);
                proof {
                    lemma_subset_trans(c@, it_pre, ca@);
                    lemma_and_not(it_pre, c@);
                    lemma_subset_trans(it@, it_pre, ca@);
                    assert forall|n: int| 0 <= n < 81 implies mask_subset(
                        #[trigger] g@[n],
                        g0@[n],
                    ) by {
                        if n == idx {
                            assert(mask_subset(c@, ca@));
                        } else {
                            assert(g@[n] == g1@[n]);
                        }
                    }
                    assert(narrowed(g0@, g@));
                    crate::candidates::lemma_count_bounds(c@);
                    lemma_subset_small(c@, g0@[idx]);
                    assert(grid_ok(g@));
                    // an assignment that picks this digit here fits the
                    // guessed grid
                    assert forall|w: Seq<u16>|
                        #[trigger] fits(w, g0@) && w[idx] == c@ implies fits(w, g@) by {
                        assert(fits(w, g1@));
                        lemma_subset_refl(c@);
                        assert forall|n: int|
                            0 <= n < 81 implies mask_count(#[trigger] w[n]) == 1 && mask_subset(
                            w[n],
                            g@[n],
                        ) by {
                            if n != idx {
                                assert(g@[n] == g1@[n]);
                            }
                        }
                    }
                }
                let rr = Self::ripple(pt, g, row, col);
                if rr.0 {
                    proof {
                        // the guessed cell is solved, and the ripple has
                        // just propagated it
                        assert(mask_count(g@[idx]) <= 1);
                        assert(rr.1@[idx] == g@[idx]);
                        assert(mask_count(rr.1@[cell_idx(row as int, col as int)]) <= 1);
                        assert(propagated_at(rr.1@, row as int, col as int));
                        // every other solved cell is still propagated: its
                        // peers either shrank or are the freshly
                        // propagated guess
                        assert forall|r2: int, c2: int|
                            0 <= r2 < 9 && 0 <= c2 < 9 && mask_count(
                                #[trigger] rr.1@[cell_idx(r2, c2)],
                            ) <= 1 implies propagated_at(rr.1@, r2, c2) by {
                            if !(r2 == row && c2 == col) && !propagated_at(rr.1@, r2, c2) {
                                assert(mask_count(g@[cell_idx(r2, c2)]) <= 1);
                                assert(cell_idx(r2, c2) != idx);
                                assert(g@[cell_idx(r2, c2)] == g1@[cell_idx(r2, c2)]);
                                assert(propagated_at(g1@, r2, c2));
                                assert(rr.1@[cell_idx(r2, c2)] == g@[cell_idx(r2, c2)]);
                                assert forall|r3: int, c3: int| #[trigger] is_peer(r2, c2, r3, c3)
                                    implies rr.1@[cell_idx(r3, c3)] & rr.1@[cell_idx(r2, c2)]
                                    == 0 by {
                                    if r3 == row && c3 == col {
                                        lemma_peer_symm(r2, c2, row as int, col as int);
                                        assert(is_peer(row as int, col as int, r2, c2));
                                        assert(rr.1@[cell_idx(r2, c2)] & rr.1@[idx] == 0);
                                        crate::candidates::lemma_and_comm(
                                            rr.1@[idx],
                                            rr.1@[cell_idx(r2, c2)],
                                        );
                                    } else {
                                        assert(cell_idx(r3, c3) != idx);
                                        assert(g@[cell_idx(r3, c3)] == g1@[cell_idx(r3, c3)]);
                                        assert(g1@[cell_idx(r3, c3)] & g1@[cell_idx(r2, c2)]
                                            == 0);
                                        lemma_subset_absence(
                                            rr.1@[cell_idx(r3, c3)],
                                            g1@[cell_idx(r3, c3)],
                                            g1@[cell_idx(r2, c2)],
                                        );
                                    }
                                }
                            }
                        }
                        assert(fully_propagated(rr.1@));
                        // the guess strictly narrowed the selected cell,
                        // so the recursion is on a lighter grid
                        lemma_narrowed_trans(g0@, g@, rr.1@);
                        lemma_weight_lt(g0@, rr.1@, idx);
                        lemma_weight_nonneg(rr.1@, 81);
                    }
                    let ok = self.backtrack(pt, rr.1);
                    if ok {
                        proof {
                            lemma_narrowed_trans(g0@, rr.1@, self.grid());
                        }
                        return true;
                    }
                    proof {
                        // the whole branch under this guess failed: no
                        // compatible assignment picks this digit here
                        assert forall|w: Seq<u16>| #[trigger] fits(w, g0@) implies mask_subset(
                            w[idx],
                            it@,
                        ) by {
                            assert(mask_subset(w[idx], it_pre));
                            let x = w[idx];
                            if x == c@ {
                                assert(fits(w, g@));
                                assert(fits(w, rr.1@));
                            }
                            crate::candidates::lemma_single_disjoint(x, c@);
                            crate::candidates::lemma_subset_minus(x, it_pre, c@);
                        }
                    }
                } else {
                    proof {
                        // the guess contradicted itself at once: no
                        // compatible assignment picks this digit here
                        assert forall|w: Seq<u16>| #[trigger] fits(w, g0@) implies mask_subset(
                            w[idx],
                            it@,
                        ) by {
                            assert(mask_subset(w[idx], it_pre));
                            let x = w[idx];
                            if x == c@ {
                                assert(fits(w, g@));
                            }
                            crate::candidates::lemma_single_disjoint(x, c@);
                            crate::candidates::lemma_subset_minus(x, it_pre, c@);
                        }
                    }
                }
                // rollback: the next guess starts again from the
                // triplex-tightened grid
            } else {
                proof {
                    // every candidate of the cell has been refuted, yet a
                    // compatible assignment would have to pick one
                    assert forall|w: Seq<u16>| !fits(w, g0@) by {
                        if fits(w, g0@) {
                            let x = w[idx];
                            assert(mask_subset(x, it_pre));
                            assert(x == 0) by (bit_vector)
                                requires
                                    x & 0 == x,
                            ;
                            crate::candidates::lemma_count_bounds(x);
                        }
                    }
                }
                // every candidate failed: this grid state is a dead end
                return false;
            }
        }
    }

    /// Solve the session's board in place: propagate every pre-filled
    /// cell, then search.  On success the board holds a fully determined,
    /// conflict-free narrowing of the original puzzle; failure happens
    /// only when no assignment compatible with the original board exists
    /// at all.  A board that is already fully determined and
    /// conflict-free is returned unchanged.
    pub fn do_solve(&mut self) -> (r: bool)
        requires
            grid_ok(old(self).grid()),
        ensures
            grid_ok(final(self).grid()),
            narrowed(old(self).grid(), final(self).grid()),
            r ==> all_done(final(self).grid()) && fully_propagated(final(self).grid()),
            all_done(old(self).grid()) && fully_propagated(old(self).grid()) ==> r
                && final(self).grid() == old(self).grid(),
            !r ==> forall|w: Seq<u16>| !fits(w, old(self).grid()),
    {
        let pt = build_peer_table();
        let ghost g0 = self.grid();
        proof {
            lemma_narrowed_refl(g0);
        }
        // initial pass: propagate every already-determined cell
        let mut i: usize = 0;
        while i < 9
            invariant
                peer_table_ok(pt@),
                i <= 9,
                g0 == old(self).grid(),
                grid_ok(g0),
                grid_ok(self.grid()),
                narrowed(g0, self.grid()),
                forall|n: int|
                    0 <= n < 81 && mask_count(#[trigger] g0[n]) <= 1 ==> self.grid()[n] == g0[n],
                forall|r: int, c: int|
                    0 <= r < 9 && 0 <= c < 9 && mask_count(
                        #[trigger] self.grid()[cell_idx(r, c)],
                    ) <= 1 ==> propagated_at(self.grid(), r, c) || (mask_count(g0[cell_idx(r, c)])
                        <= 1 && 9 * r + c >= 9 * i),
                fully_propagated(g0) ==> self.grid() == g0,
                forall|w: Seq<u16>| #[trigger] fits(w, g0) ==> fits(w, self.grid()),
            decreases 9 - i,
        {
            let mut j: usize = 0;
            while j < 9
                invariant
                    peer_table_ok(pt@),
                    i < 9,
                    j <= 9,
                    g0 == old(self).grid(),
                    grid_ok(g0),
                    grid_ok(self.grid()),
                    narrowed(g0, self.grid()),
                    forall|n: int|
                        0 <= n < 81 && mask_count(#[trigger] g0[n]) <= 1 ==> self.grid()[n]
                            == g0[n],
                    forall|r: int, c: int|
                        0 <= r < 9 && 0 <= c < 9 && mask_count(
                            #[trigger] self.grid()[cell_idx(r, c)],
                        ) <= 1 ==> propagated_at(self.grid(), r, c) || (mask_count(
                            g0[cell_idx(r, c)],
                        ) <= 1 && 9 * r + c >= 9 * i + j),
                    fully_propagated(g0) ==> self.grid() == g0,
                    forall|w: Seq<u16>| #[trigger] fits(w, g0) ==> fits(w, self.grid()),
                decreases 9 - j,
            {
                if self.g.is_done(i, j) {
                    let ghost gpre = self.grid();
                    let rr = Self::ripple(&pt, self.g, i, j);
                    proof {
                        lemma_narrowed_trans(g0, gpre, rr.1@);
                        assert forall|n: int|
                            0 <= n < 81 && mask_count(#[trigger] g0[n]) <= 1 implies rr.1@[n]
                            == g0[n] by {
                            assert(gpre[n] == g0[n]);
                            assert(mask_count(gpre[n]) <= 1);
                        }
                        if fully_propagated(g0) {
                            assert(propagated_at(gpre, i as int, j as int));
                        }
                        assert forall|w: Seq<u16>| #[trigger] fits(w, g0) implies fits(
                            w,
                            rr.1@,
                        ) by {
                            assert(fits(w, gpre));
                        }
                        if !rr.0 {
                            assert forall|w: Seq<u16>| !fits(w, g0) by {
                                if fits(w, g0) {
                                    assert(fits(w, gpre));
                                }
                            }
                        }
                    }
                    self.g = rr.1;
                    if !rr.0 {
                        return false;
                    }
                    proof {
                        // a solved cell left unpropagated was already
                        // solved at the start and lies at or past the scan
                        assert forall|r: int, c: int|
                            0 <= r < 9 && 0 <= c < 9 && mask_count(
                                #[trigger] self.grid()[cell_idx(r, c)],
                            ) <= 1 implies propagated_at(self.grid(), r, c) || (mask_count(
                            g0[cell_idx(r, c)],
                        ) <= 1 && 9 * r + c >= 9 * i + j + 1) by {
                            if !propagated_at(self.grid(), r, c) {
                                assert(mask_count(gpre[cell_idx(r, c)]) <= 1);
                                assert(!propagated_at(gpre, r, c));
                                assert(!(r == i && c == j));
                                assert(mask_count(g0[cell_idx(r, c)]) <= 1 && 9 * r + c >= 9 * i
                                    + j);
                            }
                        }
                    }
                } else {
                    proof {
                        assert forall|r: int, c: int|
                            0 <= r < 9 && 0 <= c < 9 && mask_count(
                                #[trigger] self.grid()[cell_idx(r, c)],
                            ) <= 1 implies propagated_at(self.grid(), r, c) || (mask_count(
                            g0[cell_idx(r, c)],
                        ) <= 1 && 9 * r + c >= 9 * i + j + 1) by {
                            if 9 * r + c == 9 * i + j {
                                assert(r == i && c == j);
                            }
                        }
                    }
                }
                j += 1;
            }
            i += 1;
        }
        proof {
            // the scan is past every cell: the grid is a fixed point
            assert forall|r: int, c: int|
                0 <= r < 9 && 0 <= c < 9 && mask_count(
                    #[trigger] self.grid()[cell_idx(r, c)],
                ) <= 1 implies propagated_at(self.grid(), r, c) by {}
            assert(fully_propagated(self.grid()));
        }
        let snapshot = self.g;
        let ghost gmid = self.grid();
        let ok = self.backtrack(&pt, snapshot);
        proof {
            if ok {
                lemma_narrowed_trans(g0, gmid, self.grid());
            } else {
                // the search refuted every assignment compatible with the
                // propagated grid, hence with the original one
                assert forall|w: Seq<u16>| !fits(w, g0) by {
                    if fits(w, g0) {
                        assert(fits(w, gmid));
                        assert(fits(w, snapshot@));
                    }
                }
            }
            if all_done(g0) && fully_propagated(g0) {
                assert(gmid == g0);
                assert(all_done(snapshot@));
            }
        }
        ok
    }

    /// Solve a textual puzzle and render the answer as its 81 solved
    /// digits in row-major order.  An answer comes back exactly when the
    /// text holds 81 tokens and the puzzle has a valid completion: every
    /// returned string is such a completion, a puzzle that has one is
    /// never refused, and a text whose tokens already form a valid
    /// completion comes back as exactly those tokens.  `None` therefore
    /// separates only two situations: a malformed text, or a puzzle
    /// proved to admit no completion.
    pub fn solve(s: &str) -> (r: Option<String>)
        ensures
            r matches Some(out) ==> solution_of(out@, s@),
            tokens(s@).len() != 81 ==> r is None,
            solution_of(tokens(s@), s@) ==> (r matches Some(out) && out@ == tokens(s@)),
            (exists|w: Seq<char>| #[trigger] solution_of(w, s@)) ==> (r matches Some(out)
                && solution_of(out@, s@)),
    {
        let b0 = match Board::new(s) {
            None => {
                proof {
                    // a completion would make the text parse
                    if exists|w: Seq<char>| solution_of(w, s@) {
                        let wc = choose|w: Seq<char>| solution_of(w, s@);
                    }
                }
                return None;
            },
            Some(b0) => b0,
        };
        proof {
            assert forall|k: int| 0 <= k < 81 implies 0 < #[trigger] b0@[k] < 0x200 by {
                crate::candidates::lemma_char_mask_ok(tokens(s@)[k]);
            }
            assert(grid_ok(b0@));
            // a text whose 81 tokens already form a valid completion
            // parses to a fully determined, conflict-free grid
            if solution_of(tokens(s@), s@) {
                assert forall|k: int| 0 <= k < 81 implies mask_count(#[trigger] b0@[k]) <= 1 by {
                    crate::candidates::lemma_char_mask_ok(tokens(s@)[k]);
                }
                assert(all_done(b0@));
                assert forall|r: int, c: int|
                    0 <= r < 9 && 0 <= c < 9 && mask_count(#[trigger] b0@[cell_idx(r, c)]) <= 1
                    implies propagated_at(b0@, r, c) by {
                    assert forall|r2: int, c2: int| #[trigger] is_peer(r, c, r2, c2)
                        implies b0@[cell_idx(r2, c2)] & b0@[cell_idx(r, c)] == 0 by {
                        let k1 = cell_idx(r, c);
                        let k2 = cell_idx(r2, c2);
                        assert(tokens(s@)[k1] != tokens(s@)[k2]);
                        crate::candidates::lemma_char_mask_ok(tokens(s@)[k1]);
                        crate::candidates::lemma_char_mask_ok(tokens(s@)[k2]);
                        if b0@[k2] == b0@[k1] {
                            crate::candidates::lemma_char_mask_inj(
                                tokens(s@)[k2],
                                tokens(s@)[k1],
                            );
                        }
                        lemma_single_disjoint(b0@[k2], b0@[k1]);
                    }
                }
                assert(fully_propagated(b0@));
            }
        }
        let mut b = Ripple { g: b0, n_try: 0, n_triplex: 0 };
        if b.do_solve() {
            let ghost fin = b.grid();
            let mut out = String::new();
            let mut i: usize = 0;
            while i < 9
                invariant
                    b.grid() == fin,
                    grid_ok(fin),
                    all_done(fin),
                    i <= 9,
                    out@.len() == 9 * i,
                    forall|k: int| 0 <= k < 9 * i ==> out@[k] == lucky_char(#[trigger] fin[k]),
                decreases 9 - i,
            {
                let mut j: usize = 0;
                while j < 9
                    invariant
                        b.grid() == fin,
                        grid_ok(fin),
                        all_done(fin),
                        i < 9,
                        j <= 9,
                        out@.len() == 9 * i + j,
                        forall|k: int|
                            0 <= k < 9 * i + j ==> out@[k] == lucky_char(#[trigger] fin[k]),
                    decreases 9 - j,
                {
                    push_char(&mut out, b.g.lucky(i, j));
                    j += 1;
                }
                i += 1;
            }
            proof {
                // each solved cell renders as its digit, a digit its
                // given allowed
                assert forall|k: int| 0 <= k < 81 implies is_digit_char(#[trigger] out@[k])
                    && mask_subset(char_mask(out@[k]), char_mask(tokens(s@)[k])) by {
                    crate::candidates::lemma_count_bounds(fin[k]);
                    lemma_solved_mask_char(fin[k]);
                    assert(char_mask(out@[k]) == fin[k]);
                    assert(mask_subset(fin[k], b0@[k]));
                }
                // no two peer cells render the same digit
                assert forall|r1: int, c1: int, r2: int, c2: int|
                    #[trigger] is_peer(r1, c1, r2, c2) implies out@[cell_idx(r1, c1)]
                    != out@[cell_idx(r2, c2)] by {
                    let k1 = cell_idx(r1, c1);
                    let k2 = cell_idx(r2, c2);
                    assert(mask_count(fin[k1]) <= 1);
                    assert(propagated_at(fin, r1, c1));
                    assert(fin[k2] & fin[k1] == 0);
                    lemma_subset_refl(fin[k1]);
                    assert(fin[k1] != fin[k2]);
                    crate::candidates::lemma_count_bounds(fin[k1]);
                    crate::candidates::lemma_count_bounds(fin[k2]);
                    lemma_solved_mask_char(fin[k1]);
                    lemma_solved_mask_char(fin[k2]);
                    assert(char_mask(out@[k1]) == fin[k1]);
                    assert(char_mask(out@[k2]) == fin[k2]);
                }
                assert(solution_of(out@, s@));
                // a puzzle that arrives solved is returned verbatim
                if solution_of(tokens(s@), s@) {
                    assert(fin == b0@);
                    assert forall|k: int| 0 <= k < 81 implies out@[k] == tokens(s@)[k] by {
                        crate::candidates::lemma_count_bounds(fin[k]);
                        lemma_solved_mask_char(fin[k]);
                        assert(out@[k] == lucky_char(fin[k]));
                        assert(char_mask(out@[k]) == fin[k]);
                        assert(fin[k] == char_mask(tokens(s@)[k]));
                        crate::candidates::lemma_char_mask_inj(out@[k], tokens(s@)[k]);
                    }
                    assert(out@ =~= tokens(s@));
                }
            }
            Some(out)
        } else {
            proof {
                // had the tokens formed a valid completion, the solver
                // would have succeeded on the already-solved grid
                if solution_of(tokens(s@), s@) {
                    assert(false);
                }
                // had any completion existed, its digit masks would be an
                // assignment compatible with the parsed grid, which the
                // failed search has refuted
                if exists|w: Seq<char>| solution_of(w, s@) {
                    let wc = choose|w: Seq<char>| solution_of(w, s@);
                    let wm = Seq::new(81, |k: int| char_mask(wc[k]));
                    assert forall|k: int|
                        0 <= k < 81 implies mask_count(#[trigger] wm[k]) == 1 && mask_subset(
                        wm[k],
                        b0@[k],
                    ) by {
                        crate::candidates::lemma_char_mask_ok(wc[k]);
                    }
                    assert forall|r1: int, c1: int, r2: int, c2: int|
                        #[trigger] is_peer(r1, c1, r2, c2) implies wm[cell_idx(r1, c1)] & wm[
                    cell_idx(r2, c2)] == 0 by {
                        let k1 = cell_idx(r1, c1);
                        let k2 = cell_idx(r2, c2);
                        assert(wc[k1] != wc[k2]);
                        crate::candidates::lemma_char_mask_ok(wc[k1]);
                        crate::candidates::lemma_char_mask_ok(wc[k2]);
                        if wm[k1] == wm[k2] {
                            crate::candidates::lemma_char_mask_inj(wc[k1], wc[k2]);
                        }
                        lemma_single_disjoint(wm[k1], wm[k2]);
                    }
                    assert(fits(wm, b0@));
                }
            }
            None
        }
    }

    /// Render the session's board for human inspection: the boxed grid of
    /// each cell's remaining candidate digits.
    pub fn to_string(&self) -> (r: String)
        ensures
            r@ == crate::board::board_render(self.grid()),
    {
        self.g.to_string()
    }

    /// Solve a puzzle given as a 9x9 character grid, in place: on success
    /// the grid holds the 81 solved digits, each allowed by the original
    /// entry and with no two peer cells equal; on failure the grid is
    /// left untouched, and failure only happens when no compatible
    /// assignment exists at all.
    pub fn solve_arr(puzzle: &mut [[char; 9]; 9]) -> (r: bool)
        ensures
            !r ==> *final(puzzle) == *old(puzzle),
            (exists|w: Seq<u16>| #[trigger] fits(w, arr_grid(*old(puzzle)))) ==> r,
            r ==> forall|i: int, j: int|
                0 <= i < 9 && 0 <= j < 9 ==> is_digit_char(#[trigger] final(puzzle)@[i]@[j])
                    && mask_subset(
                    char_mask(final(puzzle)@[i]@[j]),
                    char_mask(old(puzzle)@[i]@[j]),
                ),
            r ==> forall|r1: int, c1: int, r2: int, c2: int|
                #[trigger] is_peer(r1, c1, r2, c2) ==> final(puzzle)@[r1]@[c1]
                    != final(puzzle)@[r2]@[c2],
    {
        let b0 = Board::from(*puzzle);
        proof {
            assert forall|k: int| 0 <= k < 81 implies 0 < #[trigger] b0@[k] < 0x200 by {
                let i = k / 9;
                let j = k % 9;
                assert(cell_idx(i, j) == k);
                assert(b0@[cell_idx(i, j)] == char_mask(puzzle@[i]@[j]));
                crate::candidates::lemma_char_mask_ok(puzzle@[i]@[j]);
            }
            assert(grid_ok(b0@));
            assert forall|k: int| 0 <= k < 81 implies b0@[k] == #[trigger] arr_grid(*puzzle)[k]
                by {
                let i = k / 9;
                let j = k % 9;
                assert(cell_idx(i, j) == k);
                assert(b0@[cell_idx(i, j)] == char_mask(puzzle@[i]@[j]));
            }
            assert(b0@ =~= arr_grid(*puzzle));
        }
        let mut b = Ripple { g: b0, n_try: 0, n_triplex: 0 };
        if b.do_solve() {
            let ghost fin = b.grid();
            b.g.write_arr(puzzle);
            proof {
                assert forall|i: int, j: int| 0 <= i < 9 && 0 <= j < 9 implies is_digit_char(
                    #[trigger] final(puzzle)@[i]@[j],
                ) && mask_subset(
                    char_mask(final(puzzle)@[i]@[j]),
                    char_mask(old(puzzle)@[i]@[j]),
                ) by {
                    let k = cell_idx(i, j);
                    crate::candidates::lemma_count_bounds(fin[k]);
                    lemma_solved_mask_char(fin[k]);
                    assert(final(puzzle)@[i]@[j] == lucky_char(fin[k]));
                    assert(char_mask(final(puzzle)@[i]@[j]) == fin[k]);
                    assert(mask_subset(fin[k], b0@[k]));
                    assert(b0@[k] == char_mask(old(puzzle)@[i]@[j]));
                }
                assert forall|r1: int, c1: int, r2: int, c2: int|
                    #[trigger] is_peer(r1, c1, r2, c2) implies final(puzzle)@[r1]@[c1]
                    != final(puzzle)@[r2]@[c2] by {
                    let k1 = cell_idx(r1, c1);
                    let k2 = cell_idx(r2, c2);
                    assert(mask_count(fin[k1]) <= 1);
                    assert(propagated_at(fin, r1, c1));
                    assert(fin[k2] & fin[k1] == 0);
                    lemma_subset_refl(fin[k1]);
                    assert(fin[k1] != fin[k2]);
                    crate::candidates::lemma_count_bounds(fin[k1]);
                    crate::candidates::lemma_count_bounds(fin[k2]);
                    lemma_solved_mask_char(fin[k1]);
                    lemma_solved_mask_char(fin[k2]);
                    assert(char_mask(final(puzzle)@[r1]@[c1]) == fin[k1]);
                    assert(char_mask(final(puzzle)@[r2]@[c2]) == fin[k2]);
                }
            }
            true
        } else {
            proof {
                // the failed search refuted every compatible assignment
                if exists|w: Seq<u16>| fits(w, arr_grid(*old(puzzle))) {
                    let wm = choose|w: Seq<u16>| fits(w, arr_grid(*old(puzzle)));
                    assert(fits(wm, b0@));
                }
            }
            false
        }
    }
}

proof fn lemma_narrowed_trans(g1: Seq<u16>, g2: Seq<u16>, g3: Seq<u16>)
    requires
        narrowed(g1, g2),
        narrowed(g2, g3),
    ensures
        narrowed(g1, g3),
{
    assert forall|n: int| 0 <= n < 81 implies mask_subset(#[trigger] g3[n], g1[n]) by {
        lemma_subset_trans(g3[n], g2[n], g1[n]);
    }
}

} // verus!
