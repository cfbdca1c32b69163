//! Neighborhood computation: the rectangle of grid locations adjacent to a
//! position (diagonals included, clamped at the grid edges, the position
//! itself included), enumeration of its cells, and counting of mine-marked
//! cells in it.

use crate::position::CellPosition;
use vstd::prelude::*;

verus! {

// ---------- grid views ----------

/// The mathematical view of a two-dimensional vector: a sequence of rows.
pub open spec fn grid_view<T>(g: &Vec<Vec<T>>) -> Seq<Seq<T>> {
    Seq::new(g@.len() as nat, |r: int| g@[r]@)
}

/// An n-by-n grid: n rows, each of n columns.
pub open spec fn grid_square<T>(g: Seq<Seq<T>>, n: int) -> bool {
    &&& g.len() == n
    &&& forall|r: int| 0 <= r < n ==> (#[trigger] g[r]).len() == n
}

// ---------- the clamped rectangle ----------

/// Lowest index of the neighborhood range around index i: i - 1, clamped at 0.
pub open spec fn clamp_lo(i: int) -> int {
    if i > 0 {
        i - 1
    } else {
        0
    }
}

/// Highest index of the neighborhood range around index i: i + 1, clamped at
/// n - 1.
pub open spec fn clamp_hi(i: int, n: int) -> int {
    if i < n - 1 {
        i + 1
    } else {
        n - 1
    }
}

/// Number of rows of the clamped rectangle around p in an n-by-n grid.
pub open spec fn rect_height(p: CellPosition, n: int) -> nat {
    (clamp_hi(p.row_index as int, n) - clamp_lo(p.row_index as int) + 1) as nat
}

/// Number of columns of the clamped rectangle around p in an n-by-n grid.
pub open spec fn rect_width(p: CellPosition, n: int) -> nat {
    (clamp_hi(p.col_index as int, n) - clamp_lo(p.col_index as int) + 1) as nat
}

/// Whether position q lies in the clamped rectangle around position p.
/// The rectangle includes p itself.
pub open spec fn in_rect(p: CellPosition, q: CellPosition, n: int) -> bool {
    &&& clamp_lo(p.row_index as int) <= q.row_index as int <= clamp_hi(p.row_index as int, n)
    &&& clamp_lo(p.col_index as int) <= q.col_index as int <= clamp_hi(p.col_index as int, n)
}

// ---------- counting true entries of a boolean grid ----------

/// Number of true entries in row r of g, columns [c0, c0 + k).
pub open spec fn count_row(g: Seq<Seq<bool>>, r: int, c0: int, k: nat) -> nat
    decreases k,
{
    if k == 0 {
        0
    } else {
        count_row(g, r, c0, (k - 1) as nat) + if g[r][c0 + k - 1] {
            1nat
        } else {
            0nat
        }
    }
}

/// Number of true entries of g in the box of rows [r0, r0 + rk) and columns
/// [c0, c0 + ck).
pub open spec fn count_box(g: Seq<Seq<bool>>, r0: int, rk: nat, c0: int, ck: nat) -> nat
    decreases rk,
{
    if rk == 0 {
        0
    } else {
        count_box(g, r0, (rk - 1) as nat, c0, ck) + count_row(g, r0 + rk - 1, c0, ck)
    }
}

/// Number of mine-marked entries in the clamped rectangle around p, p itself
/// included, in an n-by-n mine grid g.
pub open spec fn mines_in_rect(g: Seq<Seq<bool>>, p: CellPosition, n: int) -> nat {
    count_box(
        g,
        clamp_lo(p.row_index as int),
        rect_height(p, n),
        clamp_lo(p.col_index as int),
        rect_width(p, n),
    )
}

pub proof fn lemma_count_row_le(g: Seq<Seq<bool>>, r: int, c0: int, k: nat)
    ensures
        count_row(g, r, c0, k) <= k,
    decreases k,
{
    if k > 0 {
        lemma_count_row_le(g, r, c0, (k - 1) as nat);
    }
}

pub proof fn lemma_count_box_le(g: Seq<Seq<bool>>, r0: int, rk: nat, c0: int, ck: nat)
    ensures
        count_box(g, r0, rk, c0, ck) <= rk * ck,
    decreases rk,
{
    if rk > 0 {
        lemma_count_box_le(g, r0, (rk - 1) as nat, c0, ck);
        lemma_count_row_le(g, r0 + rk - 1, c0, ck);
        assert((rk - 1) * ck + ck == rk * ck) by (nonlinear_arith);
    }
}

pub proof fn lemma_count_row_zero(g: Seq<Seq<bool>>, r: int, c0: int, k: nat)
    ensures
        count_row(g, r, c0, k) == 0 <==> (forall|j: int|
            c0 <= j < c0 + k ==> !(#[trigger] g[r][j])),
    decreases k,
{
    if k > 0 {
        lemma_count_row_zero(g, r, c0, (k - 1) as nat);
    }
}

pub proof fn lemma_count_box_zero(g: Seq<Seq<bool>>, r0: int, rk: nat, c0: int, ck: nat)
    ensures
        count_box(g, r0, rk, c0, ck) == 0 <==> (forall|i: int, j: int|
            r0 <= i < r0 + rk && c0 <= j < c0 + ck ==> !(#[trigger] g[i][j])),
    decreases rk,
{
    if rk > 0 {
        lemma_count_box_zero(g, r0, (rk - 1) as nat, c0, ck);
        lemma_count_row_zero(g, r0 + rk - 1, c0, ck);
    }
}

/// Counts agree on rows that agree pointwise over the counted range.
pub proof fn lemma_count_row_congr(g1: Seq<Seq<bool>>, g2: Seq<Seq<bool>>, r: int, c0: int, k: nat)
    requires
        forall|j: int| c0 <= j < c0 + k ==> #[trigger] g1[r][j] == g2[r][j],
    ensures
        count_row(g1, r, c0, k) == count_row(g2, r, c0, k),
    decreases k,
{
    if k > 0 {
        lemma_count_row_congr(g1, g2, r, c0, (k - 1) as nat);
    }
}

/// Two grids that agree on a box except at one cell (wr, wc) inside it have
/// counts over the box that differ exactly by the two entries at that cell.
pub proof fn lemma_count_row_diff1(
    g1: Seq<Seq<bool>>,
    g2: Seq<Seq<bool>>,
    r: int,
    c0: int,
    k: nat,
    wc: int,
)
    requires
        c0 <= wc < c0 + k,
        forall|j: int| c0 <= j < c0 + k && j != wc ==> #[trigger] g1[r][j] == g2[r][j],
    ensures
        count_row(g1, r, c0, k) + if g2[r][wc] {
            1nat
        } else {
            0nat
        } == count_row(g2, r, c0, k) + if g1[r][wc] {
            1nat
        } else {
            0nat
        },
    decreases k,
{
    if wc == c0 + k - 1 {
        lemma_count_row_congr(g1, g2, r, c0, (k - 1) as nat);
    } else {
        lemma_count_row_diff1(g1, g2, r, c0, (k - 1) as nat, wc);
    }
}

pub proof fn lemma_count_box_diff1(
    g1: Seq<Seq<bool>>,
    g2: Seq<Seq<bool>>,
    r0: int,
    rk: nat,
    c0: int,
    ck: nat,
    wr: int,
    wc: int,
)
    requires
        r0 <= wr < r0 + rk,
        c0 <= wc < c0 + ck,
        forall|i: int, j: int|
            r0 <= i < r0 + rk && c0 <= j < c0 + ck && !(i == wr && j == wc) ==> #[trigger] g1[i][j]
                == g2[i][j],
    ensures
        count_box(g1, r0, rk, c0, ck) + if g2[wr][wc] {
            1nat
        } else {
            0nat
        } == count_box(g2, r0, rk, c0, ck) + if g1[wr][wc] {
            1nat
        } else {
            0nat
        },
    decreases rk,
{
    if wr == r0 + rk - 1 {
        lemma_count_row_diff1(g1, g2, r0 + rk - 1, c0, ck, wc);
        if rk > 1 {
            lemma_count_box_congr(g1, g2, r0, (rk - 1) as nat, c0, ck);
        }
    } else {
        lemma_count_box_diff1(g1, g2, r0, (rk - 1) as nat, c0, ck, wr, wc);
        lemma_count_row_congr(g1, g2, r0 + rk - 1, c0, ck);
    }
}

/// Counts agree on boxes over which the grids agree pointwise.
pub proof fn lemma_count_box_congr(
    g1: Seq<Seq<bool>>,
    g2: Seq<Seq<bool>>,
    r0: int,
    rk: nat,
    c0: int,
    ck: nat,
)
    requires
        forall|i: int, j: int|
            r0 <= i < r0 + rk && c0 <= j < c0 + ck ==> #[trigger] g1[i][j] == g2[i][j],
    ensures
        count_box(g1, r0, rk, c0, ck) == count_box(g2, r0, rk, c0, ck),
    decreases rk,
{
    if rk > 0 {
        lemma_count_box_congr(g1, g2, r0, (rk - 1) as nat, c0, ck);
        lemma_count_row_congr(g1, g2, r0 + rk - 1, c0, ck);
    }
}

/// A count over a box never shrinks when entries only turn from false to true.
pub proof fn lemma_count_row_mono(g1: Seq<Seq<bool>>, g2: Seq<Seq<bool>>, r: int, c0: int, k: nat)
    requires
        forall|j: int| c0 <= j < c0 + k && #[trigger] g1[r][j] ==> g2[r][j],
    ensures
        count_row(g1, r, c0, k) <= count_row(g2, r, c0, k),
    decreases k,
{
    if k > 0 {
        lemma_count_row_mono(g1, g2, r, c0, (k - 1) as nat);
    }
}

pub proof fn lemma_count_box_mono(
    g1: Seq<Seq<bool>>,
    g2: Seq<Seq<bool>>,
    r0: int,
    rk: nat,
    c0: int,
    ck: nat,
)
    requires
        forall|i: int, j: int|
            r0 <= i < r0 + rk && c0 <= j < c0 + ck && #[trigger] g1[i][j] ==> g2[i][j],
    ensures
        count_box(g1, r0, rk, c0, ck) <= count_box(g2, r0, rk, c0, ck),
    decreases rk,
{
    if rk > 0 {
        lemma_count_box_mono(g1, g2, r0, (rk - 1) as nat, c0, ck);
        lemma_count_row_mono(g1, g2, r0 + rk - 1, c0, ck);
    }
}

/// A count over a row grows strictly when entries only turn from false to
/// true and at least one inside the range, at wc, did.
pub proof fn lemma_count_row_strict(
    g1: Seq<Seq<bool>>,
    g2: Seq<Seq<bool>>,
    r: int,
    c0: int,
    k: nat,
    wc: int,
)
    requires
        forall|j: int| c0 <= j < c0 + k && #[trigger] g1[r][j] ==> g2[r][j],
        c0 <= wc < c0 + k,
        !g1[r][wc],
        g2[r][wc],
    ensures
        count_row(g1, r, c0, k) < count_row(g2, r, c0, k),
    decreases k,
{
    if wc == c0 + k - 1 {
        lemma_count_row_mono(g1, g2, r, c0, (k - 1) as nat);
    } else {
        lemma_count_row_strict(g1, g2, r, c0, (k - 1) as nat, wc);
    }
}

/// A count over a box grows strictly when entries only turn from false to
/// true and at least one inside the box, at (wr, wc), did.
pub proof fn lemma_count_box_strict(
    g1: Seq<Seq<bool>>,
    g2: Seq<Seq<bool>>,
    r0: int,
    rk: nat,
    c0: int,
    ck: nat,
    wr: int,
    wc: int,
)
    requires
        forall|i: int, j: int|
            r0 <= i < r0 + rk && c0 <= j < c0 + ck && #[trigger] g1[i][j] ==> g2[i][j],
        r0 <= wr < r0 + rk,
        c0 <= wc < c0 + ck,
        !g1[wr][wc],
        g2[wr][wc],
    ensures
        count_box(g1, r0, rk, c0, ck) < count_box(g2, r0, rk, c0, ck),
    decreases rk,
{
    if wr == r0 + rk - 1 {
        lemma_count_box_mono(g1, g2, r0, (rk - 1) as nat, c0, ck);
        lemma_count_row_strict(g1, g2, r0 + rk - 1, c0, ck, wc);
    } else {
        lemma_count_box_strict(g1, g2, r0, (rk - 1) as nat, c0, ck, wr, wc);
        lemma_count_row_mono(g1, g2, r0 + rk - 1, c0, ck);
    }
}

/// The clamped rectangle holds at most 3 x 3 cells, so no neighborhood
/// count exceeds 9.
pub proof fn lemma_mines_in_rect_le(g: Seq<Seq<bool>>, p: CellPosition, n: int)
    requires
        n >= 1,
        (p.row_index as int) < n,
        (p.col_index as int) < n,
    ensures
        mines_in_rect(g, p, n) <= 9,
{
    lemma_count_box_le(
        g,
        clamp_lo(p.row_index as int),
        rect_height(p, n),
        clamp_lo(p.col_index as int),
        rect_width(p, n),
    );
    assert(rect_height(p, n) * rect_width(p, n) <= 9) by (nonlinear_arith)
        requires
            rect_height(p, n) <= 3 && rect_width(p, n) <= 3,
    ;
}

// ---------- enumerating the cells of the rectangle ----------

/// The elements of g in the box of rows [r0, r0 + rk) and columns
/// [c0, c0 + ck), row-major.
pub open spec fn rect_seq<T>(g: Seq<Seq<T>>, r0: int, rk: nat, c0: int, ck: nat) -> Seq<T>
    decreases rk,
{
    if rk == 0 {
        Seq::empty()
    } else {
        rect_seq(g, r0, (rk - 1) as nat, c0, ck) + Seq::new(ck, |j: int| g[r0 + rk - 1][c0 + j])
    }
}

/// The cells of the clamped rectangle around p, row-major, p itself included.
pub open spec fn neighborhood_seq<T>(g: Seq<Seq<T>>, p: CellPosition, n: int) -> Seq<T> {
    rect_seq(
        g,
        clamp_lo(p.row_index as int),
        rect_height(p, n),
        clamp_lo(p.col_index as int),
        rect_width(p, n),
    )
}

pub proof fn lemma_rect_seq_len<T>(g: Seq<Seq<T>>, r0: int, rk: nat, c0: int, ck: nat)
    ensures
        rect_seq(g, r0, rk, c0, ck).len() == rk * ck,
    decreases rk,
{
    if rk > 0 {
        lemma_rect_seq_len(g, r0, (rk - 1) as nat, c0, ck);
        assert((rk - 1) * ck + ck == rk * ck) by (nonlinear_arith);
    } else {
        assert(rk * ck == 0) by (nonlinear_arith)
            requires rk == 0;
    }
}

/// Row-major indexing: the element of the box at row offset i and column
/// offset j stands at index i * ck + j.
pub proof fn lemma_rect_seq_index<T>(g: Seq<Seq<T>>, r0: int, rk: nat, c0: int, ck: nat, i: int, j: int)
    requires
        0 <= i < rk,
        0 <= j < ck,
    ensures
        0 <= i * ck + j < rk * ck,
        rect_seq(g, r0, rk, c0, ck)[i * ck + j] == g[r0 + i][c0 + j],
    decreases rk,
{
    lemma_rect_seq_len(g, r0, (rk - 1) as nat, c0, ck);
    if i == rk - 1 {
        assert(i * ck + j - (rk - 1) * ck == j);
        assert(i * ck + j < rk * ck) by (nonlinear_arith)
            requires i == rk - 1 && 0 <= j < ck;
    } else {
        lemma_rect_seq_index(g, r0, (rk - 1) as nat, c0, ck, i, j);
        assert(i * ck + j < (rk - 1) * ck) by (nonlinear_arith)
            requires 0 <= i < rk - 1 && 0 <= j < ck;
        assert((rk - 1) * ck <= rk * ck) by (nonlinear_arith)
            requires rk >= 1 && ck >= 0;
    }
}

/// Inverse of row-major indexing: every index k of the box sequence comes
/// from one row offset and one column offset.
pub proof fn lemma_rect_seq_at<T>(g: Seq<Seq<T>>, r0: int, rk: nat, c0: int, ck: nat, k: int) -> (ij: (
    int,
    int,
))
    requires
        0 <= k < rect_seq(g, r0, rk, c0, ck).len(),
    ensures
        0 <= ij.0 < rk,
        0 <= ij.1 < ck,
        k == ij.0 * ck + ij.1,
        rect_seq(g, r0, rk, c0, ck)[k] == g[r0 + ij.0][c0 + ij.1],
    decreases rk,
{
    lemma_rect_seq_len(g, r0, rk, c0, ck);
    lemma_rect_seq_len(g, r0, (rk - 1) as nat, c0, ck);
    if k < (rk - 1) * ck {
        let ij = lemma_rect_seq_at(g, r0, (rk - 1) as nat, c0, ck, k);
        ij
    } else {
        let j = k - (rk - 1) * ck;
        assert(j < ck) by (nonlinear_arith)
            requires k < rk * ck && j == k - (rk - 1) * ck && rk >= 1;
        ((rk - 1) as int, j)
    }
}

// ---------- counting over the enumeration ----------

/// Number of true entries of a boolean sequence.
pub open spec fn count_true(s: Seq<bool>) -> nat
    decreases s.len(),
{
    if s.len() == 0 {
        0
    } else {
        count_true(s.drop_last()) + if s.last() {
            1nat
        } else {
            0nat
        }
    }
}

pub proof fn lemma_count_true_app(a: Seq<bool>, b: Seq<bool>)
    ensures
        count_true(a + b) == count_true(a) + count_true(b),
    decreases b.len(),
{
    if b.len() == 0 {
        assert(a + b =~= a);
    } else {
        assert((a + b).drop_last() =~= a + b.drop_last());
        lemma_count_true_app(a, b.drop_last());
    }
}

pub proof fn lemma_count_true_seg(g: Seq<Seq<bool>>, r: int, c0: int, k: nat)
    ensures
        count_true(Seq::new(k, |j: int| g[r][c0 + j])) == count_row(g, r, c0, k),
    decreases k,
{
    if k > 0 {
        let s = Seq::new(k, |j: int| g[r][c0 + j]);
        assert(s.drop_last() =~= Seq::new((k - 1) as nat, |j: int| g[r][c0 + j]));
        lemma_count_true_seg(g, r, c0, (k - 1) as nat);
    }
}

/// The count of true entries in the row-major enumeration of a box equals
/// the two-dimensional count over the box.
pub proof fn lemma_count_true_rect(g: Seq<Seq<bool>>, r0: int, rk: nat, c0: int, ck: nat)
    ensures
        count_true(rect_seq(g, r0, rk, c0, ck)) == count_box(g, r0, rk, c0, ck),
    decreases rk,
{
    if rk > 0 {
        lemma_count_true_rect(g, r0, (rk - 1) as nat, c0, ck);
        lemma_count_true_app(
            rect_seq(g, r0, (rk - 1) as nat, c0, ck),
            Seq::new(ck, |j: int| g[r0 + rk - 1][c0 + j]),
        );
        lemma_count_true_seg(g, r0 + rk - 1, c0, ck);
    }
}

// ---------- executable neighborhood enumeration ----------

/// The grid elements adjacent to `position`, diagonals and the element at
/// `position` itself included, clamped to the grid bounds, row-major.
#[verifier::loop_isolation(false)]
pub fn get_cells_around<T: Copy>(grid: &Vec<Vec<T>>, position: CellPosition) -> (around: Vec<T>)
    requires
        grid@.len() >= 1,
        grid_square(grid_view(grid), grid@.len() as int),
        (position.row_index as int) < grid@.len(),
        (position.col_index as int) < grid@.len(),
    ensures
        around@ == neighborhood_seq(grid_view(grid), position, grid@.len() as int),
{
    let n = grid.len();
    let min_row = if position.row_index > 0 {
        position.row_index - 1
    } else {
        0
    };
    let max_row = if position.row_index < n - 1 {
        position.row_index + 1
    } else {
        n - 1
    };
    let min_col = if position.col_index > 0 {
        position.col_index - 1
    } else {
        0
    };
    let max_col = if position.col_index < n - 1 {
        position.col_index + 1
    } else {
        n - 1
    };
    let ghost g = grid_view(grid);
    let ghost ck = rect_width(position, n as int);
    let mut around: Vec<T> = Vec::new();
    let mut r = min_row;
    while r <= max_row
        invariant
            min_row <= r <= max_row + 1,
            around@ == rect_seq(g, min_row as int, (r - min_row) as nat, min_col as int, ck),
        decreases max_row + 1 - r,
    {
        let mut c = min_col;
        while c <= max_col
            invariant
                min_col <= c <= max_col + 1,
                min_row <= r <= max_row,
                around@ == rect_seq(g, min_row as int, (r - min_row) as nat, min_col as int, ck)
                    + Seq::new((c - min_col) as nat, |j: int| g[r as int][min_col + j]),
            decreases max_col + 1 - c,
    {
            around.push(grid[r][c]);
            proof {
                assert(Seq::new((c + 1 - min_col) as nat, |j: int| g[r as int][min_col + j])
                    =~= Seq::new((c - min_col) as nat, |j: int| g[r as int][min_col + j]).push(
                    g[r as int][c as int],
                ));
                assert(around@ == rect_seq(g, min_row as int, (r - min_row) as nat, min_col as int, ck)
                    + Seq::new((c + 1 - min_col) as nat, |j: int| g[r as int][min_col + j]));
            }
            c = c + 1;
        }
        proof {
            assert(Seq::new(ck, |j: int| g[r as int][min_col + j]) =~= Seq::new(
                (c - min_col) as nat,
                |j: int| g[r as int][min_col + j],
            ));
            assert(rect_seq(g, min_row as int, (r + 1 - min_row) as nat, min_col as int, ck)
                == rect_seq(g, min_row as int, (r - min_row) as nat, min_col as int, ck) + Seq::new(
                ck,
                |j: int| g[r as int][min_col + j],
            ));
        }
        r = r + 1;
    }
    around
}

/// How many entries of the boolean mine grid are true in the clamped
/// rectangle around `position`, the entry at `position` itself included.
#[verifier::loop_isolation(false)]
pub fn get_bombs_around(grid: &Vec<Vec<bool>>, position: CellPosition) -> (count: u8)
    requires
        grid@.len() >= 1,
        grid_square(grid_view(grid), grid@.len() as int),
        (position.row_index as int) < grid@.len(),
        (position.col_index as int) < grid@.len(),
    ensures
        count as nat == mines_in_rect(grid_view(grid), position, grid@.len() as int),
        count <= 9,
{
    let around = get_cells_around(grid, position);
    let ghost g = grid_view(grid);
    let ghost n = grid@.len() as int;
    proof {
        lemma_rect_seq_len(
            g,
            clamp_lo(position.row_index as int),
            rect_height(position, n),
            clamp_lo(position.col_index as int),
            rect_width(position, n),
        );
        assert(rect_height(position, n) * rect_width(position, n) <= 9) by (nonlinear_arith)
            requires rect_height(position, n) <= 3 && rect_width(position, n) <= 3;
        lemma_count_true_rect(
            g,
            clamp_lo(position.row_index as int),
            rect_height(position, n),
            clamp_lo(position.col_index as int),
            rect_width(position, n),
        );
    }
    let mut count: u8 = 0;
    let mut k: usize = 0;
    while k < around.len()
        invariant
            0 <= k <= around@.len(),
            count as nat == count_true(around@.take(k as int)),
            count as int <= k,
        decreases around@.len() - k,
    {
        if around[k] {
            count = count + 1;
        }
        proof {
            assert(around@.take(k + 1).drop_last() =~= around@.take(k as int));
            assert(around@.take(k + 1).last() == around@[k as int]);
        }
        k = k + 1;
    }
    proof {
        assert(around@.take(around@.len() as int) =~= around@);
    }
    count
}

} // verus!
