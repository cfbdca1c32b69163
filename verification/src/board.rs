//! The board: an n-by-n matrix of cells built from a boolean mine grid,
//! mutated in place by the recursive clear operation, and queried for the
//! win condition and for display.

use crate::cell::{spec_glyph, Cell, CellState};
use crate::neighborhood::{
    clamp_lo, count_box, get_cells_around, grid_square, grid_view, in_rect, lemma_count_box_congr,
    lemma_count_box_diff1, lemma_count_box_le, lemma_count_box_mono, lemma_count_box_strict,
    lemma_count_box_zero, lemma_rect_seq_at, lemma_rect_seq_index, mines_in_rect, rect_height,
    rect_width,
};
use crate::position::CellPosition;
use vstd::pervasive::unreached;
use vstd::prelude::*;
use vstd::string::StringExecFns;

verus! {

/// Why a clear request was rejected. `ClearedBomb` is the loss signal; the
/// other two leave the board unchanged and the turn is simply retried.
#[derive(Clone, Copy, Debug, PartialEq, Eq, Structural)]
pub enum ClearError {
    ClearedBomb,
    CellNotFound,
    AlreadyCleared,
}

/// An n-by-n matrix of cells. Invariant (`wf`): every cell records its own
/// position, its `bombs_around` equals the count of mines in its clamped
/// neighborhood, and no safe cell is both flagged and open.
pub struct Board {
    pub n: usize,
    pub cells: Vec<Vec<Cell>>,
}

impl Board {
    /// The board as a sequence of rows of cells.
    pub open spec fn grid(self) -> Seq<Seq<Cell>> {
        Seq::new(self.cells@.len() as nat, |r: int| self.cells@[r]@)
    }

    pub open spec fn size(self) -> int {
        self.n as int
    }

    pub open spec fn in_bounds(self, p: CellPosition) -> bool {
        (p.row_index as int) < self.size() && (p.col_index as int) < self.size()
    }

    pub open spec fn cell_at(self, p: CellPosition) -> Cell {
        self.grid()[p.row_index as int][p.col_index as int]
    }

    pub open spec fn is_mine(self, p: CellPosition) -> bool {
        self.cell_at(p).state is Mine
    }

    pub open spec fn is_open(self, p: CellPosition) -> bool {
        self.cell_at(p).state matches CellState::Safe { open: true, .. }
    }

    pub open spec fn is_flagged(self, p: CellPosition) -> bool {
        match self.cell_at(p).state {
            CellState::Mine { flagged } => flagged,
            CellState::Safe { flagged, .. } => flagged,
        }
    }

    /// The boolean mine grid of the board: true where the cell is a mine.
    pub open spec fn mine_grid(self) -> Seq<Seq<bool>> {
        Seq::new(
            self.n as nat,
            |r: int| Seq::new(self.n as nat, |c: int| self.grid()[r][c].state is Mine),
        )
    }

    /// The boolean open grid of the board: true where the cell is open.
    pub open spec fn open_grid(self) -> Seq<Seq<bool>> {
        Seq::new(
            self.n as nat,
            |r: int|
                Seq::new(
                    self.n as nat,
                    |c: int| self.grid()[r][c].state matches CellState::Safe { open: true, .. },
                ),
        )
    }

    /// How many cells of the board are open.
    pub open spec fn open_count(self) -> nat {
        count_box(self.open_grid(), 0, self.n as nat, 0, self.n as nat)
    }

    /// What clear may assume of every position in a traversed list: it was
    /// visited by the enclosing top-level clear, so it is in bounds and its
    /// cell is already open.
    pub open spec fn visited_ok(self, p: CellPosition) -> bool {
        self.in_bounds(p) && self.is_open(p)
    }

    pub open spec fn cell_ok(self, p: CellPosition) -> bool {
        let cell = self.cell_at(p);
        &&& cell.position == p
        &&& cell.bombs_around as nat == mines_in_rect(self.mine_grid(), p, self.size())
        &&& !(cell.state matches CellState::Safe { flagged: true, open: true })
    }

    /// Well-formedness: established by construction, preserved by `clear`.
    pub open spec fn wf(self) -> bool {
        &&& 1 <= self.n
        &&& grid_square(self.grid(), self.size())
        &&& forall|p: CellPosition| self.in_bounds(p) ==> #[trigger] self.cell_ok(p)
    }

    /// The win condition: no safe cell remains closed. Mines play no role.
    pub open spec fn spec_won(self) -> bool {
        forall|p: CellPosition|
            self.in_bounds(p) ==> !((#[trigger] self.cell_at(p)).state matches CellState::Safe {
                open: false,
                ..
            })
    }
}

/// The cell that board construction places at (i, j) for an n-by-n boolean
/// mine grid mv.
pub open spec fn built_cell(mv: Seq<Seq<bool>>, i: int, j: int, n: int) -> Cell {
    Cell {
        bombs_around: mines_in_rect(
            mv,
            CellPosition { row_index: i as usize, col_index: j as usize },
            n,
        ) as u8,
        state: if mv[i][j] {
            CellState::Mine { flagged: false }
        } else {
            CellState::Safe { flagged: false, open: false }
        },
        position: CellPosition { row_index: i as usize, col_index: j as usize },
    }
}

impl Board {
    /// Builds the cell matrix from a boolean mine grid: a pure function of
    /// the grid. Every cell starts unflagged, safe cells closed, and carries
    /// the count of mines in its clamped neighborhood.
    #[verifier::loop_isolation(false)]
    pub fn from_mines(mines: &Vec<Vec<bool>>) -> (board: Board)
        requires
            mines@.len() >= 1,
            grid_square(grid_view(mines), mines@.len() as int),
        ensures
            board.wf(),
            board.n == mines@.len(),
            board.mine_grid() == grid_view(mines),
            forall|p: CellPosition| board.in_bounds(p) ==> !(#[trigger] board.is_open(p)),
            forall|p: CellPosition| board.in_bounds(p) ==> !(#[trigger] board.is_flagged(p)),
    {
        let n = mines.len();
        let ghost mv = grid_view(mines);
        let mut cells: Vec<Vec<Cell>> = Vec::new();
        let mut r: usize = 0;
        while r < n
            invariant
                0 <= r <= n,
                cells@.len() == r,
                forall|i: int| 0 <= i < r ==> (#[trigger] cells@[i]@).len() == n,
                forall|i: int, j: int|
                    0 <= i < r && 0 <= j < n ==> cells@[i]@[j] == #[trigger] built_cell(
                        mv,
                        i,
                        j,
                        n as int,
                    ),
            decreases n - r,
        {
            let mut row: Vec<Cell> = Vec::new();
            let mut c: usize = 0;
            while c < n
                invariant
                    0 <= c <= n,
                    r < n,
                    row@.len() == c,
                    forall|j: int|
                        0 <= j < c ==> row@[j] == #[trigger] built_cell(mv, r as int, j, n as int),
                decreases n - c,
            {
                let is_bomb = mines[r][c];
                row.push(Cell::new(r, c, mines, is_bomb));
                c = c + 1;
            }
            cells.push(row);
            r = r + 1;
        }
        let board = Board { n, cells };
        proof {
            assert forall|i: int| 0 <= i < n implies (#[trigger] board.mine_grid()[i]) =~= mv[i] by {
                assert(mv[i].len() == n);
                assert(board.mine_grid()[i].len() == n);
                assert forall|j: int| 0 <= j < n implies board.mine_grid()[i][j] == mv[i][j] by {
                    assert(board.grid()[i][j] == built_cell(mv, i, j, n as int));
                }
            }
            assert(board.mine_grid() =~= mv);
            assert forall|p: CellPosition|
                board.in_bounds(p) implies !(#[trigger] board.is_open(p)) by {
                assert(board.cell_at(p) == built_cell(
                    mv,
                    p.row_index as int,
                    p.col_index as int,
                    n as int,
                ));
            }
            assert forall|p: CellPosition|
                board.in_bounds(p) implies !(#[trigger] board.is_flagged(p)) by {
                assert(board.cell_at(p) == built_cell(
                    mv,
                    p.row_index as int,
                    p.col_index as int,
                    n as int,
                ));
            }
            assert forall|p: CellPosition| board.in_bounds(p) implies #[trigger] board.cell_ok(p) by {
                assert(board.cell_at(p) == built_cell(
                    mv,
                    p.row_index as int,
                    p.col_index as int,
                    n as int,
                ));
                crate::neighborhood::lemma_mines_in_rect_le(mv, p, n as int);
            }
        }
        board
    }

    /// A fresh n-by-n board over a randomly generated mine layout: mine
    /// cells where the layout drew a mine, everything closed and unflagged.
    pub fn new(n: usize) -> (board: Board)
        requires
            n >= 1,
        ensures
            board.wf(),
            board.n == n,
            forall|p: CellPosition| board.in_bounds(p) ==> !(#[trigger] board.is_open(p)),
            forall|p: CellPosition| board.in_bounds(p) ==> !(#[trigger] board.is_flagged(p)),
    {
        let bombs = crate::generator::generate_bombs(n);
        Board::from_mines(&bombs)
    }

    /// Looks the position up in the matrix, a bounds check on both indices:
    /// a mutable borrow of the cell there, or None when out of bounds.
    pub fn get_cell_mut(&mut self, position: CellPosition) -> (cell: Option<&mut Cell>)
        requires
            old(self).wf(),
        ensures
            cell is Some <==> old(self).in_bounds(position),
            cell is None ==> *final(self) == *old(self),
            cell is Some ==> *cell.unwrap() == old(self).cell_at(position) && final(self).n == old(
                self,
            ).n && final(self).grid() == old(self).grid().update(
                position.row_index as int,
                old(self).grid()[position.row_index as int].update(
                    position.col_index as int,
                    *final(cell.unwrap()),
                ),
            ),
    {
        if position.row_index < self.cells.len() {
            let row_len = self.cells[position.row_index].len();
            if position.col_index < row_len {
                Some(&mut self.cells[position.row_index][position.col_index])
            } else {
                None
            }
        } else {
            None
        }
    }

    /// True exactly when no safe cell remains closed: opening every safe
    /// cell is both necessary and sufficient to win, whatever the flagged
    /// or open status of the mines.
    #[verifier::loop_isolation(false)]
    pub fn is_won(&self) -> (won: bool)
        requires
            self.wf(),
        ensures
            won == self.spec_won(),
    {
        let n = self.n;
        let mut r: usize = 0;
        while r < n
            invariant
                0 <= r <= n,
                forall|p: CellPosition|
                    self.in_bounds(p) && (p.row_index as int) < r ==> !((
                    #[trigger] self.cell_at(p)).state matches CellState::Safe {
                        open: false,
                        ..
                    }),
            decreases n - r,
        {
            let mut c: usize = 0;
            while c < n
                invariant
                    0 <= c <= n,
                    r < n,
                    forall|p: CellPosition|
                        self.in_bounds(p) && (p.row_index as int) < r ==> !((
                        #[trigger] self.cell_at(p)).state matches CellState::Safe {
                            open: false,
                            ..
                        }),
                    forall|p: CellPosition|
                        self.in_bounds(p) && p.row_index as int == r && (p.col_index as int) < c
                            ==> !((#[trigger] self.cell_at(p)).state matches CellState::Safe {
                            open: false,
                            ..
                        }),
                decreases n - c,
            {
                proof {
                    assert(self.grid().len() == self.n);
                    assert(self.grid()[r as int].len() == self.n);
                }
                match self.cells[r][c].state {
                    CellState::Safe { open: false, .. } => {
                        proof {
                            let p = CellPosition { row_index: r, col_index: c };
                            assert(self.cell_at(p).state matches CellState::Safe {
                                open: false,
                                ..
                            });
                        }
                        return false;
                    },
                    _ => {},
                }
                c = c + 1;
            }
            r = r + 1;
        }
        true
    }
}

/// The first k glyphs of one row, joined by single spaces.
pub open spec fn row_text(row: Seq<Cell>, k: nat) -> Seq<char>
    decreases k,
{
    if k == 0 {
        Seq::empty()
    } else if k == 1 {
        seq![spec_glyph(row[0])]
    } else {
        row_text(row, (k - 1) as nat) + seq![' ', spec_glyph(row[k - 1])]
    }
}

/// The first k rows of the board's display text, rows joined by newlines.
pub open spec fn board_text(g: Seq<Seq<Cell>>, n: nat, k: nat) -> Seq<char>
    decreases k,
{
    if k == 0 {
        Seq::empty()
    } else if k == 1 {
        row_text(g[0], n)
    } else {
        board_text(g, n, (k - 1) as nat) + seq!['\n'] + row_text(g[k - 1], n)
    }
}

impl Board {
    /// The display text: one glyph per cell, cells of a row joined by a
    /// single space, rows joined by a newline.
    #[verifier::loop_isolation(false)]
    pub fn to_text(&self) -> (text: String)
        requires
            self.wf(),
        ensures
            text@ == board_text(self.grid(), self.n as nat, self.n as nat),
    {
        proof {
            reveal_strlit(" ");
            reveal_strlit("\n");
        }
        let n = self.n;
        let mut text = String::new();
        let mut r: usize = 0;
        while r < n
            invariant
                0 <= r <= n,
                text@ == board_text(self.grid(), n as nat, r as nat),
            decreases n - r,
        {
            if r > 0 {
                text.append("\n");
            }
            let mut c: usize = 0;
            while c < n
                invariant
                    0 <= c <= n,
                    0 <= r < n,
                    text@ == board_text(self.grid(), n as nat, r as nat) + (if r > 0 {
                        seq!['\n']
                    } else {
                        Seq::<char>::empty()
                    }) + row_text(self.grid()[r as int], c as nat),
                decreases n - c,
            {
                if c > 0 {
                    text.append(" ");
                }
                proof {
                    assert(self.grid().len() == self.n);
                    assert(self.grid()[r as int].len() == self.n);
                    let p = CellPosition { row_index: r, col_index: c };
                    assert(self.cell_ok(p));
                    crate::neighborhood::lemma_mines_in_rect_le(
                        self.mine_grid(),
                        p,
                        self.size(),
                    );
                    assert(self.cells[r as int][c as int] == self.cell_at(p));
                }
                let cell = self.cells[r][c];
                let glyph = cell.glyph();
                text.append(glyph);
                proof {
                    let row = self.grid()[r as int];
                    if c == 0 {
                        assert(row_text(row, 1) =~= seq![spec_glyph(row[0])]);
                    } else {
                        assert(row_text(row, (c + 1) as nat) == row_text(row, c as nat) + seq![
                            ' ',
                            spec_glyph(row[c as int]),
                        ]);
                    }
                    assert(text@ =~= board_text(self.grid(), n as nat, r as nat) + (if r > 0 {
                        seq!['\n']
                    } else {
                        Seq::<char>::empty()
                    }) + row_text(row, (c + 1) as nat));
                }
                c = c + 1;
            }
            proof {
                if r == 0 {
                    assert(board_text(self.grid(), n as nat, 1) == row_text(self.grid()[0], n as nat));
                } else {
                    assert(board_text(self.grid(), n as nat, (r + 1) as nat) == board_text(
                        self.grid(),
                        n as nat,
                        r as nat,
                    ) + seq!['\n'] + row_text(self.grid()[r as int], n as nat));
                }
                assert(text@ =~= board_text(self.grid(), n as nat, (r + 1) as nat));
            }
            r = r + 1;
        }
        text
    }
}

/// How one cell may change under clear: unchanged, or a closed safe cell
/// opened with its flag cleared.
pub open spec fn cell_step(a: Cell, b: Cell) -> bool {
    ||| b == a
    ||| (a.state matches CellState::Safe { open: false, .. } && b == (Cell {
        bombs_around: a.bombs_around,
        state: CellState::Safe { flagged: false, open: true },
        position: a.position,
    }))
}

/// The mutation relation of clear: the board keeps its shape, and every
/// cell either stays as it was or opens from a closed safe state. In
/// particular mines, positions and neighbor counts never change.
pub open spec fn opens_only(pre: Board, post: Board) -> bool {
    &&& post.n == pre.n
    &&& post.grid().len() == pre.grid().len()
    &&& forall|r: int|
        0 <= r < pre.grid().len() ==> (#[trigger] post.grid()[r]).len() == pre.grid()[r].len()
    &&& forall|p: CellPosition|
        pre.in_bounds(p) ==> cell_step(pre.cell_at(p), #[trigger] post.cell_at(p))
}

/// Every cell of b in the clamped neighborhood of p is open.
pub open spec fn rect_open(b: Board, p: CellPosition) -> bool {
    forall|q: CellPosition| b.in_bounds(q) && in_rect(p, q, b.size()) ==> #[trigger] b.is_open(q)
}

/// Completeness of the flood fill: every cell that the call newly opened
/// and whose neighbor count is zero has its whole clamped neighborhood
/// open afterwards.
pub open spec fn expansion_complete(pre: Board, post: Board) -> bool {
    forall|p: CellPosition|
        pre.in_bounds(p) && !pre.is_open(p) && #[trigger] post.is_open(p) && post.cell_at(
            p,
        ).bombs_around == 0 ==> rect_open(post, p)
}

pub proof fn lemma_opens_only_trans(a: Board, b: Board, c: Board)
    requires
        opens_only(a, b),
        opens_only(b, c),
    ensures
        opens_only(a, c),
{
    assert forall|p: CellPosition| a.in_bounds(p) implies cell_step(
        a.cell_at(p),
        #[trigger] c.cell_at(p),
    ) by {
        assert(b.in_bounds(p));
        assert(cell_step(a.cell_at(p), b.cell_at(p)));
        assert(cell_step(b.cell_at(p), c.cell_at(p)));
    }
}

/// Clear's mutation keeps the board well-formed, and keeps its mine grid.
pub proof fn lemma_opens_only_wf(pre: Board, post: Board)
    requires
        pre.wf(),
        opens_only(pre, post),
    ensures
        post.wf(),
        post.mine_grid() == pre.mine_grid(),
{
    assert forall|i: int| 0 <= i < post.n implies (#[trigger] post.mine_grid()[i]) =~= pre.mine_grid()[i] by {
        assert forall|j: int| 0 <= j < post.n implies post.mine_grid()[i][j] == pre.mine_grid()[i][j] by {
            let p = CellPosition { row_index: i as usize, col_index: j as usize };
            assert(pre.in_bounds(p));
            assert(cell_step(pre.cell_at(p), post.cell_at(p)));
        }
    }
    assert(post.mine_grid() =~= pre.mine_grid());
    assert forall|p: CellPosition| post.in_bounds(p) implies #[trigger] post.cell_ok(p) by {
        assert(pre.in_bounds(p));
        assert(pre.cell_ok(p));
        assert(cell_step(pre.cell_at(p), post.cell_at(p)));
    }
}

/// Opening cells never lowers the count of open cells.
pub proof fn lemma_opens_only_open_count(pre: Board, post: Board)
    requires
        opens_only(pre, post),
    ensures
        pre.open_count() <= post.open_count(),
{
    assert forall|i: int, j: int|
        0 <= i < pre.n && 0 <= j < pre.n && #[trigger] pre.open_grid()[i][j] implies post.open_grid()[i][j] by {
        let p = CellPosition { row_index: i as usize, col_index: j as usize };
        assert(pre.in_bounds(p));
        assert(cell_step(pre.cell_at(p), post.cell_at(p)));
    }
    lemma_count_box_mono(pre.open_grid(), post.open_grid(), 0, pre.n as nat, 0, pre.n as nat);
}

/// Opening at least one cell, at the witness position w, raises the count
/// of open cells strictly.
pub proof fn lemma_opens_only_strict(pre: Board, post: Board, w: CellPosition)
    requires
        opens_only(pre, post),
        pre.in_bounds(w),
        !pre.is_open(w),
        post.is_open(w),
    ensures
        pre.open_count() < post.open_count(),
{
    assert forall|i: int, j: int|
        0 <= i < pre.n && 0 <= j < pre.n && #[trigger] pre.open_grid()[i][j] implies post.open_grid()[i][j] by {
        let p = CellPosition { row_index: i as usize, col_index: j as usize };
        assert(pre.in_bounds(p));
        assert(cell_step(pre.cell_at(p), post.cell_at(p)));
    }
    assert(!pre.open_grid()[w.row_index as int][w.col_index as int]);
    assert(post.open_grid()[w.row_index as int][w.col_index as int]);
    lemma_count_box_strict(
        pre.open_grid(),
        post.open_grid(),
        0,
        pre.n as nat,
        0,
        pre.n as nat,
        w.row_index as int,
        w.col_index as int,
    );
}

/// Whether the traversed list already holds the position.
#[verifier::loop_isolation(false)]
fn contains_position(list: &Vec<CellPosition>, p: CellPosition) -> (found: bool)
    ensures
        found == list@.contains(p),
{
    let mut k: usize = 0;
    while k < list.len()
        invariant
            0 <= k <= list@.len(),
            forall|i: int| 0 <= i < k ==> list@[i] != p,
        decreases list@.len() - k,
    {
        if list[k] == p {
            return true;
        }
        k = k + 1;
    }
    false
}

/// A copy of a traversed list, holding the same positions in order.
#[verifier::loop_isolation(false)]
fn copied_positions(list: &Vec<CellPosition>) -> (out: Vec<CellPosition>)
    ensures
        out@ == list@,
{
    let mut out: Vec<CellPosition> = Vec::new();
    let mut k: usize = 0;
    while k < list.len()
        invariant
            0 <= k <= list@.len(),
            out@ == list@.take(k as int),
        decreases list@.len() - k,
    {
        out.push(list[k]);
        proof {
            assert(list@.take(k + 1) =~= list@.take(k as int).push(list@[k as int]));
        }
        k = k + 1;
    }
    proof {
        assert(list@.take(list@.len() as int) =~= list@);
    }
    out
}

pub proof fn lemma_open_count_le(b: Board)
    ensures
        b.open_count() <= b.n * b.n,
{
    lemma_count_box_le(b.open_grid(), 0, b.n as nat, 0, b.n as nat);
}

/// The boolean grid g with the entry at p cleared.
pub open spec fn without_center(g: Seq<Seq<bool>>, p: CellPosition) -> Seq<Seq<bool>> {
    g.update(p.row_index as int, g[p.row_index as int].update(p.col_index as int, false))
}

/// For every position of a well-formed board that does not itself hold a
/// mine, the stored neighbor count equals the exact number of mines among
/// the clamped 3x3 neighborhood excluding the cell itself, and is at most
/// 8. (A mine cell counts its own mine too, so the bound can reach 9
/// there; the stored count still equals the full rectangle count.)
pub proof fn lemma_neighbor_count_exact(b: Board, p: CellPosition)
    requires
        b.wf(),
        b.in_bounds(p),
        !b.is_mine(p),
    ensures
        b.cell_at(p).bombs_around as nat == mines_in_rect(
            without_center(b.mine_grid(), p),
            p,
            b.size(),
        ),
        b.cell_at(p).bombs_around <= 8,
{
    let g = b.mine_grid();
    let gc = without_center(g, p);
    let pr = p.row_index as int;
    let pc = p.col_index as int;
    let r0 = clamp_lo(pr);
    let c0 = clamp_lo(pc);
    let rh = rect_height(p, b.size());
    let cw = rect_width(p, b.size());
    assert(b.cell_ok(p));
    assert(!g[pr][pc]);
    assert forall|i: int, j: int|
        r0 <= i < r0 + rh && c0 <= j < c0 + cw implies #[trigger] gc[i][j] == g[i][j] by {}
    lemma_count_box_congr(gc, g, r0, rh, c0, cw);
    let gt = g.update(pr, g[pr].update(pc, true));
    assert forall|i: int, j: int|
        r0 <= i < r0 + rh && c0 <= j < c0 + cw && !(i == pr && j == pc) implies #[trigger] g[i][j]
        == gt[i][j] by {}
    lemma_count_box_diff1(g, gt, r0, rh, c0, cw, pr, pc);
    lemma_count_box_le(gt, r0, rh, c0, cw);
    assert(rh * cw <= 9) by (nonlinear_arith)
        requires rh <= 3 && cw <= 3;
}

/// Neighbor counts are fixed at construction: no clear changes any cell's
/// `bombs_around`, and no cell moves or changes between mine and safe.
pub proof fn lemma_counts_stable(pre: Board, post: Board, p: CellPosition)
    requires
        opens_only(pre, post),
        pre.in_bounds(p),
    ensures
        post.cell_at(p).bombs_around == pre.cell_at(p).bombs_around,
        post.cell_at(p).position == pre.cell_at(p).position,
        post.is_mine(p) == pre.is_mine(p),
{
    assert(cell_step(pre.cell_at(p), post.cell_at(p)));
}

/// No reachable board has a safe cell both flagged and open: construction
/// establishes well-formedness, clear preserves it, and a well-formed
/// board has no such cell.
pub proof fn lemma_no_flag_open_conflict(b: Board, p: CellPosition)
    requires
        b.wf(),
        b.in_bounds(p),
    ensures
        !(b.cell_at(p).state matches CellState::Safe { flagged: true, open: true }),
{
    assert(b.cell_ok(p));
}

/// A mine cell is never touched by clear's mutation: in particular it
/// never becomes open.
pub proof fn lemma_mines_never_open(pre: Board, post: Board, p: CellPosition)
    requires
        opens_only(pre, post),
        pre.in_bounds(p),
        pre.is_mine(p),
    ensures
        post.cell_at(p) == pre.cell_at(p),
        !post.is_open(p),
{
    assert(cell_step(pre.cell_at(p), post.cell_at(p)));
}

/// Clear idempotence on the success path: after a clear has opened a
/// closed safe cell (the postcondition of its Ok case), the same position
/// meets exactly the precondition under which the clear contract forces
/// `Err(AlreadyCleared)` with the board unchanged, so a second clear of
/// that position cannot succeed and cannot mutate.
pub proof fn lemma_clear_then_already_cleared(pre: Board, post: Board, position: CellPosition)
    requires
        pre.wf(),
        pre.in_bounds(position),
        !pre.is_mine(position),
        !pre.is_open(position),
        opens_only(pre, post),
        post.is_open(position),
    ensures
        post.in_bounds(position),
        !post.is_mine(position),
        post.is_open(position),
{
    assert(cell_step(pre.cell_at(position), post.cell_at(position)));
}

/// Walking distance between two positions: how many single-cell steps of
/// the reachability argument separate them.
pub open spec fn walk_dist(a: CellPosition, b: CellPosition) -> int {
    (if a.row_index >= b.row_index {
        a.row_index - b.row_index
    } else {
        b.row_index - a.row_index
    }) + (if a.col_index >= b.col_index {
        a.col_index - b.col_index
    } else {
        b.col_index - a.col_index
    })
}

/// On a board where every open cell has its whole clamped neighborhood
/// open, openness spreads from one open cell to every cell: walk the grid
/// one neighbor step at a time.
pub proof fn lemma_reach_open(b: Board, from: CellPosition, to: CellPosition)
    requires
        b.wf(),
        b.in_bounds(from),
        b.in_bounds(to),
        b.is_open(from),
        forall|p: CellPosition| b.in_bounds(p) && #[trigger] b.is_open(p) ==> rect_open(b, p),
    ensures
        b.is_open(to),
    decreases walk_dist(from, to),
{
    if from != to {
        let fr = from.row_index as int;
        let fc = from.col_index as int;
        let tr = to.row_index as int;
        let tc = to.col_index as int;
        let nr: int = if fr < tr {
            fr + 1
        } else if fr > tr {
            fr - 1
        } else {
            fr
        };
        let nc: int = if fr != tr {
            fc
        } else if fc < tc {
            fc + 1
        } else {
            fc - 1
        };
        let next = CellPosition { row_index: nr as usize, col_index: nc as usize };
        assert(rect_open(b, from));
        assert(b.in_bounds(next));
        assert(in_rect(from, next, b.size()));
        assert(b.is_open(next));
        assert(walk_dist(next, to) < walk_dist(from, to));
        lemma_reach_open(b, next, to);
    }
}

/// On a well-formed, fully closed board entirely free of mines, a clear
/// that opened its target cell opened every cell: the game is won.
/// (Termination of the clear itself is part of its own verification.)
pub proof fn lemma_mine_free_clear_wins(pre: Board, post: Board, position: CellPosition)
    requires
        pre.wf(),
        post.wf(),
        forall|p: CellPosition| pre.in_bounds(p) ==> !(#[trigger] pre.is_mine(p)),
        forall|p: CellPosition| pre.in_bounds(p) ==> !(#[trigger] pre.is_open(p)),
        pre.in_bounds(position),
        opens_only(pre, post),
        post.is_open(position),
        expansion_complete(pre, post),
    ensures
        post.spec_won(),
{
    assert forall|p: CellPosition|
        post.in_bounds(p) && #[trigger] post.is_open(p) implies rect_open(post, p) by {
        assert(pre.in_bounds(p));
        assert(pre.cell_ok(p));
        let r0 = clamp_lo(p.row_index as int);
        let c0 = clamp_lo(p.col_index as int);
        let rh = rect_height(p, pre.size());
        let cw = rect_width(p, pre.size());
        assert forall|i: int, j: int|
            r0 <= i < r0 + rh && c0 <= j < c0 + cw implies !(#[trigger] pre.mine_grid()[i][j]) by {
            let q = CellPosition { row_index: i as usize, col_index: j as usize };
            assert(pre.in_bounds(q));
            assert(!pre.is_mine(q));
        }
        lemma_count_box_zero(pre.mine_grid(), r0, rh, c0, cw);
        assert(mines_in_rect(pre.mine_grid(), p, pre.size()) == 0);
        assert(pre.cell_at(p).bombs_around == 0);
        assert(cell_step(pre.cell_at(p), post.cell_at(p)));
        assert(post.cell_at(p).bombs_around == 0);
    }
    assert forall|q: CellPosition|
        post.in_bounds(q) implies !((#[trigger] post.cell_at(q)).state matches CellState::Safe {
        open: false,
        ..
    }) by {
        lemma_reach_open(post, position, q);
    }
}

pub proof fn lemma_opens_only_refl(b: Board)
    ensures
        opens_only(b, b),
{
    assert forall|p: CellPosition| b.in_bounds(p) implies cell_step(
        b.cell_at(p),
        #[trigger] b.cell_at(p),
    ) by {}
}

impl Board {
    /// Clears the cell at `position`: the recursive reveal operation.
    ///
    /// A position already in `traversed` succeeds without further action.
    /// An out-of-bounds position fails with `CellNotFound`, a mine with
    /// `ClearedBomb` (the loss signal), an open safe cell with
    /// `AlreadyCleared`; each failure leaves the board unchanged. A closed
    /// safe cell opens, with its flag cleared, and when its neighbor count
    /// is zero the clear recurses over its whole clamped neighborhood,
    /// absorbing `AlreadyCleared` from the recursive calls; the other two
    /// errors cannot reach a recursive call on a well-formed board.
    #[verifier::loop_isolation(false)]
    pub fn clear(&mut self, position: CellPosition, traversed: &Vec<CellPosition>) -> (result:
        Result<(), ClearError>)
        requires
            old(self).wf(),
            forall|k: int|
                0 <= k < traversed@.len() ==> old(self).visited_ok(#[trigger] traversed@[k]),
        ensures
            final(self).wf(),
            opens_only(*old(self), *final(self)),
            traversed@.contains(position) ==> result is Ok && *final(self) == *old(self),
            !traversed@.contains(position) && !old(self).in_bounds(position) ==> result == Err::<
                (),
                ClearError,
            >(ClearError::CellNotFound) && *final(self) == *old(self),
            !traversed@.contains(position) && old(self).in_bounds(position) && old(self).is_mine(
                position,
            ) ==> result == Err::<(), ClearError>(ClearError::ClearedBomb) && *final(self) == *old(
                self,
            ),
            !traversed@.contains(position) && old(self).in_bounds(position) && !old(self).is_mine(
                position,
            ) && old(self).is_open(position) ==> result == Err::<(), ClearError>(
                ClearError::AlreadyCleared,
            ) && *final(self) == *old(self),
            !traversed@.contains(position) && old(self).in_bounds(position) && !old(self).is_mine(
                position,
            ) && !old(self).is_open(position) ==> result is Ok && final(self).is_open(position),
            !traversed@.contains(position) && old(self).in_bounds(position) && !old(self).is_mine(
                position,
            ) && !old(self).is_open(position) && old(self).cell_at(position).bombs_around != 0
                ==> forall|q: CellPosition|
                old(self).in_bounds(q) && q != position ==> final(self).cell_at(q) == old(
                    self,
                ).cell_at(q),
            result is Ok ==> expansion_complete(*old(self), *final(self)),
        decreases self.n * self.n - self.open_count(),
    {
        let ghost pre = *old(self);
        // Step 1 - cycle guard: a position visited by this top-level clear
        // succeeds with no further action.
        if contains_position(traversed, position) {
            proof {
                lemma_opens_only_refl(pre);
            }
            return Ok(());
        }
        // Step 2 - lookup: out-of-bounds coordinates name no cell.
        if !(position.row_index < self.n && position.col_index < self.n) {
            proof {
                lemma_opens_only_refl(pre);
            }
            return Err(ClearError::CellNotFound);
        }
        proof {
            assert(self.grid().len() == self.n);
            assert(self.grid()[position.row_index as int].len() == self.n);
        }
        // The neighborhood snapshot for the recursive step, taken before
        // any mutation of this call.
        let around: Vec<Cell> = get_cells_around(&self.cells, position);
        let cell0: Cell = self.cells[position.row_index][position.col_index];
        proof {
            assert(cell0 == pre.cell_at(position));
            assert(pre.cell_ok(position));
        }
        // Step 3 - state check.
        match cell0.state {
            CellState::Mine { .. } => {
                proof {
                    lemma_opens_only_refl(pre);
                }
                return Err(ClearError::ClearedBomb);
            },
            CellState::Safe { open: true, .. } => {
                proof {
                    lemma_opens_only_refl(pre);
                }
                return Err(ClearError::AlreadyCleared);
            },
            CellState::Safe { open: false, .. } => {},
        }
        let opened = Cell {
            bombs_around: cell0.bombs_around,
            state: CellState::Safe { flagged: false, open: true },
            position: cell0.position,
        };
        self.cells[position.row_index][position.col_index] = opened;
        proof {
            assert(self.grid() =~= pre.grid().update(
                position.row_index as int,
                pre.grid()[position.row_index as int].update(position.col_index as int, opened),
            ));
            assert forall|p: CellPosition| pre.in_bounds(p) && p != position implies self.cell_at(p)
                == pre.cell_at(p) by {}
            assert(opens_only(pre, *self)) by {
                assert forall|p: CellPosition| pre.in_bounds(p) implies cell_step(
                    pre.cell_at(p),
                    #[trigger] self.cell_at(p),
                ) by {
                    if p == position {
                        assert(self.cell_at(p) == opened);
                    }
                }
            }
            lemma_opens_only_wf(pre, *self);
            assert(self.is_open(position));
            lemma_opens_only_strict(pre, *self, position);
        }
        // Step 4 - recursive expansion, only from a cell with no adjacent
        // mines.
        if cell0.bombs_around == 0 {
            let ghost r0 = clamp_lo(position.row_index as int);
            let ghost c0 = clamp_lo(position.col_index as int);
            let ghost rh = rect_height(position, pre.size());
            let ghost cw = rect_width(position, pre.size());
            proof {
                assert(mines_in_rect(pre.mine_grid(), position, pre.size()) == 0);
                lemma_count_box_zero(pre.mine_grid(), r0, rh, c0, cw);
                crate::neighborhood::lemma_rect_seq_len(pre.grid(), r0, rh, c0, cw);
                assert forall|j: int| 0 <= j < around@.len() implies {
                    let q = (#[trigger] around@[j]).position;
                    &&& pre.in_bounds(q)
                    &&& in_rect(position, q, pre.size())
                    &&& !pre.is_mine(q)
                    &&& around@[j] == pre.cell_at(q)
                } by {
                    let ij = lemma_rect_seq_at(pre.grid(), r0, rh, c0, cw, j);
                    let q0 = CellPosition {
                        row_index: (r0 + ij.0) as usize,
                        col_index: (c0 + ij.1) as usize,
                    };
                    assert(pre.in_bounds(q0));
                    assert(pre.cell_ok(q0));
                    assert(around@[j] == pre.grid()[r0 + ij.0][c0 + ij.1]);
                    assert(around@[j].position == q0);
                    assert(!pre.mine_grid()[r0 + ij.0][c0 + ij.1]);
                }
            }
            let mut new_traversed = copied_positions(traversed);
            new_traversed.push(cell0.position);
            proof {
                assert(cell0.position == position);
                assert(new_traversed@ == traversed@.push(position));
            }
            let ghost mid = *self;
            proof {
                lemma_opens_only_refl(mid);
                assert forall|t: int|
                    0 <= t < new_traversed@.len() implies mid.visited_ok(
                    #[trigger] new_traversed@[t],
                ) by {
                    if t < traversed@.len() {
                        assert(pre.visited_ok(traversed@[t]));
                        assert(cell_step(
                            pre.cell_at(traversed@[t]),
                            mid.cell_at(traversed@[t]),
                        ));
                    }
                }
            }
            let mut k: usize = 0;
            while k < around.len()
                invariant
                    0 <= k <= around@.len(),
                    self.wf(),
                    self.n == pre.n,
                    opens_only(pre, *self),
                    opens_only(mid, *self),
                    pre.open_count() < self.open_count(),
                    forall|t: int|
                        0 <= t < new_traversed@.len() ==> self.visited_ok(
                            #[trigger] new_traversed@[t],
                        ),
                    forall|j: int| 0 <= j < k ==> self.is_open((#[trigger] around@[j]).position),
                    forall|p: CellPosition|
                        pre.in_bounds(p) && !pre.is_open(p) && #[trigger] self.is_open(p)
                            && self.cell_at(p).bombs_around == 0 && p != position ==> rect_open(
                            *self,
                            p,
                        ),
                decreases around@.len() - k,
            {
                let target = around[k].position;
                let ghost prev = *self;
                proof {
                    assert(pre.in_bounds(target));
                    assert(!pre.is_mine(target));
                    assert(cell_step(pre.cell_at(target), prev.cell_at(target)));
                    assert(!prev.is_mine(target));
                    lemma_open_count_le(*self);
                }
                let res = self.clear(target, &new_traversed);
                proof {
                    let cur = *self;
                    lemma_opens_only_trans(pre, prev, cur);
                    lemma_opens_only_trans(mid, prev, cur);
                    lemma_opens_only_open_count(prev, cur);
                    // the recursive call cannot report an unknown cell or a
                    // cleared mine: the target is in bounds and mine-free
                    if new_traversed@.contains(target) {
                        assert(res is Ok);
                        assert(cur.is_open(target));
                    } else {
                        if prev.is_open(target) {
                            assert(res == Err::<(), ClearError>(ClearError::AlreadyCleared));
                            assert(cur.is_open(target));
                        } else {
                            assert(res is Ok);
                            assert(cur.is_open(target));
                        }
                    }
                    assert forall|t: int|
                        0 <= t < new_traversed@.len() implies cur.visited_ok(
                        #[trigger] new_traversed@[t],
                    ) by {
                        assert(prev.visited_ok(new_traversed@[t]));
                        assert(cell_step(
                            prev.cell_at(new_traversed@[t]),
                            cur.cell_at(new_traversed@[t]),
                        ));
                    }
                    assert forall|j: int|
                        0 <= j < k + 1 implies cur.is_open(
                        (#[trigger] around@[j]).position,
                    ) by {
                        if j < k {
                            assert(prev.is_open(around@[j].position));
                            assert(cell_step(
                                prev.cell_at(around@[j].position),
                                cur.cell_at(around@[j].position),
                            ));
                        }
                    }
                    assert forall|p: CellPosition|
                        pre.in_bounds(p) && !pre.is_open(p) && #[trigger] cur.is_open(p)
                            && cur.cell_at(p).bombs_around == 0 && p != position implies rect_open(
                        cur,
                        p,
                    ) by {
                        assert(cell_step(prev.cell_at(p), cur.cell_at(p)));
                        if prev.is_open(p) {
                            assert(prev.cell_at(p).bombs_around == cur.cell_at(p).bombs_around);
                            assert(rect_open(prev, p));
                            assert forall|q: CellPosition|
                                cur.in_bounds(q) && in_rect(p, q, cur.size()) implies cur.is_open(
                                q,
                            ) by {
                                assert(prev.in_bounds(q));
                                assert(prev.is_open(q));
                                assert(cell_step(prev.cell_at(q), cur.cell_at(q)));
                            }
                        } else {
                            assert(res is Ok);
                            assert(expansion_complete(prev, cur));
                            assert(rect_open(cur, p));
                        }
                    }
                }
                match res {
                    Ok(()) => {},
                    Err(ClearError::AlreadyCleared) => {},
                    Err(ClearError::CellNotFound) => unreached(),
                    Err(ClearError::ClearedBomb) => unreached(),
                }
                k = k + 1;
            }
            proof {
                assert(rect_open(*self, position)) by {
                    assert forall|q: CellPosition|
                        self.in_bounds(q) && in_rect(position, q, self.size()) implies self.is_open(
                        q,
                    ) by {
                        let i = q.row_index as int - r0;
                        let j = q.col_index as int - c0;
                        lemma_rect_seq_index(pre.grid(), r0, rh, c0, cw, i, j);
                        assert(around@[i * cw + j] == pre.grid()[q.row_index as int][q.col_index as int]);
                        assert(pre.cell_ok(q));
                        assert(around@[i * cw + j].position == q);
                        assert(self.is_open(around@[i * cw + j].position));
                    }
                }
                assert(expansion_complete(pre, *self)) by {
                    assert forall|p: CellPosition|
                        pre.in_bounds(p) && !pre.is_open(p) && #[trigger] self.is_open(p)
                            && self.cell_at(p).bombs_around == 0 implies rect_open(*self, p) by {
                        if p == position {
                            assert(rect_open(*self, p));
                        }
                    }
                }
            }
        } else {
            proof {
                assert(expansion_complete(pre, *self)) by {
                    assert forall|p: CellPosition|
                        pre.in_bounds(p) && !pre.is_open(p) && #[trigger] self.is_open(p)
                            && self.cell_at(p).bombs_around == 0 implies rect_open(*self, p) by {
                        if p == position {
                            assert(self.cell_at(p) == opened);
                            assert(false);
                        } else {
                            assert(self.cell_at(p) == pre.cell_at(p));
                            assert(false);
                        }
                    }
                }
            }
        }
        Ok(())
    }
}

} // verus!
