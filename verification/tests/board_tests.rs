use minesweeper::board::{Board, ClearError};
use minesweeper::cell::CellState;
use minesweeper::position::CellPosition;

fn pos(row_index: usize, col_index: usize) -> CellPosition {
    CellPosition { row_index, col_index }
}

fn mines(n: usize, mine_list: &[(usize, usize)]) -> Vec<Vec<bool>> {
    let mut grid = Vec::new();
    let mut r: usize = 0;
    while r < n {
        let mut row = Vec::new();
        let mut c: usize = 0;
        while c < n {
            row.push(mine_list.contains(&(r, c)));
            c += 1;
        }
        grid.push(row);
        r += 1;
    }
    grid
}

fn is_open(board: &Board, r: usize, c: usize) -> bool {
    matches!(board.cells[r][c].state, CellState::Safe { open: true, .. })
}

#[test]
fn concrete_scenario_3x3() {
    // mines only at (0,0) and (2,2); the center has exactly two adjacent
    // mines, so clearing it opens only the center
    let grid = mines(3, &[(0, 0), (2, 2)]);
    let mut board = Board::from_mines(&grid);
    assert_eq!(board.cells[1][1].bombs_around, 2);
    let result = board.clear(pos(1, 1), &Vec::new());
    assert!(result.is_ok());
    for r in 0..3 {
        for c in 0..3 {
            assert_eq!(is_open(&board, r, c), r == 1 && c == 1);
        }
    }
}

#[test]
fn neighbor_counts_3x3() {
    let grid = mines(3, &[(0, 0), (2, 2)]);
    let board = Board::from_mines(&grid);
    assert_eq!(board.cells[0][1].bombs_around, 1);
    assert_eq!(board.cells[1][0].bombs_around, 1);
    assert_eq!(board.cells[1][2].bombs_around, 1);
    assert_eq!(board.cells[2][1].bombs_around, 1);
    assert_eq!(board.cells[1][1].bombs_around, 2);
    assert_eq!(board.cells[0][2].bombs_around, 0);
    assert_eq!(board.cells[2][0].bombs_around, 0);
    // a mine cell counts the mines of its rectangle too, itself included
    assert_eq!(board.cells[0][0].bombs_around, 1);
}

#[test]
fn clear_idempotence_on_success_path() {
    let grid = mines(3, &[(0, 0), (2, 2)]);
    let mut board = Board::from_mines(&grid);
    assert!(board.clear(pos(1, 1), &Vec::new()).is_ok());
    assert_eq!(board.clear(pos(1, 1), &Vec::new()), Err(ClearError::AlreadyCleared));
    // still open, and nothing else opened by the failed second call
    for r in 0..3 {
        for c in 0..3 {
            assert_eq!(is_open(&board, r, c), r == 1 && c == 1);
        }
    }
}

#[test]
fn cycle_termination_mine_free_board() {
    // a 5x5 board entirely free of mines: clearing any single cell
    // terminates and wins the game
    for r in 0..5 {
        for c in 0..5 {
            let grid = mines(5, &[]);
            let mut board = Board::from_mines(&grid);
            assert!(!board.is_won());
            assert!(board.clear(pos(r, c), &Vec::new()).is_ok());
            assert!(board.is_won());
        }
    }
}

#[test]
fn loss_trigger() {
    let grid = mines(3, &[(0, 0), (2, 2)]);
    let mut board = Board::from_mines(&grid);
    assert_eq!(board.clear(pos(0, 0), &Vec::new()), Err(ClearError::ClearedBomb));
    // the mine cell is untouched: still a closed, unflagged mine
    assert!(matches!(board.cells[0][0].state, CellState::Mine { flagged: false }));
    for r in 0..3 {
        for c in 0..3 {
            assert!(!is_open(&board, r, c));
        }
    }
}

#[test]
fn bounds_check() {
    let grid = mines(3, &[(0, 0)]);
    let mut board = Board::from_mines(&grid);
    assert_eq!(board.clear(pos(3, 0), &Vec::new()), Err(ClearError::CellNotFound));
    assert_eq!(board.clear(pos(0, 3), &Vec::new()), Err(ClearError::CellNotFound));
    assert_eq!(board.clear(pos(7, 9), &Vec::new()), Err(ClearError::CellNotFound));
    for r in 0..3 {
        for c in 0..3 {
            assert!(!is_open(&board, r, c));
        }
    }
}

#[test]
fn win_precondition() {
    // 2x2 with one mine: the game is won exactly when every safe cell is
    // open, whatever the mine's status
    let grid = mines(2, &[(0, 0)]);
    let mut board = Board::from_mines(&grid);
    assert!(!board.is_won());
    assert!(board.clear(pos(0, 1), &Vec::new()).is_ok());
    assert!(!board.is_won());
    assert!(board.clear(pos(1, 0), &Vec::new()).is_ok());
    assert!(!board.is_won());
    assert!(board.clear(pos(1, 1), &Vec::new()).is_ok());
    assert!(board.is_won());
}

#[test]
fn flood_fill_opens_zero_region() {
    // one mine in the corner: clearing the far corner floods every safe
    // cell, including the nonzero border around the mine
    let grid = mines(4, &[(3, 3)]);
    let mut board = Board::from_mines(&grid);
    assert_eq!(board.cells[0][0].bombs_around, 0);
    assert!(board.clear(pos(0, 0), &Vec::new()).is_ok());
    assert!(board.is_won());
    assert!(matches!(board.cells[3][3].state, CellState::Mine { flagged: false }));
    assert_eq!(board.cells[2][2].bombs_around, 1);
    assert!(is_open(&board, 2, 2));
}

#[test]
fn traversed_position_is_skipped() {
    // a position already in the traversed list succeeds with no action
    let grid = mines(3, &[(0, 0)]);
    let mut board = Board::from_mines(&grid);
    assert!(board.clear(pos(1, 1), &Vec::new()).is_ok());
    let traversed = vec![pos(2, 2)];
    assert!(board.clear(pos(2, 2), &traversed).is_ok());
    assert!(!is_open(&board, 2, 2));
}

#[test]
fn get_cell_mut_lookup() {
    let grid = mines(3, &[(0, 0)]);
    let mut board = Board::from_mines(&grid);
    let cell = board.get_cell_mut(pos(2, 1));
    assert!(cell.is_some());
    let cell = cell.unwrap();
    assert_eq!(cell.position, pos(2, 1));
    assert!(board.get_cell_mut(pos(3, 1)).is_none());
    assert!(board.get_cell_mut(pos(1, 3)).is_none());
}

#[test]
fn cell_new_from_mine_grid() {
    let grid = mines(3, &[(0, 0), (2, 2)]);
    let mine_cell = minesweeper::cell::Cell::new(0, 0, &grid, true);
    assert!(matches!(mine_cell.state, CellState::Mine { flagged: false }));
    assert_eq!(mine_cell.position, pos(0, 0));
    assert_eq!(mine_cell.bombs_around, 1);
    let safe_cell = minesweeper::cell::Cell::new(1, 1, &grid, false);
    assert!(matches!(safe_cell.state, CellState::Safe { flagged: false, open: false }));
    assert_eq!(safe_cell.bombs_around, 2);
}

#[test]
fn cells_around_enumeration() {
    let grid = mines(3, &[(0, 0), (2, 2)]);
    let center = minesweeper::neighborhood::get_cells_around(&grid, pos(1, 1));
    assert_eq!(
        center,
        vec![true, false, false, false, false, false, false, false, true]
    );
    let corner = minesweeper::neighborhood::get_cells_around(&grid, pos(0, 0));
    assert_eq!(corner, vec![true, false, false, false]);
    let edge = minesweeper::neighborhood::get_cells_around(&grid, pos(2, 1));
    assert_eq!(edge, vec![false, false, false, false, false, true]);
}

#[test]
fn bombs_around_counts() {
    let grid = mines(3, &[(0, 0), (2, 2)]);
    assert_eq!(minesweeper::neighborhood::get_bombs_around(&grid, pos(1, 1)), 2);
    assert_eq!(minesweeper::neighborhood::get_bombs_around(&grid, pos(0, 0)), 1);
    assert_eq!(minesweeper::neighborhood::get_bombs_around(&grid, pos(0, 2)), 0);
    let full = mines(3, &[
        (0, 0), (0, 1), (0, 2),
        (1, 0), (1, 1), (1, 2),
        (2, 0), (2, 1), (2, 2),
    ]);
    assert_eq!(minesweeper::neighborhood::get_bombs_around(&full, pos(1, 1)), 9);
    assert_eq!(minesweeper::neighborhood::get_bombs_around(&full, pos(0, 0)), 4);
}

#[test]
fn render_text() {
    let grid = mines(3, &[(0, 0), (2, 2)]);
    let mut board = Board::from_mines(&grid);
    assert_eq!(board.to_text(), "@ # #\n# # #\n# # @");
    assert!(board.clear(pos(1, 1), &Vec::new()).is_ok());
    assert_eq!(board.to_text(), "@ # #\n# 2 #\n# # @");
}

#[test]
fn render_open_zero_cells() {
    let grid = mines(2, &[]);
    let mut board = Board::from_mines(&grid);
    assert_eq!(board.to_text(), "# #\n# #");
    assert!(board.clear(pos(0, 0), &Vec::new()).is_ok());
    assert_eq!(board.to_text(), "0 0\n0 0");
}

#[test]
fn generated_board_shape() {
    // the mine layout is random; the shape and the freshly-closed state
    // are promised
    let board = Board::new(10);
    assert_eq!(board.n, 10);
    assert_eq!(board.cells.len(), 10);
    for row in &board.cells {
        assert_eq!(row.len(), 10);
        for cell in row {
            match cell.state {
                CellState::Mine { flagged } => assert!(!flagged),
                CellState::Safe { flagged, open } => {
                    assert!(!flagged);
                    assert!(!open);
                }
            }
            assert!(cell.bombs_around <= 9);
        }
    }
}

#[test]
fn generated_counts_match_layout() {
    // the stored neighbor counts of a generated board agree with a count
    // made directly over its own mine layout
    let board = Board::new(6);
    for r in 0..6usize {
        for c in 0..6usize {
            let mut expected = 0u8;
            let rlo = r.saturating_sub(1);
            let rhi = if r < 5 { r + 1 } else { 5 };
            let clo = c.saturating_sub(1);
            let chi = if c < 5 { c + 1 } else { 5 };
            for i in rlo..=rhi {
                for j in clo..=chi {
                    if matches!(board.cells[i][j].state, CellState::Mine { .. }) {
                        expected += 1;
                    }
                }
            }
            assert_eq!(board.cells[r][c].bombs_around, expected);
        }
    }
}

#[test]
fn generate_bombs_shape() {
    let bombs = minesweeper::generator::generate_bombs(7);
    assert_eq!(bombs.len(), 7);
    for row in &bombs {
        assert_eq!(row.len(), 7);
    }
}
