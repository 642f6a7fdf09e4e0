//! The decision on a move that the player enters.

use vstd::prelude::*;
use crate::grid::{agree_except, cell, conflicts, is_valid, Board};

verus! {

/// What became of a move.
#[derive(Debug, Clone, Copy, PartialEq, Eq, Structural)]
pub enum MoveOutcome {
    /// The digit was written into the cell.
    Placed,
    /// The cell is filled already, or the digit repeats one of its row, column or box.
    Rejected,
    /// Row, column or digit lies outside 1..=9.
    OutOfRange,
}

/// Row, column and digit each lie in 1..=9.
pub open spec fn move_in_range(row: usize, col: usize, num: u8) -> bool {
    1 <= row <= 9 && 1 <= col <= 9 && 1 <= num <= 9
}

/// Plays `num` at the 1-based position (`row`, `col`): it is written only into an
/// empty cell, and only where `is_valid` accepts it; otherwise the board stays
/// as it was.
pub fn play_move(board: &mut Board, row: usize, col: usize, num: u8) -> (outcome: MoveOutcome)
    ensures
        (outcome == MoveOutcome::OutOfRange) == !move_in_range(row, col, num),
        (outcome == MoveOutcome::Placed) == (move_in_range(row, col, num) && cell(
            *old(board),
            row - 1,
            col - 1,
        ) == 0 && !conflicts(*old(board), row - 1, col - 1, num)),
        outcome == MoveOutcome::Placed ==> cell(*final(board), row - 1, col - 1) == num
            && agree_except(*old(board), *final(board), row - 1, col - 1),
        outcome != MoveOutcome::Placed ==> *final(board) == *old(board),
{
    if row >= 1 && row <= 9 && col >= 1 && col <= 9 && num >= 1 && num <= 9 {
        let r = row - 1;
        let c = col - 1;
        if board[r][c] == 0 && is_valid(board, r, c, num) {
            board[r][c] = num;
            assert(agree_except(*old(board), *board, r as int, c as int));
            MoveOutcome::Placed
        } else {
            MoveOutcome::Rejected
        }
    } else {
        MoveOutcome::OutOfRange
    }
}

} // verus!
