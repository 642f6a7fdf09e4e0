//! The text of a board: one line per row, three characters per cell.

use vstd::prelude::*;
use crate::grid::{cell, digits_ok, Board, GRID_SIZE};

verus! {

/// The character of a digit 0..=9.
pub open spec fn digit_char(v: u8) -> char {
    ((v + 48) as u8) as char
}

/// A cell as shown: " . " when empty, else the digit between two spaces.
pub open spec fn cell_text(v: u8) -> Seq<char> {
    if v == 0 {
        seq![' ', '.', ' ']
    } else {
        seq![' ', digit_char(v), ' ']
    }
}

/// The first `k` cells of row `r`, as shown.
pub open spec fn cells_text(b: Board, r: int, k: int) -> Seq<char>
    decreases k,
{
    if k <= 0 {
        seq![]
    } else {
        cells_text(b, r, k - 1) + cell_text(cell(b, r, k - 1))
    }
}

/// The first `n` rows, each ended by a newline.
pub open spec fn rows_text(b: Board, n: int) -> Seq<char>
    decreases n,
{
    if n <= 0 {
        seq![]
    } else {
        rows_text(b, n - 1) + cells_text(b, n - 1, 9) + seq!['\n']
    }
}

/// The whole board as shown.
pub open spec fn board_text_of(b: Board) -> Seq<char> {
    rows_text(b, 9)
}

/// The text of the board, as the player sees it.
pub fn board_text(board: &Board) -> (text: Vec<char>)
    requires
        digits_ok(*board),
    ensures
        text@ == board_text_of(*board),
{
    let mut text: Vec<char> = Vec::new();
    for row in 0..GRID_SIZE
        invariant
            digits_ok(*board),
            text@ == rows_text(*board, row as int),
    {
        for col in 0..GRID_SIZE
            invariant
                digits_ok(*board),
                row < 9,
                text@ == rows_text(*board, row as int) + cells_text(*board, row as int, col as int),
        {
            let v = board[row][col];
            assert(v == cell(*board, row as int, col as int));
            let ghost before = text@;
            text.push(' ');
            if v == 0 {
                text.push('.');
            } else {
                text.push((v + 48) as char);
            }
            text.push(' ');
            assert(text@ =~= rows_text(*board, row as int) + cells_text(
                *board,
                row as int,
                col + 1,
            ));
        }
        text.push('\n');
        assert(text@ =~= rows_text(*board, row + 1));
    }
    text
}

} // verus!
