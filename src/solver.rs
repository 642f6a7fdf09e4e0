//! The backtracking solver.

use vstd::prelude::*;
use crate::grid::{
    agree_except, cell, clues_ok, complete, conflicts, consistent, digits_ok, extends, filled,
    in_range, is_solution, is_valid, lemma_filled_change, lemma_solvable_is_consistent, peers,
    same_box, solvable, Board, GRID_SIZE,
};

verus! {

/// `s` fills every empty cell of `g` with a digit 1..=9 and keeps the rest.
pub open spec fn fills(s: Board, g: Board) -> bool {
    &&& complete(s)
    &&& extends(s, g)
    &&& forall|r: int, c: int|
        in_range(r) && in_range(c) && cell(g, r, c) == 0 ==> 1 <= #[trigger] cell(s, r, c) <= 9
}

/// The first empty cell in row-major order, or `None` when the board is full.
fn first_empty(board: &Board) -> (pos: Option<(usize, usize)>)
    ensures
        pos is None ==> complete(*board),
        pos matches Some((r, c)) ==> {
            &&& r < GRID_SIZE
            &&& c < GRID_SIZE
            &&& cell(*board, r as int, c as int) == 0
            &&& forall|i: int, j: int|
                in_range(i) && in_range(j) && (i < r || (i == r && j < c)) ==> #[trigger] cell(
                    *board,
                    i,
                    j,
                ) != 0
        },
{
    for row in 0..GRID_SIZE
        invariant
            forall|i: int, j: int|
                0 <= i < row && in_range(j) ==> #[trigger] cell(*board, i, j) != 0,
    {
        for col in 0..GRID_SIZE
            invariant
                row < 9,
                forall|i: int, j: int|
                    0 <= i < row && in_range(j) ==> #[trigger] cell(*board, i, j) != 0,
                forall|j: int| 0 <= j < col ==> #[trigger] cell(*board, row as int, j) != 0,
        {
            if board[row][col] == 0 {
                return Some((row, col));
            }
        }
    }
    None
}

/// Every cell that is empty in `g` holds, in `s`, a value that no other cell
/// of its row, column or box holds in `s`.
pub open spec fn new_fit(s: Board, g: Board) -> bool {
    forall|r: int, c: int, x: int, y: int|
        #![trigger cell(s, r, c), cell(s, x, y)]
        in_range(r) && in_range(c) && in_range(x) && in_range(y) && cell(g, r, c) == 0 && peers(
            r,
            c,
            x,
            y,
        ) ==> cell(s, r, c) != cell(s, x, y)
}

/// `s` fills the empty cells of `g` with digits that repeat nothing around them.
pub open spec fn completion(s: Board, g: Board) -> bool {
    fills(s, g) && new_fit(s, g)
}

/// Position (`i`, `j`) comes before (`r`, `c`) in row-major order.
pub open spec fn before(i: int, j: int, r: int, c: int) -> bool {
    i < r || (i == r && j < c)
}

/// `a` comes before `b` when the cells are read in row-major order.
pub open spec fn lex_less(a: Board, b: Board) -> bool {
    exists|r: int, c: int|
        in_range(r) && in_range(c) && #[trigger] cell(a, r, c) < cell(b, r, c) && (forall|i: int, j: int|
            in_range(i) && in_range(j) && before(i, j, r, c) ==> #[trigger] cell(a, i, j) == cell(
                b,
                i,
                j,
            ))
}

/// Boards that agree on every cell are equal.
proof fn lemma_board_ext(a: Board, b: Board)
    requires
        forall|i: int, j: int| in_range(i) && in_range(j) ==> #[trigger] cell(a, i, j) == cell(b, i, j),
    ensures
        a == b,
{
    assert forall|i: int| 0 <= i < 9 implies a[i] == b[i] by {
        assert forall|j: int| 0 <= j < 9 implies a[i][j] == b[i][j] by {
            assert(cell(a, i, j) == cell(b, i, j));
        }
        assert(a[i] =~= b[i]);
    }
    assert(a =~= b);
}

/// A solution is a completion; a completion of a board of digits without a
/// repeated one is a solution.
pub proof fn lemma_completion_solution(s: Board, g: Board)
    ensures
        is_solution(s, g) ==> completion(s, g),
        completion(s, g) && consistent(g) ==> consistent(s),
        completion(s, g) && digits_ok(g) ==> digits_ok(s),
        completion(s, g) && consistent(g) && digits_ok(g) ==> is_solution(s, g),
{
    if completion(s, g) && consistent(g) {
        assert forall|r1: int, c1: int, r2: int, c2: int|
            in_range(r1) && in_range(c1) && in_range(r2) && in_range(c2) && peers(r1, c1, r2, c2)
                && cell(s, r1, c1) != 0 implies #[trigger] cell(s, r1, c1) != #[trigger] cell(
            s,
            r2,
            c2,
        ) by {
            if cell(g, r1, c1) == 0 {
            } else if cell(g, r2, c2) == 0 {
                assert(peers(r2, c2, r1, c1));
            } else {
                assert(cell(g, r1, c1) != cell(g, r2, c2));
            }
        }
    }
    if completion(s, g) && digits_ok(g) {
        assert forall|r: int, c: int| in_range(r) && in_range(c) implies #[trigger] cell(s, r, c) <= 9 by {
            if cell(g, r, c) != 0 {
                assert(cell(g, r, c) <= 9);
            }
        }
    }
}

/// The value that a completion holds at an empty cell of `g` does not conflict
/// with `g` there.
proof fn lemma_completion_value_fits(s: Board, g: Board, r: int, c: int)
    requires
        completion(s, g),
        in_range(r),
        in_range(c),
        cell(g, r, c) == 0,
    ensures
        !conflicts(g, r, c, cell(s, r, c)),
{
    let d = cell(s, r, c);
    assert(d != 0);
    assert forall|x: int, y: int| in_range(x) && in_range(y) && #[trigger] cell(g, x, y) == d implies !(
    x == r || y == c || same_box(x, y, r, c)) by {
        if x == r && y == c {
        } else if x == r || y == c || same_box(x, y, r, c) {
            assert(cell(s, x, y) == cell(g, x, y));
            assert(peers(r, c, x, y));
            assert(cell(s, r, c) != cell(s, x, y));
        }
    }
}

/// Solves the board in place. A board whose cells are not all 0..=9, or
/// whose filled cells repeat a digit in a row, column or box, is refused at
/// once. Otherwise the empty cells are filled by depth-first search: the first
/// empty cell in row-major order takes each digit from 1 to 9 that `is_valid`
/// accepts, and the search goes on from there; a failed branch empties the
/// cell again.
///
/// It succeeds exactly when the board is solvable, and then gives the first
/// solution in row-major order; on failure the board is left as it was.
pub fn solve_sudoku(board: &mut Board) -> (solved: bool)
    ensures
        solved == solvable(*old(board)),
        solved ==> is_solution(*final(board), *old(board)),
        solved ==> forall|s: Board|
            #[trigger] is_solution(s, *old(board)) ==> s == *final(board) || lex_less(
                *final(board),
                s,
            ),
        !solved ==> *final(board) == *old(board),
{
    let ghost g = *board;
    if !clues_ok(board) {
        proof {
            if solvable(g) {
                lemma_solvable_is_consistent(g);
            }
        }
        return false;
    }
    let solved = search(board);
    proof {
        // with clues that are digits and repeat nothing, completions and solutions coincide
        assert forall|s: Board| #[trigger] is_solution(s, g) <==> completion(s, g) by {
            lemma_completion_solution(s, g);
        }
        if solvable(g) {
            let s = choose|s: Board| is_solution(s, g);
            assert(completion(s, g));
        }
        if solved {
            assert(is_solution(*board, g));
        }
    }
    solved
}

/// The search itself, stated over completions.
fn search(board: &mut Board) -> (solved: bool)
    ensures
        solved == exists|s: Board| completion(s, *old(board)),
        solved ==> completion(*final(board), *old(board)),
        solved ==> forall|s: Board|
            #[trigger] completion(s, *old(board)) ==> s == *final(board) || lex_less(
                *final(board),
                s,
            ),
        !solved ==> *final(board) == *old(board),
    decreases 81 - filled(*board),
{
    let ghost g = *board;
    match first_empty(board) {
        None => {
            proof {
                assert(completion(g, g));
                assert forall|s: Board| #[trigger] completion(s, g) implies s == g || lex_less(g, s) by {
                    lemma_board_ext(s, g);
                }
            }
            true
        },
        Some((row, col)) => {
            let mut num: u8 = 1;
            while num <= 9
                invariant
                    1 <= num <= 10,
                    *board == g,
                    g == *old(board),
                    row < 9,
                    col < 9,
                    cell(g, row as int, col as int) == 0,
                    forall|i: int, j: int|
                        in_range(i) && in_range(j) && before(i, j, row as int, col as int)
                            ==> #[trigger] cell(g, i, j) != 0,
                    forall|s: Board|
                        #[trigger] completion(s, g) ==> cell(s, row as int, col as int) >= num,
                decreases 10 - num,
            {
                if is_valid(board, row, col, num) {
                    board[row][col] = num;
                    let ghost b1 = *board;
                    assert(agree_except(g, b1, row as int, col as int));
                    proof {
                        lemma_filled_change(g, b1, row as int, col as int);
                        assert(cell(b1, row as int, col as int) == num);
                        assert(filled(b1) == filled(g) + 1);
                        // the completions of `b1` are those of `g` with `num` at (row, col)
                        assert forall|s: Board|
                            completion(s, g) && cell(s, row as int, col as int) == num implies
                            #[trigger] completion(s, b1) by {
                            assert forall|r: int, c: int|
                                in_range(r) && in_range(c) && cell(b1, r, c) != 0 implies
                                #[trigger] cell(s, r, c) == cell(b1, r, c) by {
                                if r != row || c != col {
                                    assert(cell(b1, r, c) == cell(g, r, c));
                                }
                            }
                        }
                        assert forall|s: Board| #[trigger] completion(s, b1) implies completion(s, g)
                            && cell(s, row as int, col as int) == num by {
                            assert forall|r: int, c: int|
                                in_range(r) && in_range(c) && cell(g, r, c) == 0 implies 1
                                <= #[trigger] cell(s, r, c) <= 9 by {
                                if r != row || c != col {
                                    assert(cell(b1, r, c) == cell(g, r, c));
                                }
                            }
                            assert forall|r: int, c: int|
                                in_range(r) && in_range(c) && cell(g, r, c) != 0 implies
                                #[trigger] cell(s, r, c) == cell(g, r, c) by {
                                assert(cell(b1, r, c) == cell(g, r, c));
                            }
                            assert forall|r: int, c: int, x: int, y: int|
                                in_range(r) && in_range(c) && in_range(x) && in_range(y) && cell(
                                    g,
                                    r,
                                    c,
                                ) == 0 && peers(r, c, x, y) implies #[trigger] cell(s, r, c)
                                != #[trigger] cell(s, x, y) by {
                                if r != row || c != col {
                                    assert(cell(b1, r, c) == cell(g, r, c));
                                } else if cell(b1, x, y) == 0 {
                                    assert(peers(x, y, r, c));
                                } else {
                                    assert(cell(b1, x, y) == cell(g, x, y));
                                    assert(cell(g, x, y) != num);
                                }
                            }
                        }
                    }
                    if search(board) {
                        proof {
                            let f = *board;
                            assert(completion(f, g));
                            assert forall|s: Board| #[trigger] completion(s, g) implies s == f
                                || lex_less(f, s) by {
                                if cell(s, row as int, col as int) == num {
                                    assert(completion(s, b1));
                                } else {
                                    assert forall|i: int, j: int|
                                        in_range(i) && in_range(j) && before(
                                            i,
                                            j,
                                            row as int,
                                            col as int,
                                        ) implies #[trigger] cell(f, i, j) == cell(s, i, j) by {
                                        assert(cell(g, i, j) != 0);
                                    }
                                    assert(cell(f, row as int, col as int) < cell(
                                        s,
                                        row as int,
                                        col as int,
                                    ));
                                }
                            }
                        }
                        return true;
                    }
                    board[row][col] = 0;
                    assert(board[row as int] =~= g[row as int]);
                    assert(*board =~= g);
                    proof {
                        assert forall|s: Board| #[trigger] completion(s, g) implies cell(
                            s,
                            row as int,
                            col as int,
                        ) != num by {
                            if cell(s, row as int, col as int) == num {
                                assert(completion(s, b1));
                            }
                        }
                    }
                } else {
                    proof {
                        assert forall|s: Board| #[trigger] completion(s, g) implies cell(
                            s,
                            row as int,
                            col as int,
                        ) != num by {
                            lemma_completion_value_fits(s, g, row as int, col as int);
                        }
                    }
                }
                num = num + 1;
            }
            false
        },
    }
}

} // verus!
