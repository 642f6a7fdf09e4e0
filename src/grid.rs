//! The board, its mathematical model, and the placement check.

use vstd::prelude::*;

verus! {

/// Number of rows (and of columns) of the board.
pub const GRID_SIZE: usize = 9;

/// A board: `board[row][col]` is 0 for an empty cell, else the digit placed there.
pub type Board = [[u8; GRID_SIZE]; GRID_SIZE];

/// The value at row `r`, column `c`.
pub open spec fn cell(b: Board, r: int, c: int) -> u8 {
    b[r][c]
}

/// A row or column index of the board.
pub open spec fn in_range(i: int) -> bool {
    0 <= i < 9
}

/// Both positions lie in the same 3x3 box.
pub open spec fn same_box(r1: int, c1: int, r2: int, c2: int) -> bool {
    r1 / 3 == r2 / 3 && c1 / 3 == c2 / 3
}

/// Two distinct positions that share a row, a column or a box.
pub open spec fn peers(r1: int, c1: int, r2: int, c2: int) -> bool {
    (r1 != r2 || c1 != c2) && (r1 == r2 || c1 == c2 || same_box(r1, c1, r2, c2))
}

/// `d` stands somewhere in row `r`.
pub open spec fn row_has(b: Board, r: int, d: u8) -> bool {
    exists|j: int| in_range(j) && #[trigger] cell(b, r, j) == d
}

/// `d` stands somewhere in column `c`.
pub open spec fn col_has(b: Board, c: int, d: u8) -> bool {
    exists|i: int| in_range(i) && #[trigger] cell(b, i, c) == d
}

/// `d` stands somewhere in the box that holds position (`r`, `c`).
pub open spec fn box_has(b: Board, r: int, c: int, d: u8) -> bool {
    exists|i: int, j: int|
        in_range(i) && in_range(j) && same_box(i, j, r, c) && #[trigger] cell(b, i, j) == d
}

/// Placing `d` at (`r`, `c`) would repeat a digit of the row, column or box.
/// The cell itself is part of the scan.
pub open spec fn conflicts(b: Board, r: int, c: int, d: u8) -> bool {
    row_has(b, r, d) || col_has(b, c, d) || box_has(b, r, c, d)
}

/// Every cell holds 0 or a digit 1..=9.
pub open spec fn digits_ok(b: Board) -> bool {
    forall|r: int, c: int| in_range(r) && in_range(c) ==> #[trigger] cell(b, r, c) <= 9
}

/// Every cell is filled.
pub open spec fn complete(b: Board) -> bool {
    forall|r: int, c: int| in_range(r) && in_range(c) ==> #[trigger] cell(b, r, c) != 0
}

/// Every cell is empty.
pub open spec fn all_empty(b: Board) -> bool {
    forall|r: int, c: int| in_range(r) && in_range(c) ==> #[trigger] cell(b, r, c) == 0
}

/// No row, column or box holds the same non-zero value twice.
pub open spec fn consistent(b: Board) -> bool {
    forall|r1: int, c1: int, r2: int, c2: int|
        in_range(r1) && in_range(c1) && in_range(r2) && in_range(c2) && peers(r1, c1, r2, c2)
            && cell(b, r1, c1) != 0 ==> #[trigger] cell(b, r1, c1) != #[trigger] cell(b, r2, c2)
}

/// `s` keeps every filled cell of `g`.
pub open spec fn extends(s: Board, g: Board) -> bool {
    forall|r: int, c: int|
        in_range(r) && in_range(c) && cell(g, r, c) != 0 ==> #[trigger] cell(s, r, c) == cell(g, r, c)
}

/// `a` and `b` agree on every cell but (`r`, `c`).
pub open spec fn agree_except(a: Board, b: Board, r: int, c: int) -> bool {
    forall|i: int, j: int|
        in_range(i) && in_range(j) && (i != r || j != c) ==> #[trigger] cell(a, i, j) == cell(b, i, j)
}

/// `s` is a complete, valid board of digits that keeps the clues of `g`.
pub open spec fn is_solution(s: Board, g: Board) -> bool {
    digits_ok(s) && complete(s) && consistent(s) && extends(s, g)
}

/// Some complete valid assignment keeps the clues of `g`.
pub open spec fn solvable(g: Board) -> bool {
    exists|s: Board| is_solution(s, g)
}

/// Returns true when `num` can be placed at (`row`, `col`): it stands nowhere in
/// that row, that column or that box, the cell itself included.
pub fn is_valid(board: &Board, row: usize, col: usize, num: u8) -> (ok: bool)
    requires
        row < GRID_SIZE,
        col < GRID_SIZE,
    ensures
        ok == !conflicts(*board, row as int, col as int, num),
{
    for i in 0..GRID_SIZE
        invariant
            row < 9,
            forall|j: int| 0 <= j < i ==> #[trigger] cell(*board, row as int, j) != num,
    {
        if board[row][i] == num {
            assert(cell(*board, row as int, i as int) == num);
            return false;
        }
    }
    for i in 0..GRID_SIZE
        invariant
            col < 9,
            forall|k: int| 0 <= k < i ==> #[trigger] cell(*board, k, col as int) != num,
    {
        if board[i][col] == num {
            assert(cell(*board, i as int, col as int) == num);
            return false;
        }
    }
    let start_row = row / 3 * 3;
    let start_col = col / 3 * 3;
    for i in 0..3
        invariant
            row < 9,
            col < 9,
            start_row == row / 3 * 3,
            start_col == col / 3 * 3,
            forall|x: int, y: int|
                start_row <= x < start_row + i && start_col <= y < start_col + 3
                    ==> #[trigger] cell(*board, x, y) != num,
    {
        for j in 0..3
            invariant
                row < 9,
                col < 9,
                i < 3,
                start_row == row / 3 * 3,
                start_col == col / 3 * 3,
                forall|x: int, y: int|
                    start_row <= x < start_row + i && start_col <= y < start_col + 3
                        ==> #[trigger] cell(*board, x, y) != num,
                forall|y: int|
                    start_col <= y < start_col + j ==> #[trigger] cell(*board, start_row + i, y)
                        != num,
        {
            if board[start_row + i][start_col + j] == num {
                let ghost x = start_row + i;
                let ghost y = start_col + j;
                assert(same_box(x as int, y as int, row as int, col as int));
                assert(cell(*board, x as int, y as int) == num);
                return false;
            }
        }
    }
    assert forall|x: int, y: int|
        in_range(x) && in_range(y) && same_box(x, y, row as int, col as int) implies #[trigger] cell(
        *board,
        x,
        y,
    ) != num by {
        assert(start_row <= x < start_row + 3);
        assert(start_col <= y < start_col + 3);
    }
    true
}

/// The cell (`r`, `c`) holds 0..=9, and when filled no other cell of its row,
/// column or box holds the same value.
pub open spec fn clue_ok(b: Board, r: int, c: int) -> bool {
    cell(b, r, c) <= 9 && (cell(b, r, c) != 0 ==> forall|x: int, y: int|
        in_range(x) && in_range(y) && peers(r, c, x, y) ==> #[trigger] cell(b, x, y) != cell(b, r, c))
}

/// Returns whether every cell holds 0..=9 and no row, column or box repeats a
/// filled value: the board can then be handed to a search.
pub fn clues_ok(board: &Board) -> (ok: bool)
    ensures
        ok == (digits_ok(*board) && consistent(*board)),
{
    for r in 0..GRID_SIZE
        invariant
            forall|i: int, j: int| 0 <= i < r && in_range(j) ==> #[trigger] clue_ok(*board, i, j),
    {
        for c in 0..GRID_SIZE
            invariant
                r < 9,
                forall|i: int, j: int| 0 <= i < r && in_range(j) ==> #[trigger] clue_ok(*board, i, j),
                forall|j: int| 0 <= j < c ==> #[trigger] clue_ok(*board, r as int, j),
        {
            let v = board[r][c];
            if v > 9 {
                assert(cell(*board, r as int, c as int) > 9);
                return false;
            }
            if v != 0 {
                let mut b: Board = *board;
                b[r][c] = 0;
                assert(agree_except(*board, b, r as int, c as int));
                assert(cell(b, r as int, c as int) == 0);
                let fits = is_valid(&b, r, c, v);
                if !fits {
                    proof {
                        let (x, y) = if row_has(b, r as int, v) {
                            let j = choose|j: int| in_range(j) && #[trigger] cell(b, r as int, j) == v;
                            (r as int, j)
                        } else if col_has(b, c as int, v) {
                            let i = choose|i: int| in_range(i) && #[trigger] cell(b, i, c as int) == v;
                            (i, c as int)
                        } else {
                            choose|i: int, j: int|
                                in_range(i) && in_range(j) && same_box(i, j, r as int, c as int)
                                    && #[trigger] cell(b, i, j) == v
                        };
                        assert(cell(b, x, y) == v);
                        assert(x != r || y != c);
                        assert(cell(*board, x, y) == v);
                        assert(peers(r as int, c as int, x, y));
                        assert(cell(*board, r as int, c as int) == cell(*board, x, y));
                    }
                    return false;
                }
                assert forall|x: int, y: int|
                    in_range(x) && in_range(y) && peers(r as int, c as int, x, y) implies #[trigger] cell(
                    *board,
                    x,
                    y,
                ) != v by {
                    assert(cell(b, x, y) == cell(*board, x, y));
                    if x == r {
                        assert(!row_has(b, r as int, v));
                    } else if y == c {
                        assert(!col_has(b, c as int, v));
                    } else {
                        assert(!box_has(b, r as int, c as int, v));
                    }
                }
            }
            assert(clue_ok(*board, r as int, c as int));
        }
    }
    assert forall|r1: int, c1: int, r2: int, c2: int|
        in_range(r1) && in_range(c1) && in_range(r2) && in_range(c2) && peers(r1, c1, r2, c2)
            && cell(*board, r1, c1) != 0 implies #[trigger] cell(*board, r1, c1) != #[trigger] cell(
        *board,
        r2,
        c2,
    ) by {
        assert(clue_ok(*board, r1, c1));
    }
    assert forall|r: int, c: int| in_range(r) && in_range(c) implies #[trigger] cell(*board, r, c) <= 9 by {
        assert(clue_ok(*board, r, c));
    }
    true
}

/// 1 when the cell is filled, else 0.
pub open spec fn filled_at(b: Board, r: int, c: int) -> int {
    if cell(b, r, c) != 0 {
        1
    } else {
        0
    }
}

/// Number of filled cells among the first `k` cells in row-major order.
pub open spec fn filled_upto(b: Board, k: int) -> int
    decreases k,
{
    if k <= 0 {
        0
    } else {
        filled_upto(b, k - 1) + filled_at(b, (k - 1) / 9, (k - 1) % 9)
    }
}

/// Number of filled cells of the board.
pub open spec fn filled(b: Board) -> int {
    filled_upto(b, 81)
}

/// Between 0 and `k` of the first `k` cells are filled.
pub proof fn lemma_filled_upto_bounds(b: Board, k: int)
    requires
        0 <= k,
    ensures
        0 <= filled_upto(b, k) <= k,
    decreases k,
{
    if k > 0 {
        lemma_filled_upto_bounds(b, k - 1);
    }
}

/// Changing one cell changes the count by what that cell contributes.
pub proof fn lemma_filled_upto_change(a: Board, b: Board, r: int, c: int, k: int)
    requires
        in_range(r),
        in_range(c),
        agree_except(a, b, r, c),
        0 <= k <= 81,
    ensures
        filled_upto(b, k) - (if r * 9 + c < k { filled_at(b, r, c) } else { 0 }) == filled_upto(a, k)
            - (if r * 9 + c < k { filled_at(a, r, c) } else { 0 }),
    decreases k,
{
    if k > 0 {
        lemma_filled_upto_change(a, b, r, c, k - 1);
        let i = (k - 1) / 9;
        let j = (k - 1) % 9;
        if k - 1 == r * 9 + c {
            assert(i == r && j == c);
        } else {
            assert(i != r || j != c);
            assert(cell(a, i, j) == cell(b, i, j));
        }
    }
}

/// Changing one cell changes the number of filled cells by what that cell contributes.
pub proof fn lemma_filled_change(a: Board, b: Board, r: int, c: int)
    requires
        in_range(r),
        in_range(c),
        agree_except(a, b, r, c),
    ensures
        filled(b) - filled_at(b, r, c) == filled(a) - filled_at(a, r, c),
        0 <= filled(a) <= 81,
        0 <= filled(b) <= 81,
{
    lemma_filled_upto_change(a, b, r, c, 81);
    lemma_filled_upto_bounds(a, 81);
    lemma_filled_upto_bounds(b, 81);
}

/// An empty board has no filled cell and no repeated digit.
pub proof fn lemma_empty_board(b: Board)
    requires
        all_empty(b),
    ensures
        filled(b) == 0,
        consistent(b),
        digits_ok(b),
{
    assert forall|k: int| 0 <= k <= 81 implies filled_upto(b, k) == 0 by {
        lemma_empty_prefix(b, k);
    }
}

proof fn lemma_empty_prefix(b: Board, k: int)
    requires
        all_empty(b),
        0 <= k <= 81,
    ensures
        filled_upto(b, k) == 0,
    decreases k,
{
    if k > 0 {
        lemma_empty_prefix(b, k - 1);
        assert(cell(b, (k - 1) / 9, (k - 1) % 9) == 0);
    }
}

/// Writing a digit that `conflicts` does not flag keeps a consistent board consistent.
pub proof fn lemma_place_keeps_consistent(a: Board, b: Board, r: int, c: int, d: u8)
    requires
        consistent(a),
        in_range(r),
        in_range(c),
        agree_except(a, b, r, c),
        cell(b, r, c) == d,
        !conflicts(a, r, c, d),
    ensures
        consistent(b),
{
    assert forall|r1: int, c1: int, r2: int, c2: int|
        in_range(r1) && in_range(c1) && in_range(r2) && in_range(c2) && peers(r1, c1, r2, c2)
            && cell(b, r1, c1) != 0 implies #[trigger] cell(b, r1, c1) != #[trigger] cell(
        b,
        r2,
        c2,
    ) by {
        if r1 == r && c1 == c {
            assert(cell(a, r2, c2) == cell(b, r2, c2));
            assert(cell(a, r2, c2) != d);
        } else if r2 == r && c2 == c {
            assert(cell(a, r1, c1) == cell(b, r1, c1));
            assert(cell(a, r1, c1) != d);
        } else {
            assert(cell(a, r1, c1) == cell(b, r1, c1));
            assert(cell(a, r2, c2) == cell(b, r2, c2));
        }
    }
}

/// Writing a value of at most 9 keeps every cell within 0..=9.
pub proof fn lemma_place_keeps_digits(a: Board, b: Board, r: int, c: int)
    requires
        digits_ok(a),
        in_range(r),
        in_range(c),
        agree_except(a, b, r, c),
        cell(b, r, c) <= 9,
    ensures
        digits_ok(b),
{
    assert forall|i: int, j: int| in_range(i) && in_range(j) implies #[trigger] cell(b, i, j) <= 9 by {
        if i != r || j != c {
            assert(cell(a, i, j) == cell(b, i, j));
        }
    }
}

/// A solvable board holds only digits 0..=9 and repeats none.
pub proof fn lemma_solvable_is_consistent(g: Board)
    requires
        solvable(g),
    ensures
        digits_ok(g),
        consistent(g),
{
    let s = choose|s: Board| is_solution(s, g);
    assert forall|r: int, c: int| in_range(r) && in_range(c) implies #[trigger] cell(g, r, c) <= 9 by {
        assert(cell(s, r, c) <= 9);
    }
    assert forall|r1: int, c1: int, r2: int, c2: int|
        in_range(r1) && in_range(c1) && in_range(r2) && in_range(c2) && peers(r1, c1, r2, c2)
            && cell(g, r1, c1) != 0 implies #[trigger] cell(g, r1, c1) != #[trigger] cell(
        g,
        r2,
        c2,
    ) by {
        assert(cell(s, r1, c1) == cell(g, r1, c1));
        assert(cell(s, r1, c1) != cell(s, r2, c2));
        if cell(g, r2, c2) != 0 {
            assert(cell(s, r2, c2) == cell(g, r2, c2));
        }
    }
}

/// The placement check is a function of the board, the position and the digit:
/// asked again about an unchanged board, it gives the same answer.
pub proof fn lemma_check_repeatable(a: Board, b: Board, r: int, c: int, d: u8)
    requires
        a == b,
    ensures
        conflicts(a, r, c, d) == conflicts(b, r, c, d),
{
}

/// The board `b` with `d` written at (`r`, `c`).
pub open spec fn set_cell(b: Board, r: int, c: int, d: u8) -> Board {
    vstd::array::spec_array_update(b, r, vstd::array::spec_array_update(b[r], c, d))
}

/// A board that differs from `a` at (`r`, `c`) alone, where it holds `d`, is `set_cell(a, r, c, d)`.
pub proof fn lemma_set_cell(a: Board, b: Board, r: int, c: int, d: u8)
    requires
        in_range(r),
        in_range(c),
        agree_except(a, b, r, c),
        cell(b, r, c) == d,
    ensures
        b == set_cell(a, r, c, d),
{
    let t = set_cell(a, r, c, d);
    assert forall|i: int| 0 <= i < 9 implies b[i] == t[i] by {
        assert forall|j: int| 0 <= j < 9 implies b[i][j] == t[i][j] by {
            if i != r || j != c {
                assert(cell(a, i, j) == cell(b, i, j));
            }
        }
        assert(b[i] =~= t[i]);
    }
    assert(b =~= t);
}

/// `set_cell` writes `d` at (`r`, `c`) and changes no other cell.
pub proof fn lemma_set_cell_facts(a: Board, r: int, c: int, d: u8)
    requires
        in_range(r),
        in_range(c),
    ensures
        cell(set_cell(a, r, c, d), r, c) == d,
        agree_except(a, set_cell(a, r, c, d), r, c),
{
}

/// The digits 1..=k.
pub open spec fn digits_upto(k: nat) -> Set<u8>
    decreases k,
{
    if k == 0 {
        Set::empty()
    } else {
        digits_upto((k - 1) as nat).insert(k as u8)
    }
}

/// The values of the filled cells among the first `k` cells in row-major order.
pub open spec fn values_upto(b: Board, k: int) -> Set<u8>
    decreases k,
{
    if k <= 0 {
        Set::empty()
    } else if cell(b, (k - 1) / 9, (k - 1) % 9) != 0 {
        values_upto(b, k - 1).insert(cell(b, (k - 1) / 9, (k - 1) % 9))
    } else {
        values_upto(b, k - 1)
    }
}

proof fn lemma_digits_upto(k: nat)
    requires
        k <= 9,
    ensures
        digits_upto(k).finite(),
        digits_upto(k).len() == k,
        forall|d: u8| #[trigger] digits_upto(k).contains(d) <==> 1 <= d <= k,
    decreases k,
{
    if k > 0 {
        lemma_digits_upto((k - 1) as nat);
    }
}

proof fn lemma_values_upto(b: Board, k: int)
    requires
        0 <= k <= 81,
    ensures
        values_upto(b, k).finite(),
        values_upto(b, k).len() <= filled_upto(b, k),
        forall|i: int|
            0 <= i < k && cell(b, i / 9, i % 9) != 0 ==> #[trigger] values_upto(b, k).contains(
                cell(b, i / 9, i % 9),
            ),
    decreases k,
{
    if k > 0 {
        lemma_values_upto(b, k - 1);
    }
}

/// With fewer than nine filled cells, some digit 1..=9 stands nowhere on the board.
pub proof fn lemma_missing_digit(b: Board) -> (d: u8)
    requires
        filled(b) < 9,
    ensures
        1 <= d <= 9,
        forall|r: int, c: int| in_range(r) && in_range(c) ==> #[trigger] cell(b, r, c) != d,
{
    lemma_values_upto(b, 81);
    lemma_digits_upto(9);
    let vals = values_upto(b, 81);
    if digits_upto(9).subset_of(vals) {
        vstd::set_lib::lemma_len_subset(digits_upto(9), vals);
    }
    let d = choose|d: u8| digits_upto(9).contains(d) && !vals.contains(d);
    assert forall|r: int, c: int| in_range(r) && in_range(c) implies #[trigger] cell(b, r, c) != d by {
        let i = r * 9 + c;
        assert(i / 9 == r && i % 9 == c);
    }
    d
}

} // verus!
