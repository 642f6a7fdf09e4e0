//! The random puzzle generator.

use rand::seq::SliceRandom;
use vstd::prelude::*;
use crate::grid::{
    all_empty, cell, conflicts, consistent, digits_ok, filled, is_valid, lemma_empty_board,
    lemma_filled_change, lemma_missing_digit, lemma_place_keeps_consistent,
    lemma_place_keeps_digits, lemma_set_cell, lemma_set_cell_facts, set_cell, Board, GRID_SIZE,
};

verus! {

broadcast use vstd::seq_lib::group_to_multiset_ensures;

/// Relies on rand's `SliceRandom::shuffle` with `rand::thread_rng()`: it only
/// swaps elements, so the result is a permutation of the input.
#[verifier::external_body]
fn shuffle_in_place<T>(v: &mut Vec<T>)
    ensures
        final(v)@.to_multiset() == old(v)@.to_multiset(),
{
    v.shuffle(&mut rand::thread_rng());
}

/// The first digit of `order`, from index `i` on, that `conflicts` does not flag at (`r`, `c`).
pub open spec fn first_fit_from(b: Board, r: int, c: int, order: Seq<u8>, i: int) -> Option<u8>
    decreases order.len() - i,
{
    if i < 0 || i >= order.len() {
        None
    } else if !conflicts(b, r, c, order[i]) {
        Some(order[i])
    } else {
        first_fit_from(b, r, c, order, i + 1)
    }
}

/// The first digit of `order` that `conflicts` does not flag at (`r`, `c`).
pub open spec fn first_fit(b: Board, r: int, c: int, order: Seq<u8>) -> Option<u8> {
    first_fit_from(b, r, c, order, 0)
}

/// The board after visiting `positions` in order while `budget` digits remain
/// to be placed: each position takes the first digit of its own order that
/// fits, or is skipped when none does.
pub open spec fn walk(b: Board, positions: Seq<(usize, usize)>, orders: Seq<Seq<u8>>, budget: int) -> Board
    decreases positions.len(),
{
    if positions.len() == 0 || budget <= 0 {
        b
    } else {
        let r = positions[0].0 as int;
        let c = positions[0].1 as int;
        match first_fit(b, r, c, orders[0]) {
            Some(d) => walk(
                set_cell(b, r, c, d),
                positions.drop_first(),
                orders.drop_first(),
                budget - 1,
            ),
            None => walk(b, positions.drop_first(), orders.drop_first(), budget),
        }
    }
}

/// The digit orders as sequences.
pub open spec fn orders_view(orders: Seq<Vec<u8>>) -> Seq<Seq<u8>> {
    orders.map_values(|v: Vec<u8>| v@)
}

/// An order that holds a digit that fits has a first digit that fits.
proof fn lemma_first_fit_found(b: Board, r: int, c: int, order: Seq<u8>, i: int, k: int)
    requires
        0 <= i <= k < order.len(),
        !conflicts(b, r, c, order[k]),
    ensures
        first_fit_from(b, r, c, order, i) is Some,
    decreases k - i,
{
    if i < k && conflicts(b, r, c, order[i]) {
        lemma_first_fit_found(b, r, c, order, i + 1, k);
    }
}

/// A digit that `first_fit_from` gives fits and stands in the order.
proof fn lemma_first_fit_is_fit(b: Board, r: int, c: int, order: Seq<u8>, i: int)
    requires
        first_fit_from(b, r, c, order, i) is Some,
    ensures
        !conflicts(b, r, c, first_fit_from(b, r, c, order, i)->0),
        order.contains(first_fit_from(b, r, c, order, i)->0),
    decreases order.len() - i,
{
    if i >= 0 && i < order.len() && conflicts(b, r, c, order[i]) {
        lemma_first_fit_is_fit(b, r, c, order, i + 1);
    }
}

/// Tries the digits of `nums` in order at (`row`, `col`) and places the first
/// one that `is_valid` accepts. Returns whether a digit was placed; when none
/// was, the board is left as it was.
pub fn place_first_valid(board: &mut Board, row: usize, col: usize, nums: &Vec<u8>) -> (placed:
    bool)
    requires
        row < GRID_SIZE,
        col < GRID_SIZE,
    ensures
        match first_fit(*old(board), row as int, col as int, nums@) {
            Some(d) => placed && *final(board) == set_cell(*old(board), row as int, col as int, d),
            None => !placed && *final(board) == *old(board),
        },
{
    for k in 0..nums.len()
        invariant
            row < 9,
            col < 9,
            *board == *old(board),
            first_fit(*old(board), row as int, col as int, nums@) == first_fit_from(
                *old(board),
                row as int,
                col as int,
                nums@,
                k as int,
            ),
    {
        let num = nums[k];
        if is_valid(board, row, col, num) {
            board[row][col] = num;
            proof {
                lemma_set_cell(*old(board), *board, row as int, col as int, num);
            }
            return true;
        }
    }
    false
}

/// Visits `positions` in order while fewer than `num_filled` digits have been
/// placed; position `k` takes the first digit of `orders[k]` that `is_valid`
/// accepts there, or is skipped when none is.
pub fn fill_in_order(
    board: &mut Board,
    positions: &Vec<(usize, usize)>,
    orders: &Vec<Vec<u8>>,
    num_filled: usize,
)
    requires
        positions@.len() == orders@.len(),
        forall|k: int|
            0 <= k < positions@.len() ==> #[trigger] positions@[k].0 < 9 && positions@[k].1 < 9,
    ensures
        *final(board) == walk(*old(board), positions@, orders_view(orders@), num_filled as int),
        filled(*final(board)) <= filled(*old(board)) + num_filled,
        (forall|k: int, i: int|
            0 <= k < orders@.len() && 0 <= i < orders@[k]@.len() ==> #[trigger] orders@[k]@[i] <= 9)
            && digits_ok(*old(board)) ==> digits_ok(*final(board)),
        consistent(*old(board)) ==> consistent(*final(board)),
{
    let ghost os = orders_view(orders@);
    proof {
        lemma_filled_change(*board, *board, 0, 0);
    }
    let mut count: usize = 0;
    let mut p: usize = 0;
    assert(positions@.skip(0) =~= positions@);
    assert(os.skip(0) =~= os);
    while p < positions.len()
        invariant
            p <= positions@.len() == orders@.len(),
            os == orders_view(orders@),
            count <= num_filled,
            forall|k: int|
                0 <= k < positions@.len() ==> #[trigger] positions@[k].0 < 9 && positions@[k].1 < 9,
            walk(*old(board), positions@, os, num_filled as int) == walk(
                *board,
                positions@.skip(p as int),
                os.skip(p as int),
                num_filled - count,
            ),
            filled(*board) <= filled(*old(board)) + count,
            (forall|k: int, i: int|
                0 <= k < orders@.len() && 0 <= i < orders@[k]@.len() ==> #[trigger] orders@[k]@[i]
                    <= 9) && digits_ok(*old(board)) ==> digits_ok(*board),
            consistent(*old(board)) ==> consistent(*board),
        ensures
            p <= positions@.len(),
            p == positions@.len() || count >= num_filled,
            os == orders_view(orders@),
            walk(*old(board), positions@, os, num_filled as int) == walk(
                *board,
                positions@.skip(p as int),
                os.skip(p as int),
                num_filled - count,
            ),
            filled(*board) <= filled(*old(board)) + count,
            count <= num_filled,
            (forall|k: int, i: int|
                0 <= k < orders@.len() && 0 <= i < orders@[k]@.len() ==> #[trigger] orders@[k]@[i]
                    <= 9) && digits_ok(*old(board)) ==> digits_ok(*board),
            consistent(*old(board)) ==> consistent(*board),
        decreases positions@.len() - p,
    {
        if count >= num_filled {
            break;
        }
        let (row, col) = positions[p];
        assert(positions@[p as int].0 < 9);
        let ghost b0 = *board;
        let ghost order = orders@[p as int]@;
        assert(os[p as int] == order);
        assert(positions@.skip(p as int).drop_first() =~= positions@.skip(p + 1));
        assert(os.skip(p as int).drop_first() =~= os.skip(p + 1));
        assert(positions@.skip(p as int)[0] == positions@[p as int]);
        assert(os.skip(p as int)[0] == order);
        if place_first_valid(board, row, col, &orders[p]) {
            proof {
                let d = first_fit(b0, row as int, col as int, order)->0;
                lemma_first_fit_is_fit(b0, row as int, col as int, order, 0);
                lemma_set_cell_facts(b0, row as int, col as int, d);
                let i = choose|i: int| 0 <= i < order.len() && order[i] == d;
                assert(orders@[p as int]@[i] == d);
                lemma_filled_change(b0, *board, row as int, col as int);
                if digits_ok(b0) && d <= 9 {
                    lemma_place_keeps_digits(b0, *board, row as int, col as int);
                }
                if consistent(*old(board)) {
                    lemma_place_keeps_consistent(b0, *board, row as int, col as int, d);
                }
            }
            count += 1;
        }
        p += 1;
    }
    proof {
        let rest = positions@.skip(p as int);
        if p == positions@.len() {
            assert(rest.len() == 0);
        }
        assert(walk(*board, rest, os.skip(p as int), num_filled - count) == *board);
    }
}

/// Starting from a board whose visited cells are all empty, the walk fills at
/// least as many cells as the budget allows, up to nine: while fewer than nine
/// cells are filled some digit stands nowhere, so every order holds a digit that fits.
pub proof fn lemma_walk_fills(b: Board, positions: Seq<(usize, usize)>, orders: Seq<Seq<u8>>, budget: int)
    requires
        positions.len() == orders.len(),
        positions.no_duplicates(),
        positions.len() + filled(b) >= 9,
        forall|k: int|
            0 <= k < positions.len() ==> #[trigger] positions[k].0 < 9 && positions[k].1 < 9
                && cell(b, positions[k].0 as int, positions[k].1 as int) == 0,
        forall|k: int, d: u8| 0 <= k < orders.len() && 1 <= d <= 9 ==> #[trigger] orders[k].contains(d),
    ensures
        filled(walk(b, positions, orders, budget)) >= (if filled(b) + budget < 9 {
            filled(b) + budget
        } else {
            9
        }),
    decreases positions.len(),
{
    lemma_filled_change(b, b, 0, 0);
    if positions.len() == 0 || budget <= 0 {
    } else {
        let r = positions[0].0 as int;
        let c = positions[0].1 as int;
        let ps = positions.drop_first();
        let os = orders.drop_first();
        assert forall|k: int, d: u8| 0 <= k < os.len() && 1 <= d <= 9 implies #[trigger] os[k].contains(d) by {
            assert(orders[k + 1].contains(d));
        }
        assert(ps.no_duplicates());
        if filled(b) < 9 {
            let d = lemma_missing_digit(b);
            assert(!conflicts(b, r, c, d));
            assert(orders[0].contains(d));
            let k = choose|k: int| 0 <= k < orders[0].len() && orders[0][k] == d;
            lemma_first_fit_found(b, r, c, orders[0], 0, k);
        }
        match first_fit(b, r, c, orders[0]) {
            Some(d) => {
                let b1 = set_cell(b, r, c, d);
                lemma_set_cell_facts(b, r, c, d);
                lemma_first_fit_is_fit(b, r, c, orders[0], 0);
                assert(d != 0);
                lemma_filled_change(b, b1, r, c);
                assert forall|k: int| 0 <= k < ps.len() implies #[trigger] ps[k].0 < 9 && ps[k].1 < 9
                    && cell(b1, ps[k].0 as int, ps[k].1 as int) == 0 by {
                    assert(ps[k] == positions[k + 1]);
                    assert(positions[k + 1] != positions[0]);
                    assert(cell(b, ps[k].0 as int, ps[k].1 as int) == 0);
                }
                lemma_walk_fills(b1, ps, os, budget - 1);
            },
            None => {
                assert forall|k: int| 0 <= k < ps.len() implies #[trigger] ps[k].0 < 9 && ps[k].1 < 9
                    && cell(b, ps[k].0 as int, ps[k].1 as int) == 0 by {
                    assert(ps[k] == positions[k + 1]);
                }
                lemma_walk_fills(b, ps, os, budget);
            },
        }
    }
}

/// `p` lists each of the 81 positions of the board once.
pub open spec fn position_order(p: Seq<(usize, usize)>) -> bool {
    &&& p.len() == 81
    &&& p.no_duplicates()
    &&& forall|k: int| 0 <= k < p.len() ==> #[trigger] p[k].0 < 9 && p[k].1 < 9
}

/// `d` holds `n` orders, each of the digits 1..=9 once.
pub open spec fn digit_orders(d: Seq<Seq<u8>>, n: int) -> bool {
    &&& d.len() == n
    &&& forall|k: int| 0 <= k < n ==> (#[trigger] d[k]).len() == 9
    &&& forall|k: int, x: u8| 0 <= k < n && 1 <= x <= 9 ==> #[trigger] d[k].contains(x)
}

/// The digits 1..=9 in random order.
fn shuffled_digits() -> (nums: Vec<u8>)
    ensures
        nums@.len() == 9,
        forall|i: int| 0 <= i < nums@.len() ==> 1 <= #[trigger] nums@[i] <= 9,
        forall|d: u8| 1 <= d <= 9 ==> #[trigger] nums@.contains(d),
{
    let mut nums: Vec<u8> = Vec::new();
    let mut d: u8 = 1;
    while d <= 9
        invariant
            1 <= d <= 10,
            nums@.len() == d - 1,
            forall|k: int| 0 <= k < nums@.len() ==> #[trigger] nums@[k] == k + 1,
        decreases 10 - d,
    {
        nums.push(d);
        d = d + 1;
    }
    let ghost ordered = nums@;
    shuffle_in_place(&mut nums);
    assert forall|k: int| 0 <= k < nums@.len() implies 1 <= #[trigger] nums@[k] <= 9 by {
        assert(nums@.contains(nums@[k]));
        assert(nums@.to_multiset().count(nums@[k]) > 0);
        assert(ordered.to_multiset().count(nums@[k]) > 0);
    }
    assert forall|d: u8| 1 <= d <= 9 implies #[trigger] nums@.contains(d) by {
        assert(ordered[d - 1] == d);
        assert(ordered.contains(d));
        assert(ordered.to_multiset().count(d) > 0);
        assert(nums@.to_multiset().count(d) > 0);
    }
    assert(nums@.len() == nums@.to_multiset().len());
    assert(ordered.len() == ordered.to_multiset().len());
    nums
}

/// Fills up to `num_filled` cells: the 81 positions are visited in a random
/// order, and each takes the first digit, in a random order of 1..=9, that
/// `is_valid` accepts; a position that takes none is skipped.
///
/// At most `num_filled` cells become filled, cells stay within 0..=9, and a
/// board without a repeated digit keeps none. From an empty board the result
/// holds no repeated digit and between `min(num_filled, 9)` and `num_filled`
/// filled cells, whatever order was drawn.
pub fn generate_random_sudoku(board: &mut Board, num_filled: usize)
    ensures
        filled(*final(board)) <= filled(*old(board)) + num_filled,
        digits_ok(*old(board)) ==> digits_ok(*final(board)),
        consistent(*old(board)) ==> consistent(*final(board)),
        all_empty(*old(board)) ==> filled(*final(board)) <= num_filled && consistent(
            *final(board),
        ),
        exists|p: Seq<(usize, usize)>, d: Seq<Seq<u8>>|
            position_order(p) && digit_orders(d, 81) && *final(board) == walk(
                *old(board),
                p,
                d,
                num_filled as int,
            ),
        all_empty(*old(board)) ==> filled(*final(board)) >= (if num_filled < 9 {
            num_filled as int
        } else {
            9
        }),
{
    let mut positions: Vec<(usize, usize)> = Vec::new();
    for row in 0..GRID_SIZE
        invariant
            positions@.len() == row * 9,
            forall|k: int|
                0 <= k < positions@.len() ==> #[trigger] positions@[k] == ((k / 9) as usize, (k
                    % 9) as usize),
    {
        for col in 0..GRID_SIZE
            invariant
                row < 9,
                positions@.len() == row * 9 + col,
                forall|k: int|
                    0 <= k < positions@.len() ==> #[trigger] positions@[k] == ((k / 9) as usize, (k
                        % 9) as usize),
        {
            positions.push((row, col));
        }
    }
    let ghost before = positions@;
    assert(before.len() == 81);
    assert forall|i: int, j: int| 0 <= i < j < before.len() implies before[i] != before[j] by {
        assert(before[i] == ((i / 9) as usize, (i % 9) as usize));
        assert(before[j] == ((j / 9) as usize, (j % 9) as usize));
    }
    assert(before.no_duplicates());
    shuffle_in_place(&mut positions);
    proof {
        before.lemma_multiset_has_no_duplicates();
        positions@.lemma_multiset_has_no_duplicates_conv();
        assert(positions@.len() == positions@.to_multiset().len());
        assert(before.len() == before.to_multiset().len());
    }
    assert forall|k: int| 0 <= k < positions@.len() implies #[trigger] positions@[k].0 < 9
        && positions@[k].1 < 9 by {
        assert(positions@.contains(positions@[k]));
        assert(positions@.to_multiset().count(positions@[k]) > 0);
        assert(before.to_multiset().count(positions@[k]) > 0);
        assert(before.contains(positions@[k]));
    }
    let mut orders: Vec<Vec<u8>> = Vec::new();
    while orders.len() < positions.len()
        invariant
            orders@.len() <= positions@.len(),
            forall|k: int| 0 <= k < orders@.len() ==> (#[trigger] orders@[k])@.len() == 9,
            forall|k: int, i: int|
                0 <= k < orders@.len() && 0 <= i < orders@[k]@.len() ==> 1 <= #[trigger] orders@[k]@[i]
                    <= 9,
            forall|k: int, d: u8|
                0 <= k < orders@.len() && 1 <= d <= 9 ==> #[trigger] orders@[k]@.contains(d),
        decreases positions@.len() - orders@.len(),
    {
        let nums = shuffled_digits();
        orders.push(nums);
    }
    let ghost b0 = *board;
    fill_in_order(board, &positions, &orders, num_filled);
    proof {
        let os = orders_view(orders@);
        assert(positions@.len() == 81);
        assert forall|k: int| 0 <= k < 81 implies (#[trigger] os[k]).len() == 9 by {
            assert(orders@[k]@.len() == 9);
        }
        assert forall|k: int, x: u8| 0 <= k < 81 && 1 <= x <= 9 implies #[trigger] os[k].contains(x) by {
            assert(orders@[k]@.contains(x));
        }
        assert(position_order(positions@));
        assert(digit_orders(os, 81));
        if all_empty(b0) {
            lemma_empty_board(b0);
            lemma_walk_fills(b0, positions@, os, num_filled as int);
        }
    }
}

} // verus!
