use sudoku::generator::{fill_in_order, generate_random_sudoku, place_first_valid};
use sudoku::grid::{clues_ok, is_valid, Board};
use sudoku::moves::{play_move, MoveOutcome};
use sudoku::solver::solve_sudoku;

const CANONICAL: Board = [
    [1, 2, 3, 4, 5, 6, 7, 8, 9],
    [4, 5, 6, 7, 8, 9, 1, 2, 3],
    [7, 8, 9, 1, 2, 3, 4, 5, 6],
    [2, 1, 4, 3, 6, 5, 8, 9, 7],
    [3, 6, 5, 8, 9, 7, 2, 1, 4],
    [8, 9, 7, 2, 1, 4, 3, 6, 5],
    [5, 3, 1, 6, 4, 2, 9, 7, 8],
    [6, 4, 2, 9, 7, 8, 5, 3, 1],
    [9, 7, 8, 5, 3, 1, 6, 4, 2],
];

const PUZZLE: Board = [
    [5, 3, 0, 0, 7, 0, 0, 0, 0],
    [6, 0, 0, 1, 9, 5, 0, 0, 0],
    [0, 9, 8, 0, 0, 0, 0, 6, 0],
    [8, 0, 0, 0, 6, 0, 0, 0, 3],
    [4, 0, 0, 8, 0, 3, 0, 0, 1],
    [7, 0, 0, 0, 2, 0, 0, 0, 6],
    [0, 6, 0, 0, 0, 0, 2, 8, 0],
    [0, 0, 0, 4, 1, 9, 0, 0, 5],
    [0, 0, 0, 0, 8, 0, 0, 7, 9],
];

const PUZZLE_SOLVED: Board = [
    [5, 3, 4, 6, 7, 8, 9, 1, 2],
    [6, 7, 2, 1, 9, 5, 3, 4, 8],
    [1, 9, 8, 3, 4, 2, 5, 6, 7],
    [8, 5, 9, 7, 6, 1, 4, 2, 3],
    [4, 2, 6, 8, 5, 3, 7, 9, 1],
    [7, 1, 3, 9, 2, 4, 8, 5, 6],
    [9, 6, 1, 5, 3, 7, 2, 8, 4],
    [2, 8, 7, 4, 1, 9, 6, 3, 5],
    [3, 4, 5, 2, 8, 6, 1, 7, 9],
];

fn no_repeats(b: &Board) -> bool {
    for r1 in 0..9 {
        for c1 in 0..9 {
            for r2 in 0..9 {
                for c2 in 0..9 {
                    let peer = (r1 != r2 || c1 != c2)
                        && (r1 == r2 || c1 == c2 || (r1 / 3 == r2 / 3 && c1 / 3 == c2 / 3));
                    if peer && b[r1][c1] != 0 && b[r1][c1] == b[r2][c2] {
                        return false;
                    }
                }
            }
        }
    }
    true
}

fn filled_cells(b: &Board) -> usize {
    b.iter().flatten().filter(|v| **v != 0).count()
}

#[test]
fn empty_board_accepts_every_digit() {
    let b: Board = [[0; 9]; 9];
    for d in 1..=9u8 {
        assert!(is_valid(&b, 4, 4, d));
    }
}

#[test]
fn row_conflict_is_found() {
    let mut b: Board = [[0; 9]; 9];
    b[2][8] = 5;
    assert!(!is_valid(&b, 2, 0, 5));
    assert!(is_valid(&b, 2, 0, 4));
}

#[test]
fn column_conflict_is_found() {
    let mut b: Board = [[0; 9]; 9];
    b[8][3] = 7;
    assert!(!is_valid(&b, 0, 3, 7));
    assert!(is_valid(&b, 0, 4, 7));
}

#[test]
fn box_conflict_is_found() {
    let mut b: Board = [[0; 9]; 9];
    b[4][5] = 2;
    assert!(!is_valid(&b, 3, 3, 2));
    assert!(is_valid(&b, 2, 3, 2));
    assert!(is_valid(&b, 3, 6, 2));
}

#[test]
fn own_cell_counts_as_collision() {
    let mut b: Board = [[0; 9]; 9];
    b[0][0] = 6;
    assert!(!is_valid(&b, 0, 0, 6));
    assert!(is_valid(&b, 0, 0, 1));
}

#[test]
fn check_repeats_with_same_answer() {
    let first = is_valid(&PUZZLE, 0, 2, 4);
    for _ in 0..5 {
        assert_eq!(is_valid(&PUZZLE, 0, 2, 4), first);
    }
    let first = is_valid(&PUZZLE, 0, 2, 5);
    assert!(!first);
    assert_eq!(is_valid(&PUZZLE, 0, 2, 5), first);
}

#[test]
fn empty_board_solves_to_canonical_grid() {
    let mut b: Board = [[0; 9]; 9];
    assert!(solve_sudoku(&mut b));
    assert_eq!(b, CANONICAL);
    let mut again: Board = [[0; 9]; 9];
    assert!(solve_sudoku(&mut again));
    assert_eq!(again, b);
}

#[test]
fn puzzle_is_solved_keeping_clues() {
    let mut b = PUZZLE;
    assert!(solve_sudoku(&mut b));
    assert_eq!(b, PUZZLE_SOLVED);
    assert!(no_repeats(&b));
    assert_eq!(filled_cells(&b), 81);
    for r in 0..9 {
        for c in 0..9 {
            if PUZZLE[r][c] != 0 {
                assert_eq!(b[r][c], PUZZLE[r][c]);
            }
        }
    }
}

#[test]
fn full_valid_board_is_solved_as_is() {
    let mut b = CANONICAL;
    assert!(solve_sudoku(&mut b));
    assert_eq!(b, CANONICAL);
}

#[test]
fn single_empty_cell_without_digit_fails() {
    let mut b = CANONICAL;
    b[0][0] = 0;
    b[1][0] = 1;
    let before = b;
    assert!(!solve_sudoku(&mut b));
    assert_eq!(b[0][0], 0);
    assert_eq!(b, before);
}

#[test]
fn unsolvable_board_is_left_unchanged() {
    let mut b: Board = [[0; 9]; 9];
    for c in 0..8 {
        b[0][c] = (c + 1) as u8;
    }
    b[5][8] = 9;
    let before = b;
    assert!(!solve_sudoku(&mut b));
    assert_eq!(b, before);
}

#[test]
fn generated_board_respects_bound_and_rules() {
    for _ in 0..20 {
        let mut b: Board = [[0; 9]; 9];
        generate_random_sudoku(&mut b, 17);
        assert!(filled_cells(&b) <= 17);
        assert!(filled_cells(&b) >= 9);
        assert!(no_repeats(&b));
        assert!(b.iter().flatten().all(|v| *v <= 9));
    }
}

#[test]
fn generate_zero_leaves_board_empty() {
    let mut b: Board = [[0; 9]; 9];
    generate_random_sudoku(&mut b, 0);
    assert_eq!(b, [[0; 9]; 9]);
}

#[test]
fn generate_large_count_stays_valid() {
    let mut b: Board = [[0; 9]; 9];
    generate_random_sudoku(&mut b, 81);
    assert!(filled_cells(&b) <= 81);
    assert!(no_repeats(&b));
}

#[test]
fn first_valid_digit_in_given_order_is_placed() {
    let mut b: Board = [[0; 9]; 9];
    b[0][5] = 3;
    b[7][0] = 8;
    let nums: Vec<u8> = vec![3, 8, 6, 1];
    assert!(place_first_valid(&mut b, 0, 0, &nums));
    assert_eq!(b[0][0], 6);
}

#[test]
fn no_valid_digit_places_nothing() {
    let mut b: Board = [[0; 9]; 9];
    b[0][5] = 3;
    let before = b;
    let nums: Vec<u8> = vec![3];
    assert!(!place_first_valid(&mut b, 0, 0, &nums));
    assert_eq!(b, before);
    assert!(!place_first_valid(&mut b, 0, 0, &Vec::new()));
    assert_eq!(b, before);
}

#[test]
fn move_on_filled_cell_is_rejected() {
    let mut b = PUZZLE;
    for d in 1..=9u8 {
        assert_eq!(play_move(&mut b, 1, 1, d), MoveOutcome::Rejected);
        assert_eq!(b, PUZZLE);
    }
}

#[test]
fn valid_move_is_placed() {
    let mut b = PUZZLE;
    assert_eq!(play_move(&mut b, 1, 3, 4), MoveOutcome::Placed);
    assert_eq!(b[0][2], 4);
    let mut expected = PUZZLE;
    expected[0][2] = 4;
    assert_eq!(b, expected);
}

#[test]
fn conflicting_move_is_rejected() {
    let mut b = PUZZLE;
    assert_eq!(play_move(&mut b, 1, 3, 5), MoveOutcome::Rejected);
    assert_eq!(b, PUZZLE);
}

#[test]
fn out_of_range_move_is_refused() {
    let mut b = PUZZLE;
    assert_eq!(play_move(&mut b, 0, 3, 4), MoveOutcome::OutOfRange);
    assert_eq!(play_move(&mut b, 10, 3, 4), MoveOutcome::OutOfRange);
    assert_eq!(play_move(&mut b, 1, 10, 4), MoveOutcome::OutOfRange);
    assert_eq!(play_move(&mut b, 1, 3, 0), MoveOutcome::OutOfRange);
    assert_eq!(play_move(&mut b, 1, 3, 10), MoveOutcome::OutOfRange);
    assert_eq!(b, PUZZLE);
}

#[test]
fn generated_boards_vary() {
    let mut first: Board = [[0; 9]; 9];
    generate_random_sudoku(&mut first, 17);
    let mut differs = false;
    for _ in 0..10 {
        let mut b: Board = [[0; 9]; 9];
        generate_random_sudoku(&mut b, 17);
        if b != first {
            differs = true;
        }
    }
    assert!(differs);
}

#[test]
fn small_budget_is_filled_exactly() {
    for n in 0..9usize {
        let mut b: Board = [[0; 9]; 9];
        generate_random_sudoku(&mut b, n);
        assert_eq!(filled_cells(&b), n);
        assert!(no_repeats(&b));
    }
}

#[test]
fn fill_in_order_follows_the_given_orders() {
    let mut b: Board = [[0; 9]; 9];
    let positions: Vec<(usize, usize)> = vec![(0, 0), (0, 1), (1, 1), (4, 4), (8, 8)];
    let orders: Vec<Vec<u8>> = vec![
        vec![5, 1, 2],
        vec![5, 7],
        vec![7, 5, 3],
        vec![9],
        vec![1],
    ];
    fill_in_order(&mut b, &positions, &orders, 4);
    let mut expected: Board = [[0; 9]; 9];
    expected[0][0] = 5;
    expected[0][1] = 7;
    expected[1][1] = 3;
    expected[4][4] = 9;
    assert_eq!(b, expected);
}

#[test]
fn fill_in_order_skips_position_without_fit() {
    let mut b: Board = [[0; 9]; 9];
    b[0][8] = 4;
    let positions: Vec<(usize, usize)> = vec![(0, 0), (2, 2), (3, 3)];
    let orders: Vec<Vec<u8>> = vec![vec![4], vec![6, 2], vec![1]];
    fill_in_order(&mut b, &positions, &orders, 2);
    let mut expected: Board = [[0; 9]; 9];
    expected[0][8] = 4;
    expected[2][2] = 6;
    expected[3][3] = 1;
    assert_eq!(b, expected);
}

#[test]
fn repeated_clues_with_blocked_cell_fail() {
    let mut b: Board = [
        [1, 2, 3, 4, 5, 6, 7, 8, 2],
        [4, 5, 6, 7, 8, 9, 1, 2, 3],
        [7, 8, 9, 1, 2, 3, 4, 5, 6],
        [2, 1, 4, 3, 6, 5, 8, 9, 7],
        [3, 6, 5, 8, 9, 7, 2, 1, 4],
        [8, 9, 7, 2, 1, 4, 3, 6, 5],
        [5, 3, 1, 6, 4, 2, 9, 7, 8],
        [6, 4, 2, 9, 7, 8, 5, 3, 1],
        [9, 7, 8, 5, 3, 1, 6, 4, 0],
    ];
    let before = b;
    assert!(!solve_sudoku(&mut b));
    assert_eq!(b, before);
    assert_eq!(b[8][8], 0);
}

#[test]
fn repeated_clues_are_refused() {
    let mut b = CANONICAL;
    b[0][0] = 2;
    b[8][8] = 0;
    let before = b;
    assert!(!solve_sudoku(&mut b));
    assert_eq!(b, before);
}

#[test]
fn full_board_of_ones_is_refused() {
    let mut b: Board = [[1; 9]; 9];
    assert!(!solve_sudoku(&mut b));
    assert_eq!(b, [[1; 9]; 9]);
}

#[test]
fn out_of_range_cell_is_refused() {
    let mut b: Board = [[0; 9]; 9];
    b[3][3] = 10;
    assert!(!solve_sudoku(&mut b));
    assert_eq!(b[3][3], 10);
    assert_eq!(filled_cells(&b), 1);
}

#[test]
fn clue_check_finds_repeats_and_bad_values() {
    assert!(clues_ok(&PUZZLE));
    assert!(clues_ok(&CANONICAL));
    assert!(clues_ok(&[[0; 9]; 9]));
    let mut b = PUZZLE;
    b[0][2] = 5;
    assert!(!clues_ok(&b));
    let mut b = PUZZLE;
    b[2][0] = 6;
    assert!(!clues_ok(&b));
    let mut b = PUZZLE;
    b[1][1] = 3;
    assert!(!clues_ok(&b));
    let mut b = PUZZLE;
    b[4][4] = 12;
    assert!(!clues_ok(&b));
}
