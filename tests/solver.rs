use std::collections::HashSet;

use sudoku::board::{get_pos, to_idx, Board, Tile};
use sudoku::check::{taken_values, valid_board, valid_column, valid_row, valid_section};
use sudoku::search::{decrement_until_soft, numbers, solve, BoardState};

const SOLVED: [[u8; 9]; 9] = [
    [5, 3, 4, 6, 7, 8, 9, 1, 2],
    [6, 7, 2, 1, 9, 5, 3, 4, 8],
    [1, 9, 8, 3, 4, 2, 5, 6, 7],
    [8, 5, 9, 7, 6, 1, 4, 2, 3],
    [4, 2, 6, 8, 5, 3, 7, 9, 1],
    [7, 1, 3, 9, 2, 4, 8, 5, 6],
    [9, 6, 1, 5, 3, 7, 2, 8, 4],
    [2, 8, 7, 4, 1, 9, 6, 3, 5],
    [3, 4, 5, 2, 8, 6, 1, 7, 9],
];

fn empty_board() -> Board {
    [[Tile::Empty; 9]; 9]
}

fn solved_board() -> Board {
    let mut b = empty_board();
    for y in 0..9 {
        for x in 0..9 {
            b[y][x] = Tile::Hard(SOLVED[y][x]);
        }
    }
    b
}

/// Steps from position 0 until a report other than `Solving`, with a cap.
fn drive(board: &mut Board, trace: &mut Vec<BoardState>) -> BoardState {
    let mut idx = 0;
    for _ in 0..50_000_000u64 {
        let s = solve(board, idx);
        trace.push(s);
        match s {
            BoardState::Solving(j) => idx = j,
            other => return other,
        }
    }
    panic!("the search did not stop");
}

fn digit(t: Tile) -> Option<u8> {
    match t {
        Tile::Hard(n) | Tile::Soft(n) => Some(n),
        Tile::Empty => None,
    }
}

#[test]
fn pos_and_index_round_trip() {
    for i in 0..81usize {
        let (x, y) = get_pos(i);
        assert!(x < 9 && y < 9);
        assert_eq!(to_idx(x, y), i);
        assert_eq!(get_pos(to_idx(x, y)), (x, y));
    }
    assert_eq!(get_pos(0), (0, 0));
    assert_eq!(get_pos(10), (1, 1));
    assert_eq!(get_pos(80), (8, 8));
    assert_eq!(to_idx(3, 2), 21);
}

#[test]
fn numbers_are_one_to_nine() {
    let expected: HashSet<u8> = (1..10).collect();
    assert_eq!(numbers(), expected);
}

#[test]
fn taken_values_of_row_column_and_box() {
    let mut b = empty_board();
    b[0][4] = Tile::Hard(1); // column 4
    b[4][0] = Tile::Soft(2); // row 4
    b[3][5] = Tile::Hard(3); // the centre box
    b[8][8] = Tile::Hard(9); // none of them
    b[0][0] = Tile::Hard(7); // none of them
    let got = taken_values(&b, (4, 4));
    let expected: HashSet<u8> = [1, 2, 3].into_iter().collect();
    assert_eq!(got, expected);
    assert!(taken_values(&empty_board(), (0, 0)).is_empty());
}

#[test]
fn taken_values_only_from_peers() {
    let b = solved_board();
    for y in 0..9 {
        for x in 0..9 {
            let t = taken_values(&b, (x, y));
            for d in t {
                let in_row = (0..9).any(|k| digit(b[y][k]) == Some(d));
                let in_col = (0..9).any(|k| digit(b[k][x]) == Some(d));
                let in_box = (0..9).any(|k| digit(b[y / 3 * 3 + k / 3][x / 3 * 3 + k % 3]) == Some(d));
                assert!(in_row || in_col || in_box);
            }
        }
    }
}

#[test]
fn empty_board_is_valid() {
    assert!(valid_board(&empty_board()));
    assert!(valid_board(&solved_board()));
}

#[test]
fn duplicate_in_row_is_invalid() {
    let mut b = empty_board();
    b[2][1] = Tile::Hard(4);
    b[2][7] = Tile::Soft(4);
    assert!(!valid_row(2, &b));
    assert!(valid_row(1, &b));
    assert!(!valid_board(&b));
}

#[test]
fn duplicate_in_column_is_invalid() {
    let mut b = empty_board();
    b[0][6] = Tile::Hard(8);
    b[8][6] = Tile::Hard(8);
    assert!(!valid_column(6, &b));
    assert!(valid_column(5, &b));
    assert!(!valid_board(&b));
}

#[test]
fn duplicate_in_box_is_invalid() {
    let mut b = empty_board();
    b[3][3] = Tile::Hard(6);
    b[5][4] = Tile::Soft(6);
    assert!(!valid_section((1, 1), &b));
    assert!(valid_section((0, 0), &b));
    assert!(valid_row(3, &b) && valid_row(5, &b));
    assert!(valid_column(3, &b) && valid_column(4, &b));
    assert!(!valid_board(&b));
}

#[test]
fn decrement_skips_givens() {
    let mut b = empty_board();
    b[0][3] = Tile::Hard(1);
    b[0][4] = Tile::Hard(2);
    assert_eq!(decrement_until_soft(5, &b), Some(2));
    assert_eq!(decrement_until_soft(3, &b), Some(2));
    assert_eq!(decrement_until_soft(0, &b), None);
    b[0][0] = Tile::Hard(3);
    assert_eq!(decrement_until_soft(1, &b), None);
}

#[test]
fn solve_assigns_smallest_free_digit() {
    let mut b = empty_board();
    b[0][1] = Tile::Hard(1);
    b[5][0] = Tile::Hard(2);
    assert_eq!(solve(&mut b, 0), BoardState::Solving(1));
    assert_eq!(b[0][0], Tile::Soft(3));
}

#[test]
fn solve_passes_givens() {
    let mut b = empty_board();
    b[0][0] = Tile::Hard(9);
    b[8][8] = Tile::Hard(1);
    let before = b;
    assert_eq!(solve(&mut b, 0), BoardState::Solving(1));
    assert_eq!(solve(&mut b, 80), BoardState::Finished);
    assert_eq!(b, before);
}

#[test]
fn solve_finishes_on_last_cell_assignment() {
    let mut b = solved_board();
    b[8][8] = Tile::Empty;
    assert_eq!(solve(&mut b, 80), BoardState::Finished);
    assert_eq!(b[8][8], Tile::Soft(9));
}

#[test]
fn revisit_tries_a_larger_digit() {
    let mut b = empty_board();
    b[0][0] = Tile::Soft(3);
    b[0][5] = Tile::Hard(4);
    assert_eq!(solve(&mut b, 0), BoardState::Solving(1));
    assert_eq!(b[0][0], Tile::Soft(5));
    b[0][0] = Tile::Soft(9);
    b[0][1] = Tile::Soft(2);
    assert_eq!(solve(&mut b, 1), BoardState::Solving(2));
    assert_eq!(b[0][1], Tile::Soft(3));
}

#[test]
fn backtrack_empties_cell_and_goes_back() {
    let mut b = empty_board();
    // Row 0 holds 1 to 8 beside (2, 0); column 2 holds 9.
    let row = [1, 2, 0, 3, 4, 5, 6, 7, 8];
    for x in 0..9 {
        if row[x] != 0 {
            b[0][x] = Tile::Hard(row[x]);
        }
    }
    b[4][2] = Tile::Hard(9);
    b[1][0] = Tile::Soft(5);
    assert_eq!(solve(&mut b, 2), BoardState::Exhausted);
    assert_eq!(b[0][2], Tile::Empty);
    b[0][1] = Tile::Empty;
    b[0][2] = Tile::Soft(9);
    assert_eq!(solve(&mut b, 2), BoardState::Solving(1));
    assert_eq!(b[0][2], Tile::Empty);
}

#[test]
fn backtrack_at_first_cell_is_exhausted() {
    let mut b = empty_board();
    b[0][0] = Tile::Soft(9);
    assert_eq!(solve(&mut b, 0), BoardState::Exhausted);
    assert_eq!(b[0][0], Tile::Empty);
}

#[test]
fn repeated_runs_are_identical() {
    let mut start = empty_board();
    start[0][0] = Tile::Hard(5);
    start[4][4] = Tile::Hard(1);
    let mut b1 = start;
    let mut b2 = start;
    let mut t1 = Vec::new();
    let mut t2 = Vec::new();
    let r1 = drive(&mut b1, &mut t1);
    let r2 = drive(&mut b2, &mut t2);
    assert_eq!(r1, r2);
    assert_eq!(t1, t2);
    assert_eq!(b1, b2);
}

#[test]
fn givens_survive_a_full_run() {
    let mut start = empty_board();
    start[0][0] = Tile::Hard(5);
    start[2][7] = Tile::Hard(3);
    start[6][3] = Tile::Hard(8);
    let mut b = start;
    let mut trace = Vec::new();
    assert_eq!(drive(&mut b, &mut trace), BoardState::Finished);
    for y in 0..9 {
        for x in 0..9 {
            if let Tile::Hard(_) = start[y][x] {
                assert_eq!(b[y][x], start[y][x]);
            }
        }
    }
}

#[test]
fn empty_board_solves_to_full_valid_board() {
    let mut b = empty_board();
    let mut trace = Vec::new();
    assert_eq!(drive(&mut b, &mut trace), BoardState::Finished);
    for y in 0..9 {
        for x in 0..9 {
            assert!(matches!(b[y][x], Tile::Soft(1..=9)));
        }
    }
    assert!(valid_board(&b));
}

#[test]
fn single_given_five_is_kept() {
    let mut b = empty_board();
    b[0][0] = Tile::Hard(5);
    let mut trace = Vec::new();
    assert_eq!(drive(&mut b, &mut trace), BoardState::Finished);
    assert_eq!(b[0][0], Tile::Hard(5));
    for k in 1..9 {
        assert_ne!(b[0][k], Tile::Soft(5));
        assert_ne!(b[k][0], Tile::Soft(5));
        assert_ne!(b[k / 3][k % 3], Tile::Soft(5));
    }
    assert!(valid_board(&b));
}

#[test]
fn solved_givens_finish_unchanged() {
    let start = solved_board();
    assert!(valid_board(&start));
    let mut b = start;
    let mut trace = Vec::new();
    assert_eq!(drive(&mut b, &mut trace), BoardState::Finished);
    assert_eq!(trace.len(), 81);
    for i in 0..80 {
        assert_eq!(trace[i], BoardState::Solving(i + 1));
    }
    assert_eq!(b, start);
}

#[test]
fn unsatisfiable_givens_exhaust() {
    let mut b = empty_board();
    // Row 0 holds 1 to 7; its last two cells need 8 and 9, and 9 is in both
    // of their columns.
    for x in 0..7 {
        b[0][x] = Tile::Hard(x as u8 + 1);
    }
    b[3][7] = Tile::Hard(9);
    b[6][8] = Tile::Hard(9);
    assert!(valid_board(&b));
    let start = b;
    let mut trace = Vec::new();
    assert_eq!(drive(&mut b, &mut trace), BoardState::Exhausted);
    assert!(trace.contains(&BoardState::Solving(7)));
    for y in 0..9 {
        for x in 0..9 {
            if let Tile::Hard(_) = start[y][x] {
                assert_eq!(b[y][x], start[y][x]);
            }
        }
    }
}
