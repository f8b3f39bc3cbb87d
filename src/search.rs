use vstd::prelude::*;
use std::collections::HashSet;
use crate::board::{Board, Tile, grid, digit, holds, cell, with_cell, is_hard, pos_of, idx_of, get_pos, wf_grid, lemma_grid_wf, lemma_pos_round_trip};
use crate::check::{used_set, taken_values, board_valid, distinct, row_seq, col_seq, box_seq, clash, lemma_distinct_update};

verus! {

broadcast use vstd::std_specs::hash::group_hash_axioms;

/// What one step of the search reports.
#[derive(Clone, Copy, Debug, PartialEq, Eq, Structural)]
pub enum BoardState {
    /// The search goes on at this linear position.
    Solving(usize),
    /// The scan has reached the last cell.
    Finished,
    /// The search backtracked past the first open cell: no assignment is left to try.
    Exhausted,
}

/// The digits 1 to 9.
pub open spec fn digit_set() -> Set<u8> {
    Set::new(|d: u8| 1 <= d <= 9)
}

/// The digit last tried at a cell: the solver's digit, or 0 where there is none.
pub open spec fn prev_digit(t: Tile) -> int {
    match t {
        Tile::Soft(n) => n as int,
        _ => 0,
    }
}

/// The smallest digit from `d` up to 9 that `used` lacks, or 10 where there is none.
pub open spec fn first_free(used: Set<u8>, d: int) -> int
    decreases 10 - d,
{
    if d >= 10 || d < 0 {
        10
    } else if !used.contains(d as u8) {
        d
    } else {
        first_free(used, d + 1)
    }
}

/// The nearest position below `i` whose cell is not a given, if any.
pub open spec fn last_open_below(g: Seq<Seq<Tile>>, i: int) -> Option<int>
    decreases i,
{
    if i <= 0 {
        None
    } else if !is_hard(cell(g, pos_of(i - 1).0, pos_of(i - 1).1)) {
        Some(i - 1)
    } else {
        last_open_below(g, i - 1)
    }
}

/// The report after position `i` was passed or filled.
pub open spec fn advance(i: int) -> BoardState {
    if i == 80 {
        BoardState::Finished
    } else {
        BoardState::Solving((i + 1) as usize)
    }
}

/// One step of the search at position `i`: the board after it and the report.
pub open spec fn step(g: Seq<Seq<Tile>>, i: int) -> (Seq<Seq<Tile>>, BoardState) {
    let x = pos_of(i).0;
    let y = pos_of(i).1;
    let t = cell(g, x, y);
    if is_hard(t) {
        (g, advance(i))
    } else {
        let c = first_free(used_set(g, x, y), prev_digit(t) + 1);
        if c <= 9 {
            (with_cell(g, x, y, Tile::Soft(c as u8)), advance(i))
        } else {
            let g2 = with_cell(g, x, y, Tile::Empty);
            match last_open_below(g2, i) {
                Some(j) => (g2, BoardState::Solving(j as usize)),
                None => (g2, BoardState::Exhausted),
            }
        }
    }
}

/// Up to `n` steps from position `i`, stopping at the first report that is not
/// `Solving`: the board then and the last report.
pub open spec fn run(g: Seq<Seq<Tile>>, i: usize, n: nat) -> (Seq<Seq<Tile>>, BoardState)
    decreases n,
{
    if n == 0 || i >= 81 {
        (g, BoardState::Solving(i))
    } else {
        let (g2, s) = step(g, i as int);
        match s {
            BoardState::Solving(j) => run(g2, j, (n - 1) as nat),
            _ => (g2, s),
        }
    }
}

/// The reports of up to `n` steps from position `i`, in order, stopping after
/// the first report that is not `Solving`.
pub open spec fn reports(g: Seq<Seq<Tile>>, i: usize, n: nat) -> Seq<BoardState>
    decreases n,
{
    if n == 0 || i >= 81 {
        Seq::empty()
    } else {
        let (g2, s) = step(g, i as int);
        match s {
            BoardState::Solving(j) => seq![s] + reports(g2, j, (n - 1) as nat),
            _ => seq![s],
        }
    }
}

/// Every given of `g` stands unchanged in `h`.
pub open spec fn keeps_givens(g: Seq<Seq<Tile>>, h: Seq<Seq<Tile>>) -> bool {
    forall|x: int, y: int|
        0 <= x < 9 && 0 <= y < 9 && is_hard(#[trigger] cell(g, x, y)) ==> cell(h, x, y) == cell(g, x, y)
}

proof fn lemma_first_free_bounds(used: Set<u8>, d: int)
    requires
        d >= 0,
    ensures
        first_free(used, d) == 10 || first_free(used, d) >= d,
        first_free(used, d) <= 10,
        first_free(used, d) <= 9 ==> !used.contains(first_free(used, d) as u8),
    decreases 10 - d,
{
    if d < 10 && used.contains(d as u8) {
        lemma_first_free_bounds(used, d + 1);
    }
}

/// A step leaves the board well formed and changes no given.
pub proof fn lemma_step_keeps_givens(g: Seq<Seq<Tile>>, i: int)
    requires
        wf_grid(g),
        0 <= i < 81,
    ensures
        wf_grid(step(g, i).0),
        keeps_givens(g, step(g, i).0),
{
}

/// Any run of steps, of any length, changes no given.
pub proof fn lemma_run_keeps_givens(g: Seq<Seq<Tile>>, i: usize, n: nat)
    requires
        wf_grid(g),
    ensures
        wf_grid(run(g, i, n).0),
        keeps_givens(g, run(g, i, n).0),
    decreases n,
{
    if n > 0 && i < 81 {
        let (g2, s) = step(g, i as int);
        lemma_step_keeps_givens(g, i as int);
        if let BoardState::Solving(j) = s {
            lemma_run_keeps_givens(g2, j, (n - 1) as nat);
        }
    }
}

/// The cell written at column `x`, row `y` repeats no digit of its row, column
/// or box, or is empty: then the board stays valid.
proof fn lemma_write_keeps_valid(g: Seq<Seq<Tile>>, x: int, y: int, t: Tile)
    requires
        wf_grid(g),
        board_valid(g),
        0 <= x < 9,
        0 <= y < 9,
        t == Tile::Empty || forall|d: u8| #[trigger] holds(t, d) ==> !used_set(g, x, y).contains(d),
    ensures
        board_valid(with_cell(g, x, y, t)),
{
    let g2 = with_cell(g, x, y, t);
    assert forall|r: int| 0 <= r < 9 implies distinct(#[trigger] row_seq(g2, r)) by {
        if r == y {
            assert(row_seq(g2, r) =~= row_seq(g, r).update(x, t));
            assert forall|j: int| 0 <= j < 9 && j != x && t != Tile::Empty implies !clash(t, #[trigger] row_seq(g, r)[j]) by {
                if clash(t, row_seq(g, r)[j]) {
                    let d = digit(t)->Some_0;
                    assert(holds(t, d));
                    assert(holds(row_seq(g, r)[j], d));
                }
            }
            lemma_distinct_update(row_seq(g, r), x, t);
        } else {
            assert(row_seq(g2, r) =~= row_seq(g, r));
        }
    }
    assert forall|c: int| 0 <= c < 9 implies distinct(#[trigger] col_seq(g2, c)) by {
        if c == x {
            assert(col_seq(g2, c) =~= col_seq(g, c).update(y, t));
            assert forall|j: int| 0 <= j < 9 && j != y && t != Tile::Empty implies !clash(t, #[trigger] col_seq(g, c)[j]) by {
                if clash(t, col_seq(g, c)[j]) {
                    let d = digit(t)->Some_0;
                    assert(holds(t, d));
                    assert(holds(col_seq(g, c)[j], d));
                }
            }
            lemma_distinct_update(col_seq(g, c), y, t);
        } else {
            assert(col_seq(g2, c) =~= col_seq(g, c));
        }
    }
    assert forall|bx: int, by: int| 0 <= bx < 3 && 0 <= by < 3 implies distinct(#[trigger] box_seq(g2, bx, by)) by {
        if bx == x / 3 && by == y / 3 {
            let k0 = (y % 3) * 3 + x % 3;
            assert(box_seq(g2, bx, by) =~= box_seq(g, bx, by).update(k0, t));
            assert forall|j: int| 0 <= j < 9 && j != k0 && t != Tile::Empty implies !clash(t, #[trigger] box_seq(g, bx, by)[j]) by {
                if clash(t, box_seq(g, bx, by)[j]) {
                    let d = digit(t)->Some_0;
                    assert(holds(t, d));
                    assert(holds(box_seq(g, bx, by)[j], d));
                }
            }
            lemma_distinct_update(box_seq(g, bx, by), k0, t);
        } else {
            assert(box_seq(g2, bx, by) =~= box_seq(g, bx, by));
        }
    }
}

/// A step from a valid board leaves a valid board: the search only places a
/// digit that the cell's row, column and box lack.
pub proof fn lemma_step_keeps_valid(g: Seq<Seq<Tile>>, i: int)
    requires
        wf_grid(g),
        board_valid(g),
        0 <= i < 81,
    ensures
        board_valid(step(g, i).0),
{
    let x = pos_of(i).0;
    let y = pos_of(i).1;
    let t = cell(g, x, y);
    if !is_hard(t) {
        let used = used_set(g, x, y);
        let c = first_free(used, prev_digit(t) + 1);
        lemma_first_free_bounds(used, prev_digit(t) + 1);
        if c <= 9 {
            lemma_write_keeps_valid(g, x, y, Tile::Soft(c as u8));
        } else {
            lemma_write_keeps_valid(g, x, y, Tile::Empty);
        }
    }
}

/// Any run of steps from a valid board leaves a valid board.
pub proof fn lemma_run_keeps_valid(g: Seq<Seq<Tile>>, i: usize, n: nat)
    requires
        wf_grid(g),
        board_valid(g),
    ensures
        board_valid(run(g, i, n).0),
    decreases n,
{
    if n > 0 && i < 81 {
        let (g2, s) = step(g, i as int);
        lemma_step_keeps_givens(g, i as int);
        lemma_step_keeps_valid(g, i as int);
        if let BoardState::Solving(j) = s {
            lemma_run_keeps_valid(g2, j, (n - 1) as nat);
        }
    }
}

/// Every position below `i` holds a digit.
pub open spec fn filled_below(g: Seq<Seq<Tile>>, i: int) -> bool {
    forall|k: int| 0 <= k < i ==> #[trigger] cell(g, pos_of(k).0, pos_of(k).1) != Tile::Empty
}

proof fn lemma_last_open_below_range(g: Seq<Seq<Tile>>, i: int)
    ensures
        match last_open_below(g, i) {
            Some(j) => 0 <= j < i,
            None => true,
        },
    decreases i,
{
    if i > 0 {
        lemma_last_open_below_range(g, i - 1);
    }
}

proof fn lemma_step_fills(g: Seq<Seq<Tile>>, i: int)
    requires
        wf_grid(g),
        0 <= i < 81,
        filled_below(g, i),
    ensures
        match step(g, i).1 {
            BoardState::Solving(j) => j < 81 && filled_below(step(g, i).0, j as int),
            BoardState::Finished => filled_below(step(g, i).0, 81),
            BoardState::Exhausted => true,
        },
{
    let x = pos_of(i).0;
    let y = pos_of(i).1;
    let t = cell(g, x, y);
    let g2 = step(g, i).0;
    assert forall|k: int| 0 <= k < i implies #[trigger] cell(g2, pos_of(k).0, pos_of(k).1) == cell(g, pos_of(k).0, pos_of(k).1) by {
        lemma_pos_round_trip(k);
        lemma_pos_round_trip(i);
    }
    if !is_hard(t) {
        let c = first_free(used_set(g, x, y), prev_digit(t) + 1);
        if c > 9 {
            lemma_last_open_below_range(with_cell(g, x, y, Tile::Empty), i);
        }
    }
}

proof fn lemma_run_fills(g: Seq<Seq<Tile>>, i: usize, n: nat)
    requires
        wf_grid(g),
        i < 81,
        filled_below(g, i as int),
    ensures
        run(g, i, n).1 == BoardState::Finished ==> filled_below(run(g, i, n).0, 81),
    decreases n,
{
    if n > 0 {
        let (g2, s) = step(g, i as int);
        lemma_step_keeps_givens(g, i as int);
        lemma_step_fills(g, i as int);
        if let BoardState::Solving(j) = s {
            lemma_run_fills(g2, j, (n - 1) as nat);
        }
    }
}

/// A run from position 0 on a valid board that reports `Finished` ends on a
/// solved board: every cell holds a digit, no row, column or box repeats one,
/// and every given stands unchanged.
pub proof fn lemma_finished_run_solves(g: Seq<Seq<Tile>>, n: nat)
    requires
        wf_grid(g),
        board_valid(g),
        run(g, 0, n).1 == BoardState::Finished,
    ensures
        board_valid(run(g, 0, n).0),
        keeps_givens(g, run(g, 0, n).0),
        forall|x: int, y: int| 0 <= x < 9 && 0 <= y < 9 ==> #[trigger] cell(run(g, 0, n).0, x, y) != Tile::Empty,
{
    lemma_run_keeps_valid(g, 0, n);
    lemma_run_keeps_givens(g, 0, n);
    lemma_run_fills(g, 0, n);
    let h = run(g, 0, n).0;
    assert forall|x: int, y: int| 0 <= x < 9 && 0 <= y < 9 implies #[trigger] cell(h, x, y) != Tile::Empty by {
        let k = idx_of(x, y);
        assert(pos_of(k) == (x, y));
        assert(cell(h, pos_of(k).0, pos_of(k).1) != Tile::Empty);
    }
}

/// Where a step revisits a cell that holds the solver's digit `d`, the cell
/// afterwards holds a larger digit or is emptied: `d` and the digits below it
/// are not tried again.
pub proof fn lemma_revisit_raises_digit(g: Seq<Seq<Tile>>, i: int, d: u8)
    requires
        wf_grid(g),
        0 <= i < 81,
        cell(g, pos_of(i).0, pos_of(i).1) == Tile::Soft(d),
    ensures
        match cell(step(g, i).0, pos_of(i).0, pos_of(i).1) {
            Tile::Soft(e) => e > d,
            Tile::Empty => true,
            Tile::Hard(_) => false,
        },
{
    lemma_first_free_bounds(used_set(g, pos_of(i).0, pos_of(i).1), d + 1);
}

/// Two runs from the same board and position, of the same length, give the
/// same reports in the same order and end on the same board.
pub proof fn lemma_run_deterministic(g1: Seq<Seq<Tile>>, g2: Seq<Seq<Tile>>, i: usize, n: nat)
    requires
        g1 == g2,
    ensures
        reports(g1, i, n) == reports(g2, i, n),
        run(g1, i, n) == run(g2, i, n),
{
}

/// The digits 1 to 9, the values a cell can take.
pub fn numbers() -> (r: HashSet<u8>)
    ensures
        r@ == digit_set(),
{
    let mut set: HashSet<u8> = HashSet::new();
    let mut d: u8 = 1;
    while d <= 9
        invariant
            1 <= d <= 10,
            set@ == Set::new(|e: u8| 1 <= e < d),
        decreases 10 - d,
    {
        set.insert(d);
        assert(set@ =~= Set::new(|e: u8| 1 <= e < d + 1));
        d += 1;
    }
    assert(set@ =~= digit_set());
    set
}

/// The nearest position below `idx` whose cell is not a given, or `None`
/// where every cell below `idx` is a given.
pub fn decrement_until_soft(idx: usize, board: &Board) -> (r: Option<usize>)
    requires
        idx <= 81,
    ensures
        match r {
            Some(j) => last_open_below(grid(*board), idx as int) == Some(j as int),
            None => last_open_below(grid(*board), idx as int) is None,
        },
{
    let ghost g = grid(*board);
    let mut i: usize = idx;
    while i > 0
        invariant
            i <= idx <= 81,
            g == grid(*board),
            last_open_below(g, idx as int) == last_open_below(g, i as int),
        decreases i,
    {
        i -= 1;
        let pos = get_pos(i);
        if let Tile::Hard(_) = board[pos.1][pos.0] {
            continue;
        }
        return Some(i);
    }
    None
}

/// Runs one step of the search at position `solving_idx`.
///
/// A given is passed over. Any other cell gets the smallest digit above the
/// one it held (0 for an empty cell) that its row, column and box lack; where
/// there is none, the cell is emptied and the search goes back to the nearest
/// open cell below, or reports `Exhausted` where there is none.
pub fn solve(board: &mut Board, solving_idx: usize) -> (r: BoardState)
    requires
        solving_idx < 81,
    ensures
        (grid(*final(board)), r) == step(grid(*old(board)), solving_idx as int),
        keeps_givens(grid(*old(board)), grid(*final(board))),
        board_valid(grid(*old(board))) ==> board_valid(grid(*final(board))),
        match (cell(grid(*old(board)), pos_of(solving_idx as int).0, pos_of(solving_idx as int).1),
            cell(grid(*final(board)), pos_of(solving_idx as int).0, pos_of(solving_idx as int).1)) {
            (Tile::Soft(d), Tile::Soft(e)) => e > d,
            _ => true,
        },
{
    proof {
        lemma_grid_wf(*board);
        lemma_step_keeps_givens(grid(*board), solving_idx as int);
        if board_valid(grid(*board)) {
            lemma_step_keeps_valid(grid(*board), solving_idx as int);
        }
        if let Tile::Soft(d) = cell(grid(*board), pos_of(solving_idx as int).0, pos_of(solving_idx as int).1) {
            lemma_revisit_raises_digit(grid(*board), solving_idx as int, d);
        }
    }
    let ghost g = grid(*board);
    let pos = get_pos(solving_idx);
    let prev: u8 = match board[pos.1][pos.0] {
        Tile::Hard(_) => {
            return if solving_idx != 80 {
                BoardState::Solving(solving_idx + 1)
            } else {
                BoardState::Finished
            };
        },
        Tile::Soft(n) => n,
        Tile::Empty => 0,
    };
    let all = numbers();
    let taken = taken_values(board, pos);
    let ghost used = used_set(g, pos.0 as int, pos.1 as int);
    let mut d: u8 = if prev < 9 {
        prev + 1
    } else {
        10
    };
    while d <= 9 && !(all.contains(&d) && !taken.contains(&d))
        invariant
            1 <= d <= 10,
            all@ == digit_set(),
            taken@ == used,
            first_free(used, prev + 1) == first_free(used, d as int),
        decreases 10 - d,
    {
        d += 1;
    }
    if d <= 9 {
        board[pos.1][pos.0] = Tile::Soft(d);
        assert(grid(*board) =~~= with_cell(g, pos.0 as int, pos.1 as int, Tile::Soft(d)));
        if solving_idx != 80 {
            BoardState::Solving(solving_idx + 1)
        } else {
            BoardState::Finished
        }
    } else {
        board[pos.1][pos.0] = Tile::Empty;
        assert(grid(*board) =~~= with_cell(g, pos.0 as int, pos.1 as int, Tile::Empty));
        match decrement_until_soft(solving_idx, board) {
            Some(j) => BoardState::Solving(j),
            None => BoardState::Exhausted,
        }
    }
}

} // verus!
