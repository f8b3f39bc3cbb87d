use vstd::prelude::*;
use std::collections::HashSet;
use crate::board::{Board, Tile, grid, cell, digit, holds, wf_grid};

verus! {

broadcast use vstd::std_specs::hash::group_hash_axioms;

/// The cells of row `y`, left to right.
pub open spec fn row_seq(g: Seq<Seq<Tile>>, y: int) -> Seq<Tile> {
    Seq::new(9, |k: int| cell(g, k, y))
}

/// The cells of column `x`, top to bottom.
pub open spec fn col_seq(g: Seq<Seq<Tile>>, x: int) -> Seq<Tile> {
    Seq::new(9, |k: int| cell(g, x, k))
}

/// The cells of the 3x3 box in box-column `bx`, box-row `by`, row by row.
pub open spec fn box_seq(g: Seq<Seq<Tile>>, bx: int, by: int) -> Seq<Tile> {
    Seq::new(9, |k: int| cell(g, bx * 3 + k % 3, by * 3 + k / 3))
}

/// Whether one of the first `n` cells of `s` carries `d`.
pub open spec fn has_upto(s: Seq<Tile>, n: int, d: u8) -> bool {
    exists|k: int| 0 <= k < n && #[trigger] holds(s[k], d)
}

/// The digits seen from column `x`, row `y`: those in its row, its column and its box.
pub open spec fn used_set(g: Seq<Seq<Tile>>, x: int, y: int) -> Set<u8> {
    Set::new(
        |d: u8|
            has_upto(row_seq(g, y), 9, d) || has_upto(col_seq(g, x), 9, d) || has_upto(
                box_seq(g, x / 3, y / 3),
                9,
                d,
            ),
    )
}

/// Two cells that carry the same digit.
pub open spec fn clash(a: Tile, b: Tile) -> bool {
    digit(a) is Some && digit(a) == digit(b)
}

/// No two cells of `s` carry the same digit.
pub open spec fn distinct(s: Seq<Tile>) -> bool {
    forall|i: int, j: int| 0 <= i < j < s.len() ==> !clash(#[trigger] s[i], #[trigger] s[j])
}

/// No row, column or box of the board holds a digit twice.
pub open spec fn board_valid(g: Seq<Seq<Tile>>) -> bool {
    &&& forall|y: int| 0 <= y < 9 ==> distinct(#[trigger] row_seq(g, y))
    &&& forall|x: int| 0 <= x < 9 ==> distinct(#[trigger] col_seq(g, x))
    &&& forall|bx: int, by: int| 0 <= bx < 3 && 0 <= by < 3 ==> distinct(#[trigger] box_seq(g, bx, by))
}

/// A board with no digit on it is valid.
pub proof fn lemma_empty_board_valid(g: Seq<Seq<Tile>>)
    requires
        wf_grid(g),
        forall|x: int, y: int| 0 <= x < 9 && 0 <= y < 9 ==> #[trigger] cell(g, x, y) == Tile::Empty,
    ensures
        board_valid(g),
{
    assert forall|y: int| 0 <= y < 9 implies distinct(#[trigger] row_seq(g, y)) by {
        assert forall|i: int, j: int| 0 <= i < j < 9 implies !clash(#[trigger] row_seq(g, y)[i], #[trigger] row_seq(g, y)[j]) by {
            assert(cell(g, i, y) == Tile::Empty);
        }
    }
    assert forall|x: int| 0 <= x < 9 implies distinct(#[trigger] col_seq(g, x)) by {
        assert forall|i: int, j: int| 0 <= i < j < 9 implies !clash(#[trigger] col_seq(g, x)[i], #[trigger] col_seq(g, x)[j]) by {
            assert(cell(g, x, i) == Tile::Empty);
        }
    }
    assert forall|bx: int, by: int| 0 <= bx < 3 && 0 <= by < 3 implies distinct(#[trigger] box_seq(g, bx, by)) by {
        assert forall|i: int, j: int| 0 <= i < j < 9 implies !clash(#[trigger] box_seq(g, bx, by)[i], #[trigger] box_seq(g, bx, by)[j]) by {
            assert(cell(g, bx * 3 + i % 3, by * 3 + i / 3) == Tile::Empty);
        }
    }
}

/// Two different cells that share a row, a column or a box and carry the same
/// digit make the board invalid.
pub proof fn lemma_clash_invalid(g: Seq<Seq<Tile>>, x1: int, y1: int, x2: int, y2: int)
    requires
        wf_grid(g),
        0 <= x1 < 9 && 0 <= y1 < 9,
        0 <= x2 < 9 && 0 <= y2 < 9,
        x1 != x2 || y1 != y2,
        y1 == y2 || x1 == x2 || (x1 / 3 == x2 / 3 && y1 / 3 == y2 / 3),
        clash(cell(g, x1, y1), cell(g, x2, y2)),
    ensures
        !board_valid(g),
{
    if y1 == y2 {
        let s = row_seq(g, y1);
        assert(s[x1] == cell(g, x1, y1) && s[x2] == cell(g, x2, y2));
        if x1 < x2 {
            assert(!distinct(s));
        } else {
            assert(!distinct(s));
        }
    } else if x1 == x2 {
        let s = col_seq(g, x1);
        assert(s[y1] == cell(g, x1, y1) && s[y2] == cell(g, x2, y2));
        if y1 < y2 {
            assert(!distinct(s));
        } else {
            assert(!distinct(s));
        }
    } else {
        let s = box_seq(g, x1 / 3, y1 / 3);
        let k1 = (y1 % 3) * 3 + x1 % 3;
        let k2 = (y2 % 3) * 3 + x2 % 3;
        assert(k1 % 3 == x1 % 3 && k1 / 3 == y1 % 3);
        assert(k2 % 3 == x2 % 3 && k2 / 3 == y2 % 3);
        assert(s[k1] == cell(g, x1, y1));
        assert(s[k2] == cell(g, x2, y2));
        assert(k1 != k2);
        if k1 < k2 {
            assert(!distinct(s));
        } else {
            assert(!distinct(s));
        }
    }
}

/// Changing one entry of a unit keeps it free of repeats where the new entry
/// is empty or repeats no other entry.
pub(crate) proof fn lemma_distinct_update(s: Seq<Tile>, k0: int, t: Tile)
    requires
        distinct(s),
        0 <= k0 < s.len(),
        t == Tile::Empty || forall|j: int| 0 <= j < s.len() && j != k0 ==> !clash(t, #[trigger] s[j]),
    ensures
        distinct(s.update(k0, t)),
{
    let s2 = s.update(k0, t);
    assert forall|i: int, j: int| 0 <= i < j < s2.len() implies !clash(#[trigger] s2[i], #[trigger] s2[j]) by {
        if i == k0 {
            assert(t == Tile::Empty || !clash(t, s[j]));
        } else if j == k0 {
            assert(t == Tile::Empty || !clash(t, s[i]));
        } else {
            assert(!clash(s[i], s[j]));
        }
    }
}

fn add_digit(numbers: &mut HashSet<u8>, t: Tile)
    ensures
        forall|d: u8| #[trigger] final(numbers)@.contains(d) <==> old(numbers)@.contains(d) || holds(t, d),
{
    match t {
        Tile::Hard(n) => {
            numbers.insert(n);
        },
        Tile::Soft(n) => {
            numbers.insert(n);
        },
        Tile::Empty => {},
    }
}

/// The digits already present in the row, the column and the box of the cell
/// at column `pos.0`, row `pos.1`, the cell itself included.
pub fn taken_values(board: &Board, pos: (usize, usize)) -> (r: HashSet<u8>)
    requires
        pos.0 < 9,
        pos.1 < 9,
    ensures
        r@ == used_set(grid(*board), pos.0 as int, pos.1 as int),
{
    let ghost g = grid(*board);
    let ghost col = col_seq(g, pos.0 as int);
    let ghost row = row_seq(g, pos.1 as int);
    let ghost sec = box_seq(g, pos.0 as int / 3, pos.1 as int / 3);
    let mut numbers: HashSet<u8> = HashSet::new();
    let mut y: usize = 0;
    while y < 9
        invariant
            y <= 9,
            pos.0 < 9,
            g == grid(*board),
            col == col_seq(g, pos.0 as int),
            forall|d: u8| #[trigger] numbers@.contains(d) <==> has_upto(col, y as int, d),
        decreases 9 - y,
    {
        add_digit(&mut numbers, board[y][pos.0]);
        assert forall|d: u8| #[trigger] numbers@.contains(d) <==> has_upto(col, y + 1, d) by {
            if holds(col[y as int], d) {
                assert(has_upto(col, y + 1, d));
            }
            if has_upto(col, y + 1, d) {
                let k = choose|k: int| 0 <= k < y + 1 && #[trigger] holds(col[k], d);
                if k < y {
                    assert(has_upto(col, y as int, d));
                }
            }
        }
        y += 1;
    }
    let mut x: usize = 0;
    while x < 9
        invariant
            x <= 9,
            pos.1 < 9,
            g == grid(*board),
            row == row_seq(g, pos.1 as int),
            forall|d: u8| #[trigger] numbers@.contains(d) <==> has_upto(col, 9, d) || has_upto(row, x as int, d),
        decreases 9 - x,
    {
        add_digit(&mut numbers, board[pos.1][x]);
        assert forall|d: u8| #[trigger] numbers@.contains(d) <==> has_upto(col, 9, d) || has_upto(row, x + 1, d) by {
            if holds(row[x as int], d) {
                assert(has_upto(row, x + 1, d));
            }
            if has_upto(row, x + 1, d) {
                let k = choose|k: int| 0 <= k < x + 1 && #[trigger] holds(row[k], d);
                if k < x {
                    assert(has_upto(row, x as int, d));
                }
            }
        }
        x += 1;
    }
    let ox: usize = pos.0 / 3 * 3;
    let oy: usize = pos.1 / 3 * 3;
    let mut k: usize = 0;
    while k < 9
        invariant
            k <= 9,
            pos.0 < 9,
            pos.1 < 9,
            ox == pos.0 / 3 * 3,
            oy == pos.1 / 3 * 3,
            g == grid(*board),
            sec == box_seq(g, pos.0 as int / 3, pos.1 as int / 3),
            forall|d: u8| #[trigger] numbers@.contains(d) <==> has_upto(col, 9, d) || has_upto(row, 9, d) || has_upto(sec, k as int, d),
        decreases 9 - k,
    {
        add_digit(&mut numbers, board[oy + k / 3][ox + k % 3]);
        assert forall|d: u8| #[trigger] numbers@.contains(d) <==> has_upto(col, 9, d) || has_upto(row, 9, d) || has_upto(sec, k + 1, d) by {
            if holds(sec[k as int], d) {
                assert(has_upto(sec, k + 1, d));
            }
            if has_upto(sec, k + 1, d) {
                let j = choose|j: int| 0 <= j < k + 1 && #[trigger] holds(sec[j], d);
                if j < k {
                    assert(has_upto(sec, k as int, d));
                }
            }
        }
        k += 1;
    }
    assert(numbers@ =~= used_set(g, pos.0 as int, pos.1 as int));
    numbers
}

fn same_digit(a: Tile, b: Tile) -> (r: bool)
    ensures
        r == clash(a, b),
{
    match (a, b) {
        (Tile::Hard(m), Tile::Hard(n)) => m == n,
        (Tile::Hard(m), Tile::Soft(n)) => m == n,
        (Tile::Soft(m), Tile::Hard(n)) => m == n,
        (Tile::Soft(m), Tile::Soft(n)) => m == n,
        _ => false,
    }
}

fn all_distinct(tiles: &[Tile; 9]) -> (r: bool)
    ensures
        r == distinct(tiles@),
{
    let mut i: usize = 0;
    while i < 9
        invariant
            i <= 9,
            forall|a: int, b: int| 0 <= a < i && a < b < 9 ==> !clash(tiles@[a], tiles@[b]),
        decreases 9 - i,
    {
        let mut j: usize = i + 1;
        while j < 9
            invariant
                i < 9,
                i + 1 <= j <= 9,
                forall|a: int, b: int| 0 <= a < i && a < b < 9 ==> !clash(tiles@[a], tiles@[b]),
                forall|b: int| i < b < j ==> !clash(tiles@[i as int], tiles@[b]),
            decreases 9 - j,
        {
            if same_digit(tiles[i], tiles[j]) {
                return false;
            }
            j += 1;
        }
        i += 1;
    }
    true
}

/// Whether column `x` holds no digit twice.
pub fn valid_column(x: usize, board: &Board) -> (r: bool)
    requires
        x < 9,
    ensures
        r == distinct(col_seq(grid(*board), x as int)),
{
    let mut tiles = [Tile::Empty; 9];
    let mut y: usize = 0;
    while y < 9
        invariant
            y <= 9,
            x < 9,
            forall|k: int| 0 <= k < y ==> tiles@[k] == col_seq(grid(*board), x as int)[k],
        decreases 9 - y,
    {
        tiles[y] = board[y][x];
        y += 1;
    }
    assert(tiles@ =~= col_seq(grid(*board), x as int));
    all_distinct(&tiles)
}

/// Whether row `y` holds no digit twice.
pub fn valid_row(y: usize, board: &Board) -> (r: bool)
    requires
        y < 9,
    ensures
        r == distinct(row_seq(grid(*board), y as int)),
{
    assert(board[y as int]@ =~= row_seq(grid(*board), y as int));
    all_distinct(&board[y])
}

/// Whether the box in box-column `pos.0`, box-row `pos.1` holds no digit twice.
pub fn valid_section(pos: (usize, usize), board: &Board) -> (r: bool)
    requires
        pos.0 < 3,
        pos.1 < 3,
    ensures
        r == distinct(box_seq(grid(*board), pos.0 as int, pos.1 as int)),
{
    let ghost s = box_seq(grid(*board), pos.0 as int, pos.1 as int);
    let mut tiles = [Tile::Empty; 9];
    let mut k: usize = 0;
    while k < 9
        invariant
            k <= 9,
            pos.0 < 3,
            pos.1 < 3,
            s == box_seq(grid(*board), pos.0 as int, pos.1 as int),
            forall|j: int| 0 <= j < k ==> tiles@[j] == s[j],
        decreases 9 - k,
    {
        tiles[k] = board[pos.1 * 3 + k / 3][pos.0 * 3 + k % 3];
        k += 1;
    }
    assert(tiles@ =~= s);
    all_distinct(&tiles)
}

/// Whether no row, column or box of the board holds a digit twice.
pub fn valid_board(board: &Board) -> (r: bool)
    ensures
        r == board_valid(grid(*board)),
{
    let mut by: usize = 0;
    while by < 3
        invariant
            by <= 3,
            forall|i: int, j: int| 0 <= i < 3 && 0 <= j < by ==> distinct(#[trigger] box_seq(grid(*board), i, j)),
        decreases 3 - by,
    {
        let mut bx: usize = 0;
        while bx < 3
            invariant
                by < 3,
                bx <= 3,
                forall|i: int, j: int| 0 <= i < 3 && 0 <= j < by ==> distinct(#[trigger] box_seq(grid(*board), i, j)),
                forall|i: int| 0 <= i < bx ==> distinct(#[trigger] box_seq(grid(*board), i, by as int)),
            decreases 3 - bx,
        {
            if !valid_section((bx, by), board) {
                return false;
            }
            bx += 1;
        }
        by += 1;
    }
    let mut y: usize = 0;
    while y < 9
        invariant
            y <= 9,
            forall|i: int, j: int| 0 <= i < 3 && 0 <= j < 3 ==> distinct(#[trigger] box_seq(grid(*board), i, j)),
            forall|i: int| 0 <= i < y ==> distinct(#[trigger] row_seq(grid(*board), i)),
        decreases 9 - y,
    {
        if !valid_row(y, board) {
            return false;
        }
        y += 1;
    }
    let mut x: usize = 0;
    while x < 9
        invariant
            x <= 9,
            forall|i: int, j: int| 0 <= i < 3 && 0 <= j < 3 ==> distinct(#[trigger] box_seq(grid(*board), i, j)),
            forall|i: int| 0 <= i < 9 ==> distinct(#[trigger] row_seq(grid(*board), i)),
            forall|i: int| 0 <= i < x ==> distinct(#[trigger] col_seq(grid(*board), i)),
        decreases 9 - x,
    {
        if !valid_column(x, board) {
            return false;
        }
        x += 1;
    }
    true
}

} // verus!
