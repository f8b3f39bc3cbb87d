use vstd::prelude::*;

verus! {

/// One cell of the board: a given digit, a digit placed by the solver, or nothing.
#[derive(Clone, Copy, Debug, PartialEq, Eq, Structural)]
pub enum Tile {
    /// A digit entered by the user; the solver never changes it.
    Hard(u8),
    /// A digit placed by the solver, revisable on backtrack.
    Soft(u8),
    /// No digit yet.
    Empty,
}

/// The board, row-major: `board[y][x]` is the cell in row `y`, column `x`.
pub type Board = [[Tile; 9]; 9];

/// The board as a sequence of rows.
pub open spec fn grid(b: Board) -> Seq<Seq<Tile>> {
    b@.map_values(|r: [Tile; 9]| r@)
}

/// Every row of the board and the board itself have nine entries.
pub open spec fn wf_grid(g: Seq<Seq<Tile>>) -> bool {
    g.len() == 9 && forall|y: int| 0 <= y < 9 ==> (#[trigger] g[y]).len() == 9
}

/// The model of a board is well formed.
pub proof fn lemma_grid_wf(b: Board)
    ensures
        wf_grid(grid(b)),
{
}

/// The cell in column `x`, row `y`.
pub open spec fn cell(g: Seq<Seq<Tile>>, x: int, y: int) -> Tile {
    g[y][x]
}

/// The board with the cell at column `x`, row `y` replaced by `t`.
pub open spec fn with_cell(g: Seq<Seq<Tile>>, x: int, y: int, t: Tile) -> Seq<Seq<Tile>> {
    g.update(y, g[y].update(x, t))
}

/// Whether the cell is a given.
pub open spec fn is_hard(t: Tile) -> bool {
    t is Hard
}

/// The digit that the cell carries, given or placed.
pub open spec fn digit(t: Tile) -> Option<u8> {
    match t {
        Tile::Hard(n) => Some(n),
        Tile::Soft(n) => Some(n),
        Tile::Empty => None,
    }
}

/// Whether the cell carries the digit `d`, given or placed.
pub open spec fn holds(t: Tile, d: u8) -> bool {
    digit(t) == Some(d)
}

/// Column and row of a linear index: `(idx % 9, idx / 9)`.
pub open spec fn pos_of(idx: int) -> (int, int) {
    (idx % 9, idx / 9)
}

/// Linear index of column `x`, row `y`.
pub open spec fn idx_of(x: int, y: int) -> int {
    y * 9 + x
}

/// Column and row of the linear position `idx`.
pub fn get_pos(idx: usize) -> (r: (usize, usize))
    ensures
        r.0 == pos_of(idx as int).0,
        r.1 == pos_of(idx as int).1,
{
    (idx % 9, idx / 9)
}

/// Linear position of column `x`, row `y`.
pub fn to_idx(x: usize, y: usize) -> (r: usize)
    requires
        x < 9,
        y < 9,
    ensures
        r == idx_of(x as int, y as int),
        r < 81,
{
    y * 9 + x
}

/// Going from a position to its column and row, back to an index and again to
/// column and row gives the same column and row.
pub proof fn lemma_pos_round_trip(i: int)
    requires
        0 <= i < 81,
    ensures
        pos_of(idx_of(pos_of(i).0, pos_of(i).1)) == pos_of(i),
        idx_of(pos_of(i).0, pos_of(i).1) == i,
        0 <= pos_of(i).0 < 9,
        0 <= pos_of(i).1 < 9,
{
}

} // verus!
