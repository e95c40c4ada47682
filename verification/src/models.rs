//! The data of a Killer Sudoku: the cells, the given digits, the cages and
//! the lookup table from a cell to its cage.
use vstd::prelude::*;

verus! {

/// A 9x9 grid of digits; `0` marks an empty cell.
pub type Grid = [[u8; 9]; 9];

/// One flag per cell of the grid.
pub type Mask = [[bool; 9]; 9];

/// The table entry of a cell that lies in no cage.
pub const NO_CAGE: usize = usize::MAX;

/// A cell of the grid, by row and column.
#[derive(Debug, Clone, Copy)]
pub struct Cell {
    pub row: usize,
    pub col: usize,
}

/// A digit given in the puzzle.
#[derive(Debug, Clone, Copy)]
pub struct Given {
    pub row: usize,
    pub col: usize,
    pub value: u8,
}

/// A cage: a group of cells whose distinct digits add up to `sum`.
#[derive(Debug, Clone)]
pub struct Cage {
    pub cells: Vec<Cell>,
    pub sum: u32,
}

/// A puzzle as it is read and written: the given digits and the cages.
#[derive(Debug, Clone)]
pub struct SudokuJson {
    pub given: Vec<Given>,
    pub cages: Vec<Cage>,
}

/// The cages of a puzzle with, for each cell, the index of its cage in
/// `cages` (or `NO_CAGE`).
pub struct SudokuMeta {
    pub cages: Vec<Cage>,
    pub cell_to_cage: [[usize; 9]; 9],
}

/// The value of the cell `p` of `g`.
pub open spec fn cell_at(g: Grid, p: (usize, usize)) -> u8 {
    g[p.0 as int][p.1 as int]
}

/// Every cell holds `0` or a digit `1..=9`.
pub open spec fn grid_digits(g: Grid) -> bool {
    forall|r: int, c: int| 0 <= r < 9 && 0 <= c < 9 ==> #[trigger] g[r][c] <= 9
}

/// All positions lie on the grid.
pub open spec fn cells_in_bounds(cells: Seq<(usize, usize)>) -> bool {
    forall|i: int| #![trigger cells[i]] 0 <= i < cells.len() ==> cells[i].0 < 9 && cells[i].1 < 9
}

/// The positions of the cells of a cage, in the cage's order.
pub open spec fn cage_house(cage: Cage) -> Seq<(usize, usize)> {
    cage.cells@.map_values(|p: Cell| (p.row, p.col))
}

/// Every cell of every cage lies on the grid.
pub open spec fn cages_in_bounds(cages: Seq<Cage>) -> bool {
    forall|i: int| 0 <= i < cages.len() ==> cells_in_bounds(#[trigger] cage_house(cages[i]))
}

/// The cage index stored for the cell `(r, c)`.
pub open spec fn cage_of(meta: SudokuMeta, r: int, c: int) -> usize {
    meta.cell_to_cage[r][c]
}

/// A table that can be used without running off an array: its cages lie on
/// the grid and each entry names a cage or is `NO_CAGE`.
pub open spec fn meta_safe(meta: SudokuMeta) -> bool {
    &&& cages_in_bounds(meta.cages@)
    &&& forall|r: int, c: int|
        0 <= r < 9 && 0 <= c < 9 ==> #[trigger] cage_of(meta, r, c) == NO_CAGE || cage_of(
            meta,
            r,
            c,
        ) < meta.cages@.len()
}

/// The table entry of the cell `(r, c)` can be followed: it is `NO_CAGE`, or
/// it names a cage whose cells lie on the grid.
pub open spec fn cell_table_safe(meta: SudokuMeta, r: int, c: int) -> bool {
    let i = cage_of(meta, r, c);
    i == NO_CAGE || (i < meta.cages@.len() && cells_in_bounds(cage_house(meta.cages@[i as int])))
}

/// The table agrees with the cages: every cell of cage `i` is filed under
/// `i`.
pub open spec fn meta_consistent(meta: SudokuMeta) -> bool {
    forall|i: int, j: int|
        0 <= i < meta.cages@.len() && 0 <= j < meta.cages@[i].cells@.len() ==> {
            let p = #[trigger] meta.cages@[i].cells@[j];
            cage_of(meta, p.row as int, p.col as int) == i
        }
}

} // verus!
