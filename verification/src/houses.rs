//! The houses of the grid (rows, columns, 3x3 blocks and cages) as lists of
//! cell positions, and the digits that stand in them.
use vstd::prelude::*;

use crate::digits::{
    all_digits, house_broken, house_feasible, lemma_remove, lemma_same_counts, occ, total,
};
use crate::models::{cage_house, cell_at, cells_in_bounds, grid_digits, Cage, Grid};

verus! {

/// The values that stand in the cells `cells` of `g`, in the same order.
pub open spec fn house_values(g: Grid, cells: Seq<(usize, usize)>) -> Seq<u8> {
    Seq::new(cells.len(), |i: int| cell_at(g, cells[i]))
}

/// Row `r`, left to right.
pub open spec fn row_house(r: usize) -> Seq<(usize, usize)> {
    Seq::new(9, |i: int| (r, i as usize))
}

/// Column `c`, top to bottom.
pub open spec fn col_house(c: usize) -> Seq<(usize, usize)> {
    Seq::new(9, |i: int| (i as usize, c))
}

/// The 3x3 block in block row `br` and block column `bc`, row by row.
pub open spec fn block_house(br: usize, bc: usize) -> Seq<(usize, usize)> {
    Seq::new(9, |i: int| ((br * 3 + i / 3) as usize, (bc * 3 + i % 3) as usize))
}

/// The cells of row `row`.
pub fn row_cells(row: usize) -> (cells: Vec<(usize, usize)>)
    requires
        row < 9,
    ensures
        cells@ == row_house(row),
        cells_in_bounds(cells@),
{
    let mut cells: Vec<(usize, usize)> = Vec::new();
    for col in 0..9usize
        invariant
            row < 9,
            cells@ == row_house(row).take(col as int),
    {
        cells.push((row, col));
        assert(cells@ =~= row_house(row).take(col + 1));
    }
    assert(cells@ =~= row_house(row));
    cells
}

/// The cells of column `col`.
pub fn col_cells(col: usize) -> (cells: Vec<(usize, usize)>)
    requires
        col < 9,
    ensures
        cells@ == col_house(col),
        cells_in_bounds(cells@),
{
    let mut cells: Vec<(usize, usize)> = Vec::new();
    for row in 0..9usize
        invariant
            col < 9,
            cells@ == col_house(col).take(row as int),
    {
        cells.push((row, col));
        assert(cells@ =~= col_house(col).take(row + 1));
    }
    assert(cells@ =~= col_house(col));
    cells
}

/// The cells of the block in block row `br` and block column `bc`.
pub fn block_cells(br: usize, bc: usize) -> (cells: Vec<(usize, usize)>)
    requires
        br < 3,
        bc < 3,
    ensures
        cells@ == block_house(br, bc),
        cells_in_bounds(cells@),
{
    let mut cells: Vec<(usize, usize)> = Vec::new();
    for i in 0..9usize
        invariant
            br < 3,
            bc < 3,
            cells@ == block_house(br, bc).take(i as int),
    {
        cells.push((br * 3 + i / 3, bc * 3 + i % 3));
        assert(cells@ =~= block_house(br, bc).take(i + 1));
    }
    assert(cells@ =~= block_house(br, bc));
    cells
}

/// The cells of a cage, in the cage's order.
pub fn cage_cells(cage: &Cage) -> (cells: Vec<(usize, usize)>)
    ensures
        cells@ == cage_house(*cage),
{
    let mut cells: Vec<(usize, usize)> = Vec::new();
    let n = cage.cells.len();
    for i in 0..n
        invariant
            n == cage.cells@.len(),
            cells@ == cage_house(*cage).take(i as int),
    {
        let p = cage.cells[i];
        cells.push((p.row, p.col));
        assert(cells@ =~= cage_house(*cage).take(i + 1));
    }
    assert(cells@ =~= cage_house(*cage));
    cells
}

/// Row `r` holds the cell `(r, c)`, and no other row does.
pub proof fn lemma_row_house_contains(row: usize, r: usize, c: usize)
    requires
        r < 9,
        c < 9,
    ensures
        row_house(row).contains((r, c)) <==> row == r,
{
    if row == r {
        assert(row_house(row)[c as int] == (r, c));
    }
}

/// Column `c` holds the cell `(r, c)`, and no other column does.
pub proof fn lemma_col_house_contains(col: usize, r: usize, c: usize)
    requires
        r < 9,
        c < 9,
    ensures
        col_house(col).contains((r, c)) <==> col == c,
{
    if col == c {
        assert(col_house(col)[r as int] == (r, c));
    }
}

/// The block `(r / 3, c / 3)` holds the cell `(r, c)`, and no other block
/// does.
pub proof fn lemma_block_house_contains(br: usize, bc: usize, r: usize, c: usize)
    requires
        br < 3,
        bc < 3,
        r < 9,
        c < 9,
    ensures
        block_house(br, bc).contains((r, c)) <==> (br == r / 3 && bc == c / 3),
{
    if br == r / 3 && bc == c / 3 {
        let i = (r % 3) * 3 + c % 3;
        assert(block_house(br, bc)[i as int] == (r, c));
    }
    if block_house(br, bc).contains((r, c)) {
        let i = choose|i: int| 0 <= i < 9 && block_house(br, bc)[i] == (r, c);
        assert(block_house(br, bc)[i] == ((br * 3 + i / 3) as usize, (bc * 3 + i % 3) as usize));
    }
}

/// The same cells listed in another order hold the same digits the same
/// number of times, with the same sum.
proof fn lemma_values_same_counts(g: Grid, a: Seq<(usize, usize)>, b: Seq<(usize, usize)>)
    requires
        a.to_multiset() =~= b.to_multiset(),
    ensures
        forall|d: u8| #[trigger] occ(house_values(g, a), d) == occ(house_values(g, b), d),
        total(house_values(g, a)) == total(house_values(g, b)),
    decreases a.len(),
{
    broadcast use vstd::seq_lib::group_to_multiset_ensures;

    if a.len() == 0 {
        assert(b.to_multiset().len() == 0);
        assert(house_values(g, a).len() == 0);
        assert(house_values(g, b).len() == 0);
    } else {
        let x = a.last();
        let a0 = a.drop_last();
        assert(a0.push(x) =~= a);
        assert(a.to_multiset() =~= a0.to_multiset().insert(x));
        assert(b.to_multiset().count(x) > 0);
        assert(b.contains(x));
        let j = choose|j: int| 0 <= j < b.len() && b[j] == x;
        let b0 = b.remove(j);
        assert(b0.to_multiset() =~= b.to_multiset().remove(x));
        assert(a0.to_multiset() =~= b0.to_multiset());
        lemma_values_same_counts(g, a0, b0);
        let va = house_values(g, a);
        let vb = house_values(g, b);
        assert(house_values(g, a0) =~= va.drop_last());
        assert(house_values(g, b0) =~= vb.remove(j));
        assert(va.last() == vb[j]);
        assert forall|d: u8| #[trigger] occ(va, d) == occ(vb, d) by {
            lemma_remove(vb, j, d);
            assert(occ(house_values(g, a0), d) == occ(house_values(g, b0), d));
            assert(occ(va, d) == occ(va.drop_last(), d) + if va.last() == d { 1nat } else { 0nat });
        }
        lemma_remove(vb, j, 0);
    }
}

/// The order of a house's cells does not matter: the same cells listed in
/// any other order get the same verdict from the quick test and from the
/// rule check.
pub proof fn lemma_house_order(
    g: Grid,
    cells: Seq<(usize, usize)>,
    other: Seq<(usize, usize)>,
    target: u32,
)
    requires
        cells.to_multiset() =~= other.to_multiset(),
    ensures
        house_feasible(house_values(g, cells), target) == house_feasible(
            house_values(g, other),
            target,
        ),
        house_broken(house_values(g, cells), target) == house_broken(house_values(g, other), target),
{
    lemma_values_same_counts(g, cells, other);
    lemma_same_counts(house_values(g, cells), house_values(g, other), target);
}

/// The values of a house of a grid that holds only digits are digits.
pub proof fn lemma_house_digits_of(g: Grid, cells: Seq<(usize, usize)>)
    requires
        grid_digits(g),
        cells_in_bounds(cells),
    ensures
        all_digits(house_values(g, cells)),
{
    assert forall|i: int| 0 <= i < house_values(g, cells).len() implies #[trigger] house_values(
        g,
        cells,
    )[i] <= 9 by {
        let p = cells[i];
        assert(p.0 < 9 && p.1 < 9);
        assert(g[p.0 as int][p.1 as int] <= 9);
    }
}

} // verus!
