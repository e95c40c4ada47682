//! Checking a house against its target and solving the puzzle by search.
use vstd::prelude::*;

use rayon::prelude::{IntoParallelIterator, ParallelIterator};

use crate::digits::{all_digits, high_fill, house_feasible, low_fill, occ, used};
use crate::houses::{block_cells, cage_cells, col_cells, house_values, row_cells};
use crate::models::{
    cage_house, cells_in_bounds, meta_consistent, Grid,
    SudokuMeta, NO_CAGE,
};
use crate::search::{Branching, candidates, candidates_upto, first_completion, first_from, scan_from};
use crate::tally::tally;
use crate::puzzle::{
    cell_feasible, feasible_in, solves_lines, houses_of, is_completion, lemma_fill_one,
    cell_safe, search_safe, lemma_cell_safe_place, lemma_search_safe_place,
    lemma_full_grid, lemma_houses_in_bounds, lemma_solution_fits, lemma_solution_lifts,
    lemma_solution_narrows, lemma_with_value, num_empty, value_fits, with_value,
};

verus! {

proof fn lemma_low_fill_range(vals: Seq<u8>, k: nat, d: int)
    requires
        1 <= d <= 10,
    ensures
        0 <= low_fill(vals, k, d) <= 9 * (10 - d),
    decreases 10 - d,
{
    if k > 0 && d <= 9 {
        lemma_low_fill_range(vals, k, d + 1);
        lemma_low_fill_range(vals, (k - 1) as nat, d + 1);
    }
}

proof fn lemma_high_fill_range(vals: Seq<u8>, k: nat, d: int)
    requires
        0 <= d <= 9,
    ensures
        0 <= high_fill(vals, k, d) <= 9 * d,
    decreases d,
{
    if k > 0 && d >= 1 {
        lemma_high_fill_range(vals, k, d - 1);
        lemma_high_fill_range(vals, (k - 1) as nat, d - 1);
    }
}

/// Checks whether the house made of `cells` can still reach `target`: no
/// digit twice, the sum not beyond the target, a full house exactly on it,
/// and the target within reach of the smallest and the largest digits that
/// the empty cells could still take.
pub fn check_house(grid: &Grid, cells: &Vec<(usize, usize)>, target: u32) -> (ok: bool)
    requires
        all_digits(house_values(*grid, cells@)),
        cells_in_bounds(cells@),
    ensures
        ok == house_feasible(house_values(*grid, cells@), target),
{
    let ghost vals = house_values(*grid, cells@);
    let t = tally(grid, cells);
    if !t.distinct {
        return false;
    }
    let sum = t.sum;
    let empty = t.empty;
    let counts = t.counts;
    if sum > target {
        return false;
    }
    if empty == 0 && sum != target {
        return false;
    }
    if empty > 0 {
        let mut min_possible: u32 = sum;
        let mut max_possible: u32 = sum;
        let mut min_val: usize = 1;
        let mut max_val: usize = 9;
        let ghost k = empty as nat;
        proof {
            lemma_low_fill_range(vals, k, 1);
            lemma_high_fill_range(vals, k, 9);
        }
        let mut j: usize = 0;
        while j < empty
            invariant
                k == empty,
                sum <= 81,
                0 <= j <= empty,
                1 <= min_val <= 10,
                max_val <= 9,
                forall|d: u8| 1 <= d <= 9 ==> counts@[d as int] == #[trigger] occ(vals, d),
                min_possible + low_fill(vals, (k - j) as nat, min_val as int) == sum + low_fill(
                    vals,
                    k,
                    1,
                ),
                max_possible + high_fill(vals, (k - j) as nat, max_val as int) == sum + high_fill(
                    vals,
                    k,
                    9,
                ),
                0 <= low_fill(vals, k, 1) <= 81,
                0 <= high_fill(vals, k, 9) <= 81,
            decreases empty - j,
        {
            let ghost rest = (k - j) as nat;
            proof {
                lemma_low_fill_range(vals, rest, min_val as int);
                lemma_high_fill_range(vals, rest, max_val as int);
            }
            while min_val <= 9 && counts[min_val] > 0
                invariant
                    1 <= min_val <= 10,
                    rest > 0,
                    forall|d: u8| 1 <= d <= 9 ==> counts@[d as int] == #[trigger] occ(vals, d),
                    min_possible + low_fill(vals, rest, min_val as int) == sum + low_fill(
                        vals,
                        k,
                        1,
                    ),
                decreases 10 - min_val,
            {
                assert(used(vals, min_val as int)) by {
                    assert(counts@[(min_val as u8) as int] == occ(vals, min_val as u8));
                }
                min_val += 1;
            }
            proof {
                lemma_low_fill_range(vals, rest, min_val as int);
            }
            if min_val <= 9 {
                assert(!used(vals, min_val as int)) by {
                    assert(counts@[(min_val as u8) as int] == occ(vals, min_val as u8));
                }
                proof {
                    lemma_low_fill_range(vals, (rest - 1) as nat, min_val + 1);
                }
                min_possible += min_val as u32;
                min_val += 1;
            }
            while max_val >= 1 && counts[max_val] > 0
                invariant
                    max_val <= 9,
                    rest > 0,
                    forall|d: u8| 1 <= d <= 9 ==> counts@[d as int] == #[trigger] occ(vals, d),
                    max_possible + high_fill(vals, rest, max_val as int) == sum + high_fill(
                        vals,
                        k,
                        9,
                    ),
                decreases max_val,
            {
                assert(used(vals, max_val as int)) by {
                    assert(counts@[(max_val as u8) as int] == occ(vals, max_val as u8));
                }
                max_val -= 1;
            }
            proof {
                lemma_high_fill_range(vals, rest, max_val as int);
            }
            if max_val >= 1 {
                assert(!used(vals, max_val as int)) by {
                    assert(counts@[(max_val as u8) as int] == occ(vals, max_val as u8));
                }
                proof {
                    lemma_high_fill_range(vals, (rest - 1) as nat, max_val - 1);
                }
                max_possible += max_val as u32;
                max_val -= 1;
            }
            j += 1;
        }
        if max_possible < target || min_possible > target {
            return false;
        }
    }
    true
}

/// Checks the houses of the cell `(row, col)`: its row, its column, its
/// block and, where the table names one, its cage.
pub fn is_valid_at(grid: &Grid, meta: &SudokuMeta, row: usize, col: usize) -> (ok: bool)
    requires
        cell_safe(*grid, *meta, row, col),
        row < 9,
        col < 9,
    ensures
        ok == cell_feasible(*grid, *meta, row, col),
{
    let ghost hs = houses_of(*meta, row, col);
    proof {
        lemma_houses_in_bounds(*meta, row, col);
        assert(all_digits(house_values(*grid, hs[0].0)));
        assert(all_digits(house_values(*grid, hs[1].0)));
        assert(all_digits(house_values(*grid, hs[2].0)));
    }
    // rows
    if !check_house(grid, &row_cells(row), 45) {
        assert(!feasible_in(*grid, hs[0]));
        return false;
    }
    // columns
    if !check_house(grid, &col_cells(col), 45) {
        assert(!feasible_in(*grid, hs[1]));
        return false;
    }
    // blocks
    if !check_house(grid, &block_cells(row / 3, col / 3), 45) {
        assert(!feasible_in(*grid, hs[2]));
        return false;
    }
    // cages
    let cage_idx = meta.cell_to_cage[row][col];
    if cage_idx != NO_CAGE {
        let cage = &meta.cages[cage_idx];
        assert(cells_in_bounds(cage_house(*cage)));
        assert(all_digits(house_values(*grid, hs[3].0)));
        if !check_house(grid, &cage_cells(cage), cage.sum) {
            assert(!feasible_in(*grid, hs[3]));
            return false;
        }
        assert(feasible_in(*grid, hs[3]));
    }
    assert forall|k: int| 0 <= k < hs.len() implies #[trigger] feasible_in(*grid, hs[k]) by {
    }
    true
}

/// `grid` with `value` placed in the cell `(row, col)`.
fn place(grid: &Grid, row: usize, col: usize, value: u8) -> (placed: Grid)
    requires
        row < 9,
        col < 9,
    ensures
        placed == with_value(*grid, row, col, value),
{
    let mut placed = *grid;
    placed[row][col] = value;
    proof {
        lemma_with_value(*grid, row, col, value);
        let w = with_value(*grid, row, col, value);
        assert forall|i: int| 0 <= i < 9 implies #[trigger] placed[i] == w[i] by {
            assert(placed[i] =~= w[i]);
        }
        assert(placed =~= w);
    }
    placed
}

/// Places `value` in the empty cell `(row, col)` and solves on from there.
fn try_value(
    grid: &Grid,
    meta: &SudokuMeta,
    row: usize,
    col: usize,
    value: u8,
    depth: usize,
    seq: bool,
) -> (result: Option<Grid>)
    requires
        search_safe(*grid, *meta),
        row < 9,
        col < 9,
        grid[row as int][col as int] == 0,
        1 <= value <= 9,
        value_fits(*grid, *meta, row, col, value),
        depth + num_empty(*grid) <= usize::MAX,
    ensures
        result matches Some(s) ==> solves_lines(*grid, *meta, s) && s[row as int][col as int]
            == value,
        result is None ==> !exists|s: Grid|
            is_completion(*grid, *meta, s) && #[trigger] s[row as int][col as int] == value,
        meta_consistent(*meta) ==> (result matches Some(s) ==> is_completion(*grid, *meta, s)),
        seq || depth >= 4 ==> result == first_completion(with_value(*grid, row, col, value), *meta),
    decreases num_empty(*grid), 0nat,
{
    let new_grid = place(grid, row, col, value);
    proof {
        lemma_with_value(*grid, row, col, value);
        lemma_fill_one(*grid, row, col, value);
        lemma_search_safe_place(*grid, *meta, row, col, value);
        assert(cell_safe(*grid, *meta, row, col));
    }
    let result = solve_recursive(&new_grid, meta, depth + 1, seq);
    proof {
        match result {
            Some(s) => {
                lemma_solution_lifts(*grid, *meta, s, row, col, value, 3);
                if meta_consistent(*meta) {
                    lemma_solution_lifts(*grid, *meta, s, row, col, value, 4);
                }
            },
            None => {
                assert forall|s: Grid|
                    is_completion(*grid, *meta, s) implies #[trigger] s[row as int][col as int]
                    != value by {
                    if s[row as int][col as int] == value {
                        lemma_solution_narrows(*grid, *meta, s, row, col, 4);
                        assert(is_completion(new_grid, *meta, s));
                    }
                }
            },
        }
    }
    result
}

/// Tries the candidate values of one cell in parallel and hands back any
/// solution that one of them leads to.
///
/// Trusted: rayon's `find_map_any` over `into_par_iter` of a `Vec` calls the
/// closure on the items and returns `Some` of some closure result that is
/// `Some`, or `None` when every closure result was `None`. The closure is
/// `try_value`, so the clauses below are `try_value`'s own `ensures` for one
/// of the values (for `Some`) or for every value (for `None`). Which of
/// several solutions comes back depends on the scheduling and is not stated.
#[verifier::external_body]
fn par_try_values(
    grid: &Grid,
    meta: &SudokuMeta,
    row: usize,
    col: usize,
    values: Vec<u8>,
    depth: usize,
    seq: bool,
) -> (found: Option<Grid>)
    requires
        search_safe(*grid, *meta),
        row < 9,
        col < 9,
        grid[row as int][col as int] == 0,
        forall|i: int|
            0 <= i < values@.len() ==> 1 <= #[trigger] values@[i] <= 9 && value_fits(
                *grid,
                *meta,
                row,
                col,
                values@[i],
            ),
        depth + num_empty(*grid) <= usize::MAX,
    ensures
        found matches Some(s) ==> exists|i: int|
            0 <= i < values@.len() && {
                &&& solves_lines(*grid, *meta, s)
                &&& s[row as int][col as int] == #[trigger] values@[i]
                &&& meta_consistent(*meta) ==> is_completion(*grid, *meta, s)
            },
        found is None ==> forall|i: int, s: Grid|
            0 <= i < values@.len() && is_completion(*grid, *meta, s) ==> #[trigger] s[row as int][col
                as int] != #[trigger] values@[i],
{
    values.into_par_iter().find_map_any(|value| try_value(grid, meta, row, col, value, depth, seq))
}

/// The candidate list of the cell `(r, c)` holds exactly the values `1..upto`
/// that pass the quick test there.
spec fn covers(g: Grid, meta: SudokuMeta, r: usize, c: usize, moves: Seq<u8>, upto: int) -> bool {
    &&& forall|j: int|
        0 <= j < moves.len() ==> 1 <= #[trigger] moves[j] < upto && value_fits(g, meta, r, c, moves[j])
    &&& forall|v: u8| 1 <= v < upto && #[trigger] value_fits(g, meta, r, c, v) ==> moves.contains(v)
}

/// Solves the grid by search: it fills the empty cell with the fewest
/// candidate values first, and tries the candidates in parallel in the
/// first four levels unless `seq` is set.
pub fn solve_recursive(grid: &Grid, meta: &SudokuMeta, depth: usize, seq: bool) -> (result:
    Option<Grid>)
    requires
        search_safe(*grid, *meta),
        depth + num_empty(*grid) <= usize::MAX,
    ensures
        result matches Some(s) ==> solves_lines(*grid, *meta, s),
        result is None ==> !exists|s: Grid| is_completion(*grid, *meta, s),
        meta_consistent(*meta) ==> (result matches Some(s) ==> is_completion(*grid, *meta, s)),
        seq || depth >= 4 ==> result == first_completion(*grid, *meta),
    decreases num_empty(*grid), 1nat,
{
    // the empty cell with the fewest candidates
    let mut best_cell: Option<(usize, usize)> = None;
    let mut min_options: usize = 10;
    let mut best_valid_moves: Vec<u8> = Vec::new();

    let mut row: usize = 0;
    while row < 9 && min_options != 1
        invariant
            search_safe(*grid, *meta),
            row <= 9,
            1 <= min_options <= 10,
            scan_from(*grid, *meta, 0, None, 10) == scan_from(
                *grid,
                *meta,
                row * 9,
                best_cell,
                min_options as nat,
            ),
            best_cell is None ==> min_options == 10 && forall|r: int, c: int|
                0 <= r < row && 0 <= c < 9 ==> #[trigger] grid[r][c] != 0,
            best_cell matches Some(cell) ==> {
                &&& cell.0 < 9 && cell.1 < 9
                &&& grid[cell.0 as int][cell.1 as int] == 0
                &&& covers(*grid, *meta, cell.0, cell.1, best_valid_moves@, 10)
                &&& best_valid_moves@ == candidates(*grid, *meta, cell.0, cell.1)
                &&& min_options == best_valid_moves@.len()
            },
        decreases 9 - row,
    {
        let mut col: usize = 0;
        while col < 9 && min_options != 1
            invariant
                search_safe(*grid, *meta),
                row < 9,
                col <= 9,
                1 <= min_options <= 10,
                scan_from(*grid, *meta, 0, None, 10) == scan_from(
                    *grid,
                    *meta,
                    row * 9 + col,
                    best_cell,
                    min_options as nat,
                ),
                best_cell is None ==> min_options == 10 && (forall|r: int, c: int|
                    0 <= r < row && 0 <= c < 9 ==> #[trigger] grid[r][c] != 0) && (forall|c: int|
                    0 <= c < col ==> #[trigger] grid[row as int][c] != 0),
                best_cell matches Some(cell) ==> {
                    &&& cell.0 < 9 && cell.1 < 9
                    &&& grid[cell.0 as int][cell.1 as int] == 0
                    &&& covers(*grid, *meta, cell.0, cell.1, best_valid_moves@, 10)
                    &&& best_valid_moves@ == candidates(*grid, *meta, cell.0, cell.1)
                    &&& min_options == best_valid_moves@.len()
                },
            decreases 9 - col,
        {
            if grid[row][col] == 0 {
                let mut valid_moves: Vec<u8> = Vec::new();
                let mut value: u8 = 1;
                while value < 10
                    invariant
                        search_safe(*grid, *meta),
                        grid[row as int][col as int] == 0,
                        row < 9,
                        col < 9,
                        1 <= value <= 10,
                        valid_moves@.len() < value,
                        covers(*grid, *meta, row, col, valid_moves@, value as int),
                        valid_moves@ == candidates_upto(*grid, *meta, row, col, value - 1),
                    decreases 10 - value,
                {
                    let test_grid = place(grid, row, col, value);
                    proof {
                        lemma_with_value(*grid, row, col, value);
                        assert(cell_safe(*grid, *meta, row, col));
                        lemma_cell_safe_place(*grid, *meta, (row, col), row, col, value);
                    }
                    let ghost before = valid_moves@;
                    let fits = is_valid_at(&test_grid, meta, row, col);
                    assert(fits == value_fits(*grid, *meta, row, col, value));
                    if fits {
                        valid_moves.push(value);
                    }
                    proof {
                        assert forall|v: u8|
                            1 <= v < value + 1 && #[trigger] value_fits(
                                *grid,
                                *meta,
                                row,
                                col,
                                v,
                            ) implies valid_moves@.contains(v) by {
                            if v == value {
                                assert(valid_moves@[valid_moves@.len() - 1] == v);
                            } else {
                                assert(before.contains(v));
                                let j = choose|j: int| 0 <= j < before.len() && before[j] == v;
                                assert(valid_moves@[j] == v);
                            }
                        }
                    }
                    value += 1;
                }
                // no candidate at all: no solution
                let options = valid_moves.len();
                if options == 0 {
                    proof {
                        assert forall|s: Grid| !is_completion(*grid, *meta, s) by {
                            if is_completion(*grid, *meta, s) {
                                lemma_solution_fits(*grid, *meta, s, row, col);
                                let v = s[row as int][col as int];
                                assert(valid_moves@.contains(v));
                            }
                        }
                    }
                    return None;
                }
                if options < min_options {
                    min_options = options;
                    best_cell = Some((row, col));
                    best_valid_moves = valid_moves;
                }
            }
            col += 1;
        }
        row += 1;
    }

    // no empty cell left: the grid is solved
    let (row, col) = match best_cell {
        Some(cell) => cell,
        None => {
            proof {
                lemma_full_grid(*grid, *meta, 3);
                lemma_full_grid(*grid, *meta, 4);
            }
            return Some(*grid);
        },
    };
    proof {
        lemma_fill_one(*grid, row, col, 1);
        assert(scan_from(*grid, *meta, 0, None, 10) == Branching::Cell(row, col));
        assert(best_valid_moves@ == candidates(*grid, *meta, row, col));
        assert(first_completion(*grid, *meta) == first_from(
            *grid,
            *meta,
            row,
            col,
            best_valid_moves@,
            0,
        ));
    }

    // first four levels in parallel unless --seq
    let result = if !seq && depth < 4 {
        let ghost moves = best_valid_moves@;
        let found = par_try_values(grid, meta, row, col, best_valid_moves, depth, seq);
        proof {
            if found is None {
                assert forall|s: Grid| !is_completion(*grid, *meta, s) by {
                    if is_completion(*grid, *meta, s) {
                        lemma_solution_fits(*grid, *meta, s, row, col);
                        let v = s[row as int][col as int];
                        assert(moves.contains(v));
                        let i = choose|i: int| 0 <= i < moves.len() && moves[i] == v;
                    }
                }
            }
        }
        found
    } else {
        let n = best_valid_moves.len();
        let mut i: usize = 0;
        let mut found: Option<Grid> = None;
        while i < n
            invariant
                search_safe(*grid, *meta),
                row < 9,
                col < 9,
                grid[row as int][col as int] == 0,
                n == best_valid_moves@.len(),
                covers(*grid, *meta, row, col, best_valid_moves@, 10),
                depth + num_empty(*grid) <= usize::MAX,
                i <= n,
                found is None,
                seq || depth >= 4 ==> first_completion(*grid, *meta) == first_from(
                    *grid,
                    *meta,
                    row,
                    col,
                    best_valid_moves@,
                    i as int,
                ),
                forall|j: int, s: Grid|
                    0 <= j < i && is_completion(*grid, *meta, s) ==> #[trigger] s[row as int][col
                        as int] != #[trigger] best_valid_moves@[j],
            decreases n - i,
        {
            let attempt = try_value(grid, meta, row, col, best_valid_moves[i], depth, seq);
            assert(best_valid_moves@[i as int] >= 1);
            if attempt.is_some() {
                return attempt;
            }
            i += 1;
        }
        proof {
            assert forall|s: Grid| !is_completion(*grid, *meta, s) by {
                if is_completion(*grid, *meta, s) {
                    lemma_solution_fits(*grid, *meta, s, row, col);
                    let v = s[row as int][col as int];
                    assert(best_valid_moves@.contains(v));
                    let j = choose|j: int| 0 <= j < n && best_valid_moves@[j] == v;
                }
            }
        }
        found
    };
    result
}

/// Whether every cell of the house holds `0` or a digit.
fn house_digits(grid: &Grid, cells: &Vec<(usize, usize)>) -> (ok: bool)
    requires
        cells_in_bounds(cells@),
    ensures
        ok == all_digits(house_values(*grid, cells@)),
{
    let n = cells.len();
    for i in 0..n
        invariant
            n == cells@.len(),
            cells_in_bounds(cells@),
            forall|j: int| 0 <= j < i ==> #[trigger] house_values(*grid, cells@)[j] <= 9,
    {
        let (row, col) = cells[i];
        if grid[row][col] > 9 {
            assert(house_values(*grid, cells@)[i as int] > 9);
            return false;
        }
    }
    true
}

/// Whether every position lies on the grid.
fn positions_on_grid(cells: &Vec<(usize, usize)>) -> (ok: bool)
    ensures
        ok == cells_in_bounds(cells@),
{
    let n = cells.len();
    for i in 0..n
        invariant
            n == cells@.len(),
            forall|j: int| 0 <= j < i ==> cells@[j].0 < 9 && cells@[j].1 < 9,
    {
        let (row, col) = cells[i];
        if row >= 9 || col >= 9 {
            assert(!(cells@[i as int].0 < 9 && cells@[i as int].1 < 9));
            return false;
        }
    }
    true
}

/// Whether the houses of the cell `(row, col)` can be read: its table entry
/// can be followed and they hold only `0` and digits.
pub fn cell_readable(grid: &Grid, meta: &SudokuMeta, row: usize, col: usize) -> (ok: bool)
    requires
        row < 9,
        col < 9,
    ensures
        ok == cell_safe(*grid, *meta, row, col),
{
    let ghost hs = houses_of(*meta, row, col);
    let cage_idx = meta.cell_to_cage[row][col];
    if cage_idx != NO_CAGE {
        if cage_idx >= meta.cages.len() {
            return false;
        }
        let cells = cage_cells(&meta.cages[cage_idx]);
        if !positions_on_grid(&cells) {
            return false;
        }
        if !house_digits(grid, &cells) {
            assert(hs[3].0 == cells@);
            return false;
        }
    }
    proof {
        lemma_houses_in_bounds(*meta, row, col);
    }
    let row_ok = house_digits(grid, &row_cells(row));
    let col_ok = house_digits(grid, &col_cells(col));
    let block_ok = house_digits(grid, &block_cells(row / 3, col / 3));
    assert(hs[0].0 == crate::houses::row_house(row));
    assert(hs[1].0 == crate::houses::col_house(col));
    assert(hs[2].0 == crate::houses::block_house(row / 3, col / 3));
    if !(row_ok && col_ok && block_ok) {
        return false;
    }
    assert forall|k: int| 0 <= k < hs.len() implies all_digits(
        house_values(*grid, #[trigger] hs[k].0),
    ) by {
        if k == 3 {
            assert(hs[3].0 == cage_house(meta.cages@[cage_idx as int]));
        }
    }
    true
}

/// Whether the houses of every empty cell can be read, which is what the
/// search needs.
pub fn search_readable(grid: &Grid, meta: &SudokuMeta) -> (ok: bool)
    ensures
        ok == search_safe(*grid, *meta),
{
    for row in 0..9usize
        invariant
            forall|r: usize, c: usize|
                r < row && c < 9 && grid[r as int][c as int] == 0 ==> #[trigger] cell_safe(
                    *grid,
                    *meta,
                    r,
                    c,
                ),
    {
        for col in 0..9usize
            invariant
                row < 9,
                forall|r: usize, c: usize|
                    (r < row || (r == row && c < col)) && c < 9 && grid[r as int][c as int] == 0
                        ==> #[trigger] cell_safe(*grid, *meta, r, c),
        {
            if grid[row][col] == 0 && !cell_readable(grid, meta, row, col) {
                return false;
            }
        }
    }
    true
}

} // verus!
