//! What it means to solve a Killer Sudoku grid, and the facts about it that
//! the solver relies on.
use vstd::array::spec_array_update;
use vstd::prelude::*;

use crate::digits::{
    all_digits, house_feasible, house_solved, lemma_feasible_sound, lemma_full_feasible,
    lemma_occ_exists, occ, agrees,
};
use crate::houses::{
    block_house, col_house, house_values, lemma_block_house_contains, row_house,
};
use crate::models::{
    cage_house, cage_of, cell_table_safe, cells_in_bounds, meta_consistent, meta_safe, Grid,
    SudokuMeta, NO_CAGE,
};

verus! {

/// A house as a list of cells together with its target sum.
pub type House = (Seq<(usize, usize)>, u32);

/// The houses that hold the cell `(r, c)`: its row, its column and its block
/// (each with target 45) and, where the table names one, its cage.
pub open spec fn houses_of(meta: SudokuMeta, r: usize, c: usize) -> Seq<House> {
    let base = seq![(row_house(r), 45u32), (col_house(c), 45u32), (block_house(r / 3, c / 3), 45u32)];
    let i = cage_of(meta, r as int, c as int);
    if i == NO_CAGE {
        base
    } else {
        base.push((cage_house(meta.cages@[i as int]), meta.cages@[i as int].sum))
    }
}

/// The house `h` of `g` passes the quick test.
pub open spec fn feasible_in(g: Grid, h: House) -> bool {
    house_feasible(house_values(g, h.0), h.1)
}

/// The house `h` of `g` is solved.
pub open spec fn solved_in(g: Grid, h: House) -> bool {
    house_solved(house_values(g, h.0), h.1)
}

/// Every house of the cell `(r, c)` passes the quick test.
pub open spec fn cell_feasible(g: Grid, meta: SudokuMeta, r: usize, c: usize) -> bool {
    forall|k: int|
        0 <= k < houses_of(meta, r, c).len() ==> #[trigger] feasible_in(g, houses_of(meta, r, c)[k])
}

/// The first `n` houses of the cell `(r, c)` are solved (all of them for
/// `n == 4`; its row, column and block for `n == 3`).
pub open spec fn cell_solved_first(g: Grid, meta: SudokuMeta, r: usize, c: usize, n: int) -> bool {
    forall|k: int|
        0 <= k < n && k < houses_of(meta, r, c).len() ==> #[trigger] solved_in(
            g,
            houses_of(meta, r, c)[k],
        )
}

/// `g` with the cell `(r, c)` set to `v`.
pub open spec fn with_value(g: Grid, r: usize, c: usize, v: u8) -> Grid {
    spec_array_update(g, r as int, spec_array_update(g[r as int], c as int, v))
}

/// Placing `v` in the empty cell `(r, c)` leaves every house of that cell
/// feasible.
pub open spec fn value_fits(g: Grid, meta: SudokuMeta, r: usize, c: usize, v: u8) -> bool {
    cell_feasible(with_value(g, r, c, v), meta, r, c)
}

/// Every cell holds a digit `1..=9`.
pub open spec fn complete(s: Grid) -> bool {
    forall|r: int, c: int| 0 <= r < 9 && 0 <= c < 9 ==> 1 <= #[trigger] s[r][c] <= 9
}

/// `s` keeps every digit that `g` has placed.
pub open spec fn extends(g: Grid, s: Grid) -> bool {
    forall|r: int, c: int| 0 <= r < 9 && 0 <= c < 9 && g[r][c] != 0 ==> #[trigger] s[r][c] == g[r][c]
}

/// `s` puts a digit `1..=9` in every empty cell of `g`.
pub open spec fn fills(g: Grid, s: Grid) -> bool {
    forall|r: int, c: int| 0 <= r < 9 && 0 <= c < 9 && g[r][c] == 0 ==> 1 <= #[trigger] s[r][c] <= 9
}

/// `s` fills the empty cells of `g`, keeps the digits of `g`, and for every
/// empty cell of `g` the first `n` of its houses are solved in `s`.
pub open spec fn solves_first(g: Grid, meta: SudokuMeta, s: Grid, n: int) -> bool {
    &&& fills(g, s)
    &&& extends(g, s)
    &&& forall|r: usize, c: usize|
        r < 9 && c < 9 && g[r as int][c as int] == 0 ==> #[trigger] cell_solved_first(
            s,
            meta,
            r,
            c,
            n,
        )
}

/// `s` completes `g`: it fills the empty cells, keeps the digits of `g`, and
/// every house that holds an empty cell of `g` is solved in `s`. (Houses
/// that `g` already fills are not looked at; see `lemma_completion_solves`
/// for when the whole puzzle is solved.)
pub open spec fn is_completion(g: Grid, meta: SudokuMeta, s: Grid) -> bool {
    solves_first(g, meta, s, 4)
}

/// `s` completes `g` as a plain Sudoku: it fills the empty cells, keeps the
/// digits of `g`, and every row, column and block that holds an empty cell
/// of `g` is solved in `s`.
pub open spec fn solves_lines(g: Grid, meta: SudokuMeta, s: Grid) -> bool {
    solves_first(g, meta, s, 3)
}

/// The houses of the cell `(r, c)` can be read: its table entry can be
/// followed and every cell of every house holds `0` or a digit.
pub open spec fn cell_safe(g: Grid, meta: SudokuMeta, r: usize, c: usize) -> bool {
    &&& cell_table_safe(meta, r as int, c as int)
    &&& forall|k: int|
        0 <= k < houses_of(meta, r, c).len() ==> all_digits(
            house_values(g, #[trigger] houses_of(meta, r, c)[k].0),
        )
}

/// The houses of every empty cell of `g` can be read.
pub open spec fn search_safe(g: Grid, meta: SudokuMeta) -> bool {
    forall|r: usize, c: usize|
        r < 9 && c < 9 && g[r as int][c as int] == 0 ==> #[trigger] cell_safe(g, meta, r, c)
}

/// The number of empty cells in the first `n` rows.
pub open spec fn empties_upto(g: Grid, n: int) -> nat
    decreases n,
{
    if n <= 0 {
        0
    } else {
        empties_upto(g, n - 1) + occ(g[n - 1]@, 0)
    }
}

/// The number of empty cells of `g`.
pub open spec fn num_empty(g: Grid) -> nat {
    empties_upto(g, 9)
}

/// The cells of `with_value`.
pub proof fn lemma_with_value(g: Grid, r: usize, c: usize, v: u8)
    requires
        r < 9,
        c < 9,
    ensures
        forall|i: int, j: int|
            0 <= i < 9 && 0 <= j < 9 ==> #[trigger] with_value(g, r, c, v)[i][j] == if i == r && j
                == c {
                v
            } else {
                g[i][j]
            },
        forall|i: int| 0 <= i < 9 && i != r ==> #[trigger] with_value(g, r, c, v)[i] == g[i],
        with_value(g, r, c, v)[r as int]@ == g[r as int]@.update(c as int, v),
{
}

/// The houses of a cell lie on the grid.
pub proof fn lemma_houses_in_bounds(meta: SudokuMeta, r: usize, c: usize)
    requires
        cell_table_safe(meta, r as int, c as int),
        r < 9,
        c < 9,
    ensures
        forall|k: int|
            0 <= k < houses_of(meta, r, c).len() ==> cells_in_bounds(
                #[trigger] houses_of(meta, r, c)[k].0,
            ),
{
    let hs = houses_of(meta, r, c);
    assert(cells_in_bounds(row_house(r)));
    assert(cells_in_bounds(col_house(c)));
    assert(cells_in_bounds(block_house(r / 3, c / 3)));
    if cage_of(meta, r as int, c as int) != NO_CAGE {
        let i = cage_of(meta, r as int, c as int) as int;
        assert(cells_in_bounds(cage_house(meta.cages@[i])));
    }
    assert forall|k: int| 0 <= k < hs.len() implies cells_in_bounds(#[trigger] hs[k].0) by {
    }
}

/// A cell of one of the houses of `(r, c)` belongs to that same house.
pub proof fn lemma_house_shared(meta: SudokuMeta, r: usize, c: usize, k: int, j: int)
    requires
        cell_table_safe(meta, r as int, c as int),
        k < 3 || meta_consistent(meta),
        r < 9,
        c < 9,
        0 <= k < houses_of(meta, r, c).len(),
        0 <= j < houses_of(meta, r, c)[k].0.len(),
    ensures
        ({
            let q = houses_of(meta, r, c)[k].0[j];
            k < houses_of(meta, q.0, q.1).len() && houses_of(meta, q.0, q.1)[k] == houses_of(
                meta,
                r,
                c,
            )[k]
        }),
{
    let q = houses_of(meta, r, c)[k].0[j];
    if k == 2 {
        assert(q.0 / 3 == r / 3);
        assert(q.1 / 3 == c / 3);
    } else if k == 3 {
        let i = cage_of(meta, r as int, c as int) as int;
        let p = meta.cages@[i].cells@[j];
        assert(q == (p.row, p.col));
        assert(cage_of(meta, p.row as int, p.col as int) == i);
    }
}

/// A solution of `g` fixes a value in each empty cell that passes the quick
/// test there: the test never throws away a solution.
pub proof fn lemma_solution_fits(g: Grid, meta: SudokuMeta, s: Grid, r: usize, c: usize)
    requires
        cell_safe(g, meta, r, c),
        r < 9,
        c < 9,
        g[r as int][c as int] == 0,
        is_completion(g, meta, s),
    ensures
        1 <= s[r as int][c as int] <= 9,
        value_fits(g, meta, r, c, s[r as int][c as int]),
{
    let v = s[r as int][c as int];
    let g2 = with_value(g, r, c, v);
    lemma_with_value(g, r, c, v);
    lemma_houses_in_bounds(meta, r, c);
    assert(cell_solved_first(s, meta, r, c, 4));
    let hs = houses_of(meta, r, c);
    assert forall|k: int| 0 <= k < hs.len() implies #[trigger] feasible_in(g2, hs[k]) by {
        let h = hs[k];
        let p = house_values(g2, h.0);
        let full = house_values(s, h.0);
        assert(solved_in(s, hs[k]));
        assert(cells_in_bounds(h.0));
        assert(all_digits(house_values(g, h.0)));
        assert forall|i: int| 0 <= i < p.len() implies #[trigger] p[i] <= 9 by {
            let x = h.0[i];
            assert(x.0 < 9 && x.1 < 9);
            assert(house_values(g, h.0)[i] <= 9);
        }
        assert forall|i: int| 0 <= i < p.len() && p[i] != 0 implies #[trigger] full[i] == p[i] by {
            let x = h.0[i];
            assert(x.0 < 9 && x.1 < 9);
        }
        assert(all_digits(p));
        assert(agrees(p, full));
        lemma_feasible_sound(p, full, h.1);
    }
}

/// A solution of `g` that puts `s[r][c]` in the empty cell `(r, c)` is a
/// solution of the grid with that value placed.
pub proof fn lemma_solution_narrows(g: Grid, meta: SudokuMeta, s: Grid, r: usize, c: usize, n: int)
    requires
        r < 9,
        c < 9,
        g[r as int][c as int] == 0,
        solves_first(g, meta, s, n),
    ensures
        solves_first(with_value(g, r, c, s[r as int][c as int]), meta, s, n),
{
    let v = s[r as int][c as int];
    let g2 = with_value(g, r, c, v);
    lemma_with_value(g, r, c, v);
    assert forall|i: int, j: int| 0 <= i < 9 && 0 <= j < 9 && g2[i][j] != 0 implies #[trigger] s[i][j]
        == g2[i][j] by {
        if i != r || j != c {
            assert(g2[i][j] == g[i][j]);
        }
    }
    assert forall|i: usize, j: usize|
        i < 9 && j < 9 && g2[i as int][j as int] == 0 implies #[trigger] cell_solved_first(
        s,
        meta,
        i,
        j,
        n,
    ) by {
        assert(g[i as int][j as int] == 0);
    }
}

/// A solution of the grid with `v` placed in `(r, c)`, where `v` passed the
/// quick test there, solves `g`: for the rows, columns and blocks always,
/// for the cages too where the table agrees with the cages.
pub proof fn lemma_solution_lifts(
    g: Grid,
    meta: SudokuMeta,
    s: Grid,
    r: usize,
    c: usize,
    v: u8,
    n: int,
)
    requires
        cell_safe(g, meta, r, c),
        0 <= n <= 3 || (n == 4 && meta_consistent(meta)),
        r < 9,
        c < 9,
        g[r as int][c as int] == 0,
        1 <= v <= 9,
        value_fits(g, meta, r, c, v),
        solves_first(with_value(g, r, c, v), meta, s, n),
    ensures
        solves_first(g, meta, s, n),
{
    let g2 = with_value(g, r, c, v);
    lemma_with_value(g, r, c, v);
    lemma_houses_in_bounds(meta, r, c);
    assert forall|i: int, j: int| 0 <= i < 9 && 0 <= j < 9 && g[i][j] != 0 implies #[trigger] s[i][j]
        == g[i][j] by {
        assert(g2[i][j] == g[i][j]);
    }
    let hs = houses_of(meta, r, c);
    assert forall|k: int| 0 <= k < n && k < hs.len() implies #[trigger] solved_in(s, hs[k]) by {
        let h = hs[k];
        let p = house_values(g2, h.0);
        assert(feasible_in(g2, hs[k]));
        assert(cells_in_bounds(h.0));
        if occ(p, 0) == 0 {
            assert(all_digits(house_values(g, h.0)));
            assert forall|i: int| 0 <= i < p.len() implies #[trigger] p[i] <= 9 by {
                let x = h.0[i];
                assert(x.0 < 9 && x.1 < 9);
                assert(house_values(g, h.0)[i] <= 9);
            }
            lemma_full_feasible(p, h.1);
            lemma_occ_exists(p, 0);
            assert(house_values(s, h.0) =~= p) by {
                assert forall|i: int| 0 <= i < p.len() implies #[trigger] house_values(s, h.0)[i]
                    == p[i] by {
                    let x = h.0[i];
                    assert(x.0 < 9 && x.1 < 9);
                    assert(p[i] != 0);
                }
            }
        } else {
            lemma_occ_exists(p, 0);
            let j = choose|j: int| 0 <= j < p.len() && p[j] == 0;
            let q = h.0[j];
            assert(q.0 < 9 && q.1 < 9);
            lemma_house_shared(meta, r, c, k, j);
            assert(g2[q.0 as int][q.1 as int] == 0);
            assert(cell_solved_first(s, meta, q.0, q.1, n));
            assert(solved_in(s, houses_of(meta, q.0, q.1)[k]));
        }
    }
    assert(cell_solved_first(s, meta, r, c, n));
    assert forall|i: usize, j: usize|
        i < 9 && j < 9 && g[i as int][j as int] == 0 implies #[trigger] cell_solved_first(
        s,
        meta,
        i,
        j,
        n,
    ) by {
        if i != r || j != c {
            assert(g2[i as int][j as int] == 0);
        }
    }
}

/// A grid with no empty cell solves itself.
pub proof fn lemma_full_grid(g: Grid, meta: SudokuMeta, n: int)
    requires
        forall|r: int, c: int| 0 <= r < 9 && 0 <= c < 9 ==> #[trigger] g[r][c] != 0,
    ensures
        solves_first(g, meta, g, n),
{
}

/// How often `d` occurs after one position is overwritten.
pub proof fn lemma_occ_update(vals: Seq<u8>, j: int, x: u8, d: u8)
    requires
        0 <= j < vals.len(),
    ensures
        occ(vals.update(j, x), d) + (if vals[j] == d { 1nat } else { 0nat }) == occ(vals, d) + (
        if x == d {
            1nat
        } else {
            0nat
        }),
    decreases vals.len(),
{
    let n = vals.len() - 1;
    if j == n {
        assert(vals.update(j, x).drop_last() =~= vals.drop_last());
    } else {
        lemma_occ_update(vals.drop_last(), j, x, d);
        assert(vals.update(j, x).drop_last() =~= vals.drop_last().update(j, x));
    }
}

/// Filling an empty cell leaves one empty cell less.
pub proof fn lemma_fill_one(g: Grid, r: usize, c: usize, v: u8)
    requires
        r < 9,
        c < 9,
        g[r as int][c as int] == 0,
        v != 0,
    ensures
        num_empty(with_value(g, r, c, v)) + 1 == num_empty(g),
{
    lemma_with_value(g, r, c, v);
    lemma_occ_update(g[r as int]@, c as int, v, 0);
    lemma_empties_upto(g, r, c, v, 9);
}

proof fn lemma_empties_upto(g: Grid, r: usize, c: usize, v: u8, n: int)
    requires
        r < 9,
        c < 9,
        0 <= n <= 9,
        g[r as int][c as int] == 0,
        v != 0,
        occ(with_value(g, r, c, v)[r as int]@, 0) + 1 == occ(g[r as int]@, 0),
        forall|i: int| 0 <= i < 9 && i != r ==> #[trigger] with_value(g, r, c, v)[i] == g[i],
    ensures
        empties_upto(with_value(g, r, c, v), n) + (if r < n { 1nat } else { 0nat }) == empties_upto(
            g,
            n,
        ),
    decreases n,
{
    if n > 0 {
        lemma_empties_upto(g, r, c, v, n - 1);
        if n - 1 != r {
            assert(with_value(g, r, c, v)[n - 1] == g[n - 1]);
        }
    }
}

/// Two searches of the same grid (sequential or parallel) agree on whether
/// it can be solved, when the table agrees with the cages: each finds a
/// solution exactly when one exists.
pub proof fn lemma_searches_agree(g: Grid, meta: SudokuMeta, first: Option<Grid>, second: Option<Grid>)
    requires
        meta_consistent(meta),
        first is None ==> !exists|s: Grid| is_completion(g, meta, s),
        first matches Some(s) ==> is_completion(g, meta, s),
        second is None ==> !exists|s: Grid| is_completion(g, meta, s),
        second matches Some(s) ==> is_completion(g, meta, s),
    ensures
        first is Some <==> second is Some,
{
}

/// Placing a digit keeps the houses of a cell readable.
pub proof fn lemma_cell_safe_place(g: Grid, meta: SudokuMeta, p: (usize, usize), r: usize, c: usize, v: u8)
    requires
        p.0 < 9,
        p.1 < 9,
        r < 9,
        c < 9,
        v <= 9,
        cell_safe(g, meta, p.0, p.1),
    ensures
        cell_safe(with_value(g, r, c, v), meta, p.0, p.1),
{
    let g2 = with_value(g, r, c, v);
    lemma_with_value(g, r, c, v);
    lemma_houses_in_bounds(meta, p.0, p.1);
    let hs = houses_of(meta, p.0, p.1);
    assert forall|k: int| 0 <= k < hs.len() implies all_digits(house_values(g2, #[trigger] hs[k].0)) by {
        let h = hs[k].0;
        assert(all_digits(house_values(g, h)));
        assert(cells_in_bounds(h));
        assert forall|i: int| 0 <= i < h.len() implies #[trigger] house_values(g2, h)[i] <= 9 by {
            let x = h[i];
            assert(x.0 < 9 && x.1 < 9);
            assert(house_values(g, h)[i] <= 9);
        }
    }
}

/// Placing a digit in an empty cell keeps every empty cell readable.
pub proof fn lemma_search_safe_place(g: Grid, meta: SudokuMeta, r: usize, c: usize, v: u8)
    requires
        r < 9,
        c < 9,
        1 <= v <= 9,
        search_safe(g, meta),
    ensures
        search_safe(with_value(g, r, c, v), meta),
{
    let g2 = with_value(g, r, c, v);
    lemma_with_value(g, r, c, v);
    assert forall|i: usize, j: usize| i < 9 && j < 9 && g2[i as int][j as int] == 0 implies #[trigger] cell_safe(
        g2,
        meta,
        i,
        j,
    ) by {
        assert(g[i as int][j as int] == 0);
        if g[i as int][j as int] == 0 {
            assert(cell_safe(g, meta, i, j));
            lemma_cell_safe_place(g, meta, (i, j), r, c, v);
        }
    }
}

/// All houses of the puzzle: the nine rows, the nine columns and the nine
/// blocks (each with target 45), then every cage.
pub open spec fn puzzle_houses(meta: SudokuMeta) -> Seq<House> {
    Seq::new(
        27 + meta.cages@.len(),
        |i: int|
            if i < 9 {
                (row_house(i as usize), 45u32)
            } else if i < 18 {
                (col_house((i - 9) as usize), 45u32)
            } else if i < 27 {
                (block_house(((i - 18) / 3) as usize, ((i - 18) % 3) as usize), 45u32)
            } else {
                (cage_house(meta.cages@[i - 27]), meta.cages@[i - 27].sum)
            },
    )
}

/// Every house of the puzzle is solved in `s`.
pub open spec fn puzzle_solved(meta: SudokuMeta, s: Grid) -> bool {
    forall|i: int| 0 <= i < puzzle_houses(meta).len() ==> #[trigger] solved_in(s, puzzle_houses(meta)[i])
}

/// The given digits are sound: every house that `g` already fills is solved.
pub open spec fn givens_sound(g: Grid, meta: SudokuMeta) -> bool {
    forall|i: int|
        0 <= i < puzzle_houses(meta).len() && occ(house_values(g, #[trigger] puzzle_houses(meta)[i].0), 0)
            == 0 ==> solved_in(g, puzzle_houses(meta)[i])
}

/// A completion of a grid whose given digits are sound solves the whole
/// puzzle (every row, column, block and cage), when the table agrees with
/// the cages.
pub proof fn lemma_completion_solves(g: Grid, meta: SudokuMeta, s: Grid)
    requires
        meta_safe(meta),
        meta_consistent(meta),
        givens_sound(g, meta),
        is_completion(g, meta, s),
    ensures
        puzzle_solved(meta, s),
{
    let hs = puzzle_houses(meta);
    assert forall|i: int| 0 <= i < hs.len() implies #[trigger] solved_in(s, hs[i]) by {
        let h = hs[i];
        let p = house_values(g, h.0);
        if i < 27 {
            assert(cells_in_bounds(h.0));
        } else {
            assert(cells_in_bounds(cage_house(meta.cages@[i - 27])));
        }
        if occ(p, 0) == 0 {
            lemma_occ_exists(p, 0);
            assert(solved_in(g, hs[i]));
            assert(house_values(s, h.0) =~= p) by {
                assert forall|j: int| 0 <= j < p.len() implies #[trigger] house_values(s, h.0)[j]
                    == p[j] by {
                    let x = h.0[j];
                    assert(x.0 < 9 && x.1 < 9);
                    assert(p[j] != 0);
                }
            }
        } else {
            lemma_occ_exists(p, 0);
            let j = choose|j: int| 0 <= j < p.len() && p[j] == 0;
            let q = h.0[j];
            assert(q.0 < 9 && q.1 < 9);
            assert(g[q.0 as int][q.1 as int] == 0);
            assert(cell_solved_first(s, meta, q.0, q.1, 4));
            let hq = houses_of(meta, q.0, q.1);
            if i < 9 {
                assert(hq[0] == h);
                assert(solved_in(s, hq[0]));
            } else if i < 18 {
                assert(hq[1] == h);
                assert(solved_in(s, hq[1]));
            } else if i < 27 {
                let br = ((i - 18) / 3) as usize;
                let bc = ((i - 18) % 3) as usize;
                assert(block_house(br, bc).contains(q));
                lemma_block_house_contains(br, bc, q.0, q.1);
                assert(hq[2] == h);
                assert(solved_in(s, hq[2]));
            } else {
                let t = i - 27;
                let cell = meta.cages@[t].cells@[j];
                assert(q == (cell.row, cell.col));
                assert(cage_of(meta, cell.row as int, cell.col as int) == t);
                assert(meta.cages.len() == meta.cages@.len());
                assert(hq[3] == h);
                assert(solved_in(s, hq[3]));
            }
        }
    }
}

} // verus!
