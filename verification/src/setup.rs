//! From a puzzle to the solver's grid and cage table, and from a solved grid
//! back to a puzzle.
use vstd::prelude::*;

use crate::models::{
    cage_house, cage_of, cages_in_bounds, meta_consistent, meta_safe, Cage, Given, Grid,
    SudokuJson, SudokuMeta, NO_CAGE,
};

verus! {

/// The value that the givens put in the cell `(r, c)`: that of the last
/// given for the cell, `0` where there is none.
pub open spec fn given_at(givens: Seq<Given>, r: usize, c: usize) -> u8
    decreases givens.len(),
{
    if givens.len() == 0 {
        0
    } else if givens.last().row == r && givens.last().col == c {
        givens.last().value
    } else {
        given_at(givens.drop_last(), r, c)
    }
}

/// Every given lies on the grid.
pub open spec fn givens_in_bounds(givens: Seq<Given>) -> bool {
    forall|i: int| 0 <= i < givens.len() ==> #[trigger] givens[i].row < 9 && givens[i].col < 9
}

/// The index of the last of the first `n` cages that lists the cell
/// `(r, c)`, or `NO_CAGE`.
pub open spec fn last_cage_with(cages: Seq<Cage>, n: int, r: usize, c: usize) -> usize
    decreases n,
{
    if n <= 0 {
        NO_CAGE
    } else if cage_house(cages[n - 1]).contains((r, c)) {
        (n - 1) as usize
    } else {
        last_cage_with(cages, n - 1, r, c)
    }
}

/// No cell is listed by two different cages.
pub open spec fn cages_disjoint(cages: Seq<Cage>) -> bool {
    forall|i: int, j: int, a: int, b: int|
        0 <= i < j < cages.len() && 0 <= a < cages[i].cells@.len() && 0 <= b < cages[j].cells@.len()
            ==> #[trigger] cage_house(cages[i])[a] != #[trigger] cage_house(cages[j])[b]
}

/// The grid of a solution, row by row, as 81 givens.
pub open spec fn solution_givens(s: Grid) -> Seq<Given> {
    Seq::new(
        81,
        |k: int| Given { row: (k / 9) as usize, col: (k % 9) as usize, value: s[k / 9][k % 9] },
    )
}

/// Builds the grid of a puzzle: each given sets its cell, a later given for
/// the same cell overriding an earlier one; all other cells are empty.
pub fn grid_from_givens(givens: &Vec<Given>) -> (grid: Grid)
    requires
        givens_in_bounds(givens@),
    ensures
        forall|r: int, c: int|
            0 <= r < 9 && 0 <= c < 9 ==> #[trigger] grid[r][c] == given_at(
                givens@,
                r as usize,
                c as usize,
            ),
        // each given whose cell no later given names sets that cell
        forall|i: int|
            0 <= i < givens@.len() && (forall|j: int|
                #![trigger givens@[j]]
                i < j < givens@.len() ==> !(givens@[j].row == givens@[i].row && givens@[j].col
                    == givens@[i].col)) ==> grid[givens@[i].row as int][#[trigger] givens@[i].col as int]
                == givens@[i].value,
        // a cell that no given names stays empty
        forall|r: int, c: int|
            0 <= r < 9 && 0 <= c < 9 && (forall|i: int|
                #![trigger givens@[i]]
                0 <= i < givens@.len() ==> !(givens@[i].row == r && givens@[i].col == c))
                ==> #[trigger] grid[r][c] == 0,
{
    let mut grid: Grid = [[0u8; 9]; 9];
    let n = givens.len();
    for i in 0..n
        invariant
            n == givens@.len(),
            givens_in_bounds(givens@),
            forall|r: int, c: int|
                0 <= r < 9 && 0 <= c < 9 ==> #[trigger] grid[r][c] == given_at(
                    givens@.take(i as int),
                    r as usize,
                    c as usize,
                ),
    {
        let given = givens[i];
        grid[given.row][given.col] = given.value;
        proof {
            assert(givens@.take(i + 1).drop_last() =~= givens@.take(i as int));
        }
    }
    assert(givens@.take(n as int) =~= givens@);
    proof {
        lemma_given_at_laws(givens@);
    }
    grid
}

/// Reading the givens: a given whose cell no later given names sets that
/// cell, and a cell that no given names stays empty, whatever the order of
/// the list.
pub proof fn lemma_given_at_laws(givens: Seq<Given>)
    ensures
        forall|i: int|
            0 <= i < givens.len() && (forall|j: int|
                #![trigger givens[j]]
                i < j < givens.len() ==> !(givens[j].row == givens[i].row && givens[j].col
                    == givens[i].col)) ==> #[trigger] given_at(givens, givens[i].row, givens[i].col)
                == givens[i].value,
        forall|r: usize, c: usize|
            (forall|i: int|
                #![trigger givens[i]]
                0 <= i < givens.len() ==> !(givens[i].row == r && givens[i].col == c))
                ==> #[trigger] given_at(givens, r, c) == 0,
{
    assert forall|i: int|
        0 <= i < givens.len() && (forall|j: int|
            #![trigger givens[j]]
            i < j < givens.len() ==> !(givens[j].row == givens[i].row && givens[j].col
                == givens[i].col)) implies #[trigger] given_at(givens, givens[i].row, givens[i].col)
        == givens[i].value by {
        lemma_given_at_last(givens, i);
    }
    assert forall|r: usize, c: usize|
        (forall|i: int|
            #![trigger givens[i]]
            0 <= i < givens.len() ==> !(givens[i].row == r && givens[i].col == c))
            implies #[trigger] given_at(givens, r, c) == 0 by {
        lemma_given_at_absent(givens, r, c);
    }
}

proof fn lemma_given_at_last(givens: Seq<Given>, i: int)
    requires
        0 <= i < givens.len(),
        forall|j: int|
            #![trigger givens[j]]
            i < j < givens.len() ==> !(givens[j].row == givens[i].row && givens[j].col
                == givens[i].col),
    ensures
        given_at(givens, givens[i].row, givens[i].col) == givens[i].value,
    decreases givens.len(),
{
    let n = givens.len() - 1;
    if i < n {
        let init = givens.drop_last();
        assert(!(givens[n].row == givens[i].row && givens[n].col == givens[i].col));
        assert forall|j: int| #![trigger init[j]] i < j < init.len() implies !(init[j].row
            == init[i].row && init[j].col == init[i].col) by {
            assert(init[j] == givens[j]);
        }
        lemma_given_at_last(init, i);
    }
}

proof fn lemma_given_at_absent(givens: Seq<Given>, r: usize, c: usize)
    requires
        forall|i: int|
            #![trigger givens[i]]
            0 <= i < givens.len() ==> !(givens[i].row == r && givens[i].col == c),
    ensures
        given_at(givens, r, c) == 0,
    decreases givens.len(),
{
    if givens.len() > 0 {
        let init = givens.drop_last();
        assert(!(givens[givens.len() - 1].row == r && givens[givens.len() - 1].col == c));
        assert forall|i: int| #![trigger init[i]] 0 <= i < init.len() implies !(init[i].row == r
            && init[i].col == c) by {
            assert(init[i] == givens[i]);
        }
        lemma_given_at_absent(init, r, c);
    }
}

impl SudokuMeta {
    /// Files every cell under the cage that lists it (under the last one,
    /// where several do); cells of no cage get `NO_CAGE`.
    pub fn from_cages(cages: Vec<Cage>) -> (meta: SudokuMeta)
        requires
            cages_in_bounds(cages@),
        ensures
            meta.cages@ == cages@,
            forall|r: int, c: int|
                0 <= r < 9 && 0 <= c < 9 ==> #[trigger] cage_of(meta, r, c) == last_cage_with(
                    cages@,
                    cages@.len() as int,
                    r as usize,
                    c as usize,
                ),
            meta_safe(meta),
            cages_disjoint(cages@) ==> meta_consistent(meta),
            // a cell of cage `i` that no later cage lists is filed under `i`
            forall|i: int, a: int|
                0 <= i < cages@.len() && 0 <= a < cages@[i].cells@.len() && (forall|k: int|
                    i < k < cages@.len() ==> !(#[trigger] cage_house(cages@[k])).contains(
                        cage_house(cages@[i])[a],
                    )) ==> meta.cell_to_cage[#[trigger] cages@[i].cells@[a].row as int][cages@[i].cells@[a].col as int]
                    == i,
            // a cell that no cage lists is filed under no cage
            forall|r: int, c: int|
                0 <= r < 9 && 0 <= c < 9 && (forall|k: int|
                    0 <= k < cages@.len() ==> !(#[trigger] cage_house(cages@[k])).contains(
                        (r as usize, c as usize),
                    )) ==> #[trigger] meta.cell_to_cage[r][c] == NO_CAGE,
    {
        let mut cell_to_cage: [[usize; 9]; 9] = [[NO_CAGE; 9]; 9];
        assert forall|r: int, c: int| 0 <= r < 9 && 0 <= c < 9 implies #[trigger] cell_to_cage[r][c]
            == NO_CAGE by {
            assert(cell_to_cage[r][c] == cell_to_cage@[r]@[c]);
        }
        let n = cages.len();
        for cage_index in 0..n
            invariant
                n == cages@.len(),
                cages_in_bounds(cages@),
                forall|r: int, c: int|
                    0 <= r < 9 && 0 <= c < 9 ==> #[trigger] cell_to_cage[r][c] == last_cage_with(
                        cages@,
                        cage_index as int,
                        r as usize,
                        c as usize,
                    ),
        {
            let cage = &cages[cage_index];
            let ghost house = cage_house(*cage);
            let m = cage.cells.len();
            assert(crate::models::cells_in_bounds(house));
            for j in 0..m
                invariant
                    n == cages@.len(),
                    cage_index < n,
                    *cage == cages@[cage_index as int],
                    house == cage_house(*cage),
                    m == cage.cells@.len(),
                    crate::models::cells_in_bounds(house),
                    forall|r: int, c: int|
                        0 <= r < 9 && 0 <= c < 9 ==> #[trigger] cell_to_cage[r][c] == if house.take(
                            j as int,
                        ).contains((r as usize, c as usize)) {
                            cage_index
                        } else {
                            last_cage_with(cages@, cage_index as int, r as usize, c as usize)
                        },
            {
                let cell = cage.cells[j];
                assert(house[j as int] == (cell.row, cell.col));
                assert(house[j as int].0 < 9 && house[j as int].1 < 9);
                cell_to_cage[cell.row][cell.col] = cage_index;
                proof {
                    assert forall|r: int, c: int| 0 <= r < 9 && 0 <= c < 9 implies #[trigger] house.take(
                        j + 1,
                    ).contains((r as usize, c as usize)) == (house.take(j as int).contains(
                        (r as usize, c as usize),
                    ) || (r == cell.row && c == cell.col)) by {
                        let p = (r as usize, c as usize);
                        if house.take(j as int).contains(p) {
                            let a = choose|a: int| 0 <= a < j && #[trigger] house.take(j as int)[a] == p;
                            assert(house.take(j + 1)[a] == p);
                        }
                        if r == cell.row && c == cell.col {
                            assert(house.take(j + 1)[j as int] == p);
                        }
                        if house.take(j + 1).contains(p) {
                            let a = choose|a: int| 0 <= a < j + 1 && #[trigger] house.take(j + 1)[a] == p;
                            if a < j {
                                assert(house.take(j as int)[a] == p);
                            }
                        }
                    }
                }
            }
            assert(house.take(m as int) =~= house);
        }
        let meta = SudokuMeta { cages, cell_to_cage };
        proof {
            assert forall|i: int, a: int|
                0 <= i < meta.cages@.len() && 0 <= a < meta.cages@[i].cells@.len() && (forall|k: int|
                    i < k < meta.cages@.len() ==> !(#[trigger] cage_house(meta.cages@[k])).contains(
                        cage_house(meta.cages@[i])[a],
                    )) implies meta.cell_to_cage[#[trigger] meta.cages@[i].cells@[a].row as int][meta.cages@[i].cells@[a].col as int]
                    == i by {
                let p = meta.cages@[i].cells@[a];
                assert(cage_house(meta.cages@[i])[a] == (p.row, p.col));
                assert(crate::models::cells_in_bounds(cage_house(meta.cages@[i])));
                lemma_last_cage_is(meta.cages@, meta.cages@.len() as int, i, a);
                assert(cage_of(meta, p.row as int, p.col as int) == meta.cell_to_cage[p.row as int][p.col as int]);
            }
            assert forall|r: int, c: int|
                0 <= r < 9 && 0 <= c < 9 && (forall|k: int|
                    0 <= k < meta.cages@.len() ==> !(#[trigger] cage_house(meta.cages@[k])).contains(
                        (r as usize, c as usize),
                    )) implies #[trigger] meta.cell_to_cage[r][c] == NO_CAGE by {
                lemma_no_cage_lists(meta.cages@, meta.cages@.len() as int, r as usize, c as usize);
                assert(cage_of(meta, r, c) == meta.cell_to_cage[r][c]);
            }
            lemma_last_cage_with_range(meta.cages@);
            if cages_disjoint(meta.cages@) {
                lemma_disjoint_consistent(meta);
            }
        }
        meta
    }
}

/// The entries of the table built by `from_cages` name a cage or are
/// `NO_CAGE`.
proof fn lemma_last_cage_with_range(cages: Seq<Cage>)
    requires
        cages.len() <= usize::MAX,
    ensures
        forall|n: int, r: usize, c: usize|
            0 <= n <= cages.len() ==> #[trigger] last_cage_with(cages, n, r, c) == NO_CAGE
                || last_cage_with(cages, n, r, c) < n,
{
    assert forall|n: int, r: usize, c: usize| 0 <= n <= cages.len() implies #[trigger] last_cage_with(
        cages,
        n,
        r,
        c,
    ) == NO_CAGE || last_cage_with(cages, n, r, c) < n by {
        lemma_last_cage_with_below(cages, n, r, c);
    }
}

proof fn lemma_last_cage_with_below(cages: Seq<Cage>, n: int, r: usize, c: usize)
    requires
        0 <= n <= cages.len(),
        cages.len() <= usize::MAX,
    ensures
        last_cage_with(cages, n, r, c) == NO_CAGE || last_cage_with(cages, n, r, c) < n,
    decreases n,
{
    if n > 0 {
        lemma_last_cage_with_below(cages, n - 1, r, c);
    }
}

/// A cage that lists a cell which no later cage lists is the last one
/// that lists it.
proof fn lemma_last_cage_is(cages: Seq<Cage>, n: int, i: int, a: int)
    requires
        0 <= i < n <= cages.len(),
        cages.len() <= usize::MAX,
        0 <= a < cages[i].cells@.len(),
        forall|k: int|
            i < k < cages.len() ==> !(#[trigger] cage_house(cages[k])).contains(
                cage_house(cages[i])[a],
            ),
    ensures
        last_cage_with(cages, n, cage_house(cages[i])[a].0, cage_house(cages[i])[a].1) == i,
    decreases n,
{
    let p = cage_house(cages[i])[a];
    if n - 1 == i {
        assert(cage_house(cages[i]).contains(p));
    } else {
        assert(!cage_house(cages[n - 1]).contains(p));
        lemma_last_cage_is(cages, n - 1, i, a);
    }
}

/// A cell that no cage lists is filed under no cage.
proof fn lemma_no_cage_lists(cages: Seq<Cage>, n: int, r: usize, c: usize)
    requires
        0 <= n <= cages.len(),
        forall|k: int| 0 <= k < cages.len() ==> !(#[trigger] cage_house(cages[k])).contains((r, c)),
    ensures
        last_cage_with(cages, n, r, c) == NO_CAGE,
    decreases n,
{
    if n > 0 {
        assert(!cage_house(cages[n - 1]).contains((r, c)));
        lemma_no_cage_lists(cages, n - 1, r, c);
    }
}

proof fn lemma_disjoint_consistent(meta: SudokuMeta)
    requires
        cages_disjoint(meta.cages@),
        meta.cages@.len() <= usize::MAX,
        forall|r: int, c: int|
            0 <= r < 9 && 0 <= c < 9 ==> #[trigger] cage_of(meta, r, c) == last_cage_with(
                meta.cages@,
                meta.cages@.len() as int,
                r as usize,
                c as usize,
            ),
        cages_in_bounds(meta.cages@),
    ensures
        meta_consistent(meta),
{
    assert forall|i: int, j: int|
        0 <= i < meta.cages@.len() && 0 <= j < meta.cages@[i].cells@.len() implies {
        let p = #[trigger] meta.cages@[i].cells@[j];
        cage_of(meta, p.row as int, p.col as int) == i
    } by {
        let p = meta.cages@[i].cells@[j];
        let q = cage_house(meta.cages@[i])[j];
        assert(q == (p.row, p.col));
        assert(crate::models::cells_in_bounds(cage_house(meta.cages@[i])));
        assert forall|k: int| i < k < meta.cages@.len() implies !(#[trigger] cage_house(
            meta.cages@[k],
        )).contains(q) by {
            if cage_house(meta.cages@[k]).contains(q) {
                let b = choose|b: int|
                    0 <= b < cage_house(meta.cages@[k]).len() && #[trigger] cage_house(
                        meta.cages@[k],
                    )[b] == q;
                assert(cage_house(meta.cages@[i])[j] != cage_house(meta.cages@[k])[b]);
            }
        }
        lemma_last_cage_is(meta.cages@, meta.cages@.len() as int, i, j);
    }
}

/// The solved grid as 81 givens, row by row.
pub fn solution_to_givens(solution: &Grid) -> (givens: Vec<Given>)
    ensures
        givens@ == solution_givens(*solution),
        // one given per cell, each with the cell's value, in row order
        givens@.len() == 81,
        forall|k: int|
            0 <= k < 81 ==> #[trigger] givens@[k].row < 9 && givens@[k].col < 9 && givens@[k].value
                == solution[givens@[k].row as int][givens@[k].col as int],
        forall|i: int, j: int|
            0 <= i < j < 81 ==> (#[trigger] givens@[i].row < #[trigger] givens@[j].row || (
            givens@[i].row == givens@[j].row && givens@[i].col < givens@[j].col)),
{
    let mut givens: Vec<Given> = Vec::new();
    for r in 0..9usize
        invariant
            givens@ == solution_givens(*solution).take(r * 9),
    {
        for c in 0..9usize
            invariant
                r < 9,
                givens@ == solution_givens(*solution).take(r * 9 + c),
        {
            givens.push(Given { row: r, col: c, value: solution[r][c] });
            proof {
                let k = r * 9 + c;
                assert(k / 9 == r && k % 9 == c);
                assert(givens@ =~= solution_givens(*solution).take(r * 9 + c + 1));
            }
        }
    }
    assert(givens@ =~= solution_givens(*solution));
    proof {
        assert forall|i: int, j: int| 0 <= i < j < 81 implies (#[trigger] givens@[i].row
            < #[trigger] givens@[j].row || (givens@[i].row == givens@[j].row && givens@[i].col
            < givens@[j].col)) by {
            assert(i / 9 <= j / 9);
            if i / 9 == j / 9 {
                assert(i % 9 < j % 9);
            }
        }
    }
    givens
}

/// The puzzle with its givens replaced by the whole solved grid; the cages
/// stay as they are.
pub fn solved_puzzle(puzzle: SudokuJson, solution: &Grid) -> (solved: SudokuJson)
    ensures
        solved.cages@ == puzzle.cages@,
        solved.given@ == solution_givens(*solution),
{
    SudokuJson { given: solution_to_givens(solution), cages: puzzle.cages }
}

/// Reading the givens of a written solution gives back the solved grid.
pub proof fn lemma_givens_round_trip(s: Grid)
    ensures
        givens_in_bounds(solution_givens(s)),
        forall|r: int, c: int|
            0 <= r < 9 && 0 <= c < 9 ==> #[trigger] given_at(
                solution_givens(s),
                r as usize,
                c as usize,
            ) == s[r][c],
{
    let gs = solution_givens(s);
    assert forall|r: int, c: int| 0 <= r < 9 && 0 <= c < 9 implies #[trigger] given_at(
        gs,
        r as usize,
        c as usize,
    ) == s[r][c] by {
        lemma_given_at_prefix(s, r, c, 81);
        assert(solution_givens(s).take(81) =~= gs);
    }
}

proof fn lemma_given_at_prefix(s: Grid, r: int, c: int, n: int)
    requires
        0 <= r < 9,
        0 <= c < 9,
        r * 9 + c < n <= 81,
    ensures
        given_at(solution_givens(s).take(n), r as usize, c as usize) == s[r][c],
    decreases n,
{
    let gs = solution_givens(s).take(n);
    let k = n - 1;
    assert(gs.drop_last() =~= solution_givens(s).take(n - 1));
    if k == r * 9 + c {
        assert(k / 9 == r && k % 9 == c);
    } else {
        assert(k / 9 != r || k % 9 != c);
        lemma_given_at_prefix(s, r, c, n - 1);
    }
}

} // verus!
