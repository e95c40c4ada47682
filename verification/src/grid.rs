//! Finding the cells that break the rules, and drawing a grid as text.
use vstd::prelude::*;

use crate::digits::{all_digits, house_broken, lemma_broken_iff, total, house_solved, lemma_full_broken, lemma_occ_exists};
use crate::houses::{
    block_cells, block_house, cage_cells, col_cells, col_house, house_values,
    lemma_block_house_contains, lemma_col_house_contains, lemma_row_house_contains, row_cells,
    row_house,
};
use crate::models::{
    cage_house, cages_in_bounds, cells_in_bounds, grid_digits, Cage, Grid, Mask, SudokuMeta,
};
use crate::puzzle::{complete, lemma_with_value, with_value};
use crate::tally::tally;

verus! {

/// The cell `(r, c)` lies in a house that breaks the rules: its row, its
/// column, its block, or any cage that lists it.
pub open spec fn cell_marked(g: Grid, cages: Seq<Cage>, r: usize, c: usize) -> bool {
    ||| house_broken(house_values(g, row_house(r)), 45)
    ||| house_broken(house_values(g, col_house(c)), 45)
    ||| house_broken(house_values(g, block_house(r / 3, c / 3)), 45)
    ||| exists|i: int|
        0 <= i < cages.len() && #[trigger] cage_house(cages[i]).contains((r, c)) && house_broken(
            house_values(g, cage_house(cages[i])),
            cages[i].sum,
        )
}

/// Marks every cell of the house made of `cells` when the house breaks the
/// rules: a digit twice, a sum beyond `target`, or a full house off it.
pub fn check_and_mark(grid: &Grid, mask: &mut Mask, cells: &Vec<(usize, usize)>, target: u32)
    requires
        all_digits(house_values(*grid, cells@)),
        cells_in_bounds(cells@),
    ensures
        forall|r: int, c: int|
            0 <= r < 9 && 0 <= c < 9 ==> #[trigger] final(mask)[r][c] == (old(mask)[r][c] || (
            house_broken(house_values(*grid, cells@), target) && cells@.contains(
                (r as usize, c as usize),
            ))),
        // a digit twice, a sum beyond the target, or a full house off it:
        // every cell of the house is marked
        ({
            let vals = house_values(*grid, cells@);
            ||| exists|i: int, j: int| 0 <= i < j < vals.len() && vals[i] != 0 && vals[i] == vals[j]
            ||| total(vals) > target
            ||| (forall|i: int| 0 <= i < vals.len() ==> vals[i] != 0) && total(vals) != target
        }) ==> forall|i: int|
            0 <= i < cells@.len() ==> #[trigger] final(mask)[cells@[i].0 as int][cells@[i].1 as int],
        // otherwise the mask stays as it was
        !({
            let vals = house_values(*grid, cells@);
            ||| exists|i: int, j: int| 0 <= i < j < vals.len() && vals[i] != 0 && vals[i] == vals[j]
            ||| total(vals) > target
            ||| (forall|i: int| 0 <= i < vals.len() ==> vals[i] != 0) && total(vals) != target
        }) ==> forall|r: int, c: int|
            0 <= r < 9 && 0 <= c < 9 ==> #[trigger] final(mask)[r][c] == old(mask)[r][c],
{
    let ghost vals = house_values(*grid, cells@);
    proof {
        lemma_broken_iff(vals, target);
    }
    let t = tally(grid, cells);
    let mut invalid = !t.distinct;
    if t.distinct && t.empty == 0 && t.sum != target {
        invalid = true;
    }
    if t.distinct && t.sum > target {
        invalid = true;
    }
    assert(invalid == house_broken(vals, target));
    if invalid {
        let n = cells.len();
        let mut i: usize = 0;
        while i < n
            invariant
                n == cells@.len(),
                cells_in_bounds(cells@),
                i <= n,
                forall|r: int, c: int|
                    0 <= r < 9 && 0 <= c < 9 ==> #[trigger] mask[r][c] == (old(mask)[r][c]
                        || cells@.take(i as int).contains((r as usize, c as usize))),
            decreases n - i,
        {
            let (row, col) = cells[i];
            mask[row][col] = true;
            proof {
                assert forall|r: int, c: int|
                    0 <= r < 9 && 0 <= c < 9 implies #[trigger] mask[r][c] == (old(mask)[r][c]
                    || cells@.take(i + 1).contains((r as usize, c as usize))) by {
                    let p = (r as usize, c as usize);
                    if cells@.take(i as int).contains(p) {
                        let j = choose|j: int| 0 <= j < i && #[trigger] cells@.take(i as int)[j] == p;
                        assert(cells@.take(i + 1)[j] == p);
                    }
                    if cells@.take(i + 1).contains(p) && !cells@.take(i as int).contains(p) {
                        let j = choose|j: int| 0 <= j < i + 1 && #[trigger] cells@.take(i + 1)[j] == p;
                        if j < i {
                            assert(cells@.take(i as int)[j] == p);
                        }
                    }
                    if r == row && c == col {
                        assert(cells@.take(i + 1)[i as int] == p);
                    }
                }
            }
            i += 1;
        }
        assert(cells@.take(n as int) =~= cells@);
    }
    proof {
        assert forall|i: int| 0 <= i < cells@.len() && invalid implies #[trigger] mask[cells@[i].0 as int][cells@[i].1 as int] by {
            let p = cells@[i];
            assert(p.0 < 9 && p.1 < 9);
            assert(cells@.contains((p.0 as int as usize, p.1 as int as usize)));
        }
    }
}

/// Marks every cell that lies in a row, column, block or cage that breaks
/// the rules (the grid as it stands; empty cells are not filled in).
pub fn get_invalid_mask(grid: &Grid, meta: &SudokuMeta) -> (mask: Mask)
    requires
        grid_digits(*grid),
        cages_in_bounds(meta.cages@),
    ensures
        forall|r: int, c: int|
            0 <= r < 9 && 0 <= c < 9 ==> #[trigger] mask[r][c] == cell_marked(
                *grid,
                meta.cages@,
                r as usize,
                c as usize,
            ),
{
    let mut mask: Mask = [[false; 9]; 9];
    assert forall|r: int, c: int| 0 <= r < 9 && 0 <= c < 9 implies !#[trigger] mask[r][c] by {
        assert(mask[r][c] == mask@[r]@[c]);
    }
    let ghost g = *grid;

    // rows
    for row in 0..9usize
        invariant
            grid_digits(g),
            g == *grid,
            forall|r: int, c: int|
                0 <= r < 9 && 0 <= c < 9 ==> #[trigger] mask[r][c] == (r < row && house_broken(
                    house_values(g, row_house(r as usize)),
                    45,
                )),
    {
        check_and_mark(grid, &mut mask, &row_cells(row), 45);
        proof {
            assert forall|r: int, c: int| 0 <= r < 9 && 0 <= c < 9 implies #[trigger] row_house(row).contains(
                (r as usize, c as usize),
            ) == (r == row) by {
                lemma_row_house_contains(row, r as usize, c as usize);
            }
        }
    }

    // columns
    for col in 0..9usize
        invariant
            grid_digits(g),
            g == *grid,
            forall|r: int, c: int|
                0 <= r < 9 && 0 <= c < 9 ==> #[trigger] mask[r][c] == (house_broken(
                    house_values(g, row_house(r as usize)),
                    45,
                ) || (c < col && house_broken(house_values(g, col_house(c as usize)), 45))),
    {
        check_and_mark(grid, &mut mask, &col_cells(col), 45);
        proof {
            assert forall|r: int, c: int| 0 <= r < 9 && 0 <= c < 9 implies #[trigger] col_house(col).contains(
                (r as usize, c as usize),
            ) == (c == col) by {
                lemma_col_house_contains(col, r as usize, c as usize);
            }
        }
    }

    // blocks
    for block_row in 0..3usize
        invariant
            grid_digits(g),
            g == *grid,
            forall|r: int, c: int|
                0 <= r < 9 && 0 <= c < 9 ==> #[trigger] mask[r][c] == (house_broken(
                    house_values(g, row_house(r as usize)),
                    45,
                ) || house_broken(house_values(g, col_house(c as usize)), 45) || (r / 3
                    < block_row && house_broken(
                    house_values(g, block_house((r / 3) as usize, (c / 3) as usize)),
                    45,
                ))),
    {
        for block_col in 0..3usize
            invariant
                grid_digits(g),
                g == *grid,
                block_row < 3,
                forall|r: int, c: int|
                    0 <= r < 9 && 0 <= c < 9 ==> #[trigger] mask[r][c] == (house_broken(
                        house_values(g, row_house(r as usize)),
                        45,
                    ) || house_broken(house_values(g, col_house(c as usize)), 45) || ((r / 3
                        < block_row || (r / 3 == block_row && c / 3 < block_col)) && house_broken(
                        house_values(g, block_house((r / 3) as usize, (c / 3) as usize)),
                        45,
                    ))),
        {
            check_and_mark(grid, &mut mask, &block_cells(block_row, block_col), 45);
            proof {
                assert forall|r: int, c: int|
                    0 <= r < 9 && 0 <= c < 9 implies #[trigger] block_house(block_row, block_col).contains(
                    (r as usize, c as usize),
                ) == (r / 3 == block_row && c / 3 == block_col) by {
                    lemma_block_house_contains(block_row, block_col, r as usize, c as usize);
                }
            }
        }
    }

    // cages
    let n = meta.cages.len();
    for i in 0..n
        invariant
            grid_digits(g),
            g == *grid,
            n == meta.cages@.len(),
            cages_in_bounds(meta.cages@),
            forall|r: int, c: int|
                0 <= r < 9 && 0 <= c < 9 ==> #[trigger] mask[r][c] == (house_broken(
                    house_values(g, row_house(r as usize)),
                    45,
                ) || house_broken(house_values(g, col_house(c as usize)), 45) || house_broken(
                    house_values(g, block_house((r / 3) as usize, (c / 3) as usize)),
                    45,
                ) || exists|j: int|
                    0 <= j < i && #[trigger] cage_house(meta.cages@[j]).contains(
                        (r as usize, c as usize),
                    ) && house_broken(
                        house_values(g, cage_house(meta.cages@[j])),
                        meta.cages@[j].sum,
                    )),
    {
        let cage = &meta.cages[i];
        assert(cells_in_bounds(cage_house(*cage)));
        check_and_mark(grid, &mut mask, &cage_cells(cage), cage.sum);
    }
    mask
}

/// The character of the digit `d` (`0..=9`).
pub open spec fn digit_char(d: int) -> char {
    (48 + d) as char
}

/// The decimal text of `v`.
pub open spec fn number_text(v: u8) -> Seq<char> {
    let n = v as int;
    if n < 10 {
        seq![digit_char(n)]
    } else if n < 100 {
        seq![digit_char(n / 10), digit_char(n % 10)]
    } else {
        seq![digit_char(n / 100), digit_char(n / 10 % 10), digit_char(n % 10)]
    }
}

/// How one cell is drawn: `X` where the mask is set, `.` for an empty cell,
/// the value otherwise.
pub open spec fn cell_text(g: Grid, m: Mask, r: int, c: int) -> Seq<char> {
    if m[r][c] {
        seq!['X']
    } else if g[r][c] == 0 {
        seq!['.']
    } else {
        number_text(g[r][c])
    }
}

/// The first `n` cells of row `r`, with two spaces after the third and the
/// sixth cell.
pub open spec fn row_text(g: Grid, m: Mask, r: int, n: int) -> Seq<char>
    decreases n,
{
    if n <= 0 {
        Seq::empty()
    } else {
        row_text(g, m, r, n - 1) + cell_text(g, m, r, n - 1) + if n - 1 == 2 || n - 1 == 5 {
            seq![' ', ' ']
        } else {
            Seq::empty()
        }
    }
}

/// The first `n` rows, each ended by a newline, with an empty line after the
/// third and the sixth row.
pub open spec fn grid_text(g: Grid, m: Mask, n: int) -> Seq<char>
    decreases n,
{
    if n <= 0 {
        Seq::empty()
    } else {
        grid_text(g, m, n - 1) + row_text(g, m, n - 1, 9) + seq!['\n'] + if n - 1 == 2 || n - 1
            == 5 {
            seq!['\n']
        } else {
            Seq::empty()
        }
    }
}

/// Appends `c` to `s`.
///
/// Trusted: std's `String::push` appends the character at the end of the
/// string.
#[verifier::external_body]
fn push_char(s: &mut String, c: char)
    ensures
        final(s)@ == old(s)@.push(c),
{
    s.push(c);
}

/// Appends the decimal text of `v` to `s`.
fn push_number(s: &mut String, v: u8)
    ensures
        final(s)@ == old(s)@ + number_text(v),
{
    if v >= 100 {
        push_char(s, (48u8 + v / 100) as char);
    }
    if v >= 10 {
        push_char(s, (48u8 + v / 10 % 10) as char);
    }
    push_char(s, (48u8 + v % 10) as char);
    assert(s@ =~= old(s)@ + number_text(v));
}

/// Draws the grid as text, 3x3 blocks apart: `X` for a cell set in
/// `invalid_mask`, `.` for an empty cell, the value otherwise.
pub fn render_grid(grid: &Grid, invalid_mask: &Mask) -> (text: String)
    ensures
        text@ == grid_text(*grid, *invalid_mask, 9),
{
    let mut text = String::new();
    for row in 0..9usize
        invariant
            text@ == grid_text(*grid, *invalid_mask, row as int),
    {
        let ghost start = text@;
        for col in 0..9usize
            invariant
                row < 9,
                text@ == start + row_text(*grid, *invalid_mask, row as int, col as int),
        {
            if invalid_mask[row][col] {
                push_char(&mut text, 'X');
            } else {
                // the value where the cell is not empty
                let value = grid[row][col];
                if value == 0 {
                    push_char(&mut text, '.');
                } else {
                    push_number(&mut text, value);
                }
            }
            // spacing
            if col == 2 || col == 5 {
                push_char(&mut text, ' ');
                push_char(&mut text, ' ');
            }
            assert(text@ =~= start + row_text(*grid, *invalid_mask, row as int, col + 1));
        }
        // spacing
        push_char(&mut text, '\n');
        if row == 2 || row == 5 {
            push_char(&mut text, '\n');
        }
        assert(text@ =~= grid_text(*grid, *invalid_mask, row + 1));
    }
    text
}

/// On a grid with a digit in every cell, a cell is marked exactly when one
/// of its houses (its row, its column, its block, or a cage that lists it)
/// is not solved.
pub proof fn lemma_complete_grid_marks(g: Grid, cages: Seq<Cage>, r: usize, c: usize)
    requires
        complete(g),
        cages_in_bounds(cages),
        r < 9,
        c < 9,
    ensures
        cell_marked(g, cages, r, c) <==> {
            ||| !house_solved(house_values(g, row_house(r)), 45)
            ||| !house_solved(house_values(g, col_house(c)), 45)
            ||| !house_solved(house_values(g, block_house(r / 3, c / 3)), 45)
            ||| exists|i: int|
                0 <= i < cages.len() && #[trigger] cage_house(cages[i]).contains((r, c))
                    && !house_solved(house_values(g, cage_house(cages[i])), cages[i].sum)
        },
{
    lemma_complete_house(g, row_house(r), 45);
    lemma_complete_house(g, col_house(c), 45);
    lemma_complete_house(g, block_house(r / 3, c / 3), 45);
    assert forall|i: int| 0 <= i < cages.len() implies #[trigger] house_broken(
        house_values(g, cage_house(cages[i])),
        cages[i].sum,
    ) == !house_solved(house_values(g, cage_house(cages[i])), cages[i].sum) by {
        assert(cells_in_bounds(cage_house(cages[i])));
        lemma_complete_house(g, cage_house(cages[i]), cages[i].sum);
    }
}

/// A house of a complete grid breaks the rules exactly when it is not
/// solved.
proof fn lemma_complete_house(g: Grid, cells: Seq<(usize, usize)>, target: u32)
    requires
        complete(g),
        cells_in_bounds(cells),
    ensures
        house_broken(house_values(g, cells), target) <==> !house_solved(
            house_values(g, cells),
            target,
        ),
{
    let vals = house_values(g, cells);
    assert forall|i: int| 0 <= i < vals.len() implies 1 <= #[trigger] vals[i] <= 9 by {
        let p = cells[i];
        assert(p.0 < 9 && p.1 < 9);
        assert(1 <= g[p.0 as int][p.1 as int] <= 9);
    }
    lemma_occ_exists(vals, 0);
    lemma_full_broken(vals, target);
}

/// On any grid, full or not, a cell is marked exactly when its row, its
/// column, its block or a cage that lists it breaks the rules (see
/// `lemma_broken_iff` for what breaking the rules means in terms of the
/// digits).
pub proof fn lemma_marked_iff_broken_house(g: Grid, cages: Seq<Cage>, r: usize, c: usize)
    requires
        r < 9,
        c < 9,
    ensures
        house_broken(house_values(g, row_house(r)), 45) ==> cell_marked(g, cages, r, c),
        house_broken(house_values(g, col_house(c)), 45) ==> cell_marked(g, cages, r, c),
        house_broken(house_values(g, block_house(r / 3, c / 3)), 45) ==> cell_marked(g, cages, r, c),
        forall|i: int|
            0 <= i < cages.len() && cage_house(cages[i]).contains((r, c)) && house_broken(
                house_values(g, #[trigger] cage_house(cages[i])),
                cages[i].sum,
            ) ==> cell_marked(g, cages, r, c),
        cell_marked(g, cages, r, c) ==> {
            ||| house_broken(house_values(g, row_house(r)), 45)
            ||| house_broken(house_values(g, col_house(c)), 45)
            ||| house_broken(house_values(g, block_house(r / 3, c / 3)), 45)
            ||| exists|i: int|
                0 <= i < cages.len() && cage_house(cages[i]).contains((r, c)) && house_broken(
                    house_values(g, #[trigger] cage_house(cages[i])),
                    cages[i].sum,
                )
        },
{
}

/// A digit placed twice in a column marks every cell of that column, on any
/// grid.
pub proof fn lemma_column_repeat_marked(g: Grid, cages: Seq<Cage>, c: usize, r1: usize, r2: usize, r: usize)
    requires
        grid_digits(g),
        c < 9,
        r1 < r2 < 9,
        r < 9,
        g[r1 as int][c as int] != 0,
        g[r1 as int][c as int] == g[r2 as int][c as int],
    ensures
        cell_marked(g, cages, r, c),
{
    let vals = house_values(g, col_house(c));
    crate::houses::lemma_house_digits_of(g, col_house(c));
    lemma_broken_iff(vals, 45);
    assert(vals[r1 as int] == g[r1 as int][c as int]);
    assert(vals[r2 as int] == g[r2 as int][c as int]);
}

/// A digit placed twice in a row marks every cell of that row, on any grid.
pub proof fn lemma_row_repeat_marked(g: Grid, cages: Seq<Cage>, r: usize, c1: usize, c2: usize, c: usize)
    requires
        grid_digits(g),
        r < 9,
        c1 < c2 < 9,
        c < 9,
        g[r as int][c1 as int] != 0,
        g[r as int][c1 as int] == g[r as int][c2 as int],
    ensures
        cell_marked(g, cages, r, c),
{
    let vals = house_values(g, row_house(r));
    crate::houses::lemma_house_digits_of(g, row_house(r));
    lemma_broken_iff(vals, 45);
    assert(vals[c1 as int] == g[r as int][c1 as int]);
    assert(vals[c2 as int] == g[r as int][c2 as int]);
}

/// Digits that add up to more than a cage's sum mark every cell of the
/// cage, however many of its cells are still empty.
pub proof fn lemma_cage_over_sum_marked(g: Grid, cages: Seq<Cage>, i: int, j: int)
    requires
        0 <= i < cages.len(),
        0 <= j < cages[i].cells@.len(),
        cells_in_bounds(cage_house(cages[i])),
        grid_digits(g),
        total(house_values(g, cage_house(cages[i]))) > cages[i].sum,
    ensures
        cell_marked(g, cages, cage_house(cages[i])[j].0, cage_house(cages[i])[j].1),
{
    let h = cage_house(cages[i]);
    crate::houses::lemma_house_digits_of(g, h);
    lemma_broken_iff(house_values(g, h), cages[i].sum);
    assert(h.contains(h[j]));
    assert(h[j].0 < 9 && h[j].1 < 9);
}

/// The number of times `ch` occurs in `s`.
pub open spec fn count_char(s: Seq<char>, ch: char) -> nat
    decreases s.len(),
{
    if s.len() == 0 {
        0
    } else {
        count_char(s.drop_last(), ch) + if s.last() == ch { 1nat } else { 0nat }
    }
}

/// The number of cells among the first `n` cells of row `r` for which `p`
/// holds.
pub open spec fn cells_in_row(p: spec_fn(int, int) -> bool, r: int, n: int) -> nat
    decreases n,
{
    if n <= 0 {
        0
    } else {
        cells_in_row(p, r, n - 1) + if p(r, n - 1) { 1nat } else { 0nat }
    }
}

/// The number of cells in the first `n` rows for which `p` holds.
pub open spec fn cells_upto(p: spec_fn(int, int) -> bool, n: int) -> nat
    decreases n,
{
    if n <= 0 {
        0
    } else {
        cells_upto(p, n - 1) + cells_in_row(p, n - 1, 9)
    }
}

proof fn lemma_count_char_add(a: Seq<char>, b: Seq<char>, ch: char)
    ensures
        count_char(a + b, ch) == count_char(a, ch) + count_char(b, ch),
    decreases b.len(),
{
    if b.len() == 0 {
        assert(a + b =~= a);
    } else {
        assert((a + b).drop_last() =~= a + b.drop_last());
        lemma_count_char_add(a, b.drop_last(), ch);
    }
}

proof fn lemma_count_char_none(s: Seq<char>, ch: char)
    requires
        forall|i: int| 0 <= i < s.len() ==> #[trigger] s[i] != ch,
    ensures
        count_char(s, ch) == 0,
    decreases s.len(),
{
    if s.len() > 0 {
        lemma_count_char_none(s.drop_last(), ch);
    }
}

proof fn lemma_count_char_one(x: char, ch: char)
    ensures
        count_char(seq![x], ch) == if x == ch { 1nat } else { 0nat },
{
    assert(seq![x].drop_last() =~= Seq::<char>::empty());
    assert(count_char(Seq::<char>::empty(), ch) == 0);
    assert(seq![x].last() == x);
}

proof fn lemma_digit_char_code(k: int)
    requires
        0 <= k <= 9,
    ensures
        digit_char(k) as int == 48 + k,
        digit_char(k) != 'X',
        digit_char(k) != '.',
        digit_char(k) != ' ',
        digit_char(k) != '\n',
{
    assert(('X' as int) == 88);
    assert(('.' as int) == 46);
    assert((' ' as int) == 32);
    assert(('\n' as int) == 10);
}

/// How often `ch` occurs in the text of one cell, given how often it
/// occurs in each cell text of row `r`; summing over a row and the grid.
proof fn lemma_row_text_count(g: Grid, m: Mask, r: int, n: int, ch: char, p: spec_fn(int, int) -> bool)
    requires
        0 <= r < 9,
        n <= 9,
        ch != ' ',
        forall|c: int| 0 <= c < 9 ==> count_char(#[trigger] cell_text(g, m, r, c), ch) == if p(r, c) {
            1nat
        } else {
            0nat
        },
    ensures
        count_char(row_text(g, m, r, n), ch) == cells_in_row(p, r, n),
    decreases n,
{
    if n > 0 {
        lemma_row_text_count(g, m, r, n - 1, ch, p);
        assert(count_char(cell_text(g, m, r, n - 1), ch) == if p(r, n - 1) { 1nat } else { 0nat });
        let gap: Seq<char> = if n - 1 == 2 || n - 1 == 5 { seq![' ', ' '] } else { Seq::empty() };
        lemma_count_char_add(row_text(g, m, r, n - 1), cell_text(g, m, r, n - 1), ch);
        lemma_count_char_add(row_text(g, m, r, n - 1) + cell_text(g, m, r, n - 1), gap, ch);
        lemma_count_char_none(gap, ch);
    }
}

proof fn lemma_grid_text_count(g: Grid, m: Mask, n: int, ch: char, p: spec_fn(int, int) -> bool)
    requires
        n <= 9,
        ch != ' ',
        ch != '\n',
        forall|r: int, c: int|
            0 <= r < 9 && 0 <= c < 9 ==> count_char(#[trigger] cell_text(g, m, r, c), ch) == if p(
                r,
                c,
            ) {
                1nat
            } else {
                0nat
            },
    ensures
        count_char(grid_text(g, m, n), ch) == cells_upto(p, n),
    decreases n,
{
    if n > 0 {
        lemma_grid_text_count(g, m, n - 1, ch, p);
        lemma_row_text_count(g, m, n - 1, 9, ch, p);
        let a = grid_text(g, m, n - 1);
        let b = row_text(g, m, n - 1, 9);
        let nl: Seq<char> = seq!['\n'];
        let gap: Seq<char> = if n - 1 == 2 || n - 1 == 5 { seq!['\n'] } else { Seq::empty() };
        lemma_count_char_add(a, b, ch);
        lemma_count_char_add(a + b, nl, ch);
        lemma_count_char_add(a + b + nl, gap, ch);
        lemma_count_char_none(nl, ch);
        lemma_count_char_none(gap, ch);
    }
}

/// The drawn grid holds exactly one `X` for each marked cell, whatever the
/// cells hold: a marked cell is drawn as `X` and nothing else is.
pub proof fn lemma_render_marks_counted(g: Grid, m: Mask)
    ensures
        count_char(grid_text(g, m, 9), 'X') == cells_upto(|r: int, c: int| m[r][c], 9),
{
    let p = |r: int, c: int| m[r][c];
    assert forall|r: int, c: int| 0 <= r < 9 && 0 <= c < 9 implies count_char(
        #[trigger] cell_text(g, m, r, c),
        'X',
    ) == if p(r, c) { 1nat } else { 0nat } by {
        let t = cell_text(g, m, r, c);
        if m[r][c] {
            lemma_count_char_one('X', 'X');
        } else if g[r][c] == 0 {
            lemma_count_char_one('.', 'X');
        } else {
            let v = g[r][c] as int;
            lemma_digit_char_code(v % 10);
            lemma_digit_char_code(v / 10 % 10);
            if v < 100 {
                lemma_digit_char_code(v / 10);
            } else {
                lemma_digit_char_code(v / 100);
            }
            lemma_count_char_none(t, 'X');
        }
    }
    lemma_grid_text_count(g, m, 9, 'X', p);
}

/// The drawn grid holds exactly one `.` for each empty cell that is not
/// marked.
pub proof fn lemma_render_empties_counted(g: Grid, m: Mask)
    ensures
        count_char(grid_text(g, m, 9), '.') == cells_upto(|r: int, c: int| !m[r][c] && g[r][c] == 0, 9),
{
    let p = |r: int, c: int| !m[r][c] && g[r][c] == 0;
    assert forall|r: int, c: int| 0 <= r < 9 && 0 <= c < 9 implies count_char(
        #[trigger] cell_text(g, m, r, c),
        '.',
    ) == if p(r, c) { 1nat } else { 0nat } by {
        let t = cell_text(g, m, r, c);
        if m[r][c] {
            lemma_count_char_one('X', '.');
        } else if g[r][c] == 0 {
            lemma_count_char_one('.', '.');
        } else {
            let v = g[r][c] as int;
            lemma_digit_char_code(v % 10);
            lemma_digit_char_code(v / 10 % 10);
            if v < 100 {
                lemma_digit_char_code(v / 10);
            } else {
                lemma_digit_char_code(v / 100);
            }
            lemma_count_char_none(t, '.');
        }
    }
    lemma_grid_text_count(g, m, 9, '.', p);
}

/// On a grid of digits, the drawn grid shows the digit `d` exactly once for
/// each cell that holds `d` and is not marked.
pub proof fn lemma_render_digits_counted(g: Grid, m: Mask, d: u8)
    requires
        grid_digits(g),
        1 <= d <= 9,
    ensures
        count_char(grid_text(g, m, 9), digit_char(d as int)) == cells_upto(
            |r: int, c: int| !m[r][c] && g[r][c] == d,
            9,
        ),
{
    let ch = digit_char(d as int);
    let p = |r: int, c: int| !m[r][c] && g[r][c] == d;
    lemma_digit_char_code(d as int);
    assert forall|r: int, c: int| 0 <= r < 9 && 0 <= c < 9 implies count_char(
        #[trigger] cell_text(g, m, r, c),
        ch,
    ) == if p(r, c) { 1nat } else { 0nat } by {
        if m[r][c] {
            lemma_count_char_one('X', ch);
        } else if g[r][c] == 0 {
            lemma_count_char_one('.', ch);
        } else {
            let v = g[r][c] as int;
            assert(v <= 9);
            lemma_digit_char_code(v);
            lemma_count_char_one(digit_char(v), ch);
        }
    }
    lemma_grid_text_count(g, m, 9, ch, p);
}

proof fn lemma_row_text_same(g1: Grid, g2: Grid, m: Mask, r: int, n: int)
    requires
        forall|c: int| 0 <= c < 9 ==> #[trigger] cell_text(g1, m, r, c) == cell_text(g2, m, r, c),
        n <= 9,
    ensures
        row_text(g1, m, r, n) == row_text(g2, m, r, n),
    decreases n,
{
    if n > 0 {
        lemma_row_text_same(g1, g2, m, r, n - 1);
        assert(cell_text(g1, m, r, n - 1) == cell_text(g2, m, r, n - 1));
    }
}

proof fn lemma_grid_text_same(g1: Grid, g2: Grid, m: Mask, n: int)
    requires
        forall|r: int, c: int|
            0 <= r < 9 && 0 <= c < 9 ==> #[trigger] cell_text(g1, m, r, c) == cell_text(g2, m, r, c),
        n <= 9,
    ensures
        grid_text(g1, m, n) == grid_text(g2, m, n),
    decreases n,
{
    if n > 0 {
        lemma_grid_text_same(g1, g2, m, n - 1);
        assert forall|c: int| 0 <= c < 9 implies #[trigger] cell_text(g1, m, n - 1, c) == cell_text(
            g2,
            m,
            n - 1,
            c,
        ) by {}
        lemma_row_text_same(g1, g2, m, n - 1, 9);
    }
}

/// What a marked cell holds does not show: changing its value leaves the
/// drawn grid as it was.
pub proof fn lemma_marked_value_hidden(g: Grid, m: Mask, r: usize, c: usize, v: u8)
    requires
        r < 9,
        c < 9,
        m[r as int][c as int],
    ensures
        grid_text(g, m, 9) == grid_text(with_value(g, r, c, v), m, 9),
{
    let g2 = with_value(g, r, c, v);
    lemma_with_value(g, r, c, v);
    assert forall|i: int, j: int| 0 <= i < 9 && 0 <= j < 9 implies #[trigger] cell_text(g, m, i, j)
        == cell_text(g2, m, i, j) by {
        if i != r || j != c {
            assert(g2[i][j] == g[i][j]);
        }
    }
    lemma_grid_text_same(g, g2, m, 9);
}

proof fn lemma_cell_text_plain(g: Grid, m: Mask, r: int, c: int, ch: char)
    requires
        0 <= r < 9,
        0 <= c < 9,
        ch == ' ' || ch == '\n',
    ensures
        count_char(cell_text(g, m, r, c), ch) == 0,
{
    let t = cell_text(g, m, r, c);
    assert((' ' as int) == 32 && ('\n' as int) == 10 && ('X' as int) == 88 && ('.' as int) == 46);
    if !m[r][c] && g[r][c] != 0 {
        let v = g[r][c] as int;
        lemma_digit_char_code(v % 10);
        lemma_digit_char_code(v / 10 % 10);
        if v < 100 {
            lemma_digit_char_code(v / 10);
        } else {
            lemma_digit_char_code(v / 100);
        }
    }
    lemma_count_char_none(t, ch);
}

/// The number of gaps (two spaces each) after the first `n` cells of a row.
spec fn gaps_upto(n: int) -> nat {
    if n >= 6 {
        2
    } else if n >= 3 {
        1
    } else {
        0
    }
}

proof fn lemma_row_text_plain(g: Grid, m: Mask, r: int, n: int)
    requires
        0 <= r < 9,
        0 <= n <= 9,
    ensures
        count_char(row_text(g, m, r, n), '\n') == 0,
        count_char(row_text(g, m, r, n), ' ') == 2 * gaps_upto(n),
    decreases n,
{
    if n > 0 {
        lemma_row_text_plain(g, m, r, n - 1);
        lemma_cell_text_plain(g, m, r, n - 1, ' ');
        lemma_cell_text_plain(g, m, r, n - 1, '\n');
        let a = row_text(g, m, r, n - 1);
        let b = cell_text(g, m, r, n - 1);
        let gap: Seq<char> = if n - 1 == 2 || n - 1 == 5 { seq![' ', ' '] } else { Seq::empty() };
        lemma_count_char_add(a, b, ' ');
        lemma_count_char_add(a + b, gap, ' ');
        lemma_count_char_add(a, b, '\n');
        lemma_count_char_add(a + b, gap, '\n');
        assert((' ' as int) == 32 && ('\n' as int) == 10);
        lemma_count_char_none(gap, '\n');
        if n - 1 == 2 || n - 1 == 5 {
            assert(gap.drop_last() =~= seq![' ']);
            lemma_count_char_one(' ', ' ');
        }
    }
}

proof fn lemma_grid_text_plain(g: Grid, m: Mask, n: int)
    requires
        0 <= n <= 9,
    ensures
        count_char(grid_text(g, m, n), '\n') == n + gaps_upto(n),
        count_char(grid_text(g, m, n), ' ') == 4 * n,
    decreases n,
{
    if n > 0 {
        lemma_grid_text_plain(g, m, n - 1);
        lemma_row_text_plain(g, m, n - 1, 9);
        let a = grid_text(g, m, n - 1);
        let b = row_text(g, m, n - 1, 9);
        let nl: Seq<char> = seq!['\n'];
        let gap: Seq<char> = if n - 1 == 2 || n - 1 == 5 { seq!['\n'] } else { Seq::empty() };
        lemma_count_char_add(a, b, '\n');
        lemma_count_char_add(a + b, nl, '\n');
        lemma_count_char_add(a + b + nl, gap, '\n');
        lemma_count_char_add(a, b, ' ');
        lemma_count_char_add(a + b, nl, ' ');
        lemma_count_char_add(a + b + nl, gap, ' ');
        assert((' ' as int) == 32 && ('\n' as int) == 10);
        lemma_count_char_one('\n', '\n');
        lemma_count_char_one('\n', ' ');
        lemma_count_char_none(gap, ' ');
        if n - 1 == 2 || n - 1 == 5 {
            lemma_count_char_one('\n', '\n');
        } else {
            lemma_count_char_none(gap, '\n');
        }
    }
}

/// The drawn grid has eleven lines (nine rows and an empty line after the
/// third and the sixth) and two spaces after the third and the sixth cell of
/// each row, whatever the grid holds.
pub proof fn lemma_render_layout(g: Grid, m: Mask)
    ensures
        count_char(grid_text(g, m, 9), '\n') == 11,
        count_char(grid_text(g, m, 9), ' ') == 36,
{
    lemma_grid_text_plain(g, m, 9);
}

} // verus!
