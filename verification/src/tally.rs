//! Counting the digits of one house.
use vstd::prelude::*;

use crate::digits::{all_digits, distinct_digits, lemma_take_push, occ, total};
use crate::houses::house_values;
use crate::models::{cells_in_bounds, Grid};

verus! {

/// What one pass over a house finds: whether its digits are distinct and,
/// if they are, their sum, the number of empty cells and how often each
/// digit occurs.
pub(crate) struct HouseTally {
    pub distinct: bool,
    pub sum: u32,
    pub empty: usize,
    pub counts: [u8; 10],
}

/// The sum of the digits `1..=d` whose counter in `counts` is set.
spec fn weight(counts: Seq<u8>, d: int) -> int
    decreases d,
{
    if d < 1 {
        0
    } else {
        weight(counts, d - 1) + if counts[d] > 0 { d } else { 0 }
    }
}

proof fn lemma_weight_set(counts: Seq<u8>, v: int, d: int)
    requires
        1 <= v < counts.len(),
        d < counts.len(),
        counts[v] == 0,
    ensures
        weight(counts.update(v, 1), d) == weight(counts, d) + if 1 <= v <= d { v } else { 0 },
    decreases d,
{
    if d >= 1 {
        lemma_weight_set(counts, v, d - 1);
    }
}

proof fn lemma_weight_zero(counts: Seq<u8>, d: int)
    requires
        d < counts.len(),
        forall|j: int| 0 <= j < counts.len() ==> counts[j] == 0,
    ensures
        weight(counts, d) == 0,
    decreases d,
{
    if d >= 1 {
        lemma_weight_zero(counts, d - 1);
    }
}

proof fn lemma_weight_bound(counts: Seq<u8>, d: int)
    requires
        d <= 9,
    ensures
        0 <= weight(counts, d) <= 9 * d || d < 1,
    decreases d,
{
    if d >= 1 {
        lemma_weight_bound(counts, d - 1);
    }
}

/// Counts the digits of the house made of `cells`, stopping at the first
/// digit that occurs twice.
pub(crate) fn tally(grid: &Grid, cells: &Vec<(usize, usize)>) -> (t: HouseTally)
    requires
        all_digits(house_values(*grid, cells@)),
        cells_in_bounds(cells@),
    ensures
        t.distinct == distinct_digits(house_values(*grid, cells@)),
        t.distinct ==> {
            let vals = house_values(*grid, cells@);
            &&& t.sum == total(vals)
            &&& t.sum <= 81
            &&& t.empty == occ(vals, 0)
            &&& forall|d: u8| 1 <= d <= 9 ==> t.counts@[d as int] == #[trigger] occ(vals, d)
        },
{
    let ghost vals = house_values(*grid, cells@);
    let mut sum: u32 = 0;
    let mut empty: usize = 0;
    let mut counts: [u8; 10] = [0u8; 10];
    proof {
        assert forall|d: int| 0 <= d < 10 implies counts@[d] == 0 by {}
        lemma_weight_zero(counts@, 9);
    }
    let n = cells.len();
    let mut i: usize = 0;
    while i < n
        invariant
            n == cells@.len(),
            vals == house_values(*grid, cells@),
            all_digits(vals),
            cells_in_bounds(cells@),
            0 <= i <= n,
            sum == total(vals.take(i as int)),
            sum == weight(counts@, 9),
            empty == occ(vals.take(i as int), 0),
            empty <= i,
            forall|d: u8| 1 <= d <= 9 ==> counts@[d as int] == #[trigger] occ(vals.take(i as int), d),
            forall|d: int| 1 <= d <= 9 ==> #[trigger] counts@[d] <= 1,
        decreases n - i,
    {
        let (row, col) = cells[i];
        let value = grid[row][col];
        assert(value == vals[i as int]);
        proof {
            assert forall|d: u8|
                occ(vals.take(i + 1), d) == occ(vals.take(i as int), d) + if vals[i as int] == d {
                    1nat
                } else {
                    0nat
                } by {
                lemma_take_push(vals, i as int, d);
            }
            lemma_take_push(vals, i as int, 0);
        }
        if value == 0 {
            empty += 1;
        } else {
            let ghost before = counts@;
            assert(before[value as int] == occ(vals.take(i as int), value));
            counts[value as usize] += 1;
            assert(counts@ == before.update(value as int, (before[value as int] + 1) as u8));
            if counts[value as usize] > 1 {
                proof {
                    assert(occ(vals.take(i + 1), value) == 2);
                    lemma_count_prefix(vals, i + 1, value);
                }
                return HouseTally { distinct: false, sum, empty, counts };
            }
            proof {
                assert(counts@ == before.update(value as int, 1));
                lemma_weight_set(before, value as int, 9);
                lemma_weight_bound(before, 9);
            }
            sum += value as u32;
        }
        assert forall|d: u8| 1 <= d <= 9 implies counts@[d as int] == #[trigger] occ(
            vals.take(i + 1),
            d,
        ) by {
            lemma_take_push(vals, i as int, d);
        }
        i += 1;
    }
    assert(vals.take(n as int) =~= vals);
    proof {
        lemma_weight_bound(counts@, 9);
    }
    HouseTally { distinct: true, sum, empty, counts }
}

/// A prefix in which a digit occurs twice makes the whole house repeat it.
proof fn lemma_count_prefix(vals: Seq<u8>, i: int, d: u8)
    requires
        0 <= i <= vals.len(),
        1 <= d <= 9,
        occ(vals.take(i), d) >= 2,
    ensures
        occ(vals, d) >= 2,
    decreases vals.len() - i,
{
    if i < vals.len() {
        lemma_take_push(vals, i, d);
        lemma_count_prefix(vals, i + 1, d);
    } else {
        assert(vals.take(i) =~= vals);
    }
}

} // verus!
