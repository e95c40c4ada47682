//! The arithmetic of one house (a row, column, block or cage): the values
//! that stand in its cells, read as a sequence of digits where `0` marks an
//! empty cell.
use vstd::prelude::*;

verus! {

/// How often the digit `d` occurs in `vals`.
pub open spec fn occ(vals: Seq<u8>, d: u8) -> nat
    decreases vals.len(),
{
    if vals.len() == 0 {
        0
    } else {
        occ(vals.drop_last(), d) + if vals.last() == d { 1nat } else { 0nat }
    }
}

/// The sum of all values (empty cells count as `0`).
pub open spec fn total(vals: Seq<u8>) -> int
    decreases vals.len(),
{
    if vals.len() == 0 {
        0
    } else {
        total(vals.drop_last()) + vals.last()
    }
}

/// Every value is `0` (empty) or a digit `1..=9`.
pub open spec fn all_digits(vals: Seq<u8>) -> bool {
    forall|i: int| 0 <= i < vals.len() ==> vals[i] <= 9
}

/// No digit `1..=9` occurs twice.
pub open spec fn distinct_digits(vals: Seq<u8>) -> bool {
    forall|d: u8| 1 <= d <= 9 ==> #[trigger] occ(vals, d) <= 1
}

/// The digit `d` is already placed somewhere in the house.
pub open spec fn used(vals: Seq<u8>, d: int) -> bool {
    1 <= d <= 9 && occ(vals, d as u8) > 0
}

/// The sum of the `k` smallest digits in `d..=9` that the house does not use
/// yet (of all of them, where fewer than `k` are left).
pub open spec fn low_fill(vals: Seq<u8>, k: nat, d: int) -> int
    decreases 10 - d,
{
    if k == 0 || d > 9 || d < 1 {
        0
    } else if used(vals, d) {
        low_fill(vals, k, d + 1)
    } else {
        d + low_fill(vals, (k - 1) as nat, d + 1)
    }
}

/// The sum of the `k` largest digits in `1..=d` that the house does not use
/// yet (of all of them, where fewer than `k` are left).
pub open spec fn high_fill(vals: Seq<u8>, k: nat, d: int) -> int
    decreases d,
{
    if k == 0 || d < 1 || d > 9 {
        0
    } else if used(vals, d) {
        high_fill(vals, k, d - 1)
    } else {
        d + high_fill(vals, (k - 1) as nat, d - 1)
    }
}

/// A house can still be completed, as far as the quick test tells: no digit
/// twice, the sum not beyond the target, a full house right on the target,
/// and for a house with `k` empty cells the target lies between what the `k`
/// smallest and the `k` largest unused digits would add.
pub open spec fn house_feasible(vals: Seq<u8>, target: u32) -> bool {
    let sum = total(vals);
    let k = occ(vals, 0);
    &&& distinct_digits(vals)
    &&& sum <= target
    &&& (k == 0 ==> sum == target)
    &&& (k > 0 ==> sum + high_fill(vals, k, 9) >= target && sum + low_fill(vals, k, 1) <= target)
}

/// A house that breaks the rules as it stands: a digit twice, a sum beyond
/// the target, or a full house off the target.
pub open spec fn house_broken(vals: Seq<u8>, target: u32) -> bool {
    ||| !distinct_digits(vals)
    ||| total(vals) > target
    ||| (occ(vals, 0) == 0 && total(vals) != target)
}

/// A finished house: every cell holds a digit `1..=9`, no digit twice, and
/// the digits add up to the target.
pub open spec fn house_solved(vals: Seq<u8>, target: u32) -> bool {
    &&& forall|i: int| 0 <= i < vals.len() ==> 1 <= #[trigger] vals[i] <= 9
    &&& distinct_digits(vals)
    &&& total(vals) == target
}

/// The values of `s` in the cells that are empty in `p`, in order.
pub open spec fn filled_in(p: Seq<u8>, s: Seq<u8>) -> Seq<u8>
    decreases p.len(),
{
    if p.len() == 0 || s.len() == 0 {
        Seq::empty()
    } else if p.last() == 0 {
        filled_in(p.drop_last(), s.drop_last()).push(s.last())
    } else {
        filled_in(p.drop_last(), s.drop_last())
    }
}

/// `s` keeps every digit that `p` has placed.
pub open spec fn agrees(p: Seq<u8>, s: Seq<u8>) -> bool {
    &&& p.len() == s.len()
    &&& forall|i: int| 0 <= i < p.len() && p[i] != 0 ==> #[trigger] s[i] == p[i]
}

pub proof fn lemma_occ_push(vals: Seq<u8>, x: u8, d: u8)
    ensures
        occ(vals.push(x), d) == occ(vals, d) + if x == d { 1nat } else { 0nat },
        total(vals.push(x)) == total(vals) + x,
{
    assert(vals.push(x).drop_last() =~= vals);
}

pub proof fn lemma_take_push(vals: Seq<u8>, i: int, d: u8)
    requires
        0 <= i < vals.len(),
    ensures
        occ(vals.take(i + 1), d) == occ(vals.take(i), d) + if vals[i] == d { 1nat } else { 0nat },
        total(vals.take(i + 1)) == total(vals.take(i)) + vals[i],
{
    assert(vals.take(i + 1) =~= vals.take(i).push(vals[i]));
    lemma_occ_push(vals.take(i), vals[i], d);
}

/// `d` occurs in `vals` exactly when some position holds it.
pub proof fn lemma_occ_exists(vals: Seq<u8>, d: u8)
    ensures
        occ(vals, d) > 0 <==> exists|i: int| 0 <= i < vals.len() && vals[i] == d,
        occ(vals, d) <= vals.len(),
    decreases vals.len(),
{
    if vals.len() > 0 {
        let init = vals.drop_last();
        lemma_occ_exists(init, d);
        if occ(init, d) > 0 {
            let i = choose|i: int| 0 <= i < init.len() && init[i] == d;
            assert(vals[i] == d);
        }
        if exists|i: int| 0 <= i < vals.len() && vals[i] == d {
            let i = choose|i: int| 0 <= i < vals.len() && vals[i] == d;
            if i < vals.len() - 1 {
                assert(init[i] == d);
            }
        }
    }
}

pub proof fn lemma_total_nonneg(vals: Seq<u8>)
    ensures
        total(vals) >= 0,
    decreases vals.len(),
{
    if vals.len() > 0 {
        lemma_total_nonneg(vals.drop_last());
    }
}

/// Taking one element out of a sequence.
pub proof fn lemma_remove(vals: Seq<u8>, j: int, d: u8)
    requires
        0 <= j < vals.len(),
    ensures
        occ(vals, d) == occ(vals.remove(j), d) + if vals[j] == d { 1nat } else { 0nat },
        total(vals) == total(vals.remove(j)) + vals[j],
    decreases vals.len(),
{
    let n = vals.len() - 1;
    if j == n {
        assert(vals.remove(j) =~= vals.drop_last());
    } else {
        let init = vals.drop_last();
        lemma_remove(init, j, d);
        assert(vals.remove(j) =~= init.remove(j).push(vals.last()));
        lemma_occ_push(init.remove(j), vals.last(), d);
    }
}

/// The smallest unused digits give a lower bound for any set of distinct
/// unused digits of the same size.
pub proof fn lemma_low_fill_bound(p: Seq<u8>, fill: Seq<u8>, d: int)
    requires
        1 <= d <= 10,
        forall|i: int| 0 <= i < fill.len() ==> d <= #[trigger] fill[i] <= 9,
        forall|x: u8| 1 <= x <= 9 ==> #[trigger] occ(fill, x) <= 1,
        forall|x: u8| 1 <= x <= 9 && #[trigger] occ(fill, x) > 0 ==> occ(p, x) == 0,
    ensures
        total(fill) >= low_fill(p, fill.len(), d),
    decreases 10 - d, fill.len(),
{
    let k = fill.len();
    if k == 0 {
    } else if d > 9 {
        assert(fill[0] <= 9);
    } else {
        let du = d as u8;
        lemma_occ_exists(fill, du);
        if used(p, d) {
            assert(occ(fill, du) == 0);
            assert forall|i: int| 0 <= i < fill.len() implies d + 1 <= #[trigger] fill[i] <= 9 by {
                assert(fill[i] != du);
            }
            lemma_low_fill_bound(p, fill, d + 1);
        } else {
            let j = if occ(fill, du) > 0 {
                choose|i: int| 0 <= i < fill.len() && fill[i] == du
            } else {
                0
            };
            let rest = fill.remove(j);
            lemma_remove(fill, j, du);
            assert forall|x: u8| 1 <= x <= 9 implies #[trigger] occ(rest, x) <= occ(fill, x) by {
                lemma_remove(fill, j, x);
            }
            lemma_occ_exists(rest, du);
            assert forall|i: int| 0 <= i < rest.len() implies d + 1 <= #[trigger] rest[i] <= 9 by {
                if i < j {
                    assert(rest[i] == fill[i]);
                } else {
                    assert(rest[i] == fill[i + 1]);
                }
                assert(rest[i] != du);
            }
            lemma_low_fill_bound(p, rest, d + 1);
        }
    }
}

/// The largest unused digits give an upper bound for any set of distinct
/// unused digits of the same size.
pub proof fn lemma_high_fill_bound(p: Seq<u8>, fill: Seq<u8>, d: int)
    requires
        0 <= d <= 9,
        forall|i: int| 0 <= i < fill.len() ==> 1 <= #[trigger] fill[i] <= d,
        forall|x: u8| 1 <= x <= 9 ==> #[trigger] occ(fill, x) <= 1,
        forall|x: u8| 1 <= x <= 9 && #[trigger] occ(fill, x) > 0 ==> occ(p, x) == 0,
    ensures
        total(fill) <= high_fill(p, fill.len(), d),
    decreases d, fill.len(),
{
    let k = fill.len();
    if k == 0 {
    } else if d < 1 {
        assert(fill[0] >= 1);
    } else {
        let du = d as u8;
        lemma_occ_exists(fill, du);
        if used(p, d) {
            assert(occ(fill, du) == 0);
            assert forall|i: int| 0 <= i < fill.len() implies 1 <= #[trigger] fill[i] <= d - 1 by {
                assert(fill[i] != du);
            }
            lemma_high_fill_bound(p, fill, d - 1);
        } else {
            let j = if occ(fill, du) > 0 {
                choose|i: int| 0 <= i < fill.len() && fill[i] == du
            } else {
                0
            };
            let rest = fill.remove(j);
            lemma_remove(fill, j, du);
            assert forall|x: u8| 1 <= x <= 9 implies #[trigger] occ(rest, x) <= occ(fill, x) by {
                lemma_remove(fill, j, x);
            }
            lemma_occ_exists(rest, du);
            assert forall|i: int| 0 <= i < rest.len() implies 1 <= #[trigger] rest[i] <= d - 1 by {
                if i < j {
                    assert(rest[i] == fill[i]);
                } else {
                    assert(rest[i] == fill[i + 1]);
                }
                assert(rest[i] != du);
            }
            lemma_high_fill_bound(p, rest, d - 1);
        }
    }
}

/// How the filled-in values relate a partial house `p` to a completion `s`.
pub proof fn lemma_filled_in(p: Seq<u8>, s: Seq<u8>)
    requires
        agrees(p, s),
    ensures
        filled_in(p, s).len() == occ(p, 0),
        total(s) == total(p) + total(filled_in(p, s)),
        forall|x: u8| x != 0 ==> occ(s, x) == occ(p, x) + #[trigger] occ(filled_in(p, s), x),
        forall|i: int|
            0 <= i < filled_in(p, s).len() ==> exists|j: int|
                0 <= j < s.len() && #[trigger] filled_in(p, s)[i] == s[j],
    decreases p.len(),
{
    if p.len() > 0 {
        let (pi, si) = (p.drop_last(), s.drop_last());
        assert(agrees(pi, si)) by {
            assert forall|i: int| 0 <= i < pi.len() && pi[i] != 0 implies #[trigger] si[i] == pi[i] by {
                assert(p[i] != 0);
            }
        }
        lemma_filled_in(pi, si);
        let f = filled_in(pi, si);
        assert forall|x: u8| x != 0 implies occ(s, x) == occ(p, x) + #[trigger] occ(filled_in(p, s), x) by {
            if p.last() == 0 {
                lemma_occ_push(f, s.last(), x);
            }
        }
        if p.last() == 0 {
            lemma_occ_push(f, s.last(), 0);
        }
        assert forall|i: int|
            0 <= i < filled_in(p, s).len() implies exists|j: int|
                0 <= j < s.len() && #[trigger] filled_in(p, s)[i] == s[j] by {
            if i < f.len() {
                let j = choose|j: int| 0 <= j < si.len() && f[i] == si[j];
                assert(s[j] == si[j]);
            } else {
                assert(filled_in(p, s)[i] == s[s.len() - 1]);
            }
        }
    }
}

/// A full house passes the quick test exactly when it is solved.
pub proof fn lemma_full_feasible(vals: Seq<u8>, target: u32)
    requires
        all_digits(vals),
        occ(vals, 0) == 0,
    ensures
        house_feasible(vals, target) <==> house_solved(vals, target),
{
    lemma_occ_exists(vals, 0);
}

/// The quick test never rejects a house that can still be completed: if `s`
/// is a solved completion of the partial house `p`, `p` is feasible.
pub proof fn lemma_feasible_sound(p: Seq<u8>, s: Seq<u8>, target: u32)
    requires
        all_digits(p),
        agrees(p, s),
        house_solved(s, target),
    ensures
        house_feasible(p, target),
{
    lemma_filled_in(p, s);
    let f = filled_in(p, s);
    lemma_total_nonneg(f);
    lemma_total_nonneg(p);
    assert forall|x: u8| 1 <= x <= 9 implies #[trigger] occ(p, x) <= 1 by {
        assert(occ(s, x) <= 1);
        assert(occ(s, x) == occ(p, x) + occ(f, x));
    }
    assert forall|x: u8| 1 <= x <= 9 implies #[trigger] occ(f, x) <= 1 by {
        assert(occ(s, x) <= 1);
    }
    assert forall|x: u8| 1 <= x <= 9 && #[trigger] occ(f, x) > 0 implies occ(p, x) == 0 by {
        assert(occ(s, x) <= 1);
    }
    assert forall|i: int| 0 <= i < f.len() implies 1 <= #[trigger] f[i] <= 9 by {
        let j = choose|j: int| 0 <= j < s.len() && f[i] == s[j];
        assert(1 <= s[j] <= 9);
    }
    let k = occ(p, 0);
    if k == 0 {
        assert(f.len() == 0);
        assert(total(f) == 0);
    } else {
        lemma_low_fill_bound(p, f, 1);
        lemma_high_fill_bound(p, f, 9);
    }
}

/// A house that breaks the rules never passes the quick test.
pub proof fn lemma_broken_not_feasible(vals: Seq<u8>, target: u32)
    ensures
        house_broken(vals, target) ==> !house_feasible(vals, target),
{
}

/// A full house breaks the rules exactly when it is not solved.
pub proof fn lemma_full_broken(vals: Seq<u8>, target: u32)
    requires
        all_digits(vals),
        occ(vals, 0) == 0,
    ensures
        house_broken(vals, target) <==> !house_solved(vals, target),
{
    lemma_occ_exists(vals, 0);
}

/// Two houses with the same digit counts and the same sum get the same
/// verdict from the quick test and from the rule check.
pub proof fn lemma_same_counts(a: Seq<u8>, b: Seq<u8>, target: u32)
    requires
        forall|d: u8| #[trigger] occ(a, d) == occ(b, d),
        total(a) == total(b),
    ensures
        house_feasible(a, target) == house_feasible(b, target),
        house_broken(a, target) == house_broken(b, target),
{
    let k = occ(a, 0);
    lemma_low_fill_same(a, b, k, 1);
    lemma_high_fill_same(a, b, k, 9);
    assert(distinct_digits(a) == distinct_digits(b)) by {
        if distinct_digits(a) {
            assert forall|d: u8| 1 <= d <= 9 implies #[trigger] occ(b, d) <= 1 by {
                assert(occ(a, d) == occ(b, d));
            }
        }
        if distinct_digits(b) {
            assert forall|d: u8| 1 <= d <= 9 implies #[trigger] occ(a, d) <= 1 by {
                assert(occ(a, d) == occ(b, d));
            }
        }
    }
    assert(occ(a, 0) == occ(b, 0));
}

proof fn lemma_low_fill_same(a: Seq<u8>, b: Seq<u8>, k: nat, d: int)
    requires
        forall|x: u8| #[trigger] occ(a, x) == occ(b, x),
    ensures
        low_fill(a, k, d) == low_fill(b, k, d),
    decreases 10 - d,
{
    if k > 0 && 1 <= d <= 9 {
        assert(occ(a, d as u8) == occ(b, d as u8));
        lemma_low_fill_same(a, b, k, d + 1);
        lemma_low_fill_same(a, b, (k - 1) as nat, d + 1);
    }
}

proof fn lemma_high_fill_same(a: Seq<u8>, b: Seq<u8>, k: nat, d: int)
    requires
        forall|x: u8| #[trigger] occ(a, x) == occ(b, x),
    ensures
        high_fill(a, k, d) == high_fill(b, k, d),
    decreases d,
{
    if k > 0 && 1 <= d <= 9 {
        assert(occ(a, d as u8) == occ(b, d as u8));
        lemma_high_fill_same(a, b, k, d - 1);
        lemma_high_fill_same(a, b, (k - 1) as nat, d - 1);
    }
}

/// `d` occurs at least twice exactly when two positions hold it.
pub proof fn lemma_occ_two(vals: Seq<u8>, d: u8)
    ensures
        occ(vals, d) >= 2 <==> exists|i: int, j: int|
            0 <= i < j < vals.len() && vals[i] == d && vals[j] == d,
    decreases vals.len(),
{
    if vals.len() > 0 {
        let n = vals.len() - 1;
        let init = vals.drop_last();
        lemma_occ_two(init, d);
        lemma_occ_exists(init, d);
        if exists|i: int, j: int| 0 <= i < j < vals.len() && vals[i] == d && vals[j] == d {
            let (i, j) = choose|i: int, j: int| 0 <= i < j < vals.len() && vals[i] == d && vals[j] == d;
            if j == n {
                assert(init[i] == d);
            } else {
                assert(init[i] == d && init[j] == d);
            }
        }
        if occ(vals, d) >= 2 {
            if vals.last() == d {
                let i = choose|i: int| 0 <= i < init.len() && init[i] == d;
                assert(vals[i] == d && vals[n] == d);
            } else {
                let (i, j) = choose|i: int, j: int| 0 <= i < j < init.len() && init[i] == d && init[j] == d;
                assert(vals[i] == d && vals[j] == d);
            }
        }
    }
}

/// No digit occurs twice exactly when no two cells hold the same digit.
pub proof fn lemma_distinct_iff(vals: Seq<u8>)
    requires
        all_digits(vals),
    ensures
        distinct_digits(vals) <==> !exists|i: int, j: int|
            0 <= i < j < vals.len() && vals[i] != 0 && vals[i] == vals[j],
{
    if exists|i: int, j: int| 0 <= i < j < vals.len() && vals[i] != 0 && vals[i] == vals[j] {
        let (i, j) = choose|i: int, j: int|
            0 <= i < j < vals.len() && vals[i] != 0 && vals[i] == vals[j];
        let d = vals[i];
        assert(d <= 9);
        lemma_occ_two(vals, d);
        assert(occ(vals, d) >= 2);
    }
    if !distinct_digits(vals) {
        let d = choose|d: u8| 1 <= d <= 9 && !(#[trigger] occ(vals, d) <= 1);
        lemma_occ_two(vals, d);
        let (i, j) = choose|i: int, j: int| 0 <= i < j < vals.len() && vals[i] == d && vals[j] == d;
        assert(vals[i] != 0 && vals[i] == vals[j]);
    }
}

/// A house breaks the rules exactly when two of its cells hold the same
/// digit, or the digits placed so far add up to more than the target, or
/// every cell holds a digit and they add up to anything but the target.
pub proof fn lemma_broken_iff(vals: Seq<u8>, target: u32)
    requires
        all_digits(vals),
    ensures
        house_broken(vals, target) <==> {
            ||| exists|i: int, j: int|
                0 <= i < j < vals.len() && vals[i] != 0 && vals[i] == vals[j]
            ||| total(vals) > target
            ||| (forall|i: int| 0 <= i < vals.len() ==> vals[i] != 0) && total(vals) != target
        },
{
    lemma_occ_exists(vals, 0);
    if exists|i: int, j: int| 0 <= i < j < vals.len() && vals[i] != 0 && vals[i] == vals[j] {
        let (i, j) = choose|i: int, j: int|
            0 <= i < j < vals.len() && vals[i] != 0 && vals[i] == vals[j];
        let d = vals[i];
        assert(d <= 9);
        lemma_occ_two(vals, d);
        assert(occ(vals, d) >= 2);
        assert(!distinct_digits(vals));
    }
    if !distinct_digits(vals) {
        let d = choose|d: u8| 1 <= d <= 9 && !(#[trigger] occ(vals, d) <= 1);
        lemma_occ_two(vals, d);
        let (i, j) = choose|i: int, j: int| 0 <= i < j < vals.len() && vals[i] == d && vals[j] == d;
        assert(vals[i] != 0 && vals[i] == vals[j]);
    }
}

/// `fill` could go into `k` empty cells of the house: `k` distinct digits,
/// none of which the house already holds.
pub open spec fn is_fill(vals: Seq<u8>, k: nat, fill: Seq<u8>) -> bool {
    &&& fill.len() == k
    &&& forall|i: int|
        0 <= i < fill.len() ==> 1 <= #[trigger] fill[i] <= 9 && forall|j: int|
            0 <= j < vals.len() ==> vals[j] != fill[i]
    &&& forall|i: int, j: int| 0 <= i < j < fill.len() ==> fill[i] != fill[j]
}

/// The number of digits in `d..=9` that the house does not hold yet.
pub open spec fn unused_from(vals: Seq<u8>, d: int) -> nat
    decreases 10 - d,
{
    if d > 9 || d < 1 {
        0
    } else {
        unused_from(vals, d + 1) + if used(vals, d) { 0nat } else { 1nat }
    }
}

/// The `k` smallest digits in `d..=9` that the house does not hold yet.
pub open spec fn low_seq(vals: Seq<u8>, k: nat, d: int) -> Seq<u8>
    decreases 10 - d,
{
    if k == 0 || d > 9 || d < 1 {
        Seq::empty()
    } else if used(vals, d) {
        low_seq(vals, k, d + 1)
    } else {
        low_seq(vals, (k - 1) as nat, d + 1).push(d as u8)
    }
}

/// The `k` largest digits in `1..=d` that the house does not hold yet.
pub open spec fn high_seq(vals: Seq<u8>, k: nat, d: int) -> Seq<u8>
    decreases d,
{
    if k == 0 || d < 1 || d > 9 {
        Seq::empty()
    } else if used(vals, d) {
        high_seq(vals, k, d - 1)
    } else {
        high_seq(vals, (k - 1) as nat, d - 1).push(d as u8)
    }
}

/// The number of digits in `1..=d` that the house does not hold yet.
pub open spec fn unused_upto(vals: Seq<u8>, d: int) -> nat
    decreases d,
{
    if d < 1 || d > 9 {
        0
    } else {
        unused_upto(vals, d - 1) + if used(vals, d) { 0nat } else { 1nat }
    }
}

proof fn lemma_low_seq(vals: Seq<u8>, k: nat, d: int)
    requires
        1 <= d <= 10,
    ensures
        total(low_seq(vals, k, d)) == low_fill(vals, k, d),
        low_seq(vals, k, d).len() == if k <= unused_from(vals, d) { k } else { unused_from(vals, d) },
        forall|i: int|
            0 <= i < low_seq(vals, k, d).len() ==> d <= #[trigger] low_seq(vals, k, d)[i] <= 9
                && !used(vals, low_seq(vals, k, d)[i] as int),
        forall|i: int, j: int|
            0 <= i < j < low_seq(vals, k, d).len() ==> low_seq(vals, k, d)[i] != low_seq(vals, k, d)[j],
    decreases 10 - d,
{
    if k > 0 && d <= 9 {
        if used(vals, d) {
            lemma_low_seq(vals, k, d + 1);
        } else {
            let rest = low_seq(vals, (k - 1) as nat, d + 1);
            lemma_low_seq(vals, (k - 1) as nat, d + 1);
            lemma_occ_push(rest, d as u8, 0);
            let sq = rest.push(d as u8);
            assert forall|i: int| 0 <= i < sq.len() implies d <= #[trigger] sq[i] <= 9 && !used(
                vals,
                sq[i] as int,
            ) by {
                if i < rest.len() {
                    assert(sq[i] == rest[i]);
                }
            }
            assert forall|i: int, j: int| 0 <= i < j < sq.len() implies sq[i] != sq[j] by {
                if j < rest.len() {
                    assert(sq[i] == rest[i] && sq[j] == rest[j]);
                } else {
                    assert(sq[i] == rest[i]);
                }
            }
        }
    }
}

proof fn lemma_high_seq(vals: Seq<u8>, k: nat, d: int)
    requires
        0 <= d <= 9,
    ensures
        total(high_seq(vals, k, d)) == high_fill(vals, k, d),
        high_seq(vals, k, d).len() == if k <= unused_upto(vals, d) { k } else { unused_upto(vals, d) },
        forall|i: int|
            0 <= i < high_seq(vals, k, d).len() ==> 1 <= #[trigger] high_seq(vals, k, d)[i] <= d
                && !used(vals, high_seq(vals, k, d)[i] as int),
        forall|i: int, j: int|
            0 <= i < j < high_seq(vals, k, d).len() ==> high_seq(vals, k, d)[i] != high_seq(
                vals,
                k,
                d,
            )[j],
    decreases d,
{
    if k > 0 && d >= 1 {
        if used(vals, d) {
            lemma_high_seq(vals, k, d - 1);
        } else {
            let rest = high_seq(vals, (k - 1) as nat, d - 1);
            lemma_high_seq(vals, (k - 1) as nat, d - 1);
            lemma_occ_push(rest, d as u8, 0);
            let sq = rest.push(d as u8);
            assert forall|i: int| 0 <= i < sq.len() implies 1 <= #[trigger] sq[i] <= d && !used(
                vals,
                sq[i] as int,
            ) by {
                if i < rest.len() {
                    assert(sq[i] == rest[i]);
                }
            }
            assert forall|i: int, j: int| 0 <= i < j < sq.len() implies sq[i] != sq[j] by {
                if j < rest.len() {
                    assert(sq[i] == rest[i] && sq[j] == rest[j]);
                } else {
                    assert(sq[i] == rest[i]);
                }
            }
        }
    }
}

proof fn lemma_unused_same_count(vals: Seq<u8>, d: int)
    requires
        0 <= d <= 9,
    ensures
        unused_from(vals, 1) == unused_upto(vals, d) + unused_from(vals, d + 1),
    decreases d,
{
    if d >= 1 {
        lemma_unused_same_count(vals, d - 1);
    }
}

/// A sequence that is a fill in the sense of `is_fill` meets the conditions
/// of the bound lemmas.
proof fn lemma_fill_counts(vals: Seq<u8>, k: nat, fill: Seq<u8>)
    requires
        is_fill(vals, k, fill),
    ensures
        forall|x: u8| 1 <= x <= 9 ==> #[trigger] occ(fill, x) <= 1,
        forall|x: u8| 1 <= x <= 9 && #[trigger] occ(fill, x) > 0 ==> occ(vals, x) == 0,
{
    assert forall|x: u8| 1 <= x <= 9 implies #[trigger] occ(fill, x) <= 1 by {
        lemma_occ_two(fill, x);
    }
    assert forall|x: u8| 1 <= x <= 9 && #[trigger] occ(fill, x) > 0 implies occ(vals, x) == 0 by {
        lemma_occ_exists(fill, x);
        lemma_occ_exists(vals, x);
        let i = choose|i: int| 0 <= i < fill.len() && fill[i] == x;
        assert(forall|j: int| 0 <= j < vals.len() ==> vals[j] != fill[i]);
    }
}

/// What the quick test asks of a house with `k > 0` empty cells and at least
/// `k` unused digits: no digit twice, the placed digits within the target,
/// and some `k` unused distinct digits that would keep the sum within the
/// target as well as some that would reach it.
pub proof fn lemma_feasible_iff_fills(vals: Seq<u8>, target: u32)
    requires
        all_digits(vals),
        occ(vals, 0) > 0,
        unused_from(vals, 1) >= occ(vals, 0),
    ensures
        house_feasible(vals, target) <==> {
            &&& !exists|i: int, j: int| 0 <= i < j < vals.len() && vals[i] != 0 && vals[i] == vals[j]
            &&& total(vals) <= target
            &&& exists|fill: Seq<u8>|
                is_fill(vals, occ(vals, 0), fill) && total(vals) + total(fill) <= target
            &&& exists|fill: Seq<u8>|
                is_fill(vals, occ(vals, 0), fill) && total(vals) + total(fill) >= target
        },
{
    let k = occ(vals, 0);
    lemma_distinct_iff(vals);
    lemma_low_seq(vals, k, 1);
    lemma_high_seq(vals, k, 9);
    lemma_unused_same_count(vals, 9);
    let lo = low_seq(vals, k, 1);
    let hi = high_seq(vals, k, 9);
    assert forall|i: int| 0 <= i < lo.len() implies 1 <= #[trigger] lo[i] <= 9 && forall|j: int|
        0 <= j < vals.len() ==> vals[j] != lo[i] by {
        lemma_occ_exists(vals, lo[i]);
    }
    assert forall|i: int| 0 <= i < hi.len() implies 1 <= #[trigger] hi[i] <= 9 && forall|j: int|
        0 <= j < vals.len() ==> vals[j] != hi[i] by {
        lemma_occ_exists(vals, hi[i]);
    }
    assert(is_fill(vals, k, lo));
    assert(is_fill(vals, k, hi));
    if house_feasible(vals, target) {
        assert(is_fill(vals, k, lo) && total(vals) + total(lo) <= target);
        assert(is_fill(vals, k, hi) && total(vals) + total(hi) >= target);
    }
    if exists|fill: Seq<u8>| is_fill(vals, k, fill) && total(vals) + total(fill) <= target {
        let fill = choose|fill: Seq<u8>| is_fill(vals, k, fill) && total(vals) + total(fill) <= target;
        lemma_fill_counts(vals, k, fill);
        lemma_low_fill_bound(vals, fill, 1);
    }
    if exists|fill: Seq<u8>| is_fill(vals, k, fill) && total(vals) + total(fill) >= target {
        let fill = choose|fill: Seq<u8>| is_fill(vals, k, fill) && total(vals) + total(fill) >= target;
        lemma_fill_counts(vals, k, fill);
        lemma_high_fill_bound(vals, fill, 9);
    }
}

/// A house with no empty cell passes the quick test exactly when no two
/// cells hold the same digit and the digits add up to the target.
pub proof fn lemma_full_feasible_iff(vals: Seq<u8>, target: u32)
    requires
        all_digits(vals),
        forall|i: int| 0 <= i < vals.len() ==> #[trigger] vals[i] != 0,
    ensures
        house_feasible(vals, target) <==> {
            &&& !exists|i: int, j: int| 0 <= i < j < vals.len() && vals[i] != 0 && vals[i] == vals[j]
            &&& total(vals) == target
        },
{
    lemma_distinct_iff(vals);
    lemma_occ_exists(vals, 0);
}

} // verus!
