//! The sequential search as a mathematical function: which cell it branches
//! on, in which order it tries the values, and so which completion it finds
//! first.
use vstd::prelude::*;

use crate::models::{Grid, SudokuMeta};
use crate::puzzle::{lemma_fill_one, lemma_with_value, num_empty, value_fits, with_value};

verus! {

/// The values `1..=n` that pass the quick test in the cell `(r, c)`, in
/// increasing order.
pub open spec fn candidates_upto(g: Grid, meta: SudokuMeta, r: usize, c: usize, n: int) -> Seq<u8>
    decreases n,
{
    if n <= 0 {
        Seq::empty()
    } else {
        let prev = candidates_upto(g, meta, r, c, n - 1);
        if value_fits(g, meta, r, c, n as u8) {
            prev.push(n as u8)
        } else {
            prev
        }
    }
}

/// The values `1..=9` that pass the quick test in the cell `(r, c)`, in
/// increasing order.
pub open spec fn candidates(g: Grid, meta: SudokuMeta, r: usize, c: usize) -> Seq<u8> {
    candidates_upto(g, meta, r, c, 9)
}

/// What the scan of the cells finds.
pub enum Branching {
    /// An empty cell without any candidate.
    Stuck,
    /// No empty cell at all.
    Full,
    /// The cell to branch on.
    Cell(usize, usize),
}

/// The scan of the cells in row order from position `k` on, where `best`
/// is the empty cell with the fewest candidates so far (`min` of them): it
/// stops at an empty cell without candidates, and once a cell with a single
/// candidate has been found.
pub open spec fn scan_from(
    g: Grid,
    meta: SudokuMeta,
    k: int,
    best: Option<(usize, usize)>,
    min: nat,
) -> Branching
    decreases 81 - k,
{
    if k < 0 || k >= 81 || min == 1 {
        match best {
            Some(p) => Branching::Cell(p.0, p.1),
            None => Branching::Full,
        }
    } else {
        let r = (k / 9) as usize;
        let c = (k % 9) as usize;
        if g[k / 9][k % 9] == 0 {
            let n = candidates(g, meta, r, c).len();
            if n == 0 {
                Branching::Stuck
            } else if n < min {
                scan_from(g, meta, k + 1, Some((r, c)), n)
            } else {
                scan_from(g, meta, k + 1, best, min)
            }
        } else {
            scan_from(g, meta, k + 1, best, min)
        }
    }
}

/// The completion that the sequential search finds: none where the scan is
/// stuck, the grid itself where it is full, and otherwise the first one
/// found by trying the candidates of the chosen cell in increasing order.
pub open spec fn first_completion(g: Grid, meta: SudokuMeta) -> Option<Grid>
    decreases num_empty(g), 1int, 0int,
{
    match scan_from(g, meta, 0, None, 10) {
        Branching::Stuck => None,
        Branching::Full => Some(g),
        Branching::Cell(r, c) => first_from(g, meta, r, c, candidates(g, meta, r, c), 0),
    }
}

/// The first completion found by placing `moves[i]`, `moves[i + 1]`, ... in
/// the empty cell `(r, c)` and searching on.
pub open spec fn first_from(
    g: Grid,
    meta: SudokuMeta,
    r: usize,
    c: usize,
    moves: Seq<u8>,
    i: int,
) -> Option<Grid>
    decreases num_empty(g), 0int, moves.len() - i,
{
    if i < 0 || i >= moves.len() || r >= 9 || c >= 9 || g[r as int][c as int] != 0 || moves[i]
        == 0 {
        None
    } else {
        proof {
            lemma_fill_one(g, r, c, moves[i]);
        }
        match first_completion(with_value(g, r, c, moves[i]), meta) {
            Some(s) => Some(s),
            None => first_from(g, meta, r, c, moves, i + 1),
        }
    }
}

/// The cell the scan branches on is an empty cell of the grid.
proof fn lemma_scan_cell(g: Grid, meta: SudokuMeta, k: int, best: Option<(usize, usize)>, min: nat)
    requires
        best matches Some(p) ==> p.0 < 9 && p.1 < 9 && g[p.0 as int][p.1 as int] == 0,
    ensures
        scan_from(g, meta, k, best, min) matches Branching::Cell(r, c) ==> r < 9 && c < 9
            && g[r as int][c as int] == 0,
    decreases 81 - k,
{
    if !(k < 0 || k >= 81 || min == 1) {
        let r = (k / 9) as usize;
        let c = (k % 9) as usize;
        assert(r < 9 && c < 9);
        lemma_scan_cell(g, meta, k + 1, best, min);
        if g[k / 9][k % 9] == 0 {
            lemma_scan_cell(g, meta, k + 1, Some((r, c)), candidates(g, meta, r, c).len());
        }
    }
}

/// The candidates of a cell: increasing, each passing the quick test, and
/// every value `1..=n` that passes it among them.
proof fn lemma_candidates(g: Grid, meta: SudokuMeta, r: usize, c: usize, n: int)
    requires
        0 <= n <= 9,
    ensures
        forall|i: int|
            0 <= i < candidates_upto(g, meta, r, c, n).len() ==> 1 <= #[trigger] candidates_upto(
                g,
                meta,
                r,
                c,
                n,
            )[i] <= n && value_fits(g, meta, r, c, candidates_upto(g, meta, r, c, n)[i]),
        forall|i: int, j: int|
            0 <= i < j < candidates_upto(g, meta, r, c, n).len() ==> candidates_upto(
                g,
                meta,
                r,
                c,
                n,
            )[i] < candidates_upto(g, meta, r, c, n)[j],
        forall|v: u8|
            1 <= v <= n && value_fits(g, meta, r, c, v) ==> candidates_upto(
                g,
                meta,
                r,
                c,
                n,
            ).contains(v),
    decreases n,
{
    if n > 0 {
        lemma_candidates(g, meta, r, c, n - 1);
        let prev = candidates_upto(g, meta, r, c, n - 1);
        let cur = candidates_upto(g, meta, r, c, n);
        assert forall|v: u8| 1 <= v <= n && value_fits(g, meta, r, c, v) implies cur.contains(v) by {
            if v < n {
                let i = choose|i: int| 0 <= i < prev.len() && prev[i] == v;
                assert(cur[i] == v);
            } else {
                assert(cur[cur.len() - 1] == v);
            }
        }
    }
}

/// A completion found by `first_from` comes from one of the moves, and every
/// earlier move finds none; where it finds none, no move does.
proof fn lemma_first_from(g: Grid, meta: SudokuMeta, r: usize, c: usize, moves: Seq<u8>, i: int)
    requires
        r < 9,
        c < 9,
        g[r as int][c as int] == 0,
        0 <= i,
        forall|j: int| 0 <= j < moves.len() ==> #[trigger] moves[j] >= 1,
    ensures
        first_from(g, meta, r, c, moves, i) matches Some(s) ==> exists|j: int|
            i <= j < moves.len() && first_completion(with_value(g, r, c, moves[j]), meta) == Some(s)
                && forall|j2: int|
                i <= j2 < j ==> (#[trigger] first_completion(with_value(g, r, c, moves[j2]), meta)) is None,
        first_from(g, meta, r, c, moves, i) is None ==> forall|j: int|
            i <= j < moves.len() ==> (#[trigger] first_completion(with_value(g, r, c, moves[j]), meta)) is None,
    decreases moves.len() - i,
{
    if i < moves.len() {
        lemma_first_from(g, meta, r, c, moves, i + 1);
        assert(moves[i] >= 1);
    }
}

/// What the sequential search finds keeps the digits of the grid.
pub proof fn lemma_first_completion_extends(g: Grid, meta: SudokuMeta)
    ensures
        first_completion(g, meta) matches Some(s) ==> forall|r: int, c: int|
            0 <= r < 9 && 0 <= c < 9 && g[r][c] != 0 ==> #[trigger] s[r][c] == g[r][c],
    decreases num_empty(g),
{
    lemma_scan_cell(g, meta, 0, None, 10);
    match scan_from(g, meta, 0, None, 10) {
        Branching::Cell(r, c) => {
            let moves = candidates(g, meta, r, c);
            lemma_candidates(g, meta, r, c, 9);
            lemma_first_from(g, meta, r, c, moves, 0);
            if first_completion(g, meta) is Some {
                let s = first_completion(g, meta)->0;
                let j = choose|j: int|
                    0 <= j < moves.len() && first_completion(with_value(g, r, c, moves[j]), meta)
                        == Some(s) && forall|j2: int|
                        0 <= j2 < j ==> (#[trigger] first_completion(
                            with_value(g, r, c, moves[j2]),
                            meta,
                        )) is None;
                let g2 = with_value(g, r, c, moves[j]);
                lemma_fill_one(g, r, c, moves[j]);
                lemma_first_completion_extends(g2, meta);
                lemma_with_value(g, r, c, moves[j]);
                assert forall|i: int, k: int| 0 <= i < 9 && 0 <= k < 9 && g[i][k] != 0 implies #[trigger] s[i][k]
                    == g[i][k] by {
                    assert(g2[i][k] == g[i][k]);
                }
            }
        },
        _ => {},
    }
}

/// The sequential search tries the candidates of the cell it branches on in
/// increasing order and keeps the first that leads to a completion: the
/// completion it finds holds in that cell a candidate whose own search finds
/// that completion, and no smaller candidate leads to any; where it finds
/// none, no candidate leads to one.
pub proof fn lemma_first_completion_order(g: Grid, meta: SudokuMeta, r: usize, c: usize)
    requires
        scan_from(g, meta, 0, None, 10) == Branching::Cell(r, c),
    ensures
        r < 9 && c < 9 && g[r as int][c as int] == 0,
        first_completion(g, meta) matches Some(s) ==> {
            &&& 1 <= s[r as int][c as int] <= 9
            &&& value_fits(g, meta, r, c, s[r as int][c as int])
            &&& first_completion(with_value(g, r, c, s[r as int][c as int]), meta) == Some(s)
            &&& forall|v: u8|
                1 <= v < s[r as int][c as int] && value_fits(g, meta, r, c, v) ==> (
                #[trigger] first_completion(with_value(g, r, c, v), meta)) is None
        },
        first_completion(g, meta) is None ==> forall|v: u8|
            1 <= v <= 9 && value_fits(g, meta, r, c, v) ==> (#[trigger] first_completion(
                with_value(g, r, c, v),
                meta,
            )) is None,
{
    lemma_scan_cell(g, meta, 0, None, 10);
    let moves = candidates(g, meta, r, c);
    lemma_candidates(g, meta, r, c, 9);
    lemma_first_from(g, meta, r, c, moves, 0);
    if first_completion(g, meta) is Some {
        let s = first_completion(g, meta)->0;
        let j = choose|j: int|
            0 <= j < moves.len() && first_completion(with_value(g, r, c, moves[j]), meta) == Some(s)
                && forall|j2: int|
                0 <= j2 < j ==> (#[trigger] first_completion(with_value(g, r, c, moves[j2]), meta)) is None;
        let g2 = with_value(g, r, c, moves[j]);
        lemma_first_completion_extends(g2, meta);
        lemma_with_value(g, r, c, moves[j]);
        assert(g2[r as int][c as int] == moves[j]);
        assert(s[r as int][c as int] == moves[j]);
        assert forall|v: u8|
            1 <= v < s[r as int][c as int] && value_fits(g, meta, r, c, v) implies (
            #[trigger] first_completion(with_value(g, r, c, v), meta)) is None by {
            assert(moves.contains(v));
            let j2 = choose|j2: int| 0 <= j2 < moves.len() && moves[j2] == v;
            if j2 >= j {
                if j2 > j {
                    assert(moves[j] < moves[j2]);
                }
            }
        }
    } else {
        assert forall|v: u8| 1 <= v <= 9 && value_fits(g, meta, r, c, v) implies (
            #[trigger] first_completion(with_value(g, r, c, v), meta)) is None by {
            assert(moves.contains(v));
            let j2 = choose|j2: int| 0 <= j2 < moves.len() && moves[j2] == v;
        }
    }
}

} // verus!
