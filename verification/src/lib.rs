pub mod inferences;
pub mod types;
pub mod utils;

use vstd::prelude::*;
use rand::seq::SliceRandom;
use rand::Rng;
use std::collections::HashSet;
use crate::types::{idx, lemma_idx_parts};

verus! {

// ---------------------------------------------------------------------------
// Flat boards: 81 digits in row-major order, `0` for an open cell
// ---------------------------------------------------------------------------

/// Whether digit `n` stands in row `i` of board `p`.
pub open spec fn in_row(p: Seq<u8>, i: int, n: u8) -> bool {
    exists|y: int| 0 <= y < 9 && #[trigger] p[idx(i, y)] == n
}

/// Whether digit `n` stands in column `j` of board `p`.
pub open spec fn in_col(p: Seq<u8>, j: int, n: u8) -> bool {
    exists|x: int| 0 <= x < 9 && #[trigger] p[idx(x, j)] == n
}

/// Index of the cell at offset `(x, y)` within the 3x3 box that holds `(i, j)`.
pub open spec fn box_cell(i: int, j: int, x: int, y: int) -> int {
    idx(i / 3 * 3 + x, j / 3 * 3 + y)
}

/// Whether digit `n` stands in the box that holds `(i, j)`.
pub open spec fn in_box(p: Seq<u8>, i: int, j: int, n: u8) -> bool {
    exists|x: int, y: int| 0 <= x < 3 && 0 <= y < 3 && #[trigger] p[box_cell(i, j, x, y)] == n
}

/// Whether the nonzero digit `n` is already used by a peer of cell `(i, j)`.
pub open spec fn used(p: Seq<u8>, i: int, j: int, n: u8) -> bool {
    n != 0 && (in_row(p, i, n) || in_col(p, j, n) || in_box(p, i, j, n))
}

/// The digits `1..=n` that no peer of `(i, j)` uses, in ascending order.
pub open spec fn cands_upto(p: Seq<u8>, i: int, j: int, n: int) -> Seq<u8>
    decreases n,
{
    if n <= 0 {
        Seq::empty()
    } else {
        let prev = cands_upto(p, i, j, n - 1);
        if used(p, i, j, n as u8) {
            prev
        } else {
            prev.push(n as u8)
        }
    }
}

/// The digits that cell `(i, j)` can still take, in ascending order.
pub open spec fn candidates(p: Seq<u8>, i: int, j: int) -> Seq<u8> {
    cands_upto(p, i, j, 9)
}

/// Every digit listed by `cands_upto(.., n)` lies in `1..=n`.
pub proof fn lemma_cands_range(p: Seq<u8>, i: int, j: int, n: int)
    requires
        0 <= n <= 9,
    ensures
        forall|t: int|
            0 <= t < cands_upto(p, i, j, n).len() ==> 1 <= #[trigger] cands_upto(p, i, j, n)[t] <= n,
    decreases n,
{
    if n > 0 {
        lemma_cands_range(p, i, j, n - 1);
        let prev = cands_upto(p, i, j, n - 1);
        assert forall|t: int| 0 <= t < cands_upto(p, i, j, n).len() implies 1 <= #[trigger] cands_upto(p, i, j, n)[t] <= n by {
            if t < prev.len() {
                assert(cands_upto(p, i, j, n)[t] == prev[t]);
            }
        }
    }
}

/// The index of the first open cell at or after `k`, or 81 when there is none.
pub open spec fn first_zero_from(p: Seq<u8>, k: int) -> int
    decreases 81 - k,
{
    if k >= 81 {
        81
    } else if p[k] == 0 {
        k
    } else {
        first_zero_from(p, k + 1)
    }
}

/// The index of the first open cell, or 81 when the board is full.
pub open spec fn first_zero(p: Seq<u8>) -> int {
    first_zero_from(p, 0)
}

/// `first_zero_from(p, k)` is the first index from `k` on that holds `0`.
pub proof fn lemma_first_zero_from(p: Seq<u8>, k: int)
    requires
        0 <= k <= 81,
    ensures
        k <= first_zero_from(p, k) <= 81,
        first_zero_from(p, k) < 81 ==> p[first_zero_from(p, k)] == 0,
        forall|j: int| k <= j < first_zero_from(p, k) ==> p[j] != 0,
    decreases 81 - k,
{
    if k < 81 && p[k] != 0 {
        lemma_first_zero_from(p, k + 1);
    }
}

/// A `0` at `e` with no `0` before it is the first open cell.
pub proof fn lemma_first_zero_is(p: Seq<u8>, e: int)
    requires
        0 <= e < 81,
        p[e] == 0,
        forall|j: int| 0 <= j < e ==> p[j] != 0,
    ensures
        first_zero(p) == e,
{
    lemma_first_zero_from(p, 0);
}

/// A board with no `0` among its 81 cells has no open cell.
pub proof fn lemma_first_zero_none(p: Seq<u8>)
    requires
        forall|j: int| 0 <= j < 81 ==> p[j] != 0,
    ensures
        first_zero(p) == 81,
{
    lemma_first_zero_from(p, 0);
}

/// Filling the first open cell with a nonzero digit moves the first open cell forward.
pub proof fn lemma_first_zero_fill(p: Seq<u8>, c: u8)
    requires
        p.len() == 81,
        first_zero(p) < 81,
        c != 0,
    ensures
        0 <= first_zero(p) < first_zero(p.update(first_zero(p), c)) <= 81,
{
    let e = first_zero(p);
    let q = p.update(e, c);
    lemma_first_zero_from(p, 0);
    lemma_first_zero_from(q, 0);
    let r = first_zero(q);
    if r <= e {
        assert(q[r] != 0);
    }
}

/// The uniqueness test of the generator. A full board passes. Otherwise, at the first open
/// cell, exactly one of its candidate digits must lead to a board that passes in turn.
pub open spec fn unique(p: Seq<u8>) -> bool
    decreases 81 - first_zero(p),
{
    let e = first_zero(p);
    if e >= 81 || p.len() != 81 {
        e >= 81
    } else {
        proof {
            lemma_first_zero_fill(p, 1);
            lemma_first_zero_fill(p, 2);
            lemma_first_zero_fill(p, 3);
            lemma_first_zero_fill(p, 4);
            lemma_first_zero_fill(p, 5);
            lemma_first_zero_fill(p, 6);
            lemma_first_zero_fill(p, 7);
            lemma_first_zero_fill(p, 8);
            lemma_first_zero_fill(p, 9);
        }
        (if used(p, e / 9, e % 9, 1) || !unique(p.update(e, 1)) { 0int } else { 1int })
            + (if used(p, e / 9, e % 9, 2) || !unique(p.update(e, 2)) { 0int } else { 1int })
            + (if used(p, e / 9, e % 9, 3) || !unique(p.update(e, 3)) { 0int } else { 1int })
            + (if used(p, e / 9, e % 9, 4) || !unique(p.update(e, 4)) { 0int } else { 1int })
            + (if used(p, e / 9, e % 9, 5) || !unique(p.update(e, 5)) { 0int } else { 1int })
            + (if used(p, e / 9, e % 9, 6) || !unique(p.update(e, 6)) { 0int } else { 1int })
            + (if used(p, e / 9, e % 9, 7) || !unique(p.update(e, 7)) { 0int } else { 1int })
            + (if used(p, e / 9, e % 9, 8) || !unique(p.update(e, 8)) { 0int } else { 1int })
            + (if used(p, e / 9, e % 9, 9) || !unique(p.update(e, 9)) { 0int } else { 1int }) == 1
    }
}

/// How many of the digits `1..=n` are candidates at `e` whose filled board passes `unique`.
pub open spec fn child_counts(p: Seq<u8>, e: int, n: int) -> int
    decreases n,
{
    if n <= 0 {
        0
    } else {
        child_counts(p, e, n - 1) + if !used(p, e / 9, e % 9, n as u8) && unique(p.update(e, n as u8)) {
            1int
        } else {
            0int
        }
    }
}

/// How many digits of `s`, filled in at `e`, give a board that passes `unique`.
pub open spec fn count_of(p: Seq<u8>, e: int, s: Seq<u8>) -> int
    decreases s.len(),
{
    if s.len() == 0 {
        0
    } else {
        count_of(p, e, s.drop_last()) + if unique(p.update(e, s.last())) {
            1int
        } else {
            0int
        }
    }
}

/// `unique` on a board with an open cell, in terms of `child_counts`.
pub proof fn lemma_unique_unfold(p: Seq<u8>)
    requires
        p.len() == 81,
        first_zero(p) < 81,
    ensures
        unique(p) == (child_counts(p, first_zero(p), 9) == 1),
{
    reveal_with_fuel(child_counts, 10);
}

/// Counting over the candidate list agrees with counting over the digits.
pub proof fn lemma_count_cands(p: Seq<u8>, e: int, n: int)
    requires
        0 <= n <= 9,
    ensures
        count_of(p, e, cands_upto(p, e / 9, e % 9, n)) == child_counts(p, e, n),
    decreases n,
{
    if n > 0 {
        lemma_count_cands(p, e, n - 1);
        let prev = cands_upto(p, e / 9, e % 9, n - 1);
        if !used(p, e / 9, e % 9, n as u8) {
            assert(prev.push(n as u8).drop_last() =~= prev);
        }
    }
}

/// A prefix of a list counts no more than the whole list.
pub proof fn lemma_count_prefix(p: Seq<u8>, e: int, s: Seq<u8>, t: int)
    requires
        0 <= t <= s.len(),
    ensures
        count_of(p, e, s.subrange(0, t)) <= count_of(p, e, s),
    decreases s.len(),
{
    if t == s.len() {
        assert(s.subrange(0, t) =~= s);
    } else {
        assert(s.drop_last().subrange(0, t) =~= s.subrange(0, t));
        lemma_count_prefix(p, e, s.drop_last(), t);
    }
}

/// The digits that cell `(i, j)` can still take: those of `1..=9` not used in its row,
/// column or box, in ascending order.
pub fn get_candidates(puzzle: &Vec<u8>, i: usize, j: usize) -> (ret: Vec<u8>)
    requires
        puzzle@.len() == 81,
        i < 9,
        j < 9,
    ensures
        ret@ == candidates(puzzle@, i as int, j as int),
{
    broadcast use vstd::std_specs::hash::group_hash_axioms;

    let ghost p = puzzle@;
    let mut used_digits: HashSet<u8> = HashSet::new();
    let mut y: usize = 0;
    while y < 9
        invariant
            p == puzzle@,
            p.len() == 81,
            i < 9,
            y <= 9,
            forall|n: u8|
                used_digits@.contains(n) <==> n != 0 && exists|y2: int| 0 <= y2 < y && #[trigger] p[idx(i as int, y2)] == n,
        decreases 9 - y,
    {
        let num = puzzle[i * 9 + y];
        if num != 0 {
            used_digits.insert(num);
        }
        proof {
            assert forall|n: u8|
                used_digits@.contains(n) <==> n != 0 && exists|y2: int|
                    0 <= y2 < y + 1 && #[trigger] p[idx(i as int, y2)] == n by {
                if n != 0 && n == num {
                    assert(p[idx(i as int, y as int)] == n);
                }
            }
        }
        y = y + 1;
    }
    let mut x: usize = 0;
    while x < 9
        invariant
            p == puzzle@,
            p.len() == 81,
            i < 9,
            j < 9,
            x <= 9,
            forall|n: u8|
                used_digits@.contains(n) <==> n != 0 && (in_row(p, i as int, n) || exists|x2: int|
                    0 <= x2 < x && #[trigger] p[idx(x2, j as int)] == n),
        decreases 9 - x,
    {
        let num = puzzle[x * 9 + j];
        if num != 0 {
            used_digits.insert(num);
        }
        proof {
            assert forall|n: u8|
                used_digits@.contains(n) <==> n != 0 && (in_row(p, i as int, n) || exists|x2: int|
                    0 <= x2 < x + 1 && #[trigger] p[idx(x2, j as int)] == n) by {
                if n != 0 && n == num {
                    assert(p[idx(x as int, j as int)] == n);
                }
            }
        }
        x = x + 1;
    }
    let start_i = (i / 3) * 3;
    let start_j = (j / 3) * 3;
    let mut x: usize = 0;
    while x < 3
        invariant
            p == puzzle@,
            p.len() == 81,
            i < 9,
            j < 9,
            start_i == i / 3 * 3,
            start_j == j / 3 * 3,
            x <= 3,
            forall|n: u8|
                used_digits@.contains(n) <==> n != 0 && (in_row(p, i as int, n) || in_col(p, j as int, n) || exists|
                    x2: int,
                    y2: int,
                | 0 <= x2 < x && 0 <= y2 < 3 && #[trigger] p[box_cell(i as int, j as int, x2, y2)] == n),
        decreases 3 - x,
    {
        let mut y: usize = 0;
        while y < 3
            invariant
                p == puzzle@,
                p.len() == 81,
                i < 9,
                j < 9,
                start_i == i / 3 * 3,
                start_j == j / 3 * 3,
                x < 3,
                y <= 3,
                forall|n: u8|
                    used_digits@.contains(n) <==> n != 0 && (in_row(p, i as int, n) || in_col(p, j as int, n) || exists|
                        x2: int,
                        y2: int,
                    |
                        0 <= x2 < 3 && 0 <= y2 < 3 && (x2 < x || (x2 == x && y2 < y)) && #[trigger] p[box_cell(
                            i as int,
                            j as int,
                            x2,
                            y2,
                        )] == n),
            decreases 3 - y,
        {
            let num = puzzle[(start_i + x) * 9 + start_j + y];
            proof {
                assert(box_cell(i as int, j as int, x as int, y as int) == (start_i + x) * 9 + start_j + y);
            }
            if num != 0 {
                used_digits.insert(num);
            }
            proof {
                assert forall|n: u8|
                    used_digits@.contains(n) <==> n != 0 && (in_row(p, i as int, n) || in_col(p, j as int, n) || exists|
                        x2: int,
                        y2: int,
                    |
                        0 <= x2 < 3 && 0 <= y2 < 3 && (x2 < x || (x2 == x && y2 < y + 1)) && #[trigger] p[box_cell(
                            i as int,
                            j as int,
                            x2,
                            y2,
                        )] == n) by {
                    if n != 0 && n == num {
                        assert(p[box_cell(i as int, j as int, x as int, y as int)] == n);
                    }
                }
            }
            y = y + 1;
        }
        x = x + 1;
    }
    assert(forall|n: u8| #[trigger] used_digits@.contains(n) <==> used(p, i as int, j as int, n));
    let mut ret: Vec<u8> = Vec::new();
    let mut n: u8 = 1;
    while n <= 9
        invariant
            p == puzzle@,
            1 <= n <= 10,
            ret@ == cands_upto(p, i as int, j as int, n - 1),
            forall|m: u8| #[trigger] used_digits@.contains(m) <==> used(p, i as int, j as int, m),
        decreases 10 - n,
    {
        if !used_digits.contains(&n) {
            ret.push(n);
        }
        n = n + 1;
    }
    ret
}


/// Whether the board passes the uniqueness test: full, or exactly one candidate digit of
/// its first open cell leads to a board that passes.
pub fn check_uniqueness(puzzle: &Vec<u8>) -> (ret: bool)
    requires
        puzzle@.len() == 81,
    ensures
        ret == unique(puzzle@),
    decreases 81 - first_zero(puzzle@),
{
    let ghost p = puzzle@;
    let mut count: usize = 0;
    let mut empty: Vec<(usize, usize)> = Vec::new();
    let mut i: usize = 0;
    while i < 9
        invariant
            p == puzzle@,
            p.len() == 81,
            i <= 9,
            empty@.len() == 0 ==> forall|k: int| 0 <= k < i * 9 ==> p[k] != 0,
            empty@.len() > 0 ==> {
                &&& empty@[0].0 < 9
                &&& empty@[0].1 < 9
                &&& p[idx(empty@[0].0 as int, empty@[0].1 as int)] == 0
                &&& forall|k: int| 0 <= k < idx(empty@[0].0 as int, empty@[0].1 as int) ==> p[k] != 0
            },
        decreases 9 - i,
    {
        let mut j: usize = 0;
        while j < 9
            invariant
                p == puzzle@,
                p.len() == 81,
                i < 9,
                j <= 9,
                empty@.len() == 0 ==> forall|k: int| 0 <= k < i * 9 + j ==> p[k] != 0,
                empty@.len() > 0 ==> {
                    &&& empty@[0].0 < 9
                    &&& empty@[0].1 < 9
                    &&& p[idx(empty@[0].0 as int, empty@[0].1 as int)] == 0
                    &&& forall|k: int| 0 <= k < idx(empty@[0].0 as int, empty@[0].1 as int) ==> p[k] != 0
                },
            decreases 9 - j,
        {
            if puzzle[i * 9 + j] == 0 {
                empty.push((i, j));
            }
            j = j + 1;
        }
        i = i + 1;
    }
    if empty.len() == 0 {
        proof {
            lemma_first_zero_none(p);
        }
        return true;
    }
    let (i, j) = empty[0];
    let ghost e = idx(i as int, j as int);
    proof {
        lemma_first_zero_is(p, e);
        lemma_idx_parts(i as int, j as int);
    }
    let cands = get_candidates(puzzle, i, j);
    proof {
        lemma_cands_range(p, i as int, j as int, 9);
    }
    let mut t: usize = 0;
    while t < cands.len()
        invariant
            p == puzzle@,
            p.len() == 81,
            i < 9,
            j < 9,
            e == idx(i as int, j as int),
            e / 9 == i,
            e % 9 == j,
            first_zero(p) == e,
            cands@ == candidates(p, i as int, j as int),
            forall|t2: int| 0 <= t2 < cands@.len() ==> 1 <= #[trigger] cands@[t2] <= 9,
            t <= cands@.len(),
            count == count_of(p, e, cands@.subrange(0, t as int)),
            count <= 1,
        decreases cands@.len() - t,
    {
        let num = cands[t];
        let mut new_puzzle = puzzle.clone();
        proof {
            assert(new_puzzle@ =~= p);
        }
        new_puzzle.set(i * 9 + j, num);
        proof {
            assert(new_puzzle@ == p.update(e, num));
            lemma_first_zero_fill(p, num);
            assert(cands@.subrange(0, t + 1).drop_last() =~= cands@.subrange(0, t as int));
        }
        let sub = check_uniqueness(&new_puzzle);
        if sub {
            count = count + 1;
            if count > 1 {
                proof {
                    lemma_count_prefix(p, e, cands@, t + 1);
                    lemma_count_cands(p, e, 9);
                    lemma_unique_unfold(p);
                }
                return false;
            }
        }
        t = t + 1;
    }
    proof {
        assert(cands@.subrange(0, cands@.len() as int) =~= cands@);
        lemma_count_cands(p, e, 9);
        lemma_unique_unfold(p);
    }
    count == 1
}


// ---------------------------------------------------------------------------
// Randomness
// ---------------------------------------------------------------------------

/// The random number generator of the current thread, `rand::rngs::ThreadRng`; nothing
/// inside it is visible to proofs.
#[verifier::external_type_specification]
#[verifier::external_body]
pub struct ExThreadRng(rand::rngs::ThreadRng);

/// Calls `rand::thread_rng`, which hands out the current thread's generator. Nothing is
/// claimed of it.
#[verifier::external_body]
fn new_thread_rng() -> (rng: rand::rngs::ThreadRng) {
    rand::thread_rng()
}

/// Calls `SliceRandom::shuffle` on the vector. The shuffle only swaps items, so the vector
/// holds the same items, each as often as before; their order is left to chance.
#[verifier::external_body]
fn shuffle_vec<T>(v: &mut Vec<T>, rng: &mut rand::rngs::ThreadRng)
    ensures
        final(v)@.to_multiset() == old(v)@.to_multiset(),
{
    v.shuffle(rng);
}

/// Calls `Rng::gen_range` on `lo..hi`, which draws a number from that range; the range must
/// not be empty, as the call panics on an empty one. Which number comes is left to chance.
#[verifier::external_body]
fn gen_index(rng: &mut rand::rngs::ThreadRng, lo: usize, hi: usize) -> (r: usize)
    requires
        lo < hi,
    ensures
        lo <= r < hi,
{
    rng.gen_range(lo..hi)
}

// ---------------------------------------------------------------------------
// Digging holes
// ---------------------------------------------------------------------------

/// The board index of a `(row, column)` position.
pub open spec fn pos_index(pos: (usize, usize)) -> int {
    idx(pos.0 as int, pos.1 as int)
}

/// Whether every position names a cell of the board.
pub open spec fn positions_ok(order: Seq<(usize, usize)>) -> bool {
    forall|t: int| 0 <= t < order.len() ==> (#[trigger] order[t]).0 < 9 && order[t].1 < 9
}

/// One digging step: open the cell at `pos`, unless the board then fails the uniqueness
/// test, in which case the board stays as it was.
pub open spec fn dig_step(p: Seq<u8>, pos: (usize, usize)) -> Seq<u8> {
    let q = p.update(pos_index(pos), 0);
    if unique(q) {
        q
    } else {
        p
    }
}

/// The board after digging at each position of `order`, in turn.
pub open spec fn dig_all(p: Seq<u8>, order: Seq<(usize, usize)>) -> Seq<u8>
    decreases order.len(),
{
    if order.len() == 0 {
        p
    } else {
        dig_step(dig_all(p, order.drop_last()), order.last())
    }
}

/// Whether every digit of `puzzle` that is not `0` equals the digit of `solution` there.
pub open spec fn agrees(puzzle: Seq<u8>, solution: Seq<u8>) -> bool {
    &&& puzzle.len() == 81
    &&& solution.len() == 81
    &&& forall|k: int| 0 <= k < 81 ==> #[trigger] puzzle[k] == 0 || puzzle[k] == solution[k]
}

/// Digging keeps a board that passes the uniqueness test passing it.
pub proof fn lemma_dig_all_unique(p: Seq<u8>, order: Seq<(usize, usize)>)
    requires
        p.len() == 81,
        unique(p),
        positions_ok(order),
    ensures
        unique(dig_all(p, order)),
        dig_all(p, order).len() == 81,
    decreases order.len(),
{
    if order.len() > 0 {
        lemma_dig_all_unique(p, order.drop_last());
        let prev = dig_all(p, order.drop_last());
        let q = prev.update(pos_index(order.last()), 0);
        assert(order[order.len() - 1].0 < 9);
        assert(dig_all(p, order) == dig_step(prev, order.last()));
    }
}

/// Digging only opens cells: every cell keeps its digit or becomes `0`.
pub proof fn lemma_dig_all_opens(p: Seq<u8>, order: Seq<(usize, usize)>)
    requires
        p.len() == 81,
        positions_ok(order),
    ensures
        dig_all(p, order).len() == 81,
        forall|k: int| 0 <= k < 81 ==> #[trigger] dig_all(p, order)[k] == 0 || dig_all(p, order)[k] == p[k],
    decreases order.len(),
{
    if order.len() > 0 {
        lemma_dig_all_opens(p, order.drop_last());
        let prev = dig_all(p, order.drop_last());
        assert(order[order.len() - 1].0 < 9);
        assert(dig_all(p, order) == dig_step(prev, order.last()));
        assert forall|k: int| 0 <= k < 81 implies #[trigger] dig_all(p, order)[k] == 0 || dig_all(p, order)[k] == p[k] by {
            assert(prev[k] == 0 || prev[k] == p[k]);
        }
    }
}

/// Digs at each position of `order`, in turn: a cell is opened and stays open only if the
/// board still passes the uniqueness test.
pub fn dig_in_order(puzzle: &mut Vec<u8>, order: &Vec<(usize, usize)>)
    requires
        old(puzzle)@.len() == 81,
        positions_ok(order@),
    ensures
        final(puzzle)@ == dig_all(old(puzzle)@, order@),
{
    let ghost start = puzzle@;
    let mut t: usize = 0;
    while t < order.len()
        invariant
            positions_ok(order@),
            t <= order@.len(),
            puzzle@.len() == 81,
            puzzle@ == dig_all(start, order@.subrange(0, t as int)),
        decreases order@.len() - t,
    {
        let (i, j) = order[t];
        proof {
            assert(order@[t as int].0 < 9 && order@[t as int].1 < 9);
            assert(order@.subrange(0, t + 1).drop_last() =~= order@.subrange(0, t as int));
        }
        let ghost cur = puzzle@;
        let digit = puzzle[i * 9 + j];
        puzzle.set(i * 9 + j, 0);
        if !check_uniqueness(puzzle) {
            puzzle.set(i * 9 + j, digit);
            proof {
                assert(puzzle@ =~= cur);
            }
        }
        t = t + 1;
    }
    proof {
        assert(order@.subrange(0, order@.len() as int) =~= order@);
    }
}

/// All 81 positions in row-major order.
pub open spec fn all_positions() -> Seq<(usize, usize)> {
    Seq::new(81, |k: int| ((k / 9) as usize, (k % 9) as usize))
}

/// The positions below index `k` that hold a digit, in row-major order.
pub open spec fn filled_upto(p: Seq<u8>, k: int) -> Seq<(usize, usize)>
    decreases k,
{
    if k <= 0 {
        Seq::empty()
    } else {
        let prev = filled_upto(p, k - 1);
        if p[k - 1] != 0 {
            prev.push((((k - 1) / 9) as usize, ((k - 1) % 9) as usize))
        } else {
            prev
        }
    }
}

/// The positions of the board that hold a digit, in row-major order.
pub open spec fn filled_positions(p: Seq<u8>) -> Seq<(usize, usize)> {
    filled_upto(p, 81)
}

/// Positions listed by `filled_upto` name cells of the board.
pub proof fn lemma_filled_upto_ok(p: Seq<u8>, k: int)
    requires
        0 <= k <= 81,
    ensures
        positions_ok(filled_upto(p, k)),
    decreases k,
{
    if k > 0 {
        lemma_filled_upto_ok(p, k - 1);
        let prev = filled_upto(p, k - 1);
        assert forall|t: int| 0 <= t < filled_upto(p, k).len() implies (#[trigger] filled_upto(p, k)[t]).0 < 9
            && filled_upto(p, k)[t].1 < 9 by {
            if t < prev.len() {
                assert(filled_upto(p, k)[t] == prev[t]);
            }
        }
    }
}

/// A reordering of positions that name cells of the board names cells of the board too.
pub proof fn lemma_reordered_ok(a: Seq<(usize, usize)>, b: Seq<(usize, usize)>)
    requires
        a.to_multiset() == b.to_multiset(),
        positions_ok(a),
    ensures
        positions_ok(b),
{
    broadcast use vstd::seq_lib::group_to_multiset_ensures;

    assert forall|t: int| 0 <= t < b.len() implies (#[trigger] b[t]).0 < 9 && b[t].1 < 9 by {
        assert(b.contains(b[t]));
        assert(b.to_multiset().count(b[t]) > 0);
        assert(a.to_multiset().count(b[t]) > 0);
        assert(a.contains(b[t]));
        let w = choose|w: int| 0 <= w < a.len() && a[w] == b[t];
        assert(a[w].0 < 9);
    }
}

/// The 81 positions of the board, in row-major order.
fn all_positions_vec() -> (ret: Vec<(usize, usize)>)
    ensures
        ret@ == all_positions(),
{
    let mut positions: Vec<(usize, usize)> = Vec::new();
    let mut i: usize = 0;
    while i < 9
        invariant
            i <= 9,
            positions@.len() == i * 9,
            forall|k: int| 0 <= k < i * 9 ==> #[trigger] positions@[k] == ((k / 9) as usize, (k % 9) as usize),
        decreases 9 - i,
    {
        let mut j: usize = 0;
        while j < 9
            invariant
                i < 9,
                j <= 9,
                positions@.len() == i * 9 + j,
                forall|k: int| 0 <= k < i * 9 + j ==> #[trigger] positions@[k] == ((k / 9) as usize, (k % 9) as usize),
            decreases 9 - j,
        {
            proof {
                lemma_idx_parts(i as int, j as int);
            }
            positions.push((i, j));
            j = j + 1;
        }
        i = i + 1;
    }
    proof {
        assert(positions@ =~= all_positions());
    }
    positions
}

/// The positions of the board that hold a digit, in row-major order.
fn filled_positions_vec(puzzle: &Vec<u8>) -> (ret: Vec<(usize, usize)>)
    requires
        puzzle@.len() == 81,
    ensures
        ret@ == filled_positions(puzzle@),
{
    let mut cells: Vec<(usize, usize)> = Vec::new();
    let mut i: usize = 0;
    while i < 9
        invariant
            puzzle@.len() == 81,
            i <= 9,
            cells@ == filled_upto(puzzle@, i * 9),
        decreases 9 - i,
    {
        let mut j: usize = 0;
        while j < 9
            invariant
                puzzle@.len() == 81,
                i < 9,
                j <= 9,
                cells@ == filled_upto(puzzle@, i * 9 + j),
            decreases 9 - j,
        {
            proof {
                lemma_idx_parts(i as int, j as int);
            }
            if puzzle[i * 9 + j] != 0 {
                cells.push((i, j));
            }
            j = j + 1;
        }
        i = i + 1;
    }
    cells
}

/// First digging phase: tries every position once, in an order left to chance.
fn phase1_dig(puzzle: &mut Vec<u8>)
    requires
        old(puzzle)@.len() == 81,
    ensures
        exists|order: Seq<(usize, usize)>|
            order.to_multiset() == all_positions().to_multiset() && final(puzzle)@ == dig_all(old(puzzle)@, order),
{
    let mut positions = all_positions_vec();
    let mut rng = new_thread_rng();
    shuffle_vec(&mut positions, &mut rng);
    proof {
        assert(positions_ok(all_positions()));
        lemma_reordered_ok(all_positions(), positions@);
    }
    dig_in_order(puzzle, &positions);
}

/// The number of positions that the second phase tries: `max_digs`, or all of `n`
/// positions when there are fewer.
pub open spec fn dig_count(max_digs: int, n: int) -> int {
    if max_digs < n {
        max_digs
    } else {
        n
    }
}

/// Second digging phase: tries up to `max_digs` of the filled positions, chosen and
/// ordered by chance.
pub fn phase2_dig(puzzle: &mut Vec<u8>, solution: &Vec<u8>, max_digs: usize)
    requires
        old(puzzle)@.len() == 81,
    ensures
        exists|order: Seq<(usize, usize)>|
            order.to_multiset() == filled_positions(old(puzzle)@).to_multiset() && final(puzzle)@ == dig_all(
                old(puzzle)@,
                order.take(dig_count(max_digs as int, order.len() as int)),
            ),
{
    let mut empty_cells = filled_positions_vec(puzzle);
    let mut rng = new_thread_rng();
    shuffle_vec(&mut empty_cells, &mut rng);
    proof {
        lemma_filled_upto_ok(puzzle@, 81);
        lemma_reordered_ok(filled_positions(puzzle@), empty_cells@);
    }
    let mut chosen: Vec<(usize, usize)> = Vec::new();
    let mut t: usize = 0;
    while t < empty_cells.len() && t < max_digs
        invariant
            t <= empty_cells@.len(),
            t <= max_digs,
            positions_ok(empty_cells@),
            chosen@ == empty_cells@.take(t as int),
        decreases empty_cells@.len() - t,
    {
        chosen.push(empty_cells[t]);
        proof {
            assert(chosen@ =~= empty_cells@.take(t + 1));
        }
        t = t + 1;
    }
    proof {
        assert(t == dig_count(max_digs as int, empty_cells@.len() as int));
        assert forall|u: int| 0 <= u < chosen@.len() implies (#[trigger] chosen@[u]).0 < 9 && chosen@[u].1 < 9 by {
            assert(chosen@[u] == empty_cells@[u]);
        }
    }
    dig_in_order(puzzle, &chosen);
}

/// Whether the two strings hold the same characters.
fn same_text(s: &str, w: &str) -> (ret: bool)
    ensures
        ret == (s@ == w@),
{
    let n = s.unicode_len();
    if n != w.unicode_len() {
        return false;
    }
    let mut i: usize = 0;
    while i < n
        invariant
            n == s@.len(),
            n == w@.len(),
            i <= n,
            forall|k: int| 0 <= k < i ==> s@[k] == w@[k],
        decreases n - i,
    {
        if s.get_char(i) != w.get_char(i) {
            return false;
        }
        i = i + 1;
    }
    proof {
        assert(s@ =~= w@);
    }
    true
}

/// How many filled cells the second phase may open, by difficulty.
pub open spec fn max_digs_spec(difficulty: Seq<char>) -> int {
    if difficulty == "easy"@ {
        5
    } else if difficulty == "medium"@ {
        15
    } else if difficulty == "hard"@ {
        30
    } else {
        15
    }
}

/// How many filled cells the second phase may open: 5 for "easy", 15 for "medium",
/// 30 for "hard", 15 for anything else.
pub fn max_digs_for(difficulty: &str) -> (ret: usize)
    ensures
        ret == max_digs_spec(difficulty@),
{
    if same_text(difficulty, "easy") {
        5
    } else if same_text(difficulty, "medium") {
        15
    } else if same_text(difficulty, "hard") {
        30
    } else {
        15
    }
}

/// The puzzle that the two digging phases make of `base`, for the given orders.
pub open spec fn dug(base: Seq<u8>, difficulty: Seq<char>, o1: Seq<(usize, usize)>, o2: Seq<(usize, usize)>) -> Seq<u8> {
    dig_all(dig_all(base, o1), o2.take(dig_count(max_digs_spec(difficulty), o2.len() as int)))
}

/// Whether `o1` orders all positions and `o2` orders the positions that are still filled
/// after the first phase.
pub open spec fn dig_orders(base: Seq<u8>, o1: Seq<(usize, usize)>, o2: Seq<(usize, usize)>) -> bool {
    &&& o1.to_multiset() == all_positions().to_multiset()
    &&& o2.to_multiset() == filled_positions(dig_all(base, o1)).to_multiset()
}

/// Digs holes into a copy of the solved board `base`: first at every position, then at up
/// to a difficulty-dependent number of the positions still filled. Returns the puzzle and
/// the solution.
fn dig_holes(base: &Vec<u8>, difficulty: &str) -> (ret: (Vec<u8>, Vec<u8>))
    requires
        base@.len() == 81,
    ensures
        ret.1@ == base@,
        exists|o1: Seq<(usize, usize)>, o2: Seq<(usize, usize)>|
            dig_orders(base@, o1, o2) && ret.0@ == dug(base@, difficulty@, o1, o2),
        agrees(ret.0@, base@),
        unique(base@) ==> unique(ret.0@),
{
    let solution = base.clone();
    let mut puzzle = base.clone();
    proof {
        assert(solution@ =~= base@);
        assert(puzzle@ =~= base@);
    }
    phase1_dig(&mut puzzle);
    let ghost mid = puzzle@;
    let ghost o1 = choose|order: Seq<(usize, usize)>|
        order.to_multiset() == all_positions().to_multiset() && mid == dig_all(base@, order);
    let max_digs = max_digs_for(difficulty);
    proof {
        assert(positions_ok(all_positions()));
        lemma_reordered_ok(all_positions(), o1);
        lemma_dig_all_opens(base@, o1);
    }
    phase2_dig(&mut puzzle, &solution, max_digs);
    proof {
        let o2 = choose|order: Seq<(usize, usize)>|
            order.to_multiset() == filled_positions(mid).to_multiset() && puzzle@ == dig_all(
                mid,
                order.take(dig_count(max_digs as int, order.len() as int)),
            );
        assert(dig_orders(base@, o1, o2) && puzzle@ == dug(base@, difficulty@, o1, o2));
        lemma_dug(base@, difficulty@, o1, o2);
    }
    (puzzle, solution)
}


// ---------------------------------------------------------------------------
// Solved boards and how the generator reshapes them
// ---------------------------------------------------------------------------

/// Whether board indices `a` and `b` share a row, a column or a box.
pub open spec fn same_unit(a: int, b: int) -> bool {
    ||| a / 9 == b / 9
    ||| a % 9 == b % 9
    ||| (a / 9 / 3 == b / 9 / 3 && a % 9 / 3 == b % 9 / 3)
}

/// Whether the board is solved: 81 digits of `1..=9`, no digit twice in a row, column or box.
pub open spec fn valid_solution(s: Seq<u8>) -> bool {
    &&& s.len() == 81
    &&& forall|k: int| 0 <= k < 81 ==> 1 <= #[trigger] s[k] <= 9
    &&& forall|a: int, b: int|
        0 <= a < 81 && 0 <= b < 81 && a != b && same_unit(a, b) ==> #[trigger] s[a] != #[trigger] s[b]
}

/// The digit of the base board at index `k`.
pub open spec fn base_digit(k: int) -> int {
    (k / 9 * 3 + k / 9 / 3 + k % 9) % 9 + 1
}

/// The solved board that generation starts from.
pub open spec fn base_board() -> Seq<u8> {
    Seq::new(81, |k: int| base_digit(k) as u8)
}

/// The digit of the base board at index `k`, less one, written through the position of
/// `k` within its band and stack.
pub open spec fn base_offset(k: int) -> int {
    3 * (k / 9 % 3) + k / 9 / 3 + k % 9
}

/// The base digit at `k` is its offset modulo 9, plus one.
pub proof fn lemma_base_offset(k: int)
    requires
        0 <= k < 81,
    ensures
        base_digit(k) == base_offset(k) % 9 + 1,
        0 <= base_offset(k) < 17,
{
    let i = k / 9;
    let j = k % 9;
    assert(i * 3 + i / 3 + j == 9 * (i / 3) + base_offset(k)) by {
        assert(i == 3 * (i / 3) + i % 3);
    }
    vstd::arithmetic::div_mod::lemma_mod_multiples_vanish(i / 3, base_offset(k), 9);
}

/// Base-3 digits that differ give offsets that differ by less than 9.
proof fn lemma_offsets_differ(q1: int, s1: int, b1: int, t1: int, q2: int, s2: int, b2: int, t2: int)
    requires
        0 <= q1 < 3 && 0 <= s1 < 3 && 0 <= b1 < 3 && 0 <= t1 < 3,
        0 <= q2 < 3 && 0 <= s2 < 3 && 0 <= b2 < 3 && 0 <= t2 < 3,
        q1 != q2 || s1 != s2 || b1 != b2 || t1 != t2,
        (q1 == q2 && s1 == s2) || (b1 == b2 && t1 == t2) || (q1 == q2 && b1 == b2),
    ensures
        (3 * s1 + q1 + 3 * b1 + t1) != (3 * s2 + q2 + 3 * b2 + t2),
        -9 < (3 * s1 + q1 + 3 * b1 + t1) - (3 * s2 + q2 + 3 * b2 + t2) < 9,
{
}

/// Numbers less than 9 apart and not equal leave different remainders by 9.
proof fn lemma_mod9_differ(x: int, y: int)
    requires
        0 <= x,
        0 <= y,
        x != y,
        -9 < x - y < 9,
    ensures
        x % 9 != y % 9,
{
}

/// The row, column, band-line and stack-column of index `k`, in base 3.
proof fn lemma_index_digits(k: int)
    requires
        0 <= k < 81,
    ensures
        k == (k / 9) * 9 + k % 9,
        k / 9 == 3 * (k / 9 / 3) + k / 9 % 3,
        k % 9 == 3 * (k % 9 / 3) + k % 9 % 3,
        0 <= k / 9 / 3 < 3,
        0 <= k / 9 % 3 < 3,
        0 <= k % 9 / 3 < 3,
        0 <= k % 9 % 3 < 3,
        base_offset(k) == 3 * (k / 9 % 3) + k / 9 / 3 + 3 * (k % 9 / 3) + k % 9 % 3,
{
}

/// Two cells of the base board that share a row, a column or a box hold different digits.
pub proof fn lemma_base_pair(a: int, b: int)
    requires
        0 <= a < 81,
        0 <= b < 81,
        a != b,
        same_unit(a, b),
    ensures
        base_digit(a) != base_digit(b),
{
    lemma_base_offset(a);
    lemma_base_offset(b);
    lemma_index_digits(a);
    lemma_index_digits(b);
    let (q1, s1, b1, t1) = (a / 9 / 3, a / 9 % 3, a % 9 / 3, a % 9 % 3);
    let (q2, s2, b2, t2) = (b / 9 / 3, b / 9 % 3, b % 9 / 3, b % 9 % 3);
    assert(q1 != q2 || s1 != s2 || b1 != b2 || t1 != t2);
    assert((q1 == q2 && s1 == s2) || (b1 == b2 && t1 == t2) || (q1 == q2 && b1 == b2));
    lemma_offsets_differ(q1, s1, b1, t1, q2, s2, b2, t2);
    lemma_mod9_differ(base_offset(a), base_offset(b));
}

/// The base board is solved.
pub proof fn lemma_base_board_valid()
    ensures
        valid_solution(base_board()),
{
    assert forall|k: int| 0 <= k < 81 implies 1 <= #[trigger] base_board()[k] <= 9 by {
        assert(0 <= (k / 9 * 3 + k / 9 / 3 + k % 9) % 9 < 9);
    }
    assert forall|a: int, b: int|
        0 <= a < 81 && 0 <= b < 81 && a != b && same_unit(a, b) implies #[trigger] base_board()[a]
        != #[trigger] base_board()[b] by {
        lemma_base_pair(a, b);
        lemma_base_offset(a);
        lemma_base_offset(b);
    }
}

/// Builds the base board: row `i`, column `j` holds `(3i + i/3 + j) % 9 + 1`.
pub fn create_base_board() -> (ret: Vec<u8>)
    ensures
        ret@ == base_board(),
{
    let mut board: Vec<u8> = Vec::new();
    let mut i: usize = 0;
    while i < 9
        invariant
            i <= 9,
            board@.len() == i * 9,
            forall|k: int| 0 <= k < i * 9 ==> #[trigger] board@[k] == base_digit(k) as u8,
        decreases 9 - i,
    {
        let mut j: usize = 0;
        while j < 9
            invariant
                i < 9,
                j <= 9,
                board@.len() == i * 9 + j,
                forall|k: int| 0 <= k < i * 9 + j ==> #[trigger] board@[k] == base_digit(k) as u8,
            decreases 9 - j,
        {
            proof {
                lemma_idx_parts(i as int, j as int);
            }
            board.push(((i * 3 + i / 3 + j) % 9 + 1) as u8);
            j = j + 1;
        }
        i = i + 1;
    }
    proof {
        assert(board@ =~= base_board());
    }
    board
}

/// The board with its lines and columns taken from `rows` and `cols`: cell `(i, j)` shows
/// cell `(rows[i], cols[j])` of `b`.
pub open spec fn permuted(b: Seq<u8>, rows: Seq<int>, cols: Seq<int>) -> Seq<u8> {
    Seq::new(81, |k: int| b[idx(rows[k / 9], cols[k % 9])])
}

/// The board with each digit `d` replaced by `m[d - 1]`; open cells stay open.
pub open spec fn relabeled(b: Seq<u8>, m: Seq<u8>) -> Seq<u8> {
    Seq::new(b.len(), |k: int| if b[k] == 0 { 0 } else { m[b[k] - 1] })
}

/// The board reshaped by line and column order and digit renaming.
pub open spec fn transformed(b: Seq<u8>, rows: Seq<int>, cols: Seq<int>, m: Seq<u8>) -> Seq<u8> {
    relabeled(permuted(b, rows, cols), m)
}

/// Whether `rows` orders the nine lines one-to-one, keeping each within its band of three.
pub open spec fn band_perm(rows: Seq<int>) -> bool {
    &&& rows.len() == 9
    &&& forall|r: int| 0 <= r < 9 ==> 0 <= #[trigger] rows[r] < 9 && rows[r] / 3 == r / 3
    &&& forall|r1: int, r2: int| 0 <= r1 < 9 && 0 <= r2 < 9 && r1 != r2 ==> #[trigger] rows[r1] != #[trigger] rows[r2]
}

/// Whether `m` renames the digits `1..=9` one-to-one: digit `d` becomes `m[d - 1]`.
pub open spec fn digit_perm(m: Seq<u8>) -> bool {
    &&& m.len() == 9
    &&& forall|d: int| 0 <= d < 9 ==> 1 <= #[trigger] m[d] <= 9
    &&& forall|d1: int, d2: int| 0 <= d1 < 9 && 0 <= d2 < 9 && d1 != d2 ==> #[trigger] m[d1] != #[trigger] m[d2]
}

/// Reordering lines within bands and columns within stacks, and renaming digits one-to-one,
/// keeps a solved board solved.
pub proof fn lemma_transformed_valid(s: Seq<u8>, rows: Seq<int>, cols: Seq<int>, m: Seq<u8>)
    requires
        valid_solution(s),
        band_perm(rows),
        band_perm(cols),
        digit_perm(m),
    ensures
        valid_solution(transformed(s, rows, cols, m)),
{
    let t = transformed(s, rows, cols, m);
    let pm = permuted(s, rows, cols);
    assert forall|k: int| 0 <= k < 81 implies 1 <= #[trigger] t[k] <= 9 by {
        lemma_idx_parts(rows[k / 9], cols[k % 9]);
        assert(1 <= pm[k] <= 9);
    }
    assert forall|a: int, b: int|
        0 <= a < 81 && 0 <= b < 81 && a != b && same_unit(a, b) implies #[trigger] t[a] != #[trigger] t[b] by {
        let sa = idx(rows[a / 9], cols[a % 9]);
        let sb = idx(rows[b / 9], cols[b % 9]);
        lemma_idx_parts(rows[a / 9], cols[a % 9]);
        lemma_idx_parts(rows[b / 9], cols[b % 9]);
        assert(rows[a / 9] / 3 == a / 9 / 3);
        assert(rows[b / 9] / 3 == b / 9 / 3);
        assert(cols[a % 9] / 3 == a % 9 / 3);
        assert(cols[b % 9] / 3 == b % 9 / 3);
        if sa == sb {
            assert(a / 9 == b / 9);
            assert(a % 9 == b % 9);
            assert(false);
        }
        assert(same_unit(sa, sb));
        assert(s[sa] != s[sb]);
        assert(pm[a] == s[sa] && pm[b] == s[sb]);
    }
}

/// Reshaping a puzzle and its solution alike keeps the puzzle's digits those of the solution.
pub proof fn lemma_transformed_agrees(p: Seq<u8>, s: Seq<u8>, rows: Seq<int>, cols: Seq<int>, m: Seq<u8>)
    requires
        agrees(p, s),
        band_perm(rows),
        band_perm(cols),
    ensures
        agrees(transformed(p, rows, cols, m), transformed(s, rows, cols, m)),
{
    assert forall|k: int| 0 <= k < 81 implies #[trigger] transformed(p, rows, cols, m)[k] == 0 || transformed(
        p,
        rows,
        cols,
        m,
    )[k] == transformed(s, rows, cols, m)[k] by {
        lemma_idx_parts(rows[k / 9], cols[k % 9]);
        let sk = idx(rows[k / 9], cols[k % 9]);
        assert(p[sk] == 0 || p[sk] == s[sk]);
    }
}

/// The open cells of a board: the indices below 81 that hold `0`.
pub open spec fn open_cells(b: Seq<u8>) -> Set<int> {
    Set::new(|k: int| 0 <= k < 81 && b[k] == 0)
}

/// The number of open cells of a board.
pub open spec fn open_count(b: Seq<u8>) -> nat {
    open_cells(b).len()
}

/// The board index that cell `k` of a board reshaped by `rows` and `cols` shows.
pub open spec fn source_index(rows: Seq<int>, cols: Seq<int>) -> spec_fn(int) -> int {
    |k: int| idx(rows[k / 9], cols[k % 9])
}

/// An order that keeps lines within their bands reaches every line.
pub proof fn lemma_band_perm_onto(rows: Seq<int>, x: int)
    requires
        band_perm(rows),
        0 <= x < 9,
    ensures
        exists|r: int| 0 <= r < 9 && rows[r] == x,
{
    let q = x / 3;
    let (a, b, c) = (rows[3 * q], rows[3 * q + 1], rows[3 * q + 2]);
    assert(a / 3 == q && b / 3 == q && c / 3 == q);
    assert(a != b && a != c && b != c);
    if a == x {
        assert(rows[3 * q] == x);
    } else if b == x {
        assert(rows[3 * q + 1] == x);
    } else {
        assert(c == x);
        assert(rows[3 * q + 2] == x);
    }
}

/// Reshaping keeps the number of open cells.
pub proof fn lemma_transformed_open_count(p: Seq<u8>, rows: Seq<int>, cols: Seq<int>, m: Seq<u8>)
    requires
        p.len() == 81,
        forall|k: int| 0 <= k < 81 ==> #[trigger] p[k] <= 9,
        band_perm(rows),
        band_perm(cols),
        digit_perm(m),
    ensures
        open_count(transformed(p, rows, cols, m)) == open_count(p),
{
    let t = transformed(p, rows, cols, m);
    let f = source_index(rows, cols);
    let x = open_cells(t);
    let y = open_cells(p);
    assert forall|k: int| 0 <= k < 81 implies (#[trigger] t[k] == 0) == (p[f(k)] == 0) && 0 <= f(k) < 81 by {
        lemma_idx_parts(rows[k / 9], cols[k % 9]);
        assert(p[f(k)] <= 9);
    }
    assert forall|k1: int, k2: int| x.contains(k1) && x.contains(k2) && #[trigger] f(k1) == #[trigger] f(k2) implies k1 == k2 by {
        lemma_idx_parts(rows[k1 / 9], cols[k1 % 9]);
        lemma_idx_parts(rows[k2 / 9], cols[k2 % 9]);
        assert(k1 / 9 == k2 / 9);
        assert(k1 % 9 == k2 % 9);
    }
    assert forall|j: int| y.contains(j) implies x.map(f).contains(j) by {
        lemma_band_perm_onto(rows, j / 9);
        lemma_band_perm_onto(cols, j % 9);
        let a = choose|a: int| 0 <= a < 9 && rows[a] == j / 9;
        let b = choose|b: int| 0 <= b < 9 && cols[b] == j % 9;
        let k = idx(a, b);
        lemma_idx_parts(a, b);
        assert(f(k) == j);
        assert(t[k] == 0);
        assert(x.contains(k));
    }
    assert(x.map(f) =~= y);
    vstd::set_lib::lemma_int_range(0, 81);
    vstd::set_lib::lemma_len_subset(x, vstd::set_lib::set_int_range(0, 81));
    vstd::set_lib::lemma_map_size(x, y, f);
}

/// Whether `sol` completes `puzzle`: a solved board that keeps every digit of the puzzle.
pub open spec fn completes_puzzle(puzzle: Seq<u8>, sol: Seq<u8>) -> bool {
    valid_solution(sol) && agrees(puzzle, sol)
}

/// Whether the puzzle has exactly one completion.
pub open spec fn one_completion(puzzle: Seq<u8>) -> bool {
    exists|sol: Seq<u8>|
        #[trigger] completes_puzzle(puzzle, sol) && forall|sol2: Seq<u8>| #[trigger] completes_puzzle(puzzle, sol2) ==> sol2 == sol
}

/// The order that undoes `rows`: line `x` comes back from the line that `rows` sent it to.
pub open spec fn inverse_order(rows: Seq<int>) -> Seq<int> {
    Seq::new(9, |x: int| choose|r: int| 0 <= r < 9 && rows[r] == x)
}

/// The renaming that undoes `m`.
pub open spec fn inverse_digits(m: Seq<u8>) -> Seq<u8> {
    Seq::new(9, |d: int| ((choose|e: int| 0 <= e < 9 && m[e] == d + 1) + 1) as u8)
}

/// A renaming of the digits `1..=9` reaches every one of them.
pub proof fn lemma_digit_perm_onto(m: Seq<u8>, d: int)
    requires
        digit_perm(m),
        1 <= d <= 9,
    ensures
        exists|e: int| 0 <= e < 9 && m[e] == d,
{
    broadcast use vstd::set::group_set_axioms;

    let x = vstd::set_lib::set_int_range(0, 9);
    let g = |e: int| m[e] as int;
    let y = x.map(g);
    assert forall|e1: int, e2: int| x.contains(e1) && x.contains(e2) && #[trigger] g(e1) == #[trigger] g(e2) implies e1 == e2 by {}
    vstd::set_lib::lemma_int_range(0, 9);
    vstd::set_lib::lemma_map_size(x, y, g);
    if !(exists|e: int| 0 <= e < 9 && m[e] == d) {
        let z = vstd::set_lib::set_int_range(1, 10).remove(d);
        vstd::set_lib::lemma_int_range(1, 10);
        assert forall|a: int| y.contains(a) implies z.contains(a) by {
            let e = choose|e: int| x.contains(e) && g(e) == a;
        }
        vstd::set_lib::lemma_len_subset(y, z);
        assert(false);
    }
}

/// The inverse of a band-keeping order keeps bands and undoes it both ways.
pub proof fn lemma_inverse_order(rows: Seq<int>)
    requires
        band_perm(rows),
    ensures
        band_perm(inverse_order(rows)),
        forall|x: int| 0 <= x < 9 ==> rows[#[trigger] inverse_order(rows)[x]] == x,
        forall|r: int| 0 <= r < 9 ==> inverse_order(rows)[#[trigger] rows[r]] == r,
{
    let inv = inverse_order(rows);
    assert forall|x: int| 0 <= x < 9 implies 0 <= #[trigger] inv[x] < 9 && rows[inv[x]] == x by {
        lemma_band_perm_onto(rows, x);
    }
    assert forall|r: int| 0 <= r < 9 implies inv[#[trigger] rows[r]] == r by {
        let x = rows[r];
        assert(rows[inv[x]] == x);
    }
    assert forall|x: int| 0 <= x < 9 implies 0 <= #[trigger] inv[x] < 9 && inv[x] / 3 == x / 3 by {
        assert(rows[inv[x]] == x);
    }
    assert forall|x1: int, x2: int| 0 <= x1 < 9 && 0 <= x2 < 9 && x1 != x2 implies #[trigger] inv[x1] != #[trigger] inv[x2] by {
        assert(rows[inv[x1]] == x1);
        assert(rows[inv[x2]] == x2);
    }
}

/// The inverse of a digit renaming is one, and undoes it both ways.
pub proof fn lemma_inverse_digits(m: Seq<u8>)
    requires
        digit_perm(m),
    ensures
        digit_perm(inverse_digits(m)),
        forall|d: int| 0 <= d < 9 ==> m[#[trigger] inverse_digits(m)[d] - 1] == d + 1,
        forall|e: int| 0 <= e < 9 ==> inverse_digits(m)[#[trigger] m[e] - 1] == e + 1,
{
    let inv = inverse_digits(m);
    assert forall|d: int| 0 <= d < 9 implies 1 <= #[trigger] inv[d] <= 9 && m[inv[d] - 1] == d + 1 by {
        lemma_digit_perm_onto(m, d + 1);
    }
    assert forall|e: int| 0 <= e < 9 implies inv[#[trigger] m[e] - 1] == e + 1 by {
        let d = m[e] - 1;
        assert(m[inv[d] - 1] == d + 1);
    }
    assert forall|d1: int, d2: int| 0 <= d1 < 9 && 0 <= d2 < 9 && d1 != d2 implies #[trigger] inv[d1] != #[trigger] inv[d2] by {
        assert(m[inv[d1] - 1] == d1 + 1);
        assert(m[inv[d2] - 1] == d2 + 1);
    }
}

/// Reshaping by orders and a renaming, then by orders and a renaming that undo them, gives
/// the board back.
pub proof fn lemma_transform_undone(
    b: Seq<u8>,
    rows: Seq<int>,
    cols: Seq<int>,
    m: Seq<u8>,
    rows2: Seq<int>,
    cols2: Seq<int>,
    m2: Seq<u8>,
)
    requires
        b.len() == 81,
        forall|k: int| 0 <= k < 81 ==> #[trigger] b[k] <= 9,
        band_perm(rows),
        band_perm(cols),
        band_perm(rows2),
        band_perm(cols2),
        digit_perm(m),
        digit_perm(m2),
        forall|x: int| 0 <= x < 9 ==> rows[#[trigger] rows2[x]] == x,
        forall|x: int| 0 <= x < 9 ==> cols[#[trigger] cols2[x]] == x,
        forall|e: int| 0 <= e < 9 ==> m2[#[trigger] m[e] - 1] == e + 1,
    ensures
        transformed(transformed(b, rows, cols, m), rows2, cols2, m2) == b,
{
    let t = transformed(b, rows, cols, m);
    let u = transformed(t, rows2, cols2, m2);
    assert forall|k: int| 0 <= k < 81 implies #[trigger] u[k] == b[k] by {
        let (x, y) = (k / 9, k % 9);
        let k2 = idx(rows2[x], cols2[y]);
        lemma_idx_parts(rows2[x], cols2[y]);
        lemma_idx_parts(rows[rows2[x]], cols[cols2[y]]);
        assert(idx(rows[k2 / 9], cols[k2 % 9]) == k);
        if b[k] != 0 {
            assert(m2[m[b[k] - 1] - 1] == b[k]);
        }
    }
    assert(u =~= b);
}

/// Reshaping sends the completions of a puzzle one-to-one onto the completions of the
/// reshaped puzzle; so a puzzle has exactly one completion just when its reshaping does.
pub proof fn lemma_transformed_completions(p: Seq<u8>, rows: Seq<int>, cols: Seq<int>, m: Seq<u8>)
    requires
        p.len() == 81,
        forall|k: int| 0 <= k < 81 ==> #[trigger] p[k] <= 9,
        band_perm(rows),
        band_perm(cols),
        digit_perm(m),
    ensures
        forall|sol: Seq<u8>|
            completes_puzzle(p, sol) ==> #[trigger] completes_puzzle(
                transformed(p, rows, cols, m),
                transformed(sol, rows, cols, m),
            ),
        forall|sol2: Seq<u8>|
            #[trigger] completes_puzzle(transformed(p, rows, cols, m), sol2) ==> exists|sol: Seq<u8>|
                completes_puzzle(p, sol) && #[trigger] transformed(sol, rows, cols, m) == sol2,
        forall|s1: Seq<u8>, s2: Seq<u8>|
            valid_solution(s1) && valid_solution(s2) && #[trigger] transformed(s1, rows, cols, m) == #[trigger] transformed(
                s2,
                rows,
                cols,
                m,
            ) ==> s1 == s2,
        one_completion(p) == one_completion(transformed(p, rows, cols, m)),
{
    let (ri, ci, mi) = (inverse_order(rows), inverse_order(cols), inverse_digits(m));
    lemma_inverse_order(rows);
    lemma_inverse_order(cols);
    lemma_inverse_digits(m);
    let tp = transformed(p, rows, cols, m);
    assert forall|sol: Seq<u8>| completes_puzzle(p, sol) implies #[trigger] completes_puzzle(tp, transformed(sol, rows, cols, m)) by {
        lemma_transformed_valid(sol, rows, cols, m);
        lemma_transformed_agrees(p, sol, rows, cols, m);
    }
    lemma_transform_undone(p, rows, cols, m, ri, ci, mi);
    assert forall|k: int| 0 <= k < 81 implies #[trigger] tp[k] <= 9 by {
        lemma_idx_parts(rows[k / 9], cols[k % 9]);
    }
    assert forall|sol2: Seq<u8>| #[trigger] completes_puzzle(tp, sol2) implies exists|sol: Seq<u8>|
        completes_puzzle(p, sol) && #[trigger] transformed(sol, rows, cols, m) == sol2 by {
        let sol = transformed(sol2, ri, ci, mi);
        lemma_transformed_valid(sol2, ri, ci, mi);
        lemma_transformed_agrees(tp, sol2, ri, ci, mi);
        lemma_transform_undone(sol2, ri, ci, mi, rows, cols, m);
        assert(completes_puzzle(p, sol) && transformed(sol, rows, cols, m) == sol2);
    }
    assert forall|s1: Seq<u8>, s2: Seq<u8>|
        valid_solution(s1) && valid_solution(s2) && #[trigger] transformed(s1, rows, cols, m) == #[trigger] transformed(
            s2,
            rows,
            cols,
            m,
        ) implies s1 == s2 by {
        lemma_transform_undone(s1, rows, cols, m, ri, ci, mi);
        lemma_transform_undone(s2, rows, cols, m, ri, ci, mi);
    }
    if one_completion(p) {
        let sol = choose|sol: Seq<u8>|
            #[trigger] completes_puzzle(p, sol) && forall|sol2: Seq<u8>| #[trigger] completes_puzzle(p, sol2) ==> sol2 == sol;
        let tsol = transformed(sol, rows, cols, m);
        assert(completes_puzzle(tp, tsol));
        assert forall|sol2: Seq<u8>| #[trigger] completes_puzzle(tp, sol2) implies sol2 == tsol by {
            let s = choose|s: Seq<u8>| completes_puzzle(p, s) && #[trigger] transformed(s, rows, cols, m) == sol2;
            assert(s == sol);
        }
        assert(one_completion(tp));
    }
    if one_completion(tp) {
        let tsol = choose|sol: Seq<u8>|
            #[trigger] completes_puzzle(tp, sol) && forall|sol2: Seq<u8>| #[trigger] completes_puzzle(tp, sol2) ==> sol2 == sol;
        let sol = choose|sol: Seq<u8>| completes_puzzle(p, sol) && #[trigger] transformed(sol, rows, cols, m) == tsol;
        assert forall|s2: Seq<u8>| #[trigger] completes_puzzle(p, s2) implies s2 == sol by {
            assert(completes_puzzle(tp, transformed(s2, rows, cols, m)));
            assert(transformed(s2, rows, cols, m) == tsol);
        }
        assert(one_completion(p));
    }
}

/// Line `x` after lines `r1` and `r2` trade places.
pub open spec fn swap_index(x: int, r1: int, r2: int) -> int {
    if x == r1 {
        r2
    } else if x == r2 {
        r1
    } else {
        x
    }
}

/// The board with lines `r1` and `r2` traded.
pub open spec fn swapped_rows(b: Seq<u8>, r1: int, r2: int) -> Seq<u8> {
    Seq::new(81, |k: int| b[idx(swap_index(k / 9, r1, r2), k % 9)])
}

/// The board with columns `c1` and `c2` traded.
pub open spec fn swapped_cols(b: Seq<u8>, c1: int, c2: int) -> Seq<u8> {
    Seq::new(81, |k: int| b[idx(k / 9, swap_index(k % 9, c1, c2))])
}

/// The order `rows` with the entries at `r1` and `r2` traded.
pub open spec fn swapped_order(rows: Seq<int>, r1: int, r2: int) -> Seq<int> {
    rows.update(r1, rows[r2]).update(r2, rows[r1])
}

/// Trading two lines of a reshaped board is reshaping by the traded order.
pub proof fn lemma_swap_rows_permuted(b: Seq<u8>, rows: Seq<int>, cols: Seq<int>, r1: int, r2: int)
    requires
        rows.len() == 9,
        0 <= r1 < 9,
        0 <= r2 < 9,
    ensures
        swapped_rows(permuted(b, rows, cols), r1, r2) == permuted(b, swapped_order(rows, r1, r2), cols),
{
    assert forall|k: int| 0 <= k < 81 implies #[trigger] swapped_rows(permuted(b, rows, cols), r1, r2)[k] == permuted(
        b,
        swapped_order(rows, r1, r2),
        cols,
    )[k] by {
        lemma_idx_parts(swap_index(k / 9, r1, r2), k % 9);
    }
    assert(swapped_rows(permuted(b, rows, cols), r1, r2) =~= permuted(b, swapped_order(rows, r1, r2), cols));
}

/// Trading two columns of a reshaped board is reshaping by the traded order.
pub proof fn lemma_swap_cols_permuted(b: Seq<u8>, rows: Seq<int>, cols: Seq<int>, c1: int, c2: int)
    requires
        cols.len() == 9,
        0 <= c1 < 9,
        0 <= c2 < 9,
    ensures
        swapped_cols(permuted(b, rows, cols), c1, c2) == permuted(b, rows, swapped_order(cols, c1, c2)),
{
    assert forall|k: int| 0 <= k < 81 implies #[trigger] swapped_cols(permuted(b, rows, cols), c1, c2)[k] == permuted(
        b,
        rows,
        swapped_order(cols, c1, c2),
    )[k] by {
        lemma_idx_parts(k / 9, swap_index(k % 9, c1, c2));
    }
    assert(swapped_cols(permuted(b, rows, cols), c1, c2) =~= permuted(b, rows, swapped_order(cols, c1, c2)));
}

/// Trading two lines of one band keeps an order band-preserving.
pub proof fn lemma_band_perm_swap(rows: Seq<int>, r1: int, r2: int)
    requires
        band_perm(rows),
        0 <= r1 < 9,
        0 <= r2 < 9,
        r1 / 3 == r2 / 3,
    ensures
        band_perm(swapped_order(rows, r1, r2)),
{
    let o = swapped_order(rows, r1, r2);
    assert forall|r: int| 0 <= r < 9 implies o[r] == rows[swap_index(r, r1, r2)] by {}
    assert forall|x1: int, x2: int| 0 <= x1 < 9 && 0 <= x2 < 9 && x1 != x2 implies #[trigger] o[x1] != #[trigger] o[x2] by {
        assert(o[x1] == rows[swap_index(x1, r1, r2)]);
        assert(o[x2] == rows[swap_index(x2, r1, r2)]);
    }
}

/// The identity order of nine lines.
pub open spec fn identity_order() -> Seq<int> {
    Seq::new(9, |r: int| r)
}

/// Trades lines `r1` and `r2` of the board.
fn swap_rows(board: &mut Vec<u8>, r1: usize, r2: usize)
    requires
        old(board)@.len() == 81,
        r1 < 9,
        r2 < 9,
    ensures
        final(board)@ == swapped_rows(old(board)@, r1 as int, r2 as int),
{
    let ghost b = board@;
    let mut c: usize = 0;
    while c < 9
        invariant
            board@.len() == 81,
            r1 < 9,
            r2 < 9,
            c <= 9,
            forall|k: int|
                0 <= k < 81 ==> #[trigger] board@[k] == if (k / 9 == r1 || k / 9 == r2) && k % 9 < c {
                    b[idx(swap_index(k / 9, r1 as int, r2 as int), k % 9)]
                } else {
                    b[k]
                },
        decreases 9 - c,
    {
        proof {
            lemma_idx_parts(r1 as int, c as int);
            lemma_idx_parts(r2 as int, c as int);
        }
        let a = board[r1 * 9 + c];
        let t = board[r2 * 9 + c];
        board.set(r1 * 9 + c, t);
        board.set(r2 * 9 + c, a);
        c = c + 1;
    }
    proof {
        assert forall|k: int| 0 <= k < 81 implies #[trigger] board@[k] == swapped_rows(b, r1 as int, r2 as int)[k] by {
            lemma_idx_parts(k / 9, k % 9);
        }
        assert(board@ =~= swapped_rows(b, r1 as int, r2 as int));
    }
}

/// Trades columns `c1` and `c2` of the board.
fn swap_cols(board: &mut Vec<u8>, c1: usize, c2: usize)
    requires
        old(board)@.len() == 81,
        c1 < 9,
        c2 < 9,
    ensures
        final(board)@ == swapped_cols(old(board)@, c1 as int, c2 as int),
{
    let ghost b = board@;
    let mut r: usize = 0;
    while r < 9
        invariant
            board@.len() == 81,
            c1 < 9,
            c2 < 9,
            r <= 9,
            forall|k: int|
                0 <= k < 81 ==> #[trigger] board@[k] == if (k % 9 == c1 || k % 9 == c2) && k / 9 < r {
                    b[idx(k / 9, swap_index(k % 9, c1 as int, c2 as int))]
                } else {
                    b[k]
                },
        decreases 9 - r,
    {
        proof {
            lemma_idx_parts(r as int, c1 as int);
            lemma_idx_parts(r as int, c2 as int);
        }
        let a = board[r * 9 + c1];
        let t = board[r * 9 + c2];
        board.set(r * 9 + c1, t);
        board.set(r * 9 + c2, a);
        r = r + 1;
    }
    proof {
        assert forall|k: int| 0 <= k < 81 implies #[trigger] board@[k] == swapped_cols(b, c1 as int, c2 as int)[k] by {
            lemma_idx_parts(k / 9, k % 9);
        }
        assert(board@ =~= swapped_cols(b, c1 as int, c2 as int));
    }
}

/// The three lines of band `block`, in order.
pub open spec fn band_lines(block: usize) -> Seq<usize> {
    seq![(block * 3) as usize, (block * 3 + 1) as usize, (block * 3 + 2) as usize]
}

/// A reordering of the three lines of band `block` lists three lines of that band.
pub proof fn lemma_band_lines(a: Seq<usize>, block: usize)
    requires
        block < 3,
        a.to_multiset() == band_lines(block).to_multiset(),
    ensures
        a.len() == 3,
        forall|t: int| 0 <= t < 3 ==> #[trigger] a[t] < 9 && a[t] / 3 == block,
{
    broadcast use vstd::seq_lib::group_to_multiset_ensures;

    let b = band_lines(block);
    assert(a.len() == a.to_multiset().len());
    assert forall|t: int| 0 <= t < 3 implies #[trigger] a[t] < 9 && a[t] / 3 == block by {
        assert(a.contains(a[t]));
        assert(a.to_multiset().count(a[t]) > 0);
        assert(b.to_multiset().count(a[t]) > 0);
        assert(b.contains(a[t]));
    }
}

/// A reordering of the digits `1..=9` renames digits one-to-one.
pub proof fn lemma_digit_perm(a: Seq<u8>)
    requires
        a.to_multiset() == seq![1u8, 2, 3, 4, 5, 6, 7, 8, 9].to_multiset(),
    ensures
        digit_perm(a),
{
    broadcast use vstd::seq_lib::group_to_multiset_ensures;

    let b = seq![1u8, 2, 3, 4, 5, 6, 7, 8, 9];
    assert(a.len() == a.to_multiset().len());
    assert forall|d: int| 0 <= d < 9 implies 1 <= #[trigger] a[d] <= 9 by {
        assert(a.contains(a[d]));
        assert(a.to_multiset().count(a[d]) > 0);
        assert(b.to_multiset().count(a[d]) > 0);
        assert(b.contains(a[d]));
    }
    assert(b.no_duplicates());
    b.lemma_multiset_has_no_duplicates();
    a.lemma_multiset_has_no_duplicates_conv();
}

/// Renames the digits of both boards through `replace_map`: digit `d` becomes
/// `replace_map[d - 1]`; open cells of the puzzle stay open.
fn replace_digits(puzzle: &mut Vec<u8>, solution: &mut Vec<u8>, replace_map: &Vec<u8>)
    requires
        old(puzzle)@.len() == 81,
        old(solution)@.len() == 81,
        replace_map@.len() == 9,
        forall|k: int| 0 <= k < 81 ==> 1 <= #[trigger] old(solution)@[k] <= 9,
        forall|k: int| 0 <= k < 81 ==> #[trigger] old(puzzle)@[k] <= 9,
    ensures
        final(puzzle)@ == relabeled(old(puzzle)@, replace_map@),
        final(solution)@ == relabeled(old(solution)@, replace_map@),
{
    let ghost p = puzzle@;
    let ghost s = solution@;
    let mut k: usize = 0;
    while k < 81
        invariant
            puzzle@.len() == 81,
            solution@.len() == 81,
            p.len() == 81,
            s.len() == 81,
            replace_map@.len() == 9,
            forall|k2: int| 0 <= k2 < 81 ==> 1 <= #[trigger] s[k2] <= 9,
            forall|k2: int| 0 <= k2 < 81 ==> #[trigger] p[k2] <= 9,
            k <= 81,
            forall|k2: int| 0 <= k2 < 81 ==> #[trigger] puzzle@[k2] == if k2 < k { relabeled(p, replace_map@)[k2] } else { p[k2] },
            forall|k2: int| 0 <= k2 < 81 ==> #[trigger] solution@[k2] == if k2 < k { relabeled(s, replace_map@)[k2] } else { s[k2] },
        decreases 81 - k,
    {
        let v = solution[k];
        solution.set(k, replace_map[(v - 1) as usize]);
        let w = puzzle[k];
        if w != 0 {
            puzzle.set(k, replace_map[(w - 1) as usize]);
        }
        k = k + 1;
    }
    proof {
        assert(puzzle@ =~= relabeled(p, replace_map@));
        assert(solution@ =~= relabeled(s, replace_map@));
    }
}

/// Reshapes both boards alike: three times, two lines of a band chosen by chance trade
/// places; three times, two columns of a stack; then the digits are renamed by a
/// permutation chosen by chance.
pub fn shuffle_boards(puzzle: &mut Vec<u8>, solution: &mut Vec<u8>)
    requires
        old(puzzle)@.len() == 81,
        old(solution)@.len() == 81,
        forall|k: int| 0 <= k < 81 ==> 1 <= #[trigger] old(solution)@[k] <= 9,
        forall|k: int| 0 <= k < 81 ==> #[trigger] old(puzzle)@[k] <= 9,
    ensures
        exists|rows: Seq<int>, cols: Seq<int>, m: Seq<u8>|
            band_perm(rows) && band_perm(cols) && digit_perm(m) && final(puzzle)@ == transformed(
                old(puzzle)@,
                rows,
                cols,
                m,
            ) && final(solution)@ == transformed(old(solution)@, rows, cols, m),
        open_count(final(puzzle)@) == open_count(old(puzzle)@),
        one_completion(final(puzzle)@) == one_completion(old(puzzle)@),
{
    let ghost p0 = puzzle@;
    let ghost s0 = solution@;
    let ghost mut rows: Seq<int> = identity_order();
    let ghost mut cols: Seq<int> = identity_order();
    proof {
        assert(puzzle@ =~= permuted(p0, rows, cols)) by {
            assert forall|k: int| 0 <= k < 81 implies #[trigger] p0[k] == permuted(p0, rows, cols)[k] by {
                lemma_idx_parts(k / 9, k % 9);
            }
        }
        assert(solution@ =~= permuted(s0, rows, cols)) by {
            assert forall|k: int| 0 <= k < 81 implies #[trigger] s0[k] == permuted(s0, rows, cols)[k] by {
                lemma_idx_parts(k / 9, k % 9);
            }
        }
    }
    let mut rng = new_thread_rng();
    let mut step: usize = 0;
    while step < 3
        invariant
            step <= 3,
            band_perm(rows),
            band_perm(cols),
            puzzle@ == permuted(p0, rows, cols),
            solution@ == permuted(s0, rows, cols),
        decreases 3 - step,
    {
        let block = gen_index(&mut rng, 0, 3);
        let mut lines: Vec<usize> = vec![block * 3, block * 3 + 1, block * 3 + 2];
        proof {
            assert(lines@ =~= band_lines(block));
        }
        shuffle_vec(&mut lines, &mut rng);
        proof {
            lemma_band_lines(lines@, block);
        }
        let r1 = lines[0];
        let r2 = lines[1];
        swap_rows(puzzle, r1, r2);
        swap_rows(solution, r1, r2);
        proof {
            lemma_swap_rows_permuted(p0, rows, cols, r1 as int, r2 as int);
            lemma_swap_rows_permuted(s0, rows, cols, r1 as int, r2 as int);
            lemma_band_perm_swap(rows, r1 as int, r2 as int);
            rows = swapped_order(rows, r1 as int, r2 as int);
        }
        step = step + 1;
    }
    let mut step: usize = 0;
    while step < 3
        invariant
            step <= 3,
            band_perm(rows),
            band_perm(cols),
            puzzle@ == permuted(p0, rows, cols),
            solution@ == permuted(s0, rows, cols),
        decreases 3 - step,
    {
        let block = gen_index(&mut rng, 0, 3);
        let mut lines: Vec<usize> = vec![block * 3, block * 3 + 1, block * 3 + 2];
        proof {
            assert(lines@ =~= band_lines(block));
        }
        shuffle_vec(&mut lines, &mut rng);
        proof {
            lemma_band_lines(lines@, block);
        }
        let c1 = lines[0];
        let c2 = lines[1];
        swap_cols(puzzle, c1, c2);
        swap_cols(solution, c1, c2);
        proof {
            lemma_swap_cols_permuted(p0, rows, cols, c1 as int, c2 as int);
            lemma_swap_cols_permuted(s0, rows, cols, c1 as int, c2 as int);
            lemma_band_perm_swap(cols, c1 as int, c2 as int);
            cols = swapped_order(cols, c1 as int, c2 as int);
        }
        step = step + 1;
    }
    let mut numbers: Vec<u8> = Vec::new();
    let mut d: u8 = 1;
    while d <= 9
        invariant
            1 <= d <= 10,
            numbers@ == seq![1u8, 2, 3, 4, 5, 6, 7, 8, 9].take(d - 1),
        decreases 10 - d,
    {
        numbers.push(d);
        proof {
            assert(numbers@ =~= seq![1u8, 2, 3, 4, 5, 6, 7, 8, 9].take(d as int));
        }
        d = d + 1;
    }
    proof {
        assert(numbers@ =~= seq![1u8, 2, 3, 4, 5, 6, 7, 8, 9]);
    }
    shuffle_vec(&mut numbers, &mut rng);
    proof {
        lemma_digit_perm(numbers@);
    }
    let mut replace_map: Vec<u8> = Vec::new();
    let mut d: usize = 1;
    while d <= 9
        invariant
            1 <= d <= 10,
            numbers@.len() == 9,
            replace_map@ == numbers@.take(d - 1),
        decreases 10 - d,
    {
        replace_map.push(numbers[d - 1]);
        proof {
            assert(replace_map@ =~= numbers@.take(d as int));
        }
        d = d + 1;
    }
    proof {
        assert(replace_map@ =~= numbers@);
        assert forall|k: int| 0 <= k < 81 implies 1 <= #[trigger] solution@[k] <= 9 && puzzle@[k] <= 9 by {
            lemma_idx_parts(rows[k / 9], cols[k % 9]);
        }
    }
    replace_digits(puzzle, solution, &replace_map);
    proof {
        assert(band_perm(rows) && band_perm(cols) && digit_perm(replace_map@) && puzzle@ == transformed(
            p0,
            rows,
            cols,
            replace_map@,
        ) && solution@ == transformed(s0, rows, cols, replace_map@));
        lemma_transformed_open_count(p0, rows, cols, replace_map@);
        lemma_transformed_completions(p0, rows, cols, replace_map@);
    }
}

/// Whether `puzzle` and `solution` are what generation can give for `difficulty`: the base
/// board dug in two phases, then both boards reshaped alike.
pub open spec fn generated(puzzle: Seq<u8>, solution: Seq<u8>, difficulty: Seq<char>) -> bool {
    exists|o1: Seq<(usize, usize)>, o2: Seq<(usize, usize)>, rows: Seq<int>, cols: Seq<int>, m: Seq<u8>|
        {
            &&& dig_orders(base_board(), o1, o2)
            &&& band_perm(rows)
            &&& band_perm(cols)
            &&& digit_perm(m)
            &&& puzzle == transformed(dug(base_board(), difficulty, o1, o2), rows, cols, m)
            &&& solution == transformed(base_board(), rows, cols, m)
        }
}

/// The dug puzzle passes the uniqueness test of the generator, and keeps only digits of
/// the board it was dug from.
pub proof fn lemma_dug(base: Seq<u8>, difficulty: Seq<char>, o1: Seq<(usize, usize)>, o2: Seq<(usize, usize)>)
    requires
        base.len() == 81,
        dig_orders(base, o1, o2),
    ensures
        agrees(dug(base, difficulty, o1, o2), base),
        unique(base) ==> unique(dug(base, difficulty, o1, o2)),
{
    let mid = dig_all(base, o1);
    let o2t = o2.take(dig_count(max_digs_spec(difficulty), o2.len() as int));
    assert(positions_ok(all_positions()));
    lemma_reordered_ok(all_positions(), o1);
    lemma_dig_all_opens(base, o1);
    lemma_filled_upto_ok(mid, 81);
    lemma_reordered_ok(filled_positions(mid), o2);
    assert(positions_ok(o2t));
    lemma_dig_all_opens(mid, o2t);
    if unique(base) {
        lemma_dig_all_unique(base, o1);
        lemma_dig_all_unique(mid, o2t);
    }
}

/// A generated pair is a solved board and a puzzle whose digits are those of the solution.
pub proof fn lemma_generated(puzzle: Seq<u8>, solution: Seq<u8>, difficulty: Seq<char>)
    requires
        generated(puzzle, solution, difficulty),
    ensures
        valid_solution(solution),
        agrees(puzzle, solution),
{
    let (o1, o2, rows, cols, m) = choose|o1: Seq<(usize, usize)>, o2: Seq<(usize, usize)>, rows: Seq<int>, cols: Seq<int>, m: Seq<u8>|
        {
            &&& dig_orders(base_board(), o1, o2)
            &&& band_perm(rows)
            &&& band_perm(cols)
            &&& digit_perm(m)
            &&& puzzle == transformed(dug(base_board(), difficulty, o1, o2), rows, cols, m)
            &&& solution == transformed(base_board(), rows, cols, m)
        };
    lemma_base_board_valid();
    lemma_transformed_valid(base_board(), rows, cols, m);
    lemma_dug(base_board(), difficulty, o1, o2);
    lemma_transformed_agrees(dug(base_board(), difficulty, o1, o2), base_board(), rows, cols, m);
}

/// Generates a puzzle and its solution for the given difficulty.
fn generate_sudoku(difficulty: &str) -> (ret: (Vec<u8>, Vec<u8>))
    ensures
        generated(ret.0@, ret.1@, difficulty@),
{
    let base = create_base_board();
    let (mut puzzle, mut solution) = dig_holes(&base, difficulty);
    proof {
        lemma_base_board_valid();
        let (o1, o2) = choose|o1: Seq<(usize, usize)>, o2: Seq<(usize, usize)>|
            dig_orders(base@, o1, o2) && puzzle@ == dug(base@, difficulty@, o1, o2);
        assert forall|k: int| 0 <= k < 81 implies #[trigger] puzzle@[k] <= 9 by {
            assert(base@[k] <= 9);
        }
    }
    let ghost p0 = puzzle@;
    let ghost s0 = solution@;
    shuffle_boards(&mut puzzle, &mut solution);
    proof {
        let (o1, o2) = choose|o1: Seq<(usize, usize)>, o2: Seq<(usize, usize)>|
            dig_orders(base@, o1, o2) && p0 == dug(base@, difficulty@, o1, o2);
        let (rows, cols, m) = choose|rows: Seq<int>, cols: Seq<int>, m: Seq<u8>|
            band_perm(rows) && band_perm(cols) && digit_perm(m) && puzzle@ == transformed(p0, rows, cols, m)
                && solution@ == transformed(s0, rows, cols, m);
        assert(dig_orders(base_board(), o1, o2) && band_perm(rows) && band_perm(cols) && digit_perm(m) && puzzle@
            == transformed(dug(base_board(), difficulty@, o1, o2), rows, cols, m) && solution@ == transformed(
            base_board(),
            rows,
            cols,
            m,
        ));
    }
    (puzzle, solution)
}

/// A generated puzzle with its solution, both as 81 digits in row-major order; the puzzle
/// has `0` in its open cells.
pub struct Sudoku {
    puzzle: Vec<u8>,
    solution: Vec<u8>,
}

impl View for Sudoku {
    type V = (Seq<u8>, Seq<u8>);

    closed spec fn view(&self) -> (Seq<u8>, Seq<u8>) {
        (self.puzzle@, self.solution@)
    }
}

impl Sudoku {
    /// Generates a puzzle for the difficulty "easy", "medium" or "hard" (any other text
    /// counts as "medium").
    pub fn new(difficulty: &str) -> (ret: Self)
        ensures
            generated(ret@.0, ret@.1, difficulty@),
            valid_solution(ret@.1),
            agrees(ret@.0, ret@.1),
    {
        let (puzzle, solution) = generate_sudoku(difficulty);
        proof {
            lemma_generated(puzzle@, solution@, difficulty@);
        }
        Sudoku { puzzle, solution }
    }

    /// A pair of boards as given, puzzle first.
    pub fn from_parts(puzzle: Vec<u8>, solution: Vec<u8>) -> (ret: Self)
        ensures
            ret@ == (puzzle@, solution@),
    {
        Sudoku { puzzle, solution }
    }

    /// The puzzle, 81 digits in row-major order, `0` for an open cell.
    pub fn puzzle(&self) -> (ret: Vec<u8>)
        ensures
            ret@ == self@.0,
    {
        let ret = self.puzzle.clone();
        proof {
            assert(ret@ =~= self.puzzle@);
        }
        ret
    }

    /// The solution, 81 digits in row-major order.
    pub fn solution(&self) -> (ret: Vec<u8>)
        ensures
            ret@ == self@.1,
    {
        let ret = self.solution.clone();
        proof {
            assert(ret@ =~= self.solution@);
        }
        ret
    }
}

} // verus!
