// Helpers shared by the inference strategies.

use vstd::prelude::*;
use crate::inferences::TheCoordsAndTheValue;
use crate::inferences::{entry_views, opt_entry_views};
use crate::types::{Cell, Coords, GNCoords, RCCoords, Sudoku, peer_coords_with, range_concat, spec_gn_to_rc};

verus! {

/// Whether `x` occurs in `v`.
pub fn vec_contains(v: &Vec<usize>, x: usize) -> (ret: bool)
    ensures
        ret == v@.contains(x),
{
    let mut i: usize = 0;
    while i < v.len()
        invariant
            i <= v@.len(),
            forall|j: int| 0 <= j < i ==> v@[j] != x,
        decreases v@.len() - i,
    {
        if v[i] == x {
            return true;
        }
        i = i + 1;
    }
    false
}

/// The numbers below `full` that are not in `path`, in increasing order, among the first
/// `upto` numbers.
pub open spec fn complement_upto(full: int, path: Seq<usize>, upto: int) -> Seq<usize>
    decreases upto,
{
    if upto <= 0 {
        Seq::empty()
    } else if path.contains((upto - 1) as usize) {
        complement_upto(full, path, upto - 1)
    } else {
        complement_upto(full, path, upto - 1).push((upto - 1) as usize)
    }
}

/// The pairs `(combination, rest)` that `generate_combinations` appends: the increasing
/// extensions of `path` to `combo_size` elements taken from `current..full_length`, in
/// lexicographic order, each with the numbers below `full_length` it leaves out. Nothing is
/// produced once `path` holds `full_length` elements.
pub open spec fn combinations(full_length: int, combo_size: int, current: int, path: Seq<usize>) -> Seq<(Seq<usize>, Seq<usize>)>
    decreases full_length - current, 1int,
{
    if path.len() == full_length {
        Seq::empty()
    } else if path.len() == combo_size {
        seq![(path, complement_upto(full_length, path, full_length))]
    } else {
        combinations_from(full_length, combo_size, current, path, current)
    }
}

/// The combinations that the loop of `generate_combinations` produces from `i` onwards.
pub open spec fn combinations_from(full_length: int, combo_size: int, current: int, path: Seq<usize>, i: int) -> Seq<
    (Seq<usize>, Seq<usize>),
>
    decreases full_length - i, 0int,
{
    if i >= full_length || i < current {
        Seq::empty()
    } else {
        combinations(full_length, combo_size, i + 1, path.push(i as usize)) + combinations_from(
            full_length,
            combo_size,
            current,
            path,
            i + 1,
        )
    }
}

/// Every index below `upto` that `path` leaves out is listed by `complement_upto`.
pub proof fn lemma_complement_has(full: int, path: Seq<usize>, upto: int, i: int)
    requires
        0 <= i < upto,
        upto <= usize::MAX + 1,
        !path.contains(i as usize),
    ensures
        complement_upto(full, path, upto).contains(i as usize),
    decreases upto,
{
    let prev = complement_upto(full, path, upto - 1);
    if i < upto - 1 {
        lemma_complement_has(full, path, upto - 1, i);
        let t = choose|t: int| 0 <= t < prev.len() && prev[t] == i as usize;
        if !path.contains((upto - 1) as usize) {
            assert(prev.push((upto - 1) as usize)[t] == i as usize);
        }
    } else {
        assert(prev.push((upto - 1) as usize)[prev.len() as int] == i as usize);
    }
}

/// Completeness of `combinations`: every increasing list of `combo_size` indices below
/// `full_length` that extends `path` with indices from `current` on is produced.
pub proof fn lemma_combination_listed(full_length: int, combo_size: int, current: int, path: Seq<usize>, xs: Seq<usize>)
    requires
        0 <= current <= full_length,
        xs.len() == combo_size,
        combo_size < full_length,
        path.len() <= combo_size,
        path == xs.subrange(0, path.len() as int),
        forall|j: int| path.len() <= j < combo_size ==> current <= #[trigger] xs[j] < full_length,
        increasing(xs),
    ensures
        exists|t: int|
            0 <= t < combinations(full_length, combo_size, current, path).len() && (#[trigger] combinations(
                full_length,
                combo_size,
                current,
                path,
            )[t]).0 == xs,
    decreases full_length - current, 1int,
{
    if path.len() == combo_size {
        assert(path =~= xs);
        assert(combinations(full_length, combo_size, current, path)[0].0 == xs);
    } else {
        lemma_combinations_from_listed(full_length, combo_size, current, path, xs, current);
        assert(combinations(full_length, combo_size, current, path) == combinations_from(
            full_length,
            combo_size,
            current,
            path,
            current,
        ));
        let t = choose|t: int|
            0 <= t < combinations_from(full_length, combo_size, current, path, current).len() && (
            #[trigger] combinations_from(full_length, combo_size, current, path, current)[t]).0 == xs;
        assert(combinations(full_length, combo_size, current, path)[t].0 == xs);
    }
}

/// The loop part of `lemma_combination_listed`, from index `i` on.
pub proof fn lemma_combinations_from_listed(
    full_length: int,
    combo_size: int,
    current: int,
    path: Seq<usize>,
    xs: Seq<usize>,
    i: int,
)
    requires
        0 <= current <= i,
        xs.len() == combo_size,
        combo_size < full_length,
        path.len() < combo_size,
        path == xs.subrange(0, path.len() as int),
        forall|j: int| path.len() <= j < combo_size ==> current <= #[trigger] xs[j] < full_length,
        i <= xs[path.len() as int],
        increasing(xs),
    ensures
        exists|t: int|
            0 <= t < combinations_from(full_length, combo_size, current, path, i).len() && (
            #[trigger] combinations_from(full_length, combo_size, current, path, i)[t]).0 == xs,
    decreases full_length - i, 0int,
{
    let x = xs[path.len() as int];
    assert(x < full_length);
    let first = combinations(full_length, combo_size, i + 1, path.push(i as usize));
    let rest = combinations_from(full_length, combo_size, current, path, i + 1);
    assert(combinations_from(full_length, combo_size, current, path, i) == first + rest);
    if i == x {
        let np = path.push(i as usize);
        assert(np =~= xs.subrange(0, np.len() as int));
        assert forall|j: int| np.len() <= j < combo_size implies i + 1 <= #[trigger] xs[j] < full_length by {
            assert(xs[path.len() as int] < xs[j]);
        }
        lemma_combination_listed(full_length, combo_size, i + 1, np, xs);
        let t = choose|t: int| 0 <= t < first.len() && (#[trigger] first[t]).0 == xs;
        assert((first + rest)[t] == first[t]);
    } else {
        lemma_combinations_from_listed(full_length, combo_size, current, path, xs, i + 1);
        let t = choose|t: int| 0 <= t < rest.len() && (#[trigger] rest[t]).0 == xs;
        assert((first + rest)[first.len() + t] == rest[t]);
    }
}

/// The numbers that `complement_upto` lists are below `upto` and not in `path`.
pub proof fn lemma_complement_upto(full: int, path: Seq<usize>, upto: int)
    ensures
        forall|k: int|
            0 <= k < complement_upto(full, path, upto).len() ==> (#[trigger] complement_upto(full, path, upto)[k]) < upto
                && !path.contains(complement_upto(full, path, upto)[k]),
        complement_upto(full, path, upto).len() <= if upto < 0 { 0 } else { upto },
    decreases upto,
{
    if upto > 0 {
        lemma_complement_upto(full, path, upto - 1);
    }
}

/// Every pair that `combinations` produces from a path of increasing indices below
/// `current` holds `combo_size` indices below `full_length` (which exceeds `combo_size`)
/// and the indices below `full_length` left out.
pub proof fn lemma_combinations_shape(full_length: int, combo_size: int, current: int, path: Seq<usize>)
    requires
        0 <= full_length,
        path.len() <= current,
        path.len() <= combo_size,
        path.len() > 0 ==> current <= full_length,
        forall|k: int| 0 <= k < path.len() ==> (#[trigger] path[k]) < current,
    ensures
        forall|q: int|
            0 <= q < combinations(full_length, combo_size, current, path).len() ==> {
                let e = #[trigger] combinations(full_length, combo_size, current, path)[q];
                &&& e.0.len() == combo_size
                &&& combo_size < full_length
                &&& forall|k: int| 0 <= k < e.0.len() ==> (#[trigger] e.0[k]) < full_length
                &&& forall|k: int| 0 <= k < e.1.len() ==> (#[trigger] e.1[k]) < full_length
                &&& e.1.len() <= full_length
            },
    decreases full_length - current, 1int,
{
    if path.len() == full_length {
    } else if path.len() == combo_size {
        lemma_complement_upto(full_length, path, full_length);
        let comp = complement_upto(full_length, path, full_length);
        assert(combinations(full_length, combo_size, current, path) == seq![(path, comp)]);
        assert(combinations(full_length, combo_size, current, path)[0] == (path, comp));
        assert(forall|k: int| 0 <= k < path.len() ==> (#[trigger] path[k]) < full_length);
        assert(combo_size < full_length);
        assert(forall|k: int| 0 <= k < comp.len() ==> (#[trigger] comp[k]) < full_length);
    } else {
        lemma_combinations_from_shape(full_length, combo_size, current, path, current);
        assert(combinations(full_length, combo_size, current, path) == combinations_from(
            full_length,
            combo_size,
            current,
            path,
            current,
        ));
    }
}

pub proof fn lemma_combinations_from_shape(full_length: int, combo_size: int, current: int, path: Seq<usize>, i: int)
    requires
        0 <= full_length,
        path.len() <= current,
        path.len() < combo_size,
        path.len() > 0 ==> current <= full_length,
        forall|k: int| 0 <= k < path.len() ==> (#[trigger] path[k]) < current,
    ensures
        forall|q: int|
            0 <= q < combinations_from(full_length, combo_size, current, path, i).len() ==> {
                let e = #[trigger] combinations_from(full_length, combo_size, current, path, i)[q];
                &&& e.0.len() == combo_size
                &&& combo_size < full_length
                &&& forall|k: int| 0 <= k < e.0.len() ==> (#[trigger] e.0[k]) < full_length
                &&& forall|k: int| 0 <= k < e.1.len() ==> (#[trigger] e.1[k]) < full_length
                &&& e.1.len() <= full_length
            },
    decreases full_length - i, 0int,
{
    if i >= full_length || i < current {
    } else {
        let p2 = path.push(i as usize);
        assert forall|k: int| 0 <= k < p2.len() implies (#[trigger] p2[k]) < i + 1 by {
            if k < path.len() {
                assert(p2[k] == path[k]);
            }
        }
        lemma_combinations_shape(full_length, combo_size, i + 1, p2);
        lemma_combinations_from_shape(full_length, combo_size, current, path, i + 1);
        let a = combinations(full_length, combo_size, i + 1, p2);
        let b = combinations_from(full_length, combo_size, current, path, i + 1);
        assert(combinations_from(full_length, combo_size, current, path, i) == a + b);
        assert forall|q: int| 0 <= q < (a + b).len() implies {
            let e = #[trigger] (a + b)[q];
            &&& e.0.len() == combo_size
            &&& combo_size < full_length
            &&& forall|k: int| 0 <= k < e.0.len() ==> (#[trigger] e.0[k]) < full_length
            &&& forall|k: int| 0 <= k < e.1.len() ==> (#[trigger] e.1[k]) < full_length
            &&& e.1.len() <= full_length
        } by {
            if q < a.len() {
                assert((a + b)[q] == a[q]);
                let e = a[q];
                assert(e.0.len() == combo_size);
            } else {
                assert((a + b)[q] == b[q - a.len()]);
                let e = b[q - a.len()];
                assert(e.0.len() == combo_size);
            }
        }
    }
}

/// Whether the indices increase strictly.
pub open spec fn increasing(path: Seq<usize>) -> bool {
    forall|a: int, b: int| 0 <= a < b < path.len() ==> #[trigger] path[a] < #[trigger] path[b]
}

/// Each pair of `combinations` is an increasing index set with the indices it leaves out.
pub proof fn lemma_combinations_parts(full_length: int, combo_size: int, current: int, path: Seq<usize>)
    requires
        0 <= current,
        full_length <= usize::MAX,
        increasing(path),
        forall|k: int| 0 <= k < path.len() ==> (#[trigger] path[k]) < current,
    ensures
        forall|q: int|
            0 <= q < combinations(full_length, combo_size, current, path).len() ==> {
                let e = #[trigger] combinations(full_length, combo_size, current, path)[q];
                &&& increasing(e.0)
                &&& e.1 == complement_upto(full_length, e.0, full_length)
            },
    decreases full_length - current, 1int,
{
    if path.len() == full_length {
    } else if path.len() == combo_size {
        let comp = complement_upto(full_length, path, full_length);
        assert(combinations(full_length, combo_size, current, path)[0] == (path, comp));
    } else {
        lemma_combinations_from_parts(full_length, combo_size, current, path, current);
        assert(combinations(full_length, combo_size, current, path) == combinations_from(
            full_length,
            combo_size,
            current,
            path,
            current,
        ));
    }
}

pub proof fn lemma_combinations_from_parts(full_length: int, combo_size: int, current: int, path: Seq<usize>, i: int)
    requires
        0 <= current,
        full_length <= usize::MAX,
        increasing(path),
        forall|k: int| 0 <= k < path.len() ==> (#[trigger] path[k]) < current,
    ensures
        forall|q: int|
            0 <= q < combinations_from(full_length, combo_size, current, path, i).len() ==> {
                let e = #[trigger] combinations_from(full_length, combo_size, current, path, i)[q];
                &&& increasing(e.0)
                &&& e.1 == complement_upto(full_length, e.0, full_length)
            },
    decreases full_length - i, 0int,
{
    if i >= full_length || i < current {
    } else {
        let p2 = path.push(i as usize);
        assert forall|k: int| 0 <= k < p2.len() implies (#[trigger] p2[k]) < i + 1 by {
            if k < path.len() {
                assert(p2[k] == path[k]);
            }
        }
        assert forall|a: int, b: int| 0 <= a < b < p2.len() implies #[trigger] p2[a] < #[trigger] p2[b] by {
            assert(p2[a] == path[a]);
            if b < path.len() {
                assert(p2[b] == path[b]);
            } else {
                assert(p2[b] == i as usize);
                assert(path[a] < current);
            }
        }
        lemma_combinations_parts(full_length, combo_size, i + 1, p2);
        lemma_combinations_from_parts(full_length, combo_size, current, path, i + 1);
        let a = combinations(full_length, combo_size, i + 1, p2);
        let b = combinations_from(full_length, combo_size, current, path, i + 1);
        assert(combinations_from(full_length, combo_size, current, path, i) == a + b);
        assert forall|q: int| 0 <= q < (a + b).len() implies {
            let e = #[trigger] (a + b)[q];
            &&& increasing(e.0)
            &&& e.1 == complement_upto(full_length, e.0, full_length)
        } by {
            if q < a.len() {
                assert((a + b)[q] == a[q]);
            } else {
                assert((a + b)[q] == b[q - a.len()]);
            }
        }
    }
}

/// How many of the indices below `u` occur in `path`.
pub open spec fn count_below(path: Seq<usize>, u: int) -> int
    decreases u,
{
    if u <= 0 {
        0
    } else {
        count_below(path, u - 1) + if path.contains((u - 1) as usize) {
            1int
        } else {
            0int
        }
    }
}

/// The indices below `u` split into those of `path` and those of its complement.
pub proof fn lemma_complement_count(full: int, path: Seq<usize>, u: int)
    requires
        0 <= u <= usize::MAX,
    ensures
        complement_upto(full, path, u).len() + count_below(path, u) == u,
        increasing(complement_upto(full, path, u)),
        forall|k: int| 0 <= k < complement_upto(full, path, u).len() ==> (#[trigger] complement_upto(full, path, u)[k]) < u,
    decreases u,
{
    if u > 0 {
        lemma_complement_count(full, path, u - 1);
        let prev = complement_upto(full, path, u - 1);
        let cur = complement_upto(full, path, u);
        assert forall|a: int, b: int| 0 <= a < b < cur.len() implies #[trigger] cur[a] < #[trigger] cur[b] by {
            assert(cur[a] == prev[a]);
            if b < prev.len() {
                assert(cur[b] == prev[b]);
            } else {
                assert(cur[b] == (u - 1) as usize);
                assert(prev[a] < u - 1);
            }
        }
        assert forall|k: int| 0 <= k < cur.len() implies (#[trigger] cur[k]) < u by {
            if k < prev.len() {
                assert(cur[k] == prev[k]);
            } else {
                assert(cur[k] == (u - 1) as usize);
            }
        }
    }
}

/// An increasing list of indices below `u` has as many members below `u` as it has items.
pub proof fn lemma_count_below_all(path: Seq<usize>, u: int)
    requires
        increasing(path),
        forall|k: int| 0 <= k < path.len() ==> (#[trigger] path[k]) < u,
        0 <= u <= usize::MAX + 1,
    ensures
        count_below(path, u) == path.len(),
    decreases path.len(),
{
    if path.len() > 0 {
        let p = path.drop_last();
        let x = path.last();
        assert forall|a: int, b: int| 0 <= a < b < p.len() implies #[trigger] p[a] < #[trigger] p[b] by {
            assert(p[a] == path[a] && p[b] == path[b]);
        }
        assert forall|k: int| 0 <= k < p.len() implies (#[trigger] p[k]) < x by {
            assert(p[k] == path[k]);
            assert(path[k] < path[path.len() - 1]);
        }
        assert(!p.contains(x)) by {
            if p.contains(x) {
                let j = choose|j: int| 0 <= j < p.len() && p[j] == x;
                assert(p[j] < x);
            }
        }
        assert(x < u);
        lemma_count_below_all(p, x as int);
        lemma_count_below_stable(p, x as int, u);
        lemma_count_below_split(p, x, u);
        assert(p.push(x) =~= path);
        assert(count_below(path, u) == count_below(p, u) + 1);
    } else {
        lemma_count_below_stable(path, 0, u);
    }
}

/// Counting below `u` in `p` with `x` appended adds one when `x < u`, given `x` is new.
pub proof fn lemma_count_below_split(p: Seq<usize>, x: usize, u: int)
    requires
        !p.contains(x),
        u <= usize::MAX + 1,
    ensures
        count_below(p.push(x), u) == count_below(p, u) + if x < u { 1int } else { 0int },
    decreases u,
{
    if u > 0 {
        lemma_count_below_split(p, x, u - 1);
        let y = (u - 1) as usize;
        let q = p.push(x);
        assert(q.contains(y) == (p.contains(y) || x == y)) by {
            if q.contains(y) {
                let j = choose|j: int| 0 <= j < q.len() && q[j] == y;
                if j < p.len() {
                    assert(p[j] == y);
                }
            }
            if p.contains(y) {
                let j = choose|j: int| 0 <= j < p.len() && p[j] == y;
                assert(q[j] == y);
            }
            if x == y {
                assert(q[p.len() as int] == y);
            }
        }
        assert(y as int == u - 1);
    }
}

/// Past the largest item, counting further finds nothing new.
pub proof fn lemma_count_below_stable(p: Seq<usize>, x: int, u: int)
    requires
        forall|k: int| 0 <= k < p.len() ==> (#[trigger] p[k]) < x,
        0 <= x <= u,
        u <= usize::MAX + 1,
    ensures
        count_below(p, u) == count_below(p, x),
    decreases u,
{
    if u > x {
        lemma_count_below_stable(p, x, u - 1);
        let y = (u - 1) as usize;
        assert(y as int == u - 1);
        if p.contains(y) {
            let j = choose|j: int| 0 <= j < p.len() && p[j] == y;
            assert(p[j] < x);
        }
    }
}

/// The views of a list of `(combination, rest)` pairs.
pub open spec fn combo_views(v: Seq<(Vec<usize>, Vec<usize>)>) -> Seq<(Seq<usize>, Seq<usize>)> {
    v.map_values(|p: (Vec<usize>, Vec<usize>)| (p.0@, p.1@))
}

/// Appends to `all_combinations` every way to extend `path` to `combo_size` increasing
/// indices from `current..full_length`, each with the indices below `full_length` it leaves
/// out.
pub fn generate_combinations(
    full_length: usize,
    combo_size: usize,
    current: usize,
    path: &mut Vec<usize>,
    all_combinations: &mut Vec<(Vec<usize>, Vec<usize>)>,
)
    ensures
        final(path)@ == old(path)@,
        combo_views(final(all_combinations)@) == combo_views(old(all_combinations)@) + combinations(
            full_length as int,
            combo_size as int,
            current as int,
            old(path)@,
        ),
    decreases full_length - current, 1int,
{
    if path.len() == full_length {
        return;
    }
    if path.len() == combo_size {
        let mut remaining: Vec<usize> = Vec::new();
        let mut i: usize = 0;
        while i < full_length
            invariant
                i <= full_length,
                remaining@ == complement_upto(full_length as int, path@, i as int),
            decreases full_length - i,
        {
            if !vec_contains(path, i) {
                remaining.push(i);
            }
            i = i + 1;
        }
        let copy = copy_indices(path);
        let ghost before = all_combinations@;
        all_combinations.push((copy, remaining));
        proof {
            assert(combo_views(all_combinations@) =~= combo_views(before) + seq![(path@, remaining@)]);
        }
        return;
    }
    let ghost start_path = path@;
    let ghost start_all = combo_views(all_combinations@);
    let mut i: usize = current;
    while i < full_length
        invariant
            current <= i <= full_length || (i == current && current > full_length),
            path@ == start_path,
            start_path.len() != full_length,
            start_path.len() != combo_size,
            combo_views(all_combinations@) + combinations_from(
                full_length as int,
                combo_size as int,
                current as int,
                start_path,
                i as int,
            ) == start_all + combinations_from(
                full_length as int,
                combo_size as int,
                current as int,
                start_path,
                current as int,
            ),
        decreases full_length - i,
    {
        let ghost before = combo_views(all_combinations@);
        path.push(i);
        generate_combinations(full_length, combo_size, i + 1, path, all_combinations);
        path.pop();
        proof {
            assert(path@ =~= start_path);
            let this = combinations(full_length as int, combo_size as int, i + 1, start_path.push(i));
            let next = combinations_from(full_length as int, combo_size as int, current as int, start_path, i + 1);
            assert(combinations_from(full_length as int, combo_size as int, current as int, start_path, i as int) == this
                + next);
            assert(before + (this + next) =~= (before + this) + next);
        }
        i = i + 1;
    }
    proof {
        assert(combinations_from(full_length as int, combo_size as int, current as int, start_path, i as int)
            =~= Seq::<(Seq<usize>, Seq<usize>)>::empty());
        assert(combo_views(all_combinations@) + Seq::<(Seq<usize>, Seq<usize>)>::empty() =~= combo_views(
            all_combinations@,
        ));
    }
}

/// A copy of a list of indices.
fn copy_indices(v: &Vec<usize>) -> (ret: Vec<usize>)
    ensures
        ret@ == v@,
{
    let mut ret: Vec<usize> = Vec::new();
    let mut i: usize = 0;
    while i < v.len()
        invariant
            i <= v@.len(),
            ret@ == v@.subrange(0, i as int),
        decreases v@.len() - i,
    {
        ret.push(v[i]);
        proof {
            assert(ret@ =~= v@.subrange(0, i + 1));
        }
        i = i + 1;
    }
    proof {
        assert(ret@ =~= v@);
    }
    ret
}

/// Each position paired with the single digit `v`.
pub open spec fn with_value(s: Seq<Coords>, v: u8) -> Seq<(Coords, Seq<u8>)> {
    s.map_values(|p: Coords| (p, seq![v]))
}

/// What setting `value` at `coords` lets one conclude: the value is to be removed from the
/// draft cells of the same column, row and grid that have it as a candidate; `None` when
/// there are none.
pub open spec fn simple_conclusion(cells: Seq<Cell>, coords: Coords, value: u8) -> Option<Seq<(Coords, Seq<u8>)>> {
    let peers = range_concat(0, 9, peer_coords_with(cells, coords.r as int, coords.c as int, coords.g as int, value));
    if peers.len() > 0 {
        Some(with_value(peers, value))
    } else {
        None
    }
}

/// The conclusion entries of setting `value` at `coords`: the value is to be removed from
/// the draft cells of the same column, row and grid that have it as a candidate. `None`
/// when there are none.
pub fn make_simple_conclusion_when_set_value(field: &Sudoku, coords: &Coords, value: u8) -> (ret: Option<
    Vec<TheCoordsAndTheValue>,
>)
    requires
        field.wf(),
        coords.r < 9,
        coords.c < 9,
        coords.g < 9,
        value < 16 || crate::types::no_draft_peer(field@, coords.r as int, coords.c as int, coords.g as int),
    ensures
        opt_entry_views(ret) == simple_conclusion(field@, *coords, value),
{
    let all = field.collect_all_drafts_coords_by_coords_and_value(*coords, value);
    let mut ret: Vec<TheCoordsAndTheValue> = Vec::new();
    let mut i: usize = 0;
    while i < all.len()
        invariant
            i <= all@.len(),
            ret@.len() == i,
            entry_views(ret@) == with_value(all@.subrange(0, i as int), value),
        decreases all@.len() - i,
    {
        let ghost before = ret@;
        ret.push(create_simple_cell_and_value(all[i], value));
        proof {
            let target = with_value(all@.subrange(0, i + 1), value);
            assert forall|k: int| 0 <= k < i + 1 implies #[trigger] entry_views(ret@)[k] == target[k] by {
                if k < i {
                    assert(ret@[k] == before[k]);
                    assert(entry_views(before)[k] == with_value(all@.subrange(0, i as int), value)[k]);
                }
            }
            assert(entry_views(ret@) =~= target);
        }
        i = i + 1;
    }
    proof {
        assert(all@.subrange(0, all@.len() as int) =~= all@);
    }
    if !ret.is_empty() {
        Some(ret)
    } else {
        None
    }
}

/// The entry stating value `v` at `coords`.
pub fn create_simple_cell_and_value(coords: Coords, v: u8) -> (ret: TheCoordsAndTheValue)
    ensures
        ret@ == (coords, seq![v]),
{
    let ret = TheCoordsAndTheValue { the_coords: coords, the_value: vec![v] };
    proof {
        assert(ret.the_value@ =~= seq![v]);
    }
    ret
}

/// A kind of unit of the board.
#[derive(Debug, PartialEq, Eq, Structural, Clone, Copy)]
pub enum IterDirection {
    Row,
    Column,
    Grid,
}

/// The row/column position at index `one_index` of the unit and `other_index` within it;
/// for rows and columns only.
pub fn get_rc_coord_with_direction(one_index: usize, other_index: usize, direction: &IterDirection) -> (ret:
    RCCoords)
    requires
        *direction != IterDirection::Grid,
    ensures
        *direction == IterDirection::Row ==> ret == (RCCoords { r: one_index, c: other_index }),
        *direction == IterDirection::Column ==> ret == (RCCoords { r: other_index, c: one_index }),
{
    match direction {
        IterDirection::Row => RCCoords { r: one_index, c: other_index },
        IterDirection::Column => RCCoords { r: other_index, c: one_index },
        IterDirection::Grid => vstd::pervasive::unreached(),
    }
}

/// The index of the unit (row or column) that position `rc` lies in.
pub fn get_rc_index_with_direction(rc: RCCoords, direction: &IterDirection) -> (ret: usize)
    requires
        *direction != IterDirection::Grid,
    ensures
        *direction == IterDirection::Row ==> ret == rc.r,
        *direction == IterDirection::Column ==> ret == rc.c,
{
    match direction {
        IterDirection::Row => rc.r,
        IterDirection::Column => rc.c,
        IterDirection::Grid => vstd::pervasive::unreached(),
    }
}

/// The index of the unit of the given kind that `coords` lies in.
pub fn get_one_index_with_direction(coords: Coords, direction: &IterDirection) -> (ret: usize)
    ensures
        ret == match *direction {
            IterDirection::Row => coords.r,
            IterDirection::Column => coords.c,
            IterDirection::Grid => coords.g,
        },
{
    let Coords { r, c, g, n: _ } = coords;
    match direction {
        IterDirection::Row => r,
        IterDirection::Column => c,
        IterDirection::Grid => g,
    }
}

/// The position of `coords` within its unit of the given kind.
pub fn get_other_index_with_direction(coords: Coords, direction: &IterDirection) -> (ret: usize)
    ensures
        ret == match *direction {
            IterDirection::Row => coords.c,
            IterDirection::Column => coords.r,
            IterDirection::Grid => coords.n,
        },
{
    let Coords { r, c, g: _, n } = coords;
    match direction {
        IterDirection::Row => c,
        IterDirection::Column => r,
        IterDirection::Grid => n,
    }
}

/// The full coordinates of the cell at position `other_index` of unit `one_index`.
pub fn get_coords_with_direction(one_index: usize, other_index: usize, direction: &IterDirection) -> (ret: Coords)
    ensures
        ret == match *direction {
            IterDirection::Row => crate::types::spec_coords_of_rc(RCCoords { r: one_index, c: other_index }),
            IterDirection::Column => crate::types::spec_coords_of_rc(RCCoords { r: other_index, c: one_index }),
            IterDirection::Grid => crate::types::spec_coords_of_gn(GNCoords { g: one_index, n: other_index }),
        },
{
    match direction {
        IterDirection::Row => Coords::from(RCCoords { r: one_index, c: other_index }),
        IterDirection::Column => Coords::from(RCCoords { r: other_index, c: one_index }),
        IterDirection::Grid => Coords::from(GNCoords { g: one_index, n: other_index }),
    }
}

} // verus!
