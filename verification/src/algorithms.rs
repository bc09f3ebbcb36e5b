//! Next Fit, First Fit, Best Fit, their decreasing variants, the bin-count
//! variants and the L2 lower bound.

use vstd::prelude::*;
use vstd::slice::slice_to_vec;
use vstd::relations::sorted_by;
use crate::sorting::{decreasing, sort_decreasing, larger_first, lemma_larger_first_total};
use crate::bounds::{
    wsum, size_weight, large_weight, medium_weight, total_size, large_count, medium_size,
    ceil_div, l1_bound, l2_at, is_cut, is_l2_bound, l2_bound, lemma_l2_bound_unique,
    lemma_wsum_bounds, lemma_wsum_take,
};
use crate::packing::{
    CAPACITY, Solution, PackState, fits, place, next_fit_state, first_fit_state, best_fit_state,
    first_fitting, best_fitting, lemma_first_fit_bin, place_residual, next_fit_residuals,
    first_fit_residuals, best_fit_residuals,
    lemma_first_fit_none, lemma_best_fit_bin, lemma_best_fit_none,
};

verus! {

/// Next Fit: keeps a single bin open. When the item does not fit, closes
/// the bin and opens another. O(n) — never reopens a closed bin. Bin 0 is
/// open from the start, so an instance with no items reports 1 (empty) bin.
pub fn next_fit(items: &[u64]) -> (sol: Solution)
    ensures
        sol.holds(next_fit_state(items@)),
{
    let mut sol = Solution::new();
    let mut residual: i128 = CAPACITY as i128;
    let mut current: usize = 0;
    let n = items.len();
    let mut i: usize = 0;
    while i < n
        invariant
            n == items@.len(),
            0 <= i <= n,
            current == sol.residual@.len(),
            current <= i,
            sol@.assignment == next_fit_state(items@.take(i as int)).assignment,
            sol@.residual.push(residual as int) == next_fit_state(items@.take(i as int)).residual,
        decreases n - i,
    {
        let x = items[i];
        assert(items@.take(i as int + 1).drop_last() =~= items@.take(i as int));
        if (x as i128) <= residual {
            residual = residual - x as i128;
        } else {
            sol.residual.push(residual);
            current = current + 1;
            residual = CAPACITY as i128 - x as i128;
        }
        sol.assignment.push(current);
        i = i + 1;
        assert(sol@.assignment =~= next_fit_state(items@.take(i as int)).assignment);
        assert(sol@.residual.push(residual as int) =~= next_fit_state(items@.take(i as int)).residual);
    }
    sol.residual.push(residual);
    sol.bins = sol.residual.len();
    assert(items@.take(n as int) =~= items@);
    assert(sol@ =~= next_fit_state(items@));
    sol
}

/// Packs `x` into bin `b` of `sol`, or into a new bin when `b` is past the
/// opened bins.
fn place_item(sol: &mut Solution, x: u64, b: usize)
    requires
        old(sol)@.assignment.len() < usize::MAX,
        b < old(sol)@.residual.len() ==> fits(x as int, old(sol)@.residual[b as int]),
    ensures
        final(sol)@ == place(old(sol)@, x as int, b as int),
        final(sol).bins == old(sol).bins,
{
    let m = sol.residual.len();
    if b < m {
        let r = sol.residual[b];
        sol.residual[b] = r - x as i128;
        sol.assignment.push(b);
    } else {
        sol.residual.push(CAPACITY as i128 - x as i128);
        sol.assignment.push(m);
    }
    assert(sol@ =~= place(old(sol)@, x as int, b as int));
}

/// First Fit: puts the item in the FIRST bin (in order of opening) where
/// it fits; opens a new one when needed. O(n²) in the direct form.
pub fn first_fit(items: &[u64]) -> (sol: Solution)
    ensures
        sol.holds(first_fit_state(items@)),
{
    let mut sol = Solution::new();
    let n = items.len();
    let mut i: usize = 0;
    assert(items@.take(0) =~= Seq::<u64>::empty());
    while i < n
        invariant
            n == items@.len(),
            0 <= i <= n,
            sol@ == first_fit_state(items@.take(i as int)),
            sol@.assignment.len() == i,
        decreases n - i,
    {
        let x = items[i];
        assert(items@.take(i as int + 1).drop_last() =~= items@.take(i as int));
        let ghost s = sol@;
        let m = sol.residual.len();
        let mut b: usize = 0;
        while b < m
            invariant_except_break
                forall|j: int| 0 <= j < b ==> !fits(x as int, #[trigger] s.residual[j]),
            invariant
                0 <= b <= m,
                m == s.residual.len(),
                sol@ == s,
            ensures
                b < m ==> first_fitting(s.residual, x as int, b as int),
                b >= m ==> forall|j: int| 0 <= j < m ==> !fits(x as int, #[trigger] s.residual[j]),
            decreases m - b,
        {
            if (x as i128) <= sol.residual[b] {
                break;
            }
            b = b + 1;
        }
        proof {
            if b < m {
                lemma_first_fit_bin(s.residual, x as int, b as int);
            } else {
                lemma_first_fit_none(s.residual, x as int);
            }
        }
        place_item(&mut sol, x, b);
        i = i + 1;
    }
    sol.bins = sol.residual.len();
    assert(items@.take(n as int) =~= items@);
    sol
}

/// Best Fit: puts the item in the bin with the LEAST capacity left among
/// those where it still fits (minimises the wasted space). O(n²) direct.
pub fn best_fit(items: &[u64]) -> (sol: Solution)
    ensures
        sol.holds(best_fit_state(items@)),
{
    let mut sol = Solution::new();
    let n = items.len();
    let mut i: usize = 0;
    assert(items@.take(0) =~= Seq::<u64>::empty());
    while i < n
        invariant
            n == items@.len(),
            0 <= i <= n,
            sol@ == best_fit_state(items@.take(i as int)),
            sol@.assignment.len() == i,
        decreases n - i,
    {
        let x = items[i];
        assert(items@.take(i as int + 1).drop_last() =~= items@.take(i as int));
        let ghost s = sol@;
        let m = sol.residual.len();
        let mut best: Option<usize> = None;
        let mut best_residual: i128 = 0;
        let mut b: usize = 0;
        while b < m
            invariant
                0 <= b <= m,
                m == s.residual.len(),
                sol@ == s,
                best is None ==> forall|j: int| 0 <= j < b ==> !fits(x as int, #[trigger] s.residual[j]),
                best matches Some(k) ==> {
                    &&& k < b
                    &&& best_residual == s.residual[k as int]
                    &&& fits(x as int, s.residual[k as int])
                    &&& forall|j: int| 0 <= j < b && fits(x as int, #[trigger] s.residual[j])
                        ==> s.residual[k as int] <= s.residual[j]
                    &&& forall|j: int| 0 <= j < k && fits(x as int, #[trigger] s.residual[j])
                        ==> s.residual[k as int] < s.residual[j]
                },
            decreases m - b,
        {
            let r = sol.residual[b];
            if (x as i128) <= r && (best.is_none() || r < best_residual) {
                best = Some(b);
                best_residual = r;
            }
            b = b + 1;
        }
        let target = match best {
            Some(k) => {
                proof { lemma_best_fit_bin(s.residual, x as int, k as int); }
                k
            },
            None => {
                proof { lemma_best_fit_none(s.residual, x as int); }
                m
            },
        };
        place_item(&mut sol, x, target);
        i = i + 1;
    }
    sol.bins = sol.residual.len();
    assert(items@.take(n as int) =~= items@);
    sol
}


/// First Fit Decreasing: sorts the items in non-increasing order and applies
/// First Fit. The assignment follows the sorted order.
pub fn first_fit_decreasing(items: &[u64]) -> (sol: Solution)
    ensures
        sol.holds(first_fit_state(decreasing(items@))),
{
    let mut sorted = slice_to_vec(items);
    sort_decreasing(&mut sorted);
    first_fit(sorted.as_slice())
}

/// Best Fit Decreasing: sorts the items in non-increasing order and applies
/// Best Fit. The assignment follows the sorted order.
pub fn best_fit_decreasing(items: &[u64]) -> (sol: Solution)
    ensures
        sol.holds(best_fit_state(decreasing(items@))),
{
    let mut sorted = slice_to_vec(items);
    sort_decreasing(&mut sorted);
    best_fit(sorted.as_slice())
}

/// The capacities left as integers.
pub open spec fn residual_view(v: Seq<i128>) -> Seq<int> {
    Seq::new(v.len(), |i: int| v[i] as int)
}

/// Next Fit, counting bins only (1 for an instance with no items).
pub fn next_fit_bins(items: &[u64]) -> (bins: usize)
    requires
        items@.len() < usize::MAX,
    ensures
        bins == next_fit_residuals(items@).len(),
{
    let mut bins: usize = 1;
    let mut residual: i128 = CAPACITY as i128;
    let n = items.len();
    let mut i: usize = 0;
    while i < n
        invariant
            n == items@.len(),
            0 <= i <= n,
            n < usize::MAX,
            1 <= bins <= i + 1,
            bins == next_fit_residuals(items@.take(i as int)).len(),
            residual == next_fit_residuals(items@.take(i as int)).last(),
        decreases n - i,
    {
        let x = items[i];
        assert(items@.take(i as int + 1).drop_last() =~= items@.take(i as int));
        if (x as i128) <= residual {
            residual = residual - x as i128;
        } else {
            bins = bins + 1;
            residual = CAPACITY as i128 - x as i128;
        }
        i = i + 1;
    }
    assert(items@.take(n as int) =~= items@);
    bins
}

/// Packs `x` into bin `b` of the capacities `residual`, or into a new bin
/// when `b` is past the opened bins.
fn place_in(residual: &mut Vec<i128>, x: u64, b: usize)
    requires
        b < old(residual)@.len() ==> fits(x as int, old(residual)@[b as int] as int),
    ensures
        residual_view(final(residual)@) == place_residual(residual_view(old(residual)@), x as int, b as int),
{
    if b < residual.len() {
        let r = residual[b];
        residual[b] = r - x as i128;
    } else {
        residual.push(CAPACITY as i128 - x as i128);
    }
    assert(residual_view(residual@) =~= place_residual(residual_view(old(residual)@), x as int, b as int));
}

/// First Fit, counting bins only.
pub fn first_fit_bins(items: &[u64]) -> (bins: usize)
    ensures
        bins == first_fit_residuals(items@).len(),
{
    let mut residual: Vec<i128> = Vec::with_capacity(items.len());
    let n = items.len();
    let mut i: usize = 0;
    assert(items@.take(0) =~= Seq::<u64>::empty());
    assert(residual_view(residual@) =~= Seq::<int>::empty());
    while i < n
        invariant
            n == items@.len(),
            0 <= i <= n,
            residual_view(residual@) == first_fit_residuals(items@.take(i as int)),
        decreases n - i,
    {
        let x = items[i];
        assert(items@.take(i as int + 1).drop_last() =~= items@.take(i as int));
        let ghost s = residual_view(residual@);
        let m = residual.len();
        let mut b: usize = 0;
        while b < m
            invariant_except_break
                forall|j: int| 0 <= j < b ==> !fits(x as int, #[trigger] s[j]),
            invariant
                0 <= b <= m,
                m == s.len(),
                residual_view(residual@) == s,
            ensures
                b < m ==> first_fitting(s, x as int, b as int),
                b >= m ==> forall|j: int| 0 <= j < m ==> !fits(x as int, #[trigger] s[j]),
            decreases m - b,
        {
            if (x as i128) <= residual[b] {
                break;
            }
            b = b + 1;
        }
        proof {
            if b < m {
                lemma_first_fit_bin(s, x as int, b as int);
            } else {
                lemma_first_fit_none(s, x as int);
            }
        }
        place_in(&mut residual, x, b);
        i = i + 1;
    }
    assert(items@.take(n as int) =~= items@);
    residual.len()
}

/// Best Fit, counting bins only. A first pass finds the least capacity left
/// among the bins where the item fits; a second pass finds the first bin
/// with that capacity.
pub fn best_fit_bins(items: &[u64]) -> (bins: usize)
    ensures
        bins == best_fit_residuals(items@).len(),
{
    let mut residual: Vec<i128> = Vec::with_capacity(items.len());
    let n = items.len();
    let mut i: usize = 0;
    assert(items@.take(0) =~= Seq::<u64>::empty());
    assert(residual_view(residual@) =~= Seq::<int>::empty());
    while i < n
        invariant
            n == items@.len(),
            0 <= i <= n,
            residual_view(residual@) == best_fit_residuals(items@.take(i as int)),
        decreases n - i,
    {
        let x = items[i];
        assert(items@.take(i as int + 1).drop_last() =~= items@.take(i as int));
        let ghost s = residual_view(residual@);
        let m = residual.len();
        let mut best_r: Option<i128> = None;
        let mut b: usize = 0;
        while b < m
            invariant
                0 <= b <= m,
                m == s.len(),
                residual_view(residual@) == s,
                best_r is None ==> forall|j: int| 0 <= j < b ==> !fits(x as int, #[trigger] s[j]),
                best_r matches Some(v) ==> {
                    &&& fits(x as int, v as int)
                    &&& exists|k: int| 0 <= k < b && s[k] == v
                    &&& forall|j: int| 0 <= j < b && fits(x as int, #[trigger] s[j]) ==> v <= s[j]
                },
            decreases m - b,
        {
            let r = residual[b];
            assert(s[b as int] == r);
            if (x as i128) <= r {
                best_r = match best_r {
                    Some(v) => if r < v { Some(r) } else { Some(v) },
                    None => Some(r),
                };
            }
            b = b + 1;
        }
        let target = match best_r {
            Some(v) => {
                let mut p: usize = 0;
                while p < m && residual[p] != v
                    invariant
                        0 <= p <= m,
                        m == s.len(),
                        residual_view(residual@) == s,
                        exists|k: int| 0 <= k < m && s[k] == v,
                        forall|j: int| 0 <= j < p ==> s[j] != v,
                    decreases m - p,
                {
                    p = p + 1;
                }
                proof {
                    assert(p < m);
                    assert(best_fitting(s, x as int, p as int));
                    lemma_best_fit_bin(s, x as int, p as int);
                }
                p
            },
            None => {
                proof { lemma_best_fit_none(s, x as int); }
                m
            },
        };
        place_in(&mut residual, x, target);
        i = i + 1;
    }
    assert(items@.take(n as int) =~= items@);
    residual.len()
}

/// First Fit Decreasing, counting bins only.
pub fn first_fit_decreasing_bins(items: &[u64]) -> (bins: usize)
    ensures
        bins == first_fit_residuals(decreasing(items@)).len(),
{
    let mut sorted = slice_to_vec(items);
    sort_decreasing(&mut sorted);
    first_fit_bins(sorted.as_slice())
}

/// Best Fit Decreasing, counting bins only.
pub fn best_fit_decreasing_bins(items: &[u64]) -> (bins: usize)
    ensures
        bins == best_fit_residuals(decreasing(items@)).len(),
{
    let mut sorted = slice_to_vec(items);
    sort_decreasing(&mut sorted);
    best_fit_bins(sorted.as_slice())
}


/// Sum of the sizes, in units.
pub fn sum_sizes(items: &[u64]) -> (total: u128)
    ensures
        total == total_size(items@),
{
    let n = items.len();
    let mut total: u128 = 0;
    let mut i: usize = 0;
    assert(items@.take(0) =~= Seq::<u64>::empty());
    while i < n
        invariant
            n == items@.len(),
            0 <= i <= n,
            total == wsum(items@.take(i as int), size_weight()),
        decreases n - i,
    {
        proof {
            lemma_wsum_take(items@, size_weight(), i as int);
            lemma_wsum_bounds(items@.take(i as int), size_weight(), u64::MAX as int);
            assert((i as int) * (u64::MAX as int) + (u64::MAX as int) <= u128::MAX) by (nonlinear_arith)
                requires
                    0 <= i < usize::MAX,
            ;
        }
        total = total + items[i] as u128;
        i = i + 1;
    }
    assert(items@.take(n as int) =~= items@);
    total
}

/// `ceil(a / CAPACITY)`.
fn ceil_bins(a: u128) -> (q: u128)
    ensures
        q == ceil_div(a as int, CAPACITY as int),
{
    let c = CAPACITY as u128;
    if a % c == 0 {
        a / c
    } else {
        a / c + 1
    }
}

/// The number of items larger than `CAPACITY - alpha`, and the sum of the
/// sizes in `[alpha, CAPACITY - alpha]`.
fn cut_measures(items: &[u64], alpha: u64) -> (r: (u128, u128))
    ensures
        r.0 == large_count(items@, alpha as int),
        r.1 == medium_size(items@, alpha as int),
{
    let n = items.len();
    let mut large: u128 = 0;
    let mut medium: u128 = 0;
    let mut i: usize = 0;
    assert(items@.take(0) =~= Seq::<u64>::empty());
    while i < n
        invariant
            n == items@.len(),
            0 <= i <= n,
            large == wsum(items@.take(i as int), large_weight(alpha as int)),
            medium == wsum(items@.take(i as int), medium_weight(alpha as int)),
        decreases n - i,
    {
        let s = items[i];
        proof {
            lemma_wsum_take(items@, large_weight(alpha as int), i as int);
            lemma_wsum_take(items@, medium_weight(alpha as int), i as int);
            lemma_wsum_bounds(items@.take(i as int), large_weight(alpha as int), 1);
            lemma_wsum_bounds(items@.take(i as int), medium_weight(alpha as int), CAPACITY as int);
            assert((i as int) * (CAPACITY as int) + (CAPACITY as int) <= u128::MAX) by (nonlinear_arith)
                requires
                    0 <= i < usize::MAX,
            ;
        }
        if s as u128 + alpha as u128 > CAPACITY as u128 {
            large = large + 1;
        }
        if alpha <= s && s as u128 + alpha as u128 <= CAPACITY as u128 {
            medium = medium + s as u128;
        }
        i = i + 1;
    }
    assert(items@.take(n as int) =~= items@);
    (large, medium)
}

/// Candidate cuts alpha: half a bin (always — it catches the items larger
/// than half a bin, which need a bin each) and the item sizes strictly
/// between 0 and half a bin; the maximum of L2 is reached at these points.
/// Ascending, without repeats.
fn candidate_alphas(items: &[u64]) -> (cands: Vec<u64>)
    ensures
        forall|i: int, j: int| 0 <= i < j < cands@.len() ==> cands@[i] < cands@[j],
        forall|a: u64| #[trigger] cands@.contains(a) <==> is_cut(items@, a as int),
{
    let half: u64 = CAPACITY / 2;
    let mut sorted = slice_to_vec(items);
    sort_decreasing(&mut sorted);
    proof {
        broadcast use vstd::seq_lib::group_to_multiset_ensures;
        lemma_larger_first_total();
        items@.lemma_sort_by_ensures(larger_first());
        assert forall|a: u64| sorted@.contains(a) <==> items@.contains(a) by {
            assert(sorted@.to_multiset().count(a) == items@.to_multiset().count(a));
        }
    }
    let ghost srt = sorted@;
    assert(sorted_by(srt, larger_first()));
    let n = sorted.len();
    let mut cands: Vec<u64> = Vec::new();
    let mut j: usize = n;
    while j > 0
        invariant
            n == srt.len(),
            sorted@ == srt,
            sorted_by(srt, larger_first()),
            0 <= j <= n,
            forall|i: int, k: int| 0 <= i < k < cands@.len() ==> cands@[i] < cands@[k],
            forall|i: int| #![trigger cands@[i]] 0 <= i < cands@.len() ==> exists|t: int| j <= t < n && #[trigger] srt[t] == cands@[i],
            forall|a: u64| #[trigger] cands@.contains(a) <==>
                (0 < a < half && exists|t: int| j <= t < n && srt[t] == a),
        decreases j,
    {
        j = j - 1;
        let s = sorted[j];
        let ghost old_c = cands@;
        let ghost qualifies = 0 < s < half;
        if 0 < s && s < half {
            let m = cands.len();
            if m == 0 || cands[m - 1] != s {
                proof {
                    if m > 0 {
                        let t = choose|t: int| j + 1 <= t < n && #[trigger] srt[t] == cands@[m - 1];
                        assert(larger_first()(srt[j as int], srt[t]));
                    }
                }
                cands.push(s);
                proof {
                    assert(cands@[m as int] == s);
                    assert forall|i: int| 0 <= i < cands@.len() implies exists|t: int| j <= t < n && #[trigger] srt[t] == #[trigger] cands@[i] by {
                        if i == m {
                            assert(srt[j as int] == cands@[i]);
                        } else {
                            assert(cands@[i] == old_c[i]);
                        }
                    }
                }
            } else {
                assert(old_c[m - 1] == s);
            }
        }
        proof {
            assert(cands@ == old_c || (qualifies && cands@ == old_c.push(s)));
            assert(qualifies && cands@ == old_c ==> old_c.len() > 0 && old_c.last() == s);
            assert forall|a: u64| #[trigger] cands@.contains(a) implies
                (0 < a < half && exists|t: int| j <= t < n && srt[t] == a) by {
                let i = choose|i: int| 0 <= i < cands@.len() && cands@[i] == a;
                if i < old_c.len() {
                    assert(old_c[i] == a);
                    assert(old_c.contains(a));
                    let t = choose|t: int| j + 1 <= t < n && srt[t] == a;
                    assert(j <= t < n && srt[t] == a);
                } else {
                    assert(srt[j as int] == a);
                }
            }
            assert forall|a: u64| (0 < a < half && exists|t: int| j <= t < n && srt[t] == a)
                implies #[trigger] cands@.contains(a) by {
                let t = choose|t: int| j <= t < n && srt[t] == a;
                if t == j {
                    if cands@ == old_c {
                        assert(cands@[old_c.len() - 1] == a);
                    } else {
                        assert(cands@[old_c.len() as int] == a);
                    }
                } else {
                    assert(old_c.contains(a));
                    let i = choose|i: int| 0 <= i < old_c.len() && old_c[i] == a;
                    assert(cands@[i] == a);
                }
            }
        }
    }
    let m = cands.len();
    let ghost before = cands@;
    cands.push(half);
    proof {
        assert forall|i: int, k: int| 0 <= i < k < cands@.len() implies cands@[i] < cands@[k] by {
            if k == m {
                assert(before.contains(cands@[i]));
            }
        }
        assert forall|a: u64| #[trigger] cands@.contains(a) <==> is_cut(items@, a as int) by {
            if a == half {
                assert(cands@[m as int] == a);
            } else if cands@.contains(a) {
                let i = choose|i: int| 0 <= i < cands@.len() && cands@[i] == a;
                assert(i < m);
                assert(before.contains(a));
                let t = choose|t: int| 0 <= t < n && srt[t] == a;
                assert(srt.contains(a));
            } else if is_cut(items@, a as int) {
                assert(srt.contains(a));
                let t = choose|t: int| 0 <= t < n && srt[t] == a;
                assert(before.contains(a));
                let i = choose|i: int| 0 <= i < m && before[i] == a;
                assert(cands@[i] == a);
            }
        }
    }
    cands
}

/// Lower bound L2 of Martello & Toth (1990) for bin packing.
///
/// L1 = ceil(sum of sizes / CAPACITY). L2 refines it with the large items:
/// for each cut alpha in (0, CAPACITY/2], items larger than
/// CAPACITY - alpha take a bin each, items in [alpha, CAPACITY - alpha]
/// cannot share a bin with them, so
///   L2(alpha) = |{i : s_i > CAPACITY - alpha}| + ceil(sum of the medium sizes / CAPACITY).
/// The result saturates at `usize::MAX`.
pub fn lower_bound_l2(items: &[u64]) -> (lb: usize)
    ensures
        lb == (if l2_bound(items@) <= usize::MAX { l2_bound(items@) } else { usize::MAX as int }),
{
    if items.len() == 0 {
        return 0;
    }
    let n = items.len();
    let total = sum_sizes(items);
    let mut best: u128 = ceil_bins(total);
    let cands = candidate_alphas(items);
    let k = cands.len();
    let mut c: usize = 0;
    while c < k
        invariant
            k == cands@.len(),
            n == items@.len(),
            0 <= c <= k,
            items@.len() > 0,
            forall|a: u64| #[trigger] cands@.contains(a) <==> is_cut(items@, a as int),
            best >= l1_bound(items@),
            forall|i: int| 0 <= i < c ==> best >= #[trigger] l2_at(items@, cands@[i] as int),
            best == l1_bound(items@) || exists|i: int| 0 <= i < c && best == #[trigger] l2_at(items@, cands@[i] as int),
        decreases k - c,
    {
        let alpha = cands[c];
        let (large, medium) = cut_measures(items, alpha);
        proof {
            lemma_wsum_bounds(items@, large_weight(alpha as int), 1);
            lemma_wsum_bounds(items@, medium_weight(alpha as int), CAPACITY as int);
            assert((n as int) * (CAPACITY as int) <= u128::MAX / 2) by (nonlinear_arith)
                requires
                    0 <= n <= usize::MAX,
            ;
        }
        let lb = large + ceil_bins(medium);
        if lb > best {
            best = lb;
            assert(best == l2_at(items@, cands@[c as int] as int));
        }
        c = c + 1;
    }
    proof {
        assert forall|a: int| is_cut(items@, a) implies best >= #[trigger] l2_at(items@, a) by {
            assert(a <= CAPACITY / 2);
            assert(cands@.contains(a as u64));
            let i = choose|i: int| 0 <= i < k && cands@[i] == a as u64;
            assert(best >= l2_at(items@, cands@[i] as int));
        }
        if best != l1_bound(items@) {
            let i = choose|i: int| 0 <= i < k && best == #[trigger] l2_at(items@, cands@[i] as int);
            assert(cands@.contains(cands@[i]));
            assert(is_cut(items@, cands@[i] as int));
        }
        assert(is_l2_bound(items@, best as int));
        lemma_l2_bound_unique(items@, best as int);
    }
    if best > usize::MAX as u128 {
        usize::MAX
    } else {
        best as usize
    }
}

} // verus!
