//! What holds of the heuristics together: they build valid packings, never
//! beat the L2 lower bound, stay within twice the optimum, First Fit and
//! Best Fit never use more bins than Next Fit, and the bin-count variants
//! agree with the full ones.

use vstd::prelude::*;
use vstd::relations::sorted_by;
use crate::packing::{
    next_fit_state, first_fit_state, best_fit_state, next_fit_residuals, first_fit_residuals,
    best_fit_residuals, lemma_residuals_agree,
};
use crate::sorting::{decreasing, larger_first, lemma_larger_first_total};
use crate::bounds::l2_bound;
use crate::validity::{
    consistent, within_capacity, valid_packing, sizes_fit, lemma_next_fit_valid,
    lemma_first_fit_valid, lemma_best_fit_valid, lemma_consistent_valid,
};
use crate::lower_bound_proof::lemma_l2_below_packing;
use crate::permutation::lemma_l2_bound_permutation;
use crate::bin_count_bounds::{
    lemma_within_twice, lemma_any_fit_below_next_fit, lemma_first_fit_new_bin, lemma_best_fit_new_bin,
};
use crate::packing::{CAPACITY, first_fit_bin, best_fit_bin, first_fitting, best_fitting};
use crate::bounds::{total_size, large_count, medium_size, is_l2_bound, size_weight, medium_weight};
use crate::lower_bound_proof::{lemma_l2_bound_exists, lemma_total_nonneg};
use crate::bounds::lemma_wsum_bounds;
use crate::validity::{lemma_first_fit_bin_fits, lemma_best_fit_bin_fits};
use vstd::arithmetic::div_mod::lemma_fundamental_div_mod;

verus! {

/// Sorting for the decreasing heuristics keeps the items and puts larger
/// sizes first.
pub proof fn law_decreasing_is_sorted_permutation(items: Seq<u64>)
    ensures
        decreasing(items).to_multiset() == items.to_multiset(),
        forall|i: int, j: int| 0 <= i < j < items.len() ==> decreasing(items)[i] >= decreasing(items)[j],
        decreasing(items).len() == items.len(),
{
    lemma_larger_first_total();
    items.lemma_sort_by_ensures(larger_first());
    vstd::seq_lib::to_multiset_len(items);
    vstd::seq_lib::to_multiset_len(decreasing(items));
    assert forall|i: int, j: int| 0 <= i < j < items.len() implies decreasing(items)[i] >= decreasing(items)[j] by {
        assert(sorted_by(decreasing(items), larger_first()));
        assert(larger_first()(decreasing(items)[i], decreasing(items)[j]));
    }
}

/// Every heuristic records a bin for each item, and the capacity it reports
/// left in each bin is the capacity minus the sizes it put there (for the
/// decreasing variants, of the items in sorted order).
pub proof fn law_heuristics_are_consistent(items: Seq<u64>)
    ensures
        consistent(items, next_fit_state(items)),
        consistent(items, first_fit_state(items)),
        consistent(items, best_fit_state(items)),
        consistent(decreasing(items), first_fit_state(decreasing(items))),
        consistent(decreasing(items), best_fit_state(decreasing(items))),
{
    lemma_next_fit_valid(items);
    lemma_first_fit_valid(items);
    lemma_best_fit_valid(items);
    lemma_first_fit_valid(decreasing(items));
    lemma_best_fit_valid(decreasing(items));
}

/// Capacity is never exceeded: when no size exceeds a bin, no bin is
/// overfilled, and every heuristic builds a valid packing.
pub proof fn law_capacity_respected(items: Seq<u64>)
    requires
        sizes_fit(items),
    ensures
        within_capacity(next_fit_state(items)),
        within_capacity(first_fit_state(items)),
        within_capacity(best_fit_state(items)),
        within_capacity(first_fit_state(decreasing(items))),
        within_capacity(best_fit_state(decreasing(items))),
        valid_packing(items, next_fit_state(items).assignment, next_fit_state(items).residual.len() as int),
        valid_packing(items, first_fit_state(items).assignment, first_fit_state(items).residual.len() as int),
        valid_packing(items, best_fit_state(items).assignment, best_fit_state(items).residual.len() as int),
        valid_packing(
            decreasing(items),
            first_fit_state(decreasing(items)).assignment,
            first_fit_state(decreasing(items)).residual.len() as int,
        ),
        valid_packing(
            decreasing(items),
            best_fit_state(decreasing(items)).assignment,
            best_fit_state(decreasing(items)).residual.len() as int,
        ),
{
    let d = decreasing(items);
    law_decreasing_is_sorted_permutation(items);
    assert(sizes_fit(d)) by {
        assert forall|i: int| 0 <= i < d.len() implies #[trigger] d[i] <= crate::packing::CAPACITY by {
            broadcast use vstd::seq_lib::group_to_multiset_ensures;
            assert(d.contains(d[i]));
            assert(d.to_multiset().count(d[i]) > 0);
            assert(items.contains(d[i]));
        }
    }
    law_heuristics_are_consistent(items);
    lemma_next_fit_valid(items);
    lemma_first_fit_valid(items);
    lemma_best_fit_valid(items);
    lemma_first_fit_valid(d);
    lemma_best_fit_valid(d);
    lemma_consistent_valid(items, next_fit_state(items));
    lemma_consistent_valid(items, first_fit_state(items));
    lemma_consistent_valid(items, best_fit_state(items));
    lemma_consistent_valid(d, first_fit_state(d));
    lemma_consistent_valid(d, best_fit_state(d));
}

/// L2 is a lower bound: no valid packing of the items into `k` bins has
/// fewer bins than L2.
pub proof fn law_l2_below_any_packing(items: Seq<u64>, asg: Seq<int>, k: int)
    requires
        valid_packing(items, asg, k),
        k >= 0,
    ensures
        l2_bound(items) <= k,
{
    lemma_l2_below_packing(items, asg, k);
}

/// No heuristic uses fewer bins than the L2 lower bound.
pub proof fn law_heuristics_respect_l2(items: Seq<u64>)
    requires
        sizes_fit(items),
    ensures
        l2_bound(items) <= next_fit_state(items).residual.len(),
        l2_bound(items) <= first_fit_state(items).residual.len(),
        l2_bound(items) <= best_fit_state(items).residual.len(),
        l2_bound(items) <= first_fit_state(decreasing(items)).residual.len(),
        l2_bound(items) <= best_fit_state(decreasing(items)).residual.len(),
{
    let d = decreasing(items);
    law_capacity_respected(items);
    law_decreasing_is_sorted_permutation(items);
    lemma_l2_below_packing(items, next_fit_state(items).assignment, next_fit_state(items).residual.len() as int);
    lemma_l2_below_packing(items, first_fit_state(items).assignment, first_fit_state(items).residual.len() as int);
    lemma_l2_below_packing(items, best_fit_state(items).assignment, best_fit_state(items).residual.len() as int);
    lemma_l2_below_packing(d, first_fit_state(d).assignment, first_fit_state(d).residual.len() as int);
    lemma_l2_below_packing(d, best_fit_state(d).assignment, best_fit_state(d).residual.len() as int);
    lemma_l2_bound_permutation(d, items);
}

/// Every heuristic is within twice the optimum: with a valid packing of a
/// nonempty instance into `k` bins, each uses at most `2k - 1` bins.
pub proof fn law_within_twice_optimum(items: Seq<u64>, asg: Seq<int>, k: int)
    requires
        items.len() > 0,
        valid_packing(items, asg, k),
    ensures
        next_fit_state(items).residual.len() <= 2 * k - 1,
        first_fit_state(items).residual.len() <= 2 * k - 1,
        best_fit_state(items).residual.len() <= 2 * k - 1,
        first_fit_state(decreasing(items)).residual.len() <= 2 * k - 1,
        best_fit_state(decreasing(items)).residual.len() <= 2 * k - 1,
{
    lemma_within_twice(items, asg, k);
}

/// First Fit and Best Fit never use more bins than Next Fit: they open a
/// bin only for an item that fits no opened bin.
pub proof fn law_any_fit_at_most_next_fit(items: Seq<u64>)
    ensures
        first_fit_state(items).residual.len() <= next_fit_state(items).residual.len(),
        best_fit_state(items).residual.len() <= next_fit_state(items).residual.len(),
{
    lemma_any_fit_below_next_fit(items);
}

/// Next Fit never reopens a closed bin: each item goes to the bin of the
/// item before it or to the next one, and the last item is in the open bin.
pub proof fn law_next_fit_never_reopens(items: Seq<u64>)
    ensures
        forall|i: int| 0 <= i < items.len() - 1 ==>
            next_fit_state(items).assignment[i] <= #[trigger] next_fit_state(items).assignment[i + 1]
                <= next_fit_state(items).assignment[i] + 1,
        items.len() > 0 ==> next_fit_state(items).assignment.last()
            == next_fit_state(items).residual.len() - 1,
    decreases items.len(),
{
    if items.len() > 0 {
        let rest = items.drop_last();
        law_next_fit_never_reopens(rest);
        lemma_next_fit_valid(rest);
        let a = next_fit_state(items).assignment;
        let ar = next_fit_state(rest).assignment;
        assert forall|i: int| 0 <= i < items.len() - 1 implies a[i] <= #[trigger] a[i + 1] <= a[i] + 1 by {
            if i + 1 < rest.len() {
                assert(a[i] == ar[i] && a[i + 1] == ar[i + 1]);
            } else {
                assert(a[i] == ar[i]);
            }
        }
    }
}

/// The bin-count variants count exactly the bins of the full heuristics:
/// following the capacities left alone gives the same bins as the full
/// packing, in the given order and in sorted order.
pub proof fn law_bin_counts_agree(items: Seq<u64>)
    ensures
        next_fit_residuals(items) == next_fit_state(items).residual,
        first_fit_residuals(items) == first_fit_state(items).residual,
        best_fit_residuals(items) == best_fit_state(items).residual,
        first_fit_residuals(decreasing(items)) == first_fit_state(decreasing(items)).residual,
        best_fit_residuals(decreasing(items)) == best_fit_state(decreasing(items)).residual,
{
    lemma_residuals_agree(items);
    lemma_residuals_agree(decreasing(items));
}


/// `ceil(a / d)` for `a >= 0`, `d > 0`, as `(a + d - 1) / d`.
proof fn lemma_ceil_div_formula(a: int, d: int)
    requires
        a >= 0,
        d > 0,
    ensures
        crate::bounds::ceil_div(a, d) == (a + d - 1) / d,
{
    lemma_fundamental_div_mod(a, d);
    let q = a / d;
    let r = a % d;
    assert(d * q == q * d && (q + 1) * d == q * d + d) by (nonlinear_arith);
    if r == 0 {
        vstd::arithmetic::div_mod::lemma_fundamental_div_mod_converse_div(a + d - 1, d, q, d - 1);
    } else {
        vstd::arithmetic::div_mod::lemma_fundamental_div_mod_converse_div(a + d - 1, d, q + 1, r - 1);
    }
}

/// The L2 bound is at least L1 — the bins the total size needs, rounded up —
/// and, at every cut `alpha` (half a bin, or a size strictly between 0 and
/// half a bin), at least the number of items larger than
/// `CAPACITY - alpha` plus the bins, rounded up, that the sizes in
/// `[alpha, CAPACITY - alpha]` need on their own.
pub proof fn law_l2_at_least_every_cut(items: Seq<u64>, alpha: int)
    requires
        items.len() > 0,
        alpha == CAPACITY / 2 || (0 < alpha < CAPACITY / 2 && exists|i: int|
            0 <= i < items.len() && items[i] == alpha),
    ensures
        l2_bound(items) >= (total_size(items) + CAPACITY - 1) / (CAPACITY as int),
        l2_bound(items) >= large_count(items, alpha)
            + (medium_size(items, alpha) + CAPACITY - 1) / (CAPACITY as int),
{
    lemma_l2_bound_exists(items);
    if alpha != CAPACITY / 2 {
        let i = choose|i: int| 0 <= i < items.len() && items[i] == alpha;
        assert(items.contains(alpha as u64));
    }
    assert(is_l2_bound(items, l2_bound(items)));
    assert(l2_bound(items) >= crate::bounds::l2_at(items, alpha));
    lemma_total_nonneg(items);
    lemma_ceil_div_formula(total_size(items), CAPACITY as int);
    lemma_wsum_bounds(items, medium_weight(alpha), CAPACITY as int);
    lemma_ceil_div_formula(medium_size(items, alpha), CAPACITY as int);
}

/// Item `i` of the First Fit packing went into the first bin, in order of
/// opening, with room for it when it came; into a new bin only when no
/// opened bin had room. Its bin then has that much less room.
pub proof fn law_first_fit_choice(items: Seq<u64>, i: int)
    requires
        0 <= i < items.len(),
    ensures
        ({
            let r = first_fit_state(items.take(i)).residual;
            let b = first_fit_state(items).assignment[i];
            let x = items[i] as int;
            &&& 0 <= b <= r.len()
            &&& b < r.len() ==> x <= r[b] && forall|j: int| 0 <= j < b ==> x > #[trigger] r[j]
            &&& b == r.len() ==> forall|j: int| 0 <= j < r.len() ==> x > #[trigger] r[j]
            &&& first_fit_state(items.take(i + 1)).residual
                == (if b < r.len() { r.update(b, r[b] - x) } else { r.push(CAPACITY - x) })
        }),
{
    lemma_first_fit_prefix(items, i + 1);
    let s = first_fit_state(items.take(i));
    let x = items[i] as int;
    assert(items.take(i + 1).drop_last() =~= items.take(i));
    assert(items.take(i + 1).last() == items[i]);
    let bb = first_fit_bin(s.residual, x);
    let t = first_fit_state(items.take(i + 1));
    assert(t == crate::packing::place(s, x, bb));
    crate::validity::lemma_first_fit_valid(items.take(i));
    assert(s.assignment.len() == i);
    assert(first_fit_state(items).assignment.take(i + 1) == t.assignment);
    assert(first_fit_state(items).assignment[i] == t.assignment.take(i + 1)[i]);
    lemma_first_fit_bin_fits(s.residual, x);
    if bb < s.residual.len() {
        let c = choose|c: int| first_fitting(s.residual, x, c);
        assert(first_fitting(s.residual, x, c));
    } else {
        lemma_first_fit_new_bin(s.residual, x);
    }
}

/// Item `i` of the Best Fit packing went into the bin with the least room
/// among those with room for it when it came (the first such bin on a
/// tie); into a new bin only when no opened bin had room. Its bin then has
/// that much less room.
pub proof fn law_best_fit_choice(items: Seq<u64>, i: int)
    requires
        0 <= i < items.len(),
    ensures
        ({
            let r = best_fit_state(items.take(i)).residual;
            let b = best_fit_state(items).assignment[i];
            let x = items[i] as int;
            &&& 0 <= b <= r.len()
            &&& b < r.len() ==> {
                &&& x <= r[b]
                &&& forall|j: int| 0 <= j < r.len() && x <= #[trigger] r[j] ==> r[b] <= r[j]
                &&& forall|j: int| 0 <= j < b && x <= #[trigger] r[j] ==> r[b] < r[j]
            }
            &&& b == r.len() ==> forall|j: int| 0 <= j < r.len() ==> x > #[trigger] r[j]
            &&& best_fit_state(items.take(i + 1)).residual
                == (if b < r.len() { r.update(b, r[b] - x) } else { r.push(CAPACITY - x) })
        }),
{
    lemma_best_fit_prefix(items, i + 1);
    let s = best_fit_state(items.take(i));
    let x = items[i] as int;
    assert(items.take(i + 1).drop_last() =~= items.take(i));
    assert(items.take(i + 1).last() == items[i]);
    let bb = best_fit_bin(s.residual, x);
    let t = best_fit_state(items.take(i + 1));
    assert(t == crate::packing::place(s, x, bb));
    crate::validity::lemma_best_fit_valid(items.take(i));
    assert(s.assignment.len() == i);
    assert(best_fit_state(items).assignment.take(i + 1) == t.assignment);
    assert(best_fit_state(items).assignment[i] == t.assignment.take(i + 1)[i]);
    lemma_best_fit_bin_fits(s.residual, x);
    if bb < s.residual.len() {
        let c = choose|c: int| best_fitting(s.residual, x, c);
        assert(best_fitting(s.residual, x, c));
    } else {
        lemma_best_fit_new_bin(s.residual, x);
    }
}

/// Item `i` of the Next Fit packing went into the open bin (the last one)
/// when that had room for it, else into a new bin. Its bin then has that
/// much less room.
pub proof fn law_next_fit_choice(items: Seq<u64>, i: int)
    requires
        0 <= i < items.len(),
    ensures
        ({
            let r = next_fit_state(items.take(i)).residual;
            let b = next_fit_state(items).assignment[i];
            let x = items[i] as int;
            &&& r.len() >= 1
            &&& x <= r[r.len() - 1] ==> b == r.len() - 1
            &&& x > r[r.len() - 1] ==> b == r.len()
            &&& next_fit_state(items.take(i + 1)).residual
                == (if b < r.len() { r.update(b, r[b] - x) } else { r.push(CAPACITY - x) })
        }),
{
    lemma_next_fit_prefix(items, i + 1);
    let s = next_fit_state(items.take(i));
    let x = items[i] as int;
    assert(items.take(i + 1).drop_last() =~= items.take(i));
    assert(items.take(i + 1).last() == items[i]);
    let t = next_fit_state(items.take(i + 1));
    lemma_next_fit_valid(items.take(i));
    assert(s.assignment.len() == i);
    assert(next_fit_state(items).assignment.take(i + 1) == t.assignment);
    assert(next_fit_state(items).assignment[i] == t.assignment.take(i + 1)[i]);
}

/// The Next Fit packing of a prefix is the start of the packing of all the
/// items.
proof fn lemma_next_fit_prefix(items: Seq<u64>, k: int)
    requires
        0 <= k <= items.len(),
    ensures
        next_fit_state(items).assignment.take(k) == next_fit_state(items.take(k)).assignment,
        next_fit_state(items).assignment.len() == items.len(),
    decreases items.len(),
{
    lemma_next_fit_valid(items);
    lemma_next_fit_valid(items.take(k));
    if k == items.len() {
        assert(items.take(k) =~= items);
        assert(next_fit_state(items).assignment.take(k) =~= next_fit_state(items).assignment);
    } else {
        let rest = items.drop_last();
        lemma_next_fit_prefix(rest, k);
        assert(rest.take(k) =~= items.take(k));
        lemma_next_fit_valid(rest);
        assert(next_fit_state(items).assignment.take(k) =~= next_fit_state(rest).assignment.take(k));
    }
}

/// The First Fit packing of a prefix is the start of the packing of all
/// the items.
proof fn lemma_first_fit_prefix(items: Seq<u64>, k: int)
    requires
        0 <= k <= items.len(),
    ensures
        first_fit_state(items).assignment.take(k) == first_fit_state(items.take(k)).assignment,
        first_fit_state(items).assignment.len() == items.len(),
    decreases items.len(),
{
    crate::validity::lemma_first_fit_valid(items);
    crate::validity::lemma_first_fit_valid(items.take(k));
    if k == items.len() {
        assert(items.take(k) =~= items);
        assert(first_fit_state(items).assignment.take(k) =~= first_fit_state(items).assignment);
    } else {
        let rest = items.drop_last();
        lemma_first_fit_prefix(rest, k);
        assert(rest.take(k) =~= items.take(k));
        crate::validity::lemma_first_fit_valid(rest);
        assert(first_fit_state(items).assignment.take(k) =~= first_fit_state(rest).assignment.take(k));
    }
}

/// The Best Fit packing of a prefix is the start of the packing of all the
/// items.
proof fn lemma_best_fit_prefix(items: Seq<u64>, k: int)
    requires
        0 <= k <= items.len(),
    ensures
        best_fit_state(items).assignment.take(k) == best_fit_state(items.take(k)).assignment,
        best_fit_state(items).assignment.len() == items.len(),
    decreases items.len(),
{
    crate::validity::lemma_best_fit_valid(items);
    crate::validity::lemma_best_fit_valid(items.take(k));
    if k == items.len() {
        assert(items.take(k) =~= items);
        assert(best_fit_state(items).assignment.take(k) =~= best_fit_state(items).assignment);
    } else {
        let rest = items.drop_last();
        lemma_best_fit_prefix(rest, k);
        assert(rest.take(k) =~= items.take(k));
        crate::validity::lemma_best_fit_valid(rest);
        assert(best_fit_state(items).assignment.take(k) =~= best_fit_state(rest).assignment.take(k));
    }
}

} // verus!
