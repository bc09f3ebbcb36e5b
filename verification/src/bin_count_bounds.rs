//! Bounds on the bins the heuristics use: each uses fewer than twice the
//! bins of any valid packing (two consecutive bins of its packing together
//! hold more than a bin), and First Fit and Best Fit never use more bins
//! than Next Fit.

use vstd::prelude::*;
use crate::packing::{
    CAPACITY, PackState, fits, place, next_fit_state, next_fit_step, first_fit_state, best_fit_state,
    first_fit_bin, best_fit_bin, first_fitting, best_fitting,
};
use crate::sorting::{decreasing, larger_first, lemma_larger_first_total};
use crate::permutation::lemma_wsum_permutation;
use crate::bounds::{wsum, size_weight, total_size};
use crate::validity::{
    bin_items, load, valid_packing, consistent, lemma_next_fit_valid, lemma_first_fit_valid,
    lemma_best_fit_valid, lemma_first_fit_bin_fits, lemma_best_fit_bin_fits,
};
use crate::lower_bound_proof::{
    bins_wsum, lemma_bins_wsum_total, lemma_bins_wsum_bounded, lemma_total_nonneg,
};

verus! {

/// Two consecutive bins have less than a bin left between them.
pub open spec fn pairs_overfull(r: Seq<int>) -> bool {
    forall|i: int| 0 <= i < r.len() - 1 ==> #[trigger] r[i] + r[i + 1] < CAPACITY
}

/// Next Fit opens a bin only for an item that did not fit the last one.
proof fn lemma_next_fit_pairs(items: Seq<u64>)
    ensures
        pairs_overfull(next_fit_state(items).residual),
        next_fit_state(items).residual.len() >= 1,
    decreases items.len(),
{
    if items.len() > 0 {
        let rest = items.drop_last();
        lemma_next_fit_pairs(rest);
        let s = next_fit_state(rest);
        let r = s.residual;
        let t = next_fit_state(items).residual;
        let x = items.last() as int;
        let cur = r.len() - 1;
        if fits(x, r[cur]) {
            assert forall|i: int| 0 <= i < t.len() - 1 implies #[trigger] t[i] + t[i + 1] < CAPACITY by {
                assert(r[i] + r[i + 1] < CAPACITY);
            }
        } else {
            assert forall|i: int| 0 <= i < t.len() - 1 implies #[trigger] t[i] + t[i + 1] < CAPACITY by {
                if i < cur {
                    assert(r[i] + r[i + 1] < CAPACITY);
                }
            }
        }
    }
}

/// Sum of the capacities left in the first `t` bins.
pub open spec fn rsum(r: Seq<int>, t: int) -> int
    decreases t,
{
    if t <= 0 {
        0
    } else {
        rsum(r, t - 1) + r[t - 1]
    }
}

/// What a consistent state put into its first `t` bins is `t` bins minus
/// what is left in them.
proof fn lemma_loads_from_residual(items: Seq<u64>, st: PackState, t: int)
    requires
        consistent(items, st),
        0 <= t <= st.residual.len(),
    ensures
        bins_wsum(items, st.assignment, t, size_weight()) == t * CAPACITY - rsum(st.residual, t),
    decreases t,
{
    if t > 0 {
        lemma_loads_from_residual(items, st, t - 1);
        assert(st.residual[t - 1] == CAPACITY - load(items, st.assignment, t - 1));
        assert((t - 1) * CAPACITY + CAPACITY == t * CAPACITY) by (nonlinear_arith);
    }
}

/// Over `2q` bins whose consecutive pairs hold more than a bin, less than
/// `q` bins are left.
proof fn lemma_pairs_rsum(r: Seq<int>, q: int)
    requires
        pairs_overfull(r),
        0 <= q,
        2 * q <= r.len(),
    ensures
        rsum(r, 2 * q) <= q * CAPACITY - (if q > 0 { 1int } else { 0int }),
    decreases q,
{
    if q > 0 {
        lemma_pairs_rsum(r, q - 1);
        assert(r[2 * q - 2] + r[2 * q - 1] < CAPACITY);
        assert(rsum(r, 2 * q - 1) == rsum(r, 2 * q - 2) + r[2 * q - 2]);
        assert(rsum(r, 2 * q) == rsum(r, 2 * q - 2) + r[2 * q - 2] + r[2 * q - 1]);
        assert((q - 1) * CAPACITY + CAPACITY == q * CAPACITY) by (nonlinear_arith);
    }
}

/// The sizes of a valid packing into `k` bins add up to at most `k` bins.
pub proof fn lemma_total_within_packing(items: Seq<u64>, asg: Seq<int>, k: int)
    requires
        valid_packing(items, asg, k),
        k >= 0,
    ensures
        total_size(items) <= k * CAPACITY,
{
    lemma_bins_wsum_total(items, asg, k, size_weight());
    assert forall|b: int| 0 <= b < k implies #[trigger] wsum(bin_items(items, asg, b), size_weight()) <= CAPACITY by {
        assert(load(items, asg, b) <= CAPACITY);
    }
    lemma_bins_wsum_bounded(items, asg, k, size_weight(), CAPACITY as int);
}

/// A consistent state whose consecutive bins together hold more than a bin
/// has at most `2k - 1` bins when its sizes fit in `k >= 1` bins.
pub proof fn lemma_twice_from_pairs(items: Seq<u64>, st: PackState, k: int)
    requires
        consistent(items, st),
        pairs_overfull(st.residual),
        total_size(items) <= k * CAPACITY,
        k >= 1,
    ensures
        st.residual.len() <= 2 * k - 1,
{
    let m = st.residual.len() as int;
    let r = st.residual;
    let total = total_size(items);
    lemma_bins_wsum_total(items, st.assignment, m, size_weight());
    lemma_loads_from_residual(items, st, m);
    assert(total == m * CAPACITY - rsum(r, m));
    if m >= 2 {
        let q = m / 2;
        lemma_pairs_rsum(r, q);
        if m == 2 * q {
            assert(q <= k - 1) by (nonlinear_arith)
                requires
                    total <= k * CAPACITY,
                    total == m * CAPACITY - rsum(r, m),
                    rsum(r, m) <= q * CAPACITY - 1,
                    m == 2 * q,
                    CAPACITY > 0,
            ;
        } else {
            assert(m == 2 * q + 1);
            lemma_total_nonneg(bin_items(items, st.assignment, m - 1));
            assert(r[m - 1] == CAPACITY - load(items, st.assignment, m - 1));
            assert(rsum(r, m) == rsum(r, 2 * q) + r[m - 1]);
            assert(q <= k - 1) by (nonlinear_arith)
                requires
                    total <= k * CAPACITY,
                    total == m * CAPACITY - rsum(r, m),
                    rsum(r, m) <= q * CAPACITY - 1 + CAPACITY,
                    m == 2 * q + 1,
                    CAPACITY > 0,
            ;
        }
    }
}

/// Any two bins have less than a bin left between them.
pub open spec fn all_pairs_overfull(r: Seq<int>) -> bool {
    forall|i: int, j: int| 0 <= i < j < r.len() ==> #[trigger] r[i] + #[trigger] r[j] < CAPACITY
}

/// Packing into a bin where the item fits, or into a new bin only when it
/// fits no opened bin, keeps any two bins overfull.
proof fn lemma_place_pairs(s: PackState, x: int, b: int)
    requires
        all_pairs_overfull(s.residual),
        x >= 0,
        0 <= b <= s.residual.len(),
        b < s.residual.len() ==> fits(x, s.residual[b]),
        b == s.residual.len() ==> forall|j: int| 0 <= j < s.residual.len() ==> !fits(x, #[trigger] s.residual[j]),
    ensures
        all_pairs_overfull(place(s, x, b).residual),
{
    let r = s.residual;
    let t = place(s, x, b).residual;
    assert forall|i: int, j: int| 0 <= i < j < t.len() implies #[trigger] t[i] + #[trigger] t[j] < CAPACITY by {
        if j < r.len() {
            assert(r[i] + r[j] < CAPACITY);
        } else {
            assert(!fits(x, r[i]));
        }
    }
}

/// First Fit opens a bin only for an item that fits no opened bin.
proof fn lemma_first_fit_pairs(items: Seq<u64>)
    ensures
        all_pairs_overfull(first_fit_state(items).residual),
    decreases items.len(),
{
    if items.len() > 0 {
        let rest = items.drop_last();
        lemma_first_fit_pairs(rest);
        let s = first_fit_state(rest);
        let x = items.last() as int;
        let b = first_fit_bin(s.residual, x);
        lemma_first_fit_bin_fits(s.residual, x);
        if b == s.residual.len() {
            assert forall|j: int| 0 <= j < s.residual.len() implies !fits(x, #[trigger] s.residual[j]) by {
                if fits(x, s.residual[j]) {
                    lemma_least_fitting_exists(s.residual, x, j);
                }
            }
        }
        lemma_place_pairs(s, x, b);
    }
}

/// When the item fits some bin, a first bin where it fits exists.
proof fn lemma_least_fitting_exists(r: Seq<int>, x: int, j: int)
    requires
        0 <= j < r.len(),
        fits(x, r[j]),
    ensures
        exists|b: int| first_fitting(r, x, b),
    decreases j,
{
    if forall|i: int| 0 <= i < j ==> !fits(x, #[trigger] r[i]) {
        assert(first_fitting(r, x, j));
    } else {
        let i = choose|i: int| 0 <= i < j && fits(x, #[trigger] r[i]);
        lemma_least_fitting_exists(r, x, i);
    }
}

/// When the item fits some bin, a tightest bin where it fits exists.
proof fn lemma_best_fitting_exists(r: Seq<int>, x: int, j: int)
    requires
        0 <= j < r.len(),
        fits(x, r[j]),
    ensures
        exists|b: int| best_fitting(r, x, b),
{
    // the first bin holding the least capacity among those that fit
    let n = r.len() as int;
    lemma_least_fitting_capacity(r, x, n);
    assert(least_fitting_capacity(r, x, n) is Some);
    let m = least_fitting_capacity(r, x, n)->0;
    let i = choose|i: int| 0 <= i < n && fits(x, r[i]) && r[i] == m;
    lemma_first_with_capacity(r, x, m, i);
}

/// The least capacity left among the bins `0..t` where `x` fits, if any.
spec fn least_fitting_capacity(r: Seq<int>, x: int, t: int) -> Option<int>
    decreases t,
{
    if t <= 0 {
        None
    } else {
        let prev = least_fitting_capacity(r, x, t - 1);
        if fits(x, r[t - 1]) {
            match prev {
                Some(p) => if r[t - 1] < p { Some(r[t - 1]) } else { Some(p) },
                None => Some(r[t - 1]),
            }
        } else {
            prev
        }
    }
}

proof fn lemma_least_fitting_capacity(r: Seq<int>, x: int, t: int)
    requires
        0 <= t <= r.len(),
    ensures
        (exists|j: int| 0 <= j < t && fits(x, #[trigger] r[j])) ==> least_fitting_capacity(r, x, t) is Some,
        least_fitting_capacity(r, x, t) matches Some(m) ==> {
            &&& exists|i: int| 0 <= i < t && fits(x, r[i]) && r[i] == m
            &&& forall|i: int| 0 <= i < t && fits(x, #[trigger] r[i]) ==> m <= r[i]
        },
    decreases t,
{
    if t > 0 {
        lemma_least_fitting_capacity(r, x, t - 1);
        if exists|j: int| 0 <= j < t && fits(x, #[trigger] r[j]) {
            let j = choose|j: int| 0 <= j < t && fits(x, #[trigger] r[j]);
            if j < t - 1 {
                assert(least_fitting_capacity(r, x, t - 1) is Some);
            }
        }
        match least_fitting_capacity(r, x, t) {
            Some(m) => {
                if fits(x, r[t - 1]) && least_fitting_capacity(r, x, t) == Some(r[t - 1]) {
                    assert(fits(x, r[t - 1]) && r[t - 1] == m);
                }
            },
            None => {},
        }
    }
}

proof fn lemma_first_with_capacity(r: Seq<int>, x: int, m: int, i: int)
    requires
        0 <= i < r.len(),
        fits(x, r[i]),
        r[i] == m,
        forall|j: int| 0 <= j < r.len() && fits(x, #[trigger] r[j]) ==> m <= r[j],
    ensures
        exists|b: int| best_fitting(r, x, b),
    decreases i,
{
    if forall|j: int| 0 <= j < i && fits(x, #[trigger] r[j]) ==> m < r[j] {
        assert(best_fitting(r, x, i));
    } else {
        let j = choose|j: int| 0 <= j < i && fits(x, #[trigger] r[j]) && !(m < r[j]);
        lemma_first_with_capacity(r, x, m, j);
    }
}

/// Best Fit opens a bin only for an item that fits no opened bin.
proof fn lemma_best_fit_pairs(items: Seq<u64>)
    ensures
        all_pairs_overfull(best_fit_state(items).residual),
    decreases items.len(),
{
    if items.len() > 0 {
        let rest = items.drop_last();
        lemma_best_fit_pairs(rest);
        let s = best_fit_state(rest);
        let x = items.last() as int;
        let b = best_fit_bin(s.residual, x);
        lemma_best_fit_bin_fits(s.residual, x);
        if b == s.residual.len() {
            assert forall|j: int| 0 <= j < s.residual.len() implies !fits(x, #[trigger] s.residual[j]) by {
                if fits(x, s.residual[j]) {
                    lemma_best_fitting_exists(s.residual, x, j);
                }
            }
        }
        lemma_place_pairs(s, x, b);
    }
}

/// Overfull pairs of any two bins include the consecutive ones.
proof fn lemma_all_pairs_consecutive(r: Seq<int>)
    requires
        all_pairs_overfull(r),
    ensures
        pairs_overfull(r),
{
    assert forall|i: int| 0 <= i < r.len() - 1 implies #[trigger] r[i] + r[i + 1] < CAPACITY by {
        assert(r[i] + r[i + 1] < CAPACITY);
    }
}

/// Every heuristic uses at most `2k - 1` bins when some valid packing of the
/// same nonempty instance uses `k`: each is within twice the optimum.
pub proof fn lemma_within_twice(items: Seq<u64>, asg: Seq<int>, k: int)
    requires
        items.len() > 0,
        valid_packing(items, asg, k),
    ensures
        next_fit_state(items).residual.len() <= 2 * k - 1,
        first_fit_state(items).residual.len() <= 2 * k - 1,
        best_fit_state(items).residual.len() <= 2 * k - 1,
        first_fit_state(decreasing(items)).residual.len() <= 2 * k - 1,
        best_fit_state(decreasing(items)).residual.len() <= 2 * k - 1,
{
    assert(0 <= asg[0] < k);
    lemma_total_within_packing(items, asg, k);
    let d = decreasing(items);
    lemma_larger_first_total();
    items.lemma_sort_by_ensures(larger_first());
    lemma_wsum_permutation(items, d, size_weight());
    lemma_next_fit_valid(items);
    lemma_next_fit_pairs(items);
    lemma_twice_from_pairs(items, next_fit_state(items), k);
    lemma_first_fit_valid(items);
    lemma_first_fit_pairs(items);
    lemma_all_pairs_consecutive(first_fit_state(items).residual);
    lemma_twice_from_pairs(items, first_fit_state(items), k);
    lemma_best_fit_valid(items);
    lemma_best_fit_pairs(items);
    lemma_all_pairs_consecutive(best_fit_state(items).residual);
    lemma_twice_from_pairs(items, best_fit_state(items), k);
    lemma_first_fit_valid(d);
    lemma_first_fit_pairs(d);
    lemma_all_pairs_consecutive(first_fit_state(d).residual);
    lemma_twice_from_pairs(d, first_fit_state(d), k);
    lemma_best_fit_valid(d);
    lemma_best_fit_pairs(d);
    lemma_all_pairs_consecutive(best_fit_state(d).residual);
    lemma_twice_from_pairs(d, best_fit_state(d), k);
}

/// First Fit opens a new bin only when the item fits no opened bin.
pub proof fn lemma_first_fit_new_bin(r: Seq<int>, x: int)
    requires
        first_fit_bin(r, x) == r.len(),
    ensures
        forall|j: int| 0 <= j < r.len() ==> !fits(x, #[trigger] r[j]),
{
    assert forall|j: int| 0 <= j < r.len() implies !fits(x, #[trigger] r[j]) by {
        if fits(x, r[j]) {
            lemma_least_fitting_exists(r, x, j);
            let b = choose|b: int| first_fitting(r, x, b);
            assert(first_fitting(r, x, b));
        }
    }
}

/// Best Fit opens a new bin only when the item fits no opened bin.
pub proof fn lemma_best_fit_new_bin(r: Seq<int>, x: int)
    requires
        best_fit_bin(r, x) == r.len(),
    ensures
        forall|j: int| 0 <= j < r.len() ==> !fits(x, #[trigger] r[j]),
{
    assert forall|j: int| 0 <= j < r.len() implies !fits(x, #[trigger] r[j]) by {
        if fits(x, r[j]) {
            lemma_best_fitting_exists(r, x, j);
            let b = choose|b: int| best_fitting(r, x, b);
            assert(best_fitting(r, x, b));
        }
    }
}

/// An any-fit state `f` keeps pace with the Next Fit state `g`: fewer bins,
/// or as many with at least as much left in the last bin as Next Fit has in
/// its open bin.
pub open spec fn keeps_pace(f: PackState, g: PackState) -> bool {
    let m = g.residual.len() as int;
    ||| f.residual.len() <= m - 1
    ||| (f.residual.len() == m && f.residual[m - 1] >= g.residual[m - 1])
}

/// One more item keeps an any-fit packing in pace with Next Fit.
proof fn lemma_keeps_pace_step(f: PackState, g: PackState, x: int, b: int)
    requires
        keeps_pace(f, g),
        x >= 0,
        g.residual.len() >= 1,
        g.residual[g.residual.len() - 1] <= CAPACITY,
        0 <= b <= f.residual.len(),
        b < f.residual.len() ==> fits(x, f.residual[b]),
        b == f.residual.len() ==> forall|j: int| 0 <= j < f.residual.len() ==> !fits(x, #[trigger] f.residual[j]),
    ensures
        keeps_pace(place(f, x, b), next_fit_step(g, x)),
{
    let m = g.residual.len() as int;
    let f2 = place(f, x, b);
    let g2 = next_fit_step(g, x);
    if fits(x, g.residual[m - 1]) {
        assert(g2.residual.len() == m);
        assert(g2.residual[m - 1] == g.residual[m - 1] - x);
        if b == f.residual.len() {
            if f.residual.len() == m {
                assert(!fits(x, f.residual[m - 1]));
            }
        } else if f.residual.len() == m {
            assert(f2.residual.len() == m);
            if b == m - 1 {
                assert(f2.residual[m - 1] == f.residual[m - 1] - x);
            } else {
                assert(f2.residual[m - 1] == f.residual[m - 1]);
            }
        }
    } else {
        assert(g2.residual.len() == m + 1);
        assert(g2.residual[m] == CAPACITY - x);
        if b == f.residual.len() && f.residual.len() == m {
            assert(f2.residual[m] == CAPACITY - x);
        }
    }
}

/// First Fit and Best Fit keep pace with Next Fit on every prefix.
proof fn lemma_any_fit_keeps_pace(items: Seq<u64>)
    ensures
        keeps_pace(first_fit_state(items), next_fit_state(items)),
        keeps_pace(best_fit_state(items), next_fit_state(items)),
    decreases items.len(),
{
    if items.len() == 0 {
    } else {
        let rest = items.drop_last();
        let x = items.last() as int;
        lemma_any_fit_keeps_pace(rest);
        let g = next_fit_state(rest);
        lemma_next_fit_valid(rest);
        let m = g.residual.len() as int;
        lemma_total_nonneg(bin_items(rest, g.assignment, m - 1));
        assert(g.residual[m - 1] == CAPACITY - load(rest, g.assignment, m - 1));
        let f = first_fit_state(rest);
        let bf = first_fit_bin(f.residual, x);
        lemma_first_fit_bin_fits(f.residual, x);
        if bf == f.residual.len() {
            lemma_first_fit_new_bin(f.residual, x);
        }
        lemma_keeps_pace_step(f, g, x, bf);
        let h = best_fit_state(rest);
        let bb = best_fit_bin(h.residual, x);
        lemma_best_fit_bin_fits(h.residual, x);
        if bb == h.residual.len() {
            lemma_best_fit_new_bin(h.residual, x);
        }
        lemma_keeps_pace_step(h, g, x, bb);
    }
}

/// First Fit and Best Fit never use more bins than Next Fit.
pub proof fn lemma_any_fit_below_next_fit(items: Seq<u64>)
    ensures
        first_fit_state(items).residual.len() <= next_fit_state(items).residual.len(),
        best_fit_state(items).residual.len() <= next_fit_state(items).residual.len(),
{
    lemma_any_fit_keeps_pace(items);
}

} // verus!
