//! Why L1 and L2 are lower bounds: no valid packing uses fewer bins.

use vstd::prelude::*;
use vstd::arithmetic::div_mod::lemma_fundamental_div_mod;
use crate::packing::CAPACITY;
use crate::bounds::{
    wsum, size_weight, total_size, large_count, medium_size,
    is_large, is_medium, ceil_div, l1_bound, l2_at, is_cut, is_l2_bound, l2_bound,
    lemma_l2_bound_unique,
};
use crate::validity::{bin_items, load, valid_packing, lemma_bin_items_push, lemma_wsum_push};

verus! {

/// Sum over bins `0..k` of the weights of the items in each bin.
pub open spec fn bins_wsum(items: Seq<u64>, asg: Seq<int>, k: int, w: spec_fn(u64) -> int) -> int
    decreases k,
{
    if k <= 0 {
        0
    } else {
        bins_wsum(items, asg, k - 1, w) + wsum(bin_items(items, asg, k - 1), w)
    }
}

/// One more item adds its weight to the bins' sum when its bin is counted.
proof fn lemma_bins_wsum_push(
    items: Seq<u64>,
    asg: Seq<int>,
    x: u64,
    c: int,
    k: int,
    w: spec_fn(u64) -> int,
)
    requires
        asg.len() == items.len(),
    ensures
        bins_wsum(items.push(x), asg.push(c), k, w)
            == bins_wsum(items, asg, k, w) + (if 0 <= c < k { w(x) } else { 0 }),
    decreases k,
{
    if k > 0 {
        lemma_bins_wsum_push(items, asg, x, c, k - 1, w);
        lemma_bin_items_push(items, asg, x, c, k - 1);
        lemma_wsum_push(bin_items(items, asg, k - 1), w, x);
    }
}

/// Summed bin by bin, the weights of a packing are the weights of all items.
pub proof fn lemma_bins_wsum_total(items: Seq<u64>, asg: Seq<int>, k: int, w: spec_fn(u64) -> int)
    requires
        asg.len() == items.len(),
        forall|i: int| 0 <= i < asg.len() ==> 0 <= #[trigger] asg[i] < k,
    ensures
        bins_wsum(items, asg, k, w) == wsum(items, w),
    decreases items.len(),
{
    if items.len() == 0 {
        lemma_bins_wsum_empty(items, asg, k, w);
    } else {
        let rest = items.drop_last();
        let ar = asg.drop_last();
        assert(asg.last() == asg[asg.len() - 1]);
        lemma_bins_wsum_total(rest, ar, k, w);
        lemma_bins_wsum_push(rest, ar, items.last(), asg.last(), k, w);
        assert(rest.push(items.last()) =~= items);
        assert(ar.push(asg.last()) =~= asg);
    }
}

/// With no items, every bin's sum is 0.
proof fn lemma_bins_wsum_empty(items: Seq<u64>, asg: Seq<int>, k: int, w: spec_fn(u64) -> int)
    requires
        items.len() == 0,
    ensures
        bins_wsum(items, asg, k, w) == 0,
    decreases k,
{
    if k > 0 {
        lemma_bins_wsum_empty(items, asg, k - 1, w);
        assert(bin_items(items, asg, k - 1) =~= Seq::<u64>::empty());
    }
}

/// Bins each weighing at most `hi` weigh at most `k * hi` together.
pub proof fn lemma_bins_wsum_bounded(
    items: Seq<u64>,
    asg: Seq<int>,
    k: int,
    w: spec_fn(u64) -> int,
    hi: int,
)
    requires
        k >= 0,
        forall|b: int| 0 <= b < k ==> #[trigger] wsum(bin_items(items, asg, b), w) <= hi,
    ensures
        bins_wsum(items, asg, k, w) <= k * hi,
    decreases k,
{
    if k > 0 {
        lemma_bins_wsum_bounded(items, asg, k - 1, w, hi);
        assert(wsum(bin_items(items, asg, k - 1), w) <= hi);
        assert((k - 1) * hi + hi == k * hi) by (nonlinear_arith);
    } else {
        assert(k * hi == 0) by (nonlinear_arith)
            requires
                k == 0,
        ;
    }
}

/// `ceil(a / d) <= m` when `a <= m * d`.
pub proof fn lemma_ceil_div_le(a: int, d: int, m: int)
    requires
        0 <= a,
        0 < d,
        0 <= m,
        a <= m * d,
    ensures
        ceil_div(a, d) <= m,
{
    lemma_fundamental_div_mod(a, d);
    let q = a / d;
    let r = a % d;
    assert(q <= m) by (nonlinear_arith)
        requires
            a == d * q + r,
            0 <= r,
            a <= m * d,
            0 < d,
    ;
    if q == m {
        assert(r == 0) by (nonlinear_arith)
            requires
                a == d * q + r,
                a <= m * d,
                q == m,
                0 <= r,
        ;
    }
}

/// The weight that charges a full bin to each large item and its size to
/// each medium item.
pub open spec fn cut_weight(alpha: int) -> spec_fn(u64) -> int {
    |s: u64|
        if is_large(s as int, alpha) {
            CAPACITY as int
        } else if is_medium(s as int, alpha) {
            s as int
        } else {
            0int
        }
}

/// The cut weight is a full bin per large item plus the medium sizes.
proof fn lemma_cut_wsum(t: Seq<u64>, alpha: int)
    requires
        0 < alpha <= CAPACITY / 2,
    ensures
        wsum(t, cut_weight(alpha)) == CAPACITY * large_count(t, alpha) + medium_size(t, alpha),
    decreases t.len(),
{
    if t.len() > 0 {
        lemma_cut_wsum(t.drop_last(), alpha);
        let l = large_count(t.drop_last(), alpha);
        assert(CAPACITY * (l + 1) == CAPACITY * l + CAPACITY) by (nonlinear_arith);
    }
}

/// The sizes cover more than `CAPACITY - alpha` per large item plus the
/// medium sizes.
proof fn lemma_size_dominates(t: Seq<u64>, alpha: int)
    requires
        0 < alpha <= CAPACITY / 2,
    ensures
        total_size(t) >= (CAPACITY - alpha + 1) * large_count(t, alpha) + medium_size(t, alpha),
        large_count(t, alpha) >= 0,
        medium_size(t, alpha) >= 0,
    decreases t.len(),
{
    if t.len() > 0 {
        lemma_size_dominates(t.drop_last(), alpha);
        let l = large_count(t.drop_last(), alpha);
        let c = CAPACITY - alpha + 1;
        assert(c * (l + 1) == c * l + c) by (nonlinear_arith);
    }
}

/// Medium items weigh at least `alpha` each, so a nonzero medium sum is at
/// least `alpha`.
proof fn lemma_medium_positive(t: Seq<u64>, alpha: int)
    requires
        0 < alpha <= CAPACITY / 2,
    ensures
        medium_size(t, alpha) == 0 || medium_size(t, alpha) >= alpha,
        medium_size(t, alpha) >= 0,
    decreases t.len(),
{
    if t.len() > 0 {
        lemma_medium_positive(t.drop_last(), alpha);
    }
}

/// A bin within capacity holds either one large item and no medium item,
/// or no large item and medium sizes within capacity: its cut weight is
/// at most a bin.
proof fn lemma_bin_cut_weight(t: Seq<u64>, alpha: int)
    requires
        0 < alpha <= CAPACITY / 2,
        total_size(t) <= CAPACITY,
    ensures
        wsum(t, cut_weight(alpha)) <= CAPACITY,
{
    lemma_cut_wsum(t, alpha);
    lemma_size_dominates(t, alpha);
    lemma_medium_positive(t, alpha);
    let l = large_count(t, alpha);
    let m = medium_size(t, alpha);
    let c = CAPACITY - alpha + 1;
    if l >= 2 {
        assert(c * l >= c * 2) by (nonlinear_arith)
            requires
                l >= 2,
                c > 0,
        ;
    } else if l == 1 {
        assert(c * l == c && CAPACITY * l == CAPACITY) by (nonlinear_arith)
            requires
                l == 1,
        ;
    } else {
        assert(c * l == 0 && CAPACITY * l == 0) by (nonlinear_arith)
            requires
                l == 0,
        ;
    }
}

/// L1: a valid packing into `k` bins has `k >= ceil(total / CAPACITY)`.
pub proof fn lemma_l1_below_packing(items: Seq<u64>, asg: Seq<int>, k: int)
    requires
        valid_packing(items, asg, k),
        k >= 0,
    ensures
        l1_bound(items) <= k,
{
    lemma_bins_wsum_total(items, asg, k, size_weight());
    assert forall|b: int| 0 <= b < k implies #[trigger] wsum(bin_items(items, asg, b), size_weight()) <= CAPACITY by {
        assert(load(items, asg, b) <= CAPACITY);
    }
    lemma_bins_wsum_bounded(items, asg, k, size_weight(), CAPACITY as int);
    lemma_total_nonneg(items);
    lemma_ceil_div_le(total_size(items), CAPACITY as int, k);
}

/// Sizes are never negative.
pub proof fn lemma_total_nonneg(t: Seq<u64>)
    ensures
        total_size(t) >= 0,
    decreases t.len(),
{
    if t.len() > 0 {
        lemma_total_nonneg(t.drop_last());
    }
}

/// L2 at a cut: a valid packing into `k` bins has
/// `k >= large items + ceil(medium sizes / CAPACITY)`.
pub proof fn lemma_l2_at_below_packing(items: Seq<u64>, asg: Seq<int>, k: int, alpha: int)
    requires
        valid_packing(items, asg, k),
        k >= 0,
        0 < alpha <= CAPACITY / 2,
    ensures
        l2_at(items, alpha) <= k,
{
    let w = cut_weight(alpha);
    lemma_bins_wsum_total(items, asg, k, w);
    assert forall|b: int| 0 <= b < k implies #[trigger] wsum(bin_items(items, asg, b), w) <= CAPACITY by {
        assert(load(items, asg, b) <= CAPACITY);
        lemma_bin_cut_weight(bin_items(items, asg, b), alpha);
    }
    lemma_bins_wsum_bounded(items, asg, k, w, CAPACITY as int);
    lemma_cut_wsum(items, alpha);
    lemma_size_dominates(items, alpha);
    let l = large_count(items, alpha);
    let m = medium_size(items, alpha);
    assert(l <= k) by (nonlinear_arith)
        requires
            CAPACITY * l + m <= k * CAPACITY,
            m >= 0,
            CAPACITY > 0,
    ;
    assert(m <= (k - l) * CAPACITY) by (nonlinear_arith)
        requires
            CAPACITY * l + m <= k * CAPACITY,
    ;
    lemma_ceil_div_le(m, CAPACITY as int, k - l);
}

/// The best L2 value over the cuts `CAPACITY / 2` and the sizes among the
/// first `t` items that lie strictly between 0 and half a bin.
spec fn cut_max(items: Seq<u64>, t: int) -> int
    decreases t,
{
    if t <= 0 {
        l2_at(items, (CAPACITY / 2) as int)
    } else {
        let prev = cut_max(items, t - 1);
        let s = items[t - 1] as int;
        if 0 < s < CAPACITY / 2 && l2_at(items, s) > prev {
            l2_at(items, s)
        } else {
            prev
        }
    }
}

proof fn lemma_cut_max(items: Seq<u64>, t: int)
    requires
        0 <= t <= items.len(),
    ensures
        l2_at(items, (CAPACITY / 2) as int) <= cut_max(items, t),
        forall|i: int| 0 <= i < t && 0 < items[i] < CAPACITY / 2
            ==> #[trigger] l2_at(items, items[i] as int) <= cut_max(items, t),
        exists|a: int| is_cut(items, a) && cut_max(items, t) == #[trigger] l2_at(items, a),
    decreases t,
{
    if t == 0 {
        assert(is_cut(items, (CAPACITY / 2) as int));
    } else {
        lemma_cut_max(items, t - 1);
        let s = items[t - 1];
        if 0 < s < CAPACITY / 2 {
            assert(items.contains(s));
            assert(is_cut(items, s as int));
        }
    }
}

/// The L2 bound exists: some value is the largest of L1 and of L2 at
/// every cut.
pub proof fn lemma_l2_bound_exists(items: Seq<u64>)
    requires
        items.len() > 0,
    ensures
        is_l2_bound(items, l2_bound(items)),
{
    let n = items.len() as int;
    lemma_cut_max(items, n);
    let cm = cut_max(items, n);
    let v = if l1_bound(items) >= cm { l1_bound(items) } else { cm };
    assert forall|a: int| is_cut(items, a) implies v >= #[trigger] l2_at(items, a) by {
        if a != CAPACITY / 2 {
            let i = choose|i: int| 0 <= i < n && items[i] == a as u64;
            assert(l2_at(items, items[i] as int) <= cm);
        }
    }
    assert(is_l2_bound(items, v));
    lemma_l2_bound_unique(items, v);
}

/// No valid packing uses fewer bins than the L2 bound.
pub proof fn lemma_l2_below_packing(items: Seq<u64>, asg: Seq<int>, k: int)
    requires
        valid_packing(items, asg, k),
        k >= 0,
    ensures
        l2_bound(items) <= k,
{
    if items.len() > 0 {
        lemma_l2_bound_exists(items);
        let v = l2_bound(items);
        lemma_l1_below_packing(items, asg, k);
        if v != l1_bound(items) {
            let a = choose|a: int| is_cut(items, a) && v == #[trigger] l2_at(items, a);
            lemma_l2_at_below_packing(items, asg, k, a);
        }
    }
}

} // verus!
