//! The L1 and L2 lower bounds of Martello & Toth, stated over sums of
//! weights of the item sizes.

use vstd::prelude::*;
use crate::packing::CAPACITY;

verus! {

/// Sum of `w` over the sizes in `items`.
pub open spec fn wsum(items: Seq<u64>, w: spec_fn(u64) -> int) -> int
    decreases items.len(),
{
    if items.len() == 0 {
        0
    } else {
        wsum(items.drop_last(), w) + w(items.last())
    }
}

/// Weight of a size: the size itself.
pub open spec fn size_weight() -> spec_fn(u64) -> int {
    |s: u64| s as int
}

/// An item larger than `CAPACITY - alpha`: it leaves less than `alpha`
/// free in its bin.
pub open spec fn is_large(s: int, alpha: int) -> bool {
    s > CAPACITY - alpha
}

/// An item of size in `[alpha, CAPACITY - alpha]`.
pub open spec fn is_medium(s: int, alpha: int) -> bool {
    alpha <= s <= CAPACITY - alpha
}

/// Weight counting the large items.
pub open spec fn large_weight(alpha: int) -> spec_fn(u64) -> int {
    |s: u64| if is_large(s as int, alpha) { 1int } else { 0int }
}

/// Weight summing the medium items.
pub open spec fn medium_weight(alpha: int) -> spec_fn(u64) -> int {
    |s: u64| if is_medium(s as int, alpha) { s as int } else { 0int }
}

/// Sum of the sizes.
pub open spec fn total_size(items: Seq<u64>) -> int {
    wsum(items, size_weight())
}

/// Number of items larger than `CAPACITY - alpha`.
pub open spec fn large_count(items: Seq<u64>, alpha: int) -> int {
    wsum(items, large_weight(alpha))
}

/// Sum of the sizes in `[alpha, CAPACITY - alpha]`.
pub open spec fn medium_size(items: Seq<u64>, alpha: int) -> int {
    wsum(items, medium_weight(alpha))
}

/// Least number of bins that hold `a` units (for `a >= 0`).
pub open spec fn ceil_div(a: int, d: int) -> int {
    if a % d == 0 {
        a / d
    } else {
        a / d + 1
    }
}

/// L1: the sizes need at least `ceil(total / CAPACITY)` bins.
pub open spec fn l1_bound(items: Seq<u64>) -> int {
    ceil_div(total_size(items), CAPACITY as int)
}

/// L2 at cut `alpha`: one bin per large item, plus the bins the medium
/// items need on their own.
pub open spec fn l2_at(items: Seq<u64>, alpha: int) -> int {
    large_count(items, alpha) + ceil_div(medium_size(items, alpha), CAPACITY as int)
}

/// The cuts L2 tries: half a bin, and every item size strictly between
/// 0 and half a bin.
pub open spec fn is_cut(items: Seq<u64>, alpha: int) -> bool {
    alpha == CAPACITY / 2 || (0 < alpha < CAPACITY / 2 && items.contains(alpha as u64))
}

/// `v` is the largest of L1 and of L2 at every cut.
pub open spec fn is_l2_bound(items: Seq<u64>, v: int) -> bool {
    &&& v >= l1_bound(items)
    &&& forall|a: int| is_cut(items, a) ==> v >= #[trigger] l2_at(items, a)
    &&& (v == l1_bound(items) || exists|a: int| is_cut(items, a) && v == #[trigger] l2_at(items, a))
}

/// The L2 lower bound of Martello & Toth: 0 for no items, else the
/// largest of L1 and of L2 at every cut.
pub open spec fn l2_bound(items: Seq<u64>) -> int {
    if items.len() == 0 {
        0
    } else {
        choose|v: int| is_l2_bound(items, v)
    }
}

/// The largest of L1 and of L2 at the cuts is unique.
pub proof fn lemma_l2_bound_unique(items: Seq<u64>, v: int)
    requires
        items.len() > 0,
        is_l2_bound(items, v),
    ensures
        l2_bound(items) == v,
{
    let u = choose|u: int| is_l2_bound(items, u);
    assert(is_l2_bound(items, u));
    if u != v {
        if u == l1_bound(items) {
        } else {
            let a = choose|a: int| is_cut(items, a) && u == #[trigger] l2_at(items, a);
            assert(v >= l2_at(items, a));
        }
        if v == l1_bound(items) {
        } else {
            let b = choose|b: int| is_cut(items, b) && v == #[trigger] l2_at(items, b);
            assert(u >= l2_at(items, b));
        }
    }
}

/// Bounds of a sum of weights between 0 and `hi`.
pub proof fn lemma_wsum_bounds(items: Seq<u64>, w: spec_fn(u64) -> int, hi: int)
    requires
        hi >= 0,
        forall|s: u64| 0 <= #[trigger] w(s) <= hi,
    ensures
        0 <= wsum(items, w) <= items.len() * hi,
    decreases items.len(),
{
    if items.len() > 0 {
        lemma_wsum_bounds(items.drop_last(), w, hi);
        assert(w(items.last()) <= hi);
        assert((items.len() - 1) * hi + hi == items.len() * hi) by (nonlinear_arith);
    }
}

/// A sum over a prefix one longer adds the weight of the next item.
pub proof fn lemma_wsum_take(items: Seq<u64>, w: spec_fn(u64) -> int, i: int)
    requires
        0 <= i < items.len(),
    ensures
        wsum(items.take(i + 1), w) == wsum(items.take(i), w) + w(items[i]),
{
    assert(items.take(i + 1).drop_last() =~= items.take(i));
}

} // verus!
