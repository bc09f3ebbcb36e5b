//! What a packing is, and the proof that every heuristic builds one.

use vstd::prelude::*;
use crate::packing::{
    CAPACITY, PackState, fits, place, next_fit_state, first_fit_state, best_fit_state,
    first_fit_bin, best_fit_bin, first_fitting, best_fitting,
};
use crate::bounds::{wsum, size_weight, total_size};

verus! {

/// The items (in order) that `asg` puts into bin `b`.
pub open spec fn bin_items(items: Seq<u64>, asg: Seq<int>, b: int) -> Seq<u64>
    decreases items.len(),
{
    if items.len() == 0 || asg.len() == 0 {
        seq![]
    } else {
        let rest = bin_items(items.drop_last(), asg.drop_last(), b);
        if asg.last() == b {
            rest.push(items.last())
        } else {
            rest
        }
    }
}

/// The units that `asg` puts into bin `b`.
pub open spec fn load(items: Seq<u64>, asg: Seq<int>, b: int) -> int {
    total_size(bin_items(items, asg, b))
}

/// `asg` packs `items` into bins `0..k` without overfilling any bin.
pub open spec fn valid_packing(items: Seq<u64>, asg: Seq<int>, k: int) -> bool {
    &&& asg.len() == items.len()
    &&& forall|i: int| 0 <= i < asg.len() ==> 0 <= #[trigger] asg[i] < k
    &&& forall|b: int| 0 <= b < k ==> #[trigger] load(items, asg, b) <= CAPACITY
}

/// The state records a bin for every item, and the capacity left in every
/// opened bin is the capacity minus what the state put there.
pub open spec fn consistent(items: Seq<u64>, st: PackState) -> bool {
    &&& st.assignment.len() == items.len()
    &&& forall|i: int| 0 <= i < st.assignment.len()
        ==> 0 <= #[trigger] st.assignment[i] < st.residual.len()
    &&& forall|b: int| 0 <= b < st.residual.len()
        ==> #[trigger] st.residual[b] == CAPACITY - load(items, st.assignment, b)
}

/// No opened bin is overfilled.
pub open spec fn within_capacity(st: PackState) -> bool {
    forall|b: int| 0 <= b < st.residual.len() ==> #[trigger] st.residual[b] >= 0
}

/// Every size is at most a bin.
pub open spec fn sizes_fit(items: Seq<u64>) -> bool {
    forall|i: int| 0 <= i < items.len() ==> #[trigger] items[i] <= CAPACITY
}

/// A sum of weights over a sequence one item longer.
pub proof fn lemma_wsum_push(t: Seq<u64>, w: spec_fn(u64) -> int, x: u64)
    ensures
        wsum(t.push(x), w) == wsum(t, w) + w(x),
{
    assert(t.push(x).drop_last() =~= t);
}

/// The items of a bin after one more item.
pub proof fn lemma_bin_items_push(items: Seq<u64>, asg: Seq<int>, x: u64, c: int, b: int)
    requires
        asg.len() == items.len(),
    ensures
        bin_items(items.push(x), asg.push(c), b)
            == (if c == b { bin_items(items, asg, b).push(x) } else { bin_items(items, asg, b) }),
{
    assert(items.push(x).drop_last() =~= items);
    assert(asg.push(c).drop_last() =~= asg);
}

/// A bin that no item was put into holds nothing.
pub proof fn lemma_bin_items_unused(items: Seq<u64>, asg: Seq<int>, b: int)
    requires
        asg.len() == items.len(),
        forall|i: int| 0 <= i < asg.len() ==> #[trigger] asg[i] != b,
    ensures
        bin_items(items, asg, b) == Seq::<u64>::empty(),
    decreases items.len(),
{
    if items.len() > 0 {
        assert(asg.last() == asg[asg.len() - 1]);
        lemma_bin_items_unused(items.drop_last(), asg.drop_last(), b);
    }
}

/// Packing one more item keeps a state consistent.
pub proof fn lemma_place_consistent(items: Seq<u64>, s: PackState, x: u64, b: int)
    requires
        consistent(items, s),
    ensures
        consistent(items.push(x), place(s, x as int, b)),
{
    let t = place(s, x as int, b);
    let c = if 0 <= b < s.residual.len() { b } else { s.residual.len() as int };
    assert(t.assignment == s.assignment.push(c));
    if !(0 <= b < s.residual.len()) {
        assert forall|i: int| 0 <= i < s.assignment.len() implies #[trigger] s.assignment[i] != c by {}
        lemma_bin_items_unused(items, s.assignment, c);
        assert(wsum(Seq::<u64>::empty(), size_weight()) == 0);
    }
    assert forall|bb: int| 0 <= bb < t.residual.len()
        implies #[trigger] t.residual[bb] == CAPACITY - load(items.push(x), t.assignment, bb) by {
        lemma_bin_items_push(items, s.assignment, x, c, bb);
        lemma_wsum_push(bin_items(items, s.assignment, bb), size_weight(), x);
    }
}

/// Packing one more item keeps the bins within capacity, when the item
/// goes into a bin where it fits or into a new bin.
pub proof fn lemma_place_within(s: PackState, x: u64, b: int)
    requires
        within_capacity(s),
        x <= CAPACITY,
        0 <= b < s.residual.len() ==> fits(x as int, s.residual[b]),
    ensures
        within_capacity(place(s, x as int, b)),
{
}

/// First Fit's choice is a bin where the item fits, or a new bin.
pub proof fn lemma_first_fit_bin_fits(r: Seq<int>, x: int)
    ensures
        0 <= first_fit_bin(r, x) <= r.len(),
        first_fit_bin(r, x) < r.len() ==> fits(x, r[first_fit_bin(r, x)]),
{
    if exists|b: int| first_fitting(r, x, b) {
        let b = choose|b: int| first_fitting(r, x, b);
        assert(first_fitting(r, x, b));
    }
}

/// Best Fit's choice is a bin where the item fits, or a new bin.
pub proof fn lemma_best_fit_bin_fits(r: Seq<int>, x: int)
    ensures
        0 <= best_fit_bin(r, x) <= r.len(),
        best_fit_bin(r, x) < r.len() ==> fits(x, r[best_fit_bin(r, x)]),
{
    if exists|b: int| best_fitting(r, x, b) {
        let b = choose|b: int| best_fitting(r, x, b);
        assert(best_fitting(r, x, b));
    }
}

/// Next Fit builds a consistent state; within capacity when every size
/// is at most a bin.
pub proof fn lemma_next_fit_valid(items: Seq<u64>)
    ensures
        consistent(items, next_fit_state(items)),
        next_fit_state(items).residual.len() >= 1,
        sizes_fit(items) ==> within_capacity(next_fit_state(items)),
    decreases items.len(),
{
    if items.len() == 0 {
        let st = next_fit_state(items);
        assert(bin_items(items, st.assignment, 0) == Seq::<u64>::empty());
        assert(wsum(Seq::<u64>::empty(), size_weight()) == 0);
    } else {
        let rest = items.drop_last();
        let x = items.last();
        lemma_next_fit_valid(rest);
        let s = next_fit_state(rest);
        let cur = s.residual.len() - 1;
        let b = if fits(x as int, s.residual[cur]) { cur } else { s.residual.len() as int };
        assert(next_fit_state(items) == place(s, x as int, b));
        assert(rest.push(x) =~= items);
        lemma_place_consistent(rest, s, x, b);
        if sizes_fit(items) {
            assert(sizes_fit(rest));
            assert(x == items[items.len() - 1]);
            lemma_place_within(s, x, b);
        }
    }
}

/// First Fit builds a consistent state; within capacity when every size
/// is at most a bin.
pub proof fn lemma_first_fit_valid(items: Seq<u64>)
    ensures
        consistent(items, first_fit_state(items)),
        sizes_fit(items) ==> within_capacity(first_fit_state(items)),
    decreases items.len(),
{
    if items.len() > 0 {
        let rest = items.drop_last();
        let x = items.last();
        lemma_first_fit_valid(rest);
        let s = first_fit_state(rest);
        let b = first_fit_bin(s.residual, x as int);
        lemma_first_fit_bin_fits(s.residual, x as int);
        assert(rest.push(x) =~= items);
        lemma_place_consistent(rest, s, x, b);
        if sizes_fit(items) {
            assert(sizes_fit(rest));
            assert(x == items[items.len() - 1]);
            lemma_place_within(s, x, b);
        }
    }
}

/// Best Fit builds a consistent state; within capacity when every size
/// is at most a bin.
pub proof fn lemma_best_fit_valid(items: Seq<u64>)
    ensures
        consistent(items, best_fit_state(items)),
        sizes_fit(items) ==> within_capacity(best_fit_state(items)),
    decreases items.len(),
{
    if items.len() > 0 {
        let rest = items.drop_last();
        let x = items.last();
        lemma_best_fit_valid(rest);
        let s = best_fit_state(rest);
        let b = best_fit_bin(s.residual, x as int);
        lemma_best_fit_bin_fits(s.residual, x as int);
        assert(rest.push(x) =~= items);
        lemma_place_consistent(rest, s, x, b);
        if sizes_fit(items) {
            assert(sizes_fit(rest));
            assert(x == items[items.len() - 1]);
            lemma_place_within(s, x, b);
        }
    }
}

/// A consistent state within capacity is a valid packing.
pub proof fn lemma_consistent_valid(items: Seq<u64>, st: PackState)
    requires
        consistent(items, st),
        within_capacity(st),
    ensures
        valid_packing(items, st.assignment, st.residual.len() as int),
{
    assert forall|b: int| 0 <= b < st.residual.len() implies #[trigger] load(items, st.assignment, b) <= CAPACITY by {
        assert(st.residual[b] >= 0);
    }
}


/// First Fit opens at most one bin per item.
pub proof fn lemma_first_fit_at_most_items(items: Seq<u64>)
    ensures
        first_fit_state(items).residual.len() <= items.len(),
    decreases items.len(),
{
    if items.len() > 0 {
        lemma_first_fit_at_most_items(items.drop_last());
    }
}

} // verus!
