//! Sorting item sizes in non-increasing order, as the "decreasing"
//! heuristics need.

use vstd::prelude::*;
use vstd::relations::{sorted_by, total_ordering};
use vstd::seq_lib::{lemma_sorted_unique, to_multiset_update};

verus! {

/// The order of the decreasing heuristics: larger sizes first.
pub open spec fn larger_first() -> spec_fn(u64, u64) -> bool {
    |a: u64, b: u64| a >= b
}

/// `items` in non-increasing order.
pub open spec fn decreasing(items: Seq<u64>) -> Seq<u64> {
    items.sort_by(larger_first())
}

/// "Larger first" is a total order on sizes.
pub proof fn lemma_larger_first_total()
    ensures
        total_ordering(larger_first()),
{
}

/// A swap of two positions keeps the multiset of a sequence.
proof fn lemma_swap_multiset(s: Seq<u64>, a: int, b: int)
    requires
        0 <= a < s.len(),
        0 <= b < s.len(),
    ensures
        s.update(a, s[b]).update(b, s[a]).to_multiset() =~= s.to_multiset(),
{
    broadcast use vstd::multiset::group_multiset_axioms;
    broadcast use vstd::seq_lib::group_to_multiset_ensures;
    let s1 = s.update(a, s[b]);
    to_multiset_update(s, a, s[b]);
    to_multiset_update(s1, b, s[a]);
    if a == b {
        assert(s1.update(b, s[a]) =~= s);
    } else {
        assert(s.contains(s[a]));
        assert(s1.contains(s1[b]));
        assert(s1[b] == s[b]);
        assert(s.to_multiset().count(s[a]) > 0);
    }
}

/// Sorts `v` in non-increasing order (insertion sort).
pub fn sort_decreasing(v: &mut Vec<u64>)
    ensures
        final(v)@ == decreasing(old(v)@),
{
    let ghost orig = v@;
    let n = v.len();
    let mut i: usize = 0;
    while i < n
        invariant
            n == v@.len(),
            0 <= i <= n,
            v@.to_multiset() == orig.to_multiset(),
            forall|a: int, b: int| 0 <= a <= b < i ==> v@[a] >= v@[b],
        decreases n - i,
    {
        let mut j: usize = i;
        while j > 0 && v[j - 1] < v[j]
            invariant
                n == v@.len(),
                0 <= j <= i < n,
                v@.to_multiset() == orig.to_multiset(),
                forall|a: int, b: int|
                    0 <= a <= b <= i && a != j && b != j ==> v@[a] >= v@[b],
                forall|b: int| j < b <= i ==> v@[j as int] >= v@[b],
            decreases j,
        {
            let lower = v[j - 1];
            let upper = v[j];
            proof { lemma_swap_multiset(v@, j - 1, j as int); }
            v[j - 1] = upper;
            v[j] = lower;
            j = j - 1;
        }
        i = i + 1;
    }
    proof {
        lemma_larger_first_total();
        orig.lemma_sort_by_ensures(larger_first());
        assert(sorted_by(v@, larger_first()));
        lemma_sorted_unique(v@, decreasing(orig), larger_first());
    }
}

} // verus!
