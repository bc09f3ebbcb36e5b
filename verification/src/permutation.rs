//! Sums of weights, and so the lower bounds, depend only on the multiset
//! of sizes: sorting the items does not change them.

use vstd::prelude::*;
use vstd::seq_lib::{to_multiset_remove, to_multiset_build, to_multiset_len, to_multiset_contains};
use crate::bounds::{
    wsum, l1_bound, l2_at, is_cut, is_l2_bound, l2_bound,
    lemma_l2_bound_unique, size_weight, large_weight, medium_weight,
};
use crate::lower_bound_proof::lemma_l2_bound_exists;

verus! {

/// Removing one item takes its weight off the sum.
proof fn lemma_wsum_remove(s: Seq<u64>, j: int, w: spec_fn(u64) -> int)
    requires
        0 <= j < s.len(),
    ensures
        wsum(s, w) == wsum(s.remove(j), w) + w(s[j]),
    decreases s.len(),
{
    if j == s.len() - 1 {
        assert(s.remove(j) =~= s.drop_last());
    } else {
        lemma_wsum_remove(s.drop_last(), j, w);
        assert(s.remove(j).drop_last() =~= s.drop_last().remove(j));
        assert(s.remove(j).last() == s.last());
    }
}

/// Two orderings of the same sizes have the same sum of weights.
pub proof fn lemma_wsum_permutation(s1: Seq<u64>, s2: Seq<u64>, w: spec_fn(u64) -> int)
    requires
        s1.to_multiset() == s2.to_multiset(),
    ensures
        wsum(s1, w) == wsum(s2, w),
    decreases s1.len(),
{
    broadcast use vstd::multiset::group_multiset_axioms;
    to_multiset_len(s1);
    to_multiset_len(s2);
    if s1.len() > 0 {
        let x = s1.last();
        let r1 = s1.drop_last();
        assert(r1.push(x) =~= s1);
        to_multiset_build(r1, x);
        to_multiset_contains(s2, x);
        assert(s2.to_multiset().count(x) > 0);
        let j = choose|j: int| 0 <= j < s2.len() && s2[j] == x;
        to_multiset_remove(s2, j);
        assert(r1.to_multiset() =~= s2.remove(j).to_multiset());
        lemma_wsum_permutation(r1, s2.remove(j), w);
        lemma_wsum_remove(s2, j, w);
    }
}

/// Two orderings of the same sizes have the same L2 bound.
pub proof fn lemma_l2_bound_permutation(s1: Seq<u64>, s2: Seq<u64>)
    requires
        s1.to_multiset() == s2.to_multiset(),
    ensures
        l2_bound(s1) == l2_bound(s2),
{
    broadcast use vstd::seq_lib::group_to_multiset_ensures;
    to_multiset_len(s1);
    to_multiset_len(s2);
    if s1.len() > 0 {
        lemma_l2_bound_exists(s1);
        let v = l2_bound(s1);
        lemma_wsum_permutation(s1, s2, size_weight());
        assert forall|a: int| #[trigger] is_cut(s2, a) == is_cut(s1, a) by {
            to_multiset_contains(s1, a as u64);
            to_multiset_contains(s2, a as u64);
        }
        assert forall|a: int| #[trigger] l2_at(s2, a) == l2_at(s1, a) by {
            lemma_wsum_permutation(s1, s2, large_weight(a));
            lemma_wsum_permutation(s1, s2, medium_weight(a));
        }
        assert(l1_bound(s1) == l1_bound(s2));
        if v != l1_bound(s1) {
            let a = choose|a: int| is_cut(s1, a) && v == #[trigger] l2_at(s1, a);
            assert(is_cut(s2, a) && v == l2_at(s2, a));
        }
        assert(is_l2_bound(s2, v));
        lemma_l2_bound_unique(s2, v);
    }
}

} // verus!
