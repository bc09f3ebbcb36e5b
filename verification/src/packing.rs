//! The model every heuristic is stated against: a packing state is the bin
//! each item went to, and the capacity left in each opened bin.

use vstd::prelude::*;

verus! {

/// Units held by one bin. Sizes are fixed-point fractions of a bin:
/// `100 * 2^53` represents exactly every hundredth of a bin and every
/// fraction with a 53-bit denominator.
pub const CAPACITY: u64 = 900_719_925_474_099_200;

/// The units of one hundredth of a bin.
pub const HUNDREDTH: u64 = 9_007_199_254_740_992;

/// A packing as the heuristics build it: the bin of each item (in the order
/// the items were packed) and the capacity left in each opened bin.
#[verifier::ext_equal]
pub ghost struct PackState {
    pub assignment: Seq<int>,
    pub residual: Seq<int>,
}

/// Solution of a bin-packing instance: the number of bins used and the
/// assignment item -> bin.
#[derive(Debug, Clone, PartialEq)]
pub struct Solution {
    pub bins: usize,
    /// `assignment[i]` is the bin of item `i`, in the order in which the
    /// algorithm packed the items.
    pub assignment: Vec<usize>,
    /// Capacity left in each opened bin, in units.
    pub residual: Vec<i128>,
}

impl View for Solution {
    type V = PackState;

    open spec fn view(&self) -> PackState {
        PackState {
            assignment: Seq::new(self.assignment@.len(), |i: int| self.assignment@[i] as int),
            residual: Seq::new(self.residual@.len(), |i: int| self.residual@[i] as int),
        }
    }
}

impl Solution {
    /// The solution of an instance that has not been packed yet.
    pub fn new() -> (s: Self)
        ensures
            s.bins == 0,
            s@.assignment.len() == 0,
            s@.residual.len() == 0,
    {
        Solution { bins: 0, assignment: Vec::new(), residual: Vec::new() }
    }

    /// `bins` agrees with the opened bins and the solution holds `st`.
    pub open spec fn holds(&self, st: PackState) -> bool {
        &&& self.bins == self.residual@.len()
        &&& self@ == st
    }
}

impl Default for Solution {
    fn default() -> (s: Self)
        ensures
            s.bins == 0,
            s@.assignment.len() == 0,
            s@.residual.len() == 0,
    {
        Self::new()
    }
}

/// Whether an item of size `x` fits in a bin with `r` units left.
pub open spec fn fits(x: int, r: int) -> bool {
    x <= r
}

/// The state after packing item `x` into bin `b`; a `b` past the opened
/// bins opens a new bin for it.
pub open spec fn place(s: PackState, x: int, b: int) -> PackState {
    if 0 <= b < s.residual.len() {
        PackState {
            assignment: s.assignment.push(b),
            residual: s.residual.update(b, s.residual[b] - x),
        }
    } else {
        PackState {
            assignment: s.assignment.push(s.residual.len() as int),
            residual: s.residual.push(CAPACITY - x),
        }
    }
}

/// Next Fit keeps one bin open, the last one: the item goes there if it
/// fits, else into a new bin.
pub open spec fn next_fit_step(s: PackState, x: int) -> PackState {
    let cur = s.residual.len() - 1;
    if fits(x, s.residual[cur]) {
        place(s, x, cur)
    } else {
        place(s, x, s.residual.len() as int)
    }
}

/// The Next Fit packing of `items`: bin 0 is open from the start.
pub open spec fn next_fit_state(items: Seq<u64>) -> PackState
    decreases items.len(),
{
    if items.len() == 0 {
        PackState { assignment: seq![], residual: seq![CAPACITY as int] }
    } else {
        next_fit_step(next_fit_state(items.drop_last()), items.last() as int)
    }
}


/// `b` is the first opened bin in which an item of size `x` fits.
pub open spec fn first_fitting(r: Seq<int>, x: int, b: int) -> bool {
    &&& 0 <= b < r.len()
    &&& fits(x, r[b])
    &&& forall|j: int| 0 <= j < b ==> !fits(x, #[trigger] r[j])
}

/// First Fit's choice: the first bin where the item fits, or a new bin.
pub open spec fn first_fit_bin(r: Seq<int>, x: int) -> int {
    if exists|b: int| first_fitting(r, x, b) {
        choose|b: int| first_fitting(r, x, b)
    } else {
        r.len() as int
    }
}

/// `b` is the bin with the least capacity left among those in which an
/// item of size `x` fits; the first such bin on a tie.
pub open spec fn best_fitting(r: Seq<int>, x: int, b: int) -> bool {
    &&& 0 <= b < r.len()
    &&& fits(x, r[b])
    &&& forall|j: int| 0 <= j < r.len() && fits(x, #[trigger] r[j]) ==> r[b] <= r[j]
    &&& forall|j: int| 0 <= j < b && fits(x, #[trigger] r[j]) ==> r[b] < r[j]
}

/// Best Fit's choice: the tightest bin where the item fits, or a new bin.
pub open spec fn best_fit_bin(r: Seq<int>, x: int) -> int {
    if exists|b: int| best_fitting(r, x, b) {
        choose|b: int| best_fitting(r, x, b)
    } else {
        r.len() as int
    }
}

/// The First Fit packing of `items`, item by item in the given order.
pub open spec fn first_fit_state(items: Seq<u64>) -> PackState
    decreases items.len(),
{
    if items.len() == 0 {
        PackState { assignment: seq![], residual: seq![] }
    } else {
        let s = first_fit_state(items.drop_last());
        place(s, items.last() as int, first_fit_bin(s.residual, items.last() as int))
    }
}

/// The Best Fit packing of `items`, item by item in the given order.
pub open spec fn best_fit_state(items: Seq<u64>) -> PackState
    decreases items.len(),
{
    if items.len() == 0 {
        PackState { assignment: seq![], residual: seq![] }
    } else {
        let s = best_fit_state(items.drop_last());
        place(s, items.last() as int, best_fit_bin(s.residual, items.last() as int))
    }
}

/// The capacities left after packing `x` into bin `b`; a `b` past the
/// opened bins opens a new bin for it.
pub open spec fn place_residual(r: Seq<int>, x: int, b: int) -> Seq<int> {
    if 0 <= b < r.len() {
        r.update(b, r[b] - x)
    } else {
        r.push(CAPACITY - x)
    }
}

/// The capacities Next Fit leaves, followed alone (bin 0 open from the start).
pub open spec fn next_fit_residuals(items: Seq<u64>) -> Seq<int>
    decreases items.len(),
{
    if items.len() == 0 {
        seq![CAPACITY as int]
    } else {
        let r = next_fit_residuals(items.drop_last());
        let x = items.last() as int;
        if fits(x, r[r.len() - 1]) {
            place_residual(r, x, r.len() - 1)
        } else {
            place_residual(r, x, r.len() as int)
        }
    }
}

/// The capacities First Fit leaves, followed alone.
pub open spec fn first_fit_residuals(items: Seq<u64>) -> Seq<int>
    decreases items.len(),
{
    if items.len() == 0 {
        seq![]
    } else {
        let r = first_fit_residuals(items.drop_last());
        let x = items.last() as int;
        place_residual(r, x, first_fit_bin(r, x))
    }
}

/// The capacities Best Fit leaves, followed alone.
pub open spec fn best_fit_residuals(items: Seq<u64>) -> Seq<int>
    decreases items.len(),
{
    if items.len() == 0 {
        seq![]
    } else {
        let r = best_fit_residuals(items.drop_last());
        let x = items.last() as int;
        place_residual(r, x, best_fit_bin(r, x))
    }
}

/// Following the capacities alone gives the capacities of the full packing.
pub proof fn lemma_residuals_agree(items: Seq<u64>)
    ensures
        next_fit_residuals(items) == next_fit_state(items).residual,
        first_fit_residuals(items) == first_fit_state(items).residual,
        best_fit_residuals(items) == best_fit_state(items).residual,
    decreases items.len(),
{
    if items.len() > 0 {
        lemma_residuals_agree(items.drop_last());
    }
}

/// The first bin that fits is First Fit's choice.
pub proof fn lemma_first_fit_bin(r: Seq<int>, x: int, b: int)
    requires
        first_fitting(r, x, b),
    ensures
        first_fit_bin(r, x) == b,
{
    let c = choose|c: int| first_fitting(r, x, c);
    assert(first_fitting(r, x, c));
    if c < b {
        assert(!fits(x, r[c]));
    } else if b < c {
        assert(!fits(x, r[b]));
    }
}

/// With no bin that fits, First Fit opens a new bin.
pub proof fn lemma_first_fit_none(r: Seq<int>, x: int)
    requires
        forall|j: int| 0 <= j < r.len() ==> !fits(x, #[trigger] r[j]),
    ensures
        first_fit_bin(r, x) == r.len(),
{
}

/// The tightest bin that fits is Best Fit's choice.
pub proof fn lemma_best_fit_bin(r: Seq<int>, x: int, b: int)
    requires
        best_fitting(r, x, b),
    ensures
        best_fit_bin(r, x) == b,
{
    let c = choose|c: int| best_fitting(r, x, c);
    assert(best_fitting(r, x, c));
    assert(r[b] <= r[c] && r[c] <= r[b]);
    if c < b {
        assert(r[b] < r[c]);
    } else if b < c {
        assert(r[c] < r[b]);
    }
}

/// With no bin that fits, Best Fit opens a new bin.
pub proof fn lemma_best_fit_none(r: Seq<int>, x: int)
    requires
        forall|j: int| 0 <= j < r.len() ==> !fits(x, #[trigger] r[j]),
    ensures
        best_fit_bin(r, x) == r.len(),
{
}

} // verus!
