//! Running the heuristics by name, and the experiment: every distribution
//! × size × repetition × heuristic, with the bins, the L2 bound, the total
//! size and the time of each run.

use std::time::{Duration, Instant};
use vstd::prelude::*;
use vstd::arithmetic::div_mod::{
    lemma_fundamental_div_mod_converse_div, lemma_fundamental_div_mod_converse_mod,
};
use crate::packing::{Solution, PackState, next_fit_state, first_fit_state, best_fit_state};
use crate::sorting::decreasing;
use crate::bounds::{l2_bound, total_size};
use crate::algorithms::{
    next_fit, first_fit, best_fit, first_fit_decreasing, best_fit_decreasing, lower_bound_l2,
    sum_sizes,
};
use crate::generators::{Distribution, generate};
use crate::laws::law_heuristics_respect_l2;
use crate::validity::lemma_first_fit_at_most_items;
use crate::text::same_text;

verus! {

/// The names of the heuristics, in the order the experiment runs them.
pub const ALGORITHMS: [&'static str; 5] = ["NF", "FF", "BF", "FFD", "BFD"];

/// A name the experiment knows.
pub open spec fn is_algorithm_name(name: Seq<char>) -> bool {
    ||| name == "NF"@
    ||| name == "FF"@
    ||| name == "BF"@
    ||| name == "FFD"@
    ||| name == "BFD"@
}

/// Runs a heuristic by name (as the command line and the experiment do).
pub fn run_algorithm(name: &str, items: &[u64]) -> (sol: Solution)
    requires
        is_algorithm_name(name@),
    ensures
        name@ == "NF"@ ==> sol.holds(next_fit_state(items@)),
        name@ == "FF"@ ==> sol.holds(first_fit_state(items@)),
        name@ == "BF"@ ==> sol.holds(best_fit_state(items@)),
        name@ == "FFD"@ ==> sol.holds(first_fit_state(decreasing(items@))),
        name@ == "BFD"@ ==> sol.holds(best_fit_state(decreasing(items@))),
{
    proof {
        reveal_strlit("NF");
        reveal_strlit("FF");
        reveal_strlit("BF");
        reveal_strlit("FFD");
        reveal_strlit("BFD");
        assert("NF"@[0] != "FF"@[0] && "NF"@[0] != "BF"@[0] && "FF"@[0] != "BF"@[0]);
        assert("FFD"@[0] != "BFD"@[0]);
        assert("NF"@.len() != "FFD"@.len() && "FF"@.len() != "FFD"@.len() && "BF"@.len() != "FFD"@.len());
        assert("NF"@.len() != "BFD"@.len() && "FF"@.len() != "BFD"@.len() && "BF"@.len() != "BFD"@.len());
    }
    if same_text(name, "NF") {
        next_fit(items)
    } else if same_text(name, "FF") {
        first_fit(items)
    } else if same_text(name, "BF") {
        best_fit(items)
    } else if same_text(name, "FFD") {
        first_fit_decreasing(items)
    } else {
        best_fit_decreasing(items)
    }
}

/// The seed of repetition `rep` for instances of `n` items:
/// `1000 * (rep + 1) + n` — deterministic and reproducible.
pub fn experiment_seed(rep: usize, n: usize) -> (seed: u64)
    requires
        1000 * (rep + 1) + n <= u64::MAX,
    ensures
        seed == 1000 * (rep + 1) + n,
{
    1000 * (rep as u64 + 1) + n as u64
}


#[verifier::external_type_specification]
#[verifier::external_body]
pub struct ExInstant(Instant);

/// `std::time::Instant::now`: the current instant. Nothing is stated of it.
#[verifier::external_body]
fn clock_now() -> Instant {
    Instant::now()
}

/// `std::time::Instant::elapsed`: the time since `start`. Nothing is stated
/// of it.
#[verifier::external_body]
fn time_since(start: &Instant) -> Duration {
    start.elapsed()
}

/// `std::time::Duration::as_micros`: whole microseconds of `d`. Nothing is
/// stated of it.
#[verifier::external_body]
fn micros(d: &Duration) -> u128 {
    d.as_micros()
}

/// The packing of heuristic number `a` (in the order of `ALGORITHMS`).
pub open spec fn algorithm_state(a: int, items: Seq<u64>) -> PackState {
    if a == 0 {
        next_fit_state(items)
    } else if a == 1 {
        first_fit_state(items)
    } else if a == 2 {
        best_fit_state(items)
    } else if a == 3 {
        first_fit_state(decreasing(items))
    } else {
        best_fit_state(decreasing(items))
    }
}

/// Runs heuristic number `a` (in the order of `ALGORITHMS`).
fn run_numbered(a: usize, items: &[u64]) -> (sol: Solution)
    requires
        a < 5,
    ensures
        sol.holds(algorithm_state(a as int, items@)),
{
    proof {
        reveal_strlit("NF");
        reveal_strlit("FF");
        reveal_strlit("BF");
        reveal_strlit("FFD");
        reveal_strlit("BFD");
        assert(ALGORITHMS@[0]@ == "NF"@);
        assert(ALGORITHMS@[1]@ == "FF"@);
        assert(ALGORITHMS@[2]@ == "BF"@);
        assert(ALGORITHMS@[3]@ == "FFD"@);
        assert(ALGORITHMS@[4]@ == "BFD"@);
        assert("NF"@[0] != "FF"@[0] && "NF"@[0] != "BF"@[0] && "FF"@[0] != "BF"@[0]);
        assert("FFD"@[0] != "BFD"@[0]);
    }
    run_algorithm(ALGORITHMS[a], items)
}

/// Runs heuristic number `a` and measures that run alone: the clock is read
/// just before and just after it. The time is the clock's, so nothing is
/// stated of it.
fn timed_run(a: usize, items: &[u64]) -> (r: (Solution, u128))
    requires
        a < 5,
    ensures
        r.0.holds(algorithm_state(a as int, items@)),
{
    let start = clock_now();
    let sol = run_numbered(a, items);
    let spent = time_since(&start);
    (sol, micros(&spent))
}

/// One run of the experiment.
#[derive(Debug, Clone, Copy, PartialEq, Eq)]
pub struct RunRow {
    pub algorithm: &'static str,
    pub distribution: Distribution,
    pub n: usize,
    pub rep: usize,
    pub bins: usize,
    pub lower_bound: usize,
    /// sum of the sizes, in units
    pub total_units: u128,
    /// time of the run, in microseconds
    pub time_us: u128,
}

/// Position of the run of heuristic `a` on repetition `p` of size number `s`
/// of distribution number `d`.
pub open spec fn row_index(d: int, s: int, p: int, a: int, sizes: int, reps: int) -> int {
    ((d * sizes + s) * reps + p) * 5 + a
}

/// The labels of row `k`: heuristic, repetition, size and distribution.
pub open spec fn row_labelled(
    row: RunRow,
    k: int,
    dists: Seq<Distribution>,
    sizes: Seq<usize>,
    reps: int,
) -> bool {
    &&& row.algorithm == ALGORITHMS@[k % 5]
    &&& row.rep == (k / 5) % reps
    &&& row.n == sizes[(k / 5 / reps) % (sizes.len() as int)]
    &&& row.distribution == dists[k / 5 / reps / (sizes.len() as int)]
}

/// The five rows from `base` are the runs of the five heuristics on `items`.
pub open spec fn instance_rows(rows: Seq<RunRow>, base: int, items: Seq<u64>) -> bool {
    forall|a: int| 0 <= a < 5 ==> {
        &&& (#[trigger] rows[base + a]).bins == algorithm_state(a, items).residual.len()
        &&& rows[base + a].lower_bound == l2_bound(items)
        &&& rows[base + a].total_units == total_size(items)
    }
}

/// The five rows from `base` are the runs on one instance of `n` items drawn
/// from `dist`.
pub open spec fn has_instance(rows: Seq<RunRow>, base: int, n: int, dist: Distribution) -> bool {
    exists|items: Seq<u64>|
        {
            &&& items.len() == n
            &&& forall|j: int| 0 <= j < items.len() ==> dist.in_support(#[trigger] items[j] as int)
            &&& #[trigger] instance_rows(rows, base, items)
        }
}

/// The instance of the `i`-th group of five rows: its items come from the
/// row's distribution, and the rows hold the runs on it.
pub open spec fn instance_ok(rows: Seq<RunRow>, i: int, items: Seq<u64>) -> bool {
    &&& items.len() == rows[5 * i].n
    &&& forall|j: int| 0 <= j < items.len() ==> rows[5 * i].distribution.in_support(#[trigger] items[j] as int)
    &&& instance_rows(rows, 5 * i, items)
}

/// Every row is labelled, and every complete group of five rows holds the
/// runs on its instance.
spec fn rows_ok(
    rows: Seq<RunRow>,
    insts: Seq<Seq<u64>>,
    dists: Seq<Distribution>,
    sizes: Seq<usize>,
    reps: int,
) -> bool {
    &&& forall|k: int| 0 <= k < rows.len() ==> row_labelled(#[trigger] rows[k], k, dists, sizes, reps)
    &&& forall|i: int| 0 <= i < insts.len() ==> instance_ok(rows, i, #[trigger] insts[i])
    &&& 5 * insts.len() <= rows.len()
}

/// Reading the position of a row back into its four coordinates.
proof fn lemma_row_index_decode(d: int, s: int, p: int, a: int, ns: int, reps: int)
    requires
        0 <= d,
        0 <= s < ns,
        0 <= p < reps,
        0 <= a < 5,
    ensures
        row_index(d, s, p, a, ns, reps) % 5 == a,
        row_index(d, s, p, a, ns, reps) / 5 == (d * ns + s) * reps + p,
        (row_index(d, s, p, a, ns, reps) / 5) % reps == p,
        row_index(d, s, p, a, ns, reps) / 5 / reps == d * ns + s,
        (row_index(d, s, p, a, ns, reps) / 5 / reps) % ns == s,
        row_index(d, s, p, a, ns, reps) / 5 / reps / ns == d,
{
    let k = row_index(d, s, p, a, ns, reps);
    let q = (d * ns + s) * reps + p;
    assert(k == q * 5 + a);
    lemma_fundamental_div_mod_converse_div(k, 5, q, a);
    lemma_fundamental_div_mod_converse_mod(k, 5, q, a);
    lemma_fundamental_div_mod_converse_div(q, reps, d * ns + s, p);
    lemma_fundamental_div_mod_converse_mod(q, reps, d * ns + s, p);
    lemma_fundamental_div_mod_converse_div(d * ns + s, ns, d, s);
    lemma_fundamental_div_mod_converse_mod(d * ns + s, ns, d, s);
}

/// Positions of the last repetition, size and distribution roll over.
proof fn lemma_row_index_carry(d: int, s: int, p: int, ns: int, reps: int)
    ensures
        row_index(d, s, p, 5, ns, reps) == row_index(d, s, p + 1, 0, ns, reps),
        row_index(d, s, reps, 0, ns, reps) == row_index(d, s + 1, 0, 0, ns, reps),
        row_index(d, ns, 0, 0, ns, reps) == row_index(d + 1, 0, 0, 0, ns, reps),
        row_index(d, 0, 0, 0, ns, reps) == d * ns * reps * 5,
{
    assert((d * ns + s) * reps + reps == (d * ns + s + 1) * reps) by (nonlinear_arith);
    assert((d * ns + ns) * reps == ((d + 1) * ns + 0) * reps) by (nonlinear_arith);
    assert((d * ns + 0) * reps * 5 == d * ns * reps * 5) by (nonlinear_arith);
}

/// Positions in range stay below the number of rows.
proof fn lemma_row_index_bound(d: int, s: int, p: int, a: int, nd: int, ns: int, reps: int)
    requires
        0 <= d < nd,
        0 <= s < ns,
        0 <= p < reps,
        0 <= a < 5,
    ensures
        0 <= row_index(d, s, p, a, ns, reps) < nd * ns * reps * 5,
{
    assert(0 <= (d * ns + s) * reps + p) by (nonlinear_arith)
        requires
            0 <= d,
            0 <= s < ns,
            0 <= p < reps,
    ;
    assert((d * ns + s) * reps + p < nd * ns * reps) by (nonlinear_arith)
        requires
            0 <= d < nd,
            0 <= s < ns,
            0 <= p < reps,
    ;
}

/// A row pushed after the others keeps the labels and groups before it.
proof fn lemma_rows_ok_push(
    rows: Seq<RunRow>,
    row: RunRow,
    insts: Seq<Seq<u64>>,
    dists: Seq<Distribution>,
    sizes: Seq<usize>,
    reps: int,
)
    requires
        rows_ok(rows, insts, dists, sizes, reps),
        row_labelled(row, rows.len() as int, dists, sizes, reps),
    ensures
        rows_ok(rows.push(row), insts, dists, sizes, reps),
{
    let r2 = rows.push(row);
    assert forall|k: int| 0 <= k < r2.len() implies row_labelled(#[trigger] r2[k], k, dists, sizes, reps) by {
        if k < rows.len() {
            assert(r2[k] == rows[k]);
        }
    }
    assert forall|i: int| 0 <= i < insts.len() implies instance_ok(r2, i, #[trigger] insts[i]) by {
        assert(instance_ok(rows, i, insts[i]));
        assert(5 * i + 4 < rows.len()) by (nonlinear_arith)
            requires
                0 <= i < insts.len(),
                5 * insts.len() <= rows.len(),
        ;
        assert forall|a: int| 0 <= a < 5 implies #[trigger] r2[5 * i + a] == rows[5 * i + a] by {}
        assert(r2[5 * i] == rows[5 * i]);
    }
}

/// The full experiment: for each distribution, each size, each repetition
/// (seed `1000 * (rep + 1) + n`) and each heuristic in the order of
/// `ALGORITHMS`, one row with the bins used, the L2 bound (computed ONCE
/// per instance) and the total size of the instance, and the time of the
/// run.
pub fn run_experiment(sizes: &[usize], dists: &[Distribution], reps: usize) -> (rows: Vec<RunRow>)
    requires
        dists@.len() > 0 && reps > 0 ==> forall|s: int|
            0 <= s < sizes@.len() ==> 1000 * reps + #[trigger] sizes@[s] <= u64::MAX,
    ensures
        rows@.len() == dists@.len() * sizes@.len() * reps * 5,
        forall|d: int, s: int, p: int, a: int|
            0 <= d < dists@.len() && 0 <= s < sizes@.len() && 0 <= p < reps && 0 <= a < 5 ==> {
                let row = #[trigger] rows@[row_index(d, s, p, a, sizes@.len() as int, reps as int)];
                &&& row.distribution == dists@[d]
                &&& row.n == sizes@[s]
                &&& row.rep == p
                &&& row.algorithm == ALGORITHMS@[a]
            },
        forall|d: int, s: int, p: int|
            0 <= d < dists@.len() && 0 <= s < sizes@.len() && 0 <= p < reps ==> has_instance(
                rows@,
                #[trigger] row_index(d, s, p, 0, sizes@.len() as int, reps as int),
                sizes@[s] as int,
                dists@[d],
            ),
{
    let nd = dists.len();
    let ns = sizes.len();
    let ghost gs = sizes@;
    let ghost gd = dists@;
    let ghost r = reps as int;
    let ghost nsi = ns as int;
    let mut rows: Vec<RunRow> = Vec::new();
    let ghost mut insts: Seq<Seq<u64>> = Seq::empty();
    let mut d: usize = 0;
    while d < nd
        invariant
            nd == gd.len(),
            ns == gs.len(),
            gs == sizes@,
            gd == dists@,
            r == reps,
            nsi == ns,
            dists@.len() > 0 && reps > 0 ==> forall|s: int|
                0 <= s < sizes@.len() ==> 1000 * reps + #[trigger] sizes@[s] <= u64::MAX,
            0 <= d <= nd,
            rows_ok(rows@, insts, gd, gs, r),
            rows@.len() == row_index(d as int, 0, 0, 0, nsi, r),
            rows@.len() == 5 * insts.len(),
        decreases nd - d,
    {
        let dist = dists[d];
        let mut s: usize = 0;
        while s < ns
            invariant
                nd == gd.len(),
                ns == gs.len(),
                gs == sizes@,
                gd == dists@,
                r == reps,
                nsi == ns,
                0 <= d < nd,
                dist == gd[d as int],
                reps > 0 ==> forall|s: int|
                    0 <= s < sizes@.len() ==> 1000 * reps + #[trigger] sizes@[s] <= u64::MAX,
                0 <= s <= ns,
                rows_ok(rows@, insts, gd, gs, r),
                rows@.len() == row_index(d as int, s as int, 0, 0, nsi, r),
                rows@.len() == 5 * insts.len(),
            decreases ns - s,
        {
            let n = sizes[s];
            let mut p: usize = 0;
            while p < reps
                invariant
                    nd == gd.len(),
                    ns == gs.len(),
                    gs == sizes@,
                    gd == dists@,
                    r == reps,
                    nsi == ns,
                    0 <= d < nd,
                    0 <= s < ns,
                    dist == gd[d as int],
                    n == gs[s as int],
                    1000 * reps + n <= u64::MAX,
                    0 <= p <= reps,
                    rows_ok(rows@, insts, gd, gs, r),
                    rows@.len() == row_index(d as int, s as int, p as int, 0, nsi, r),
                    rows@.len() == 5 * insts.len(),
                decreases reps - p,
            {
                let seed = experiment_seed(p, n);
                let items = generate(n, dist, seed);
                let lb = lower_bound_l2(&items);
                let total = sum_sizes(&items);
                proof {
                    law_heuristics_respect_l2(items@);
                    lemma_first_fit_at_most_items(items@);
                }
                let ghost base = rows@.len() as int;
                let mut a: usize = 0;
                while a < 5
                    invariant
                        nd == gd.len(),
                        ns == gs.len(),
                        gs == sizes@,
                        gd == dists@,
                        r == reps,
                        nsi == ns,
                        0 <= d < nd,
                        0 <= s < ns,
                        0 <= p < reps,
                        dist == gd[d as int],
                        n == gs[s as int],
                        items@.len() == n,
                        forall|j: int| 0 <= j < items@.len() ==> dist.in_support(#[trigger] items@[j] as int),
                        lb == l2_bound(items@),
                        total == total_size(items@),
                        0 <= a <= 5,
                        base == 5 * insts.len(),
                        base == row_index(d as int, s as int, p as int, 0, nsi, r),
                        rows_ok(rows@, insts, gd, gs, r),
                        rows@.len() == base + a,
                        rows@.len() == row_index(d as int, s as int, p as int, a as int, nsi, r),
                        forall|a2: int| 0 <= a2 < a ==> {
                            &&& (#[trigger] rows@[base + a2]).bins == algorithm_state(a2, items@).residual.len()
                            &&& rows@[base + a2].lower_bound == l2_bound(items@)
                            &&& rows@[base + a2].total_units == total_size(items@)
                        },
                    decreases 5 - a,
                {
                    let (sol, time_us) = timed_run(a, &items);
                    let row = RunRow {
                        algorithm: ALGORITHMS[a],
                        distribution: dist,
                        n,
                        rep: p,
                        bins: sol.bins,
                        lower_bound: lb,
                        total_units: total,
                        time_us,
                    };
                    proof {
                        lemma_row_index_decode(d as int, s as int, p as int, a as int, nsi, r);
                        lemma_rows_ok_push(rows@, row, insts, gd, gs, r);
                    }
                    let ghost before = rows@;
                    rows.push(row);
                    proof {
                        assert forall|a2: int| 0 <= a2 < a + 1 implies {
                            &&& (#[trigger] rows@[base + a2]).bins == algorithm_state(a2, items@).residual.len()
                            &&& rows@[base + a2].lower_bound == l2_bound(items@)
                            &&& rows@[base + a2].total_units == total_size(items@)
                        } by {
                            if a2 < a {
                                assert(rows@[base + a2] == before[base + a2]);
                            }
                        }
                    }
                    a = a + 1;
                }
                proof {
                    lemma_row_index_carry(d as int, s as int, p as int, nsi, r);
                    lemma_row_index_decode(d as int, s as int, p as int, 0, nsi, r);
                    assert(row_labelled(rows@[base], base, gd, gs, r));
                    let old_insts = insts;
                    insts = insts.push(items@);
                    assert(rows@[base].n == n);
                    assert(rows@[base].distribution == dist) by {
                        lemma_row_index_decode(d as int, s as int, p as int, 0, nsi, r);
                        assert(row_labelled(rows@[base], base, gd, gs, r));
                    }
                    assert(instance_rows(rows@, base, items@));
                    assert forall|i: int| 0 <= i < insts.len() implies instance_ok(rows@, i, #[trigger] insts[i]) by {
                        if i < old_insts.len() {
                            assert(insts[i] == old_insts[i]);
                        } else {
                            assert(5 * i == base);
                            assert(rows@[5 * i].n == n) by {
                                lemma_row_index_decode(d as int, s as int, p as int, 0, nsi, r);
                                assert(row_labelled(rows@[base], base, gd, gs, r));
                            }
                        }
                    }
                }
                p = p + 1;
            }
            proof { lemma_row_index_carry(d as int, s as int, p as int, nsi, r); }
            s = s + 1;
        }
        proof { lemma_row_index_carry(d as int, s as int, 0, nsi, r); }
        d = d + 1;
    }
    proof {
        lemma_row_index_carry(nd as int, 0, 0, nsi, r);
        assert forall|d: int, s: int, p: int, a: int|
            0 <= d < gd.len() && 0 <= s < gs.len() && 0 <= p < reps && 0 <= a < 5 implies {
                let row = #[trigger] rows@[row_index(d, s, p, a, nsi, r)];
                &&& row.distribution == gd[d]
                &&& row.n == gs[s]
                &&& row.rep == p
                &&& row.algorithm == ALGORITHMS@[a]
            } by {
            lemma_row_index_bound(d, s, p, a, nd as int, nsi, r);
            lemma_row_index_decode(d, s, p, a, nsi, r);
            let k = row_index(d, s, p, a, nsi, r);
            assert(row_labelled(rows@[k], k, gd, gs, r));
        }
        assert forall|d: int, s: int, p: int|
            0 <= d < dists@.len() && 0 <= s < sizes@.len() && 0 <= p < reps implies has_instance(
                rows@,
                #[trigger] row_index(d, s, p, 0, sizes@.len() as int, reps as int),
                sizes@[s] as int,
                dists@[d],
            ) by {
            lemma_row_index_bound(d, s, p, 0, nd as int, nsi, r);
            lemma_row_index_decode(d, s, p, 0, nsi, r);
            let k = row_index(d, s, p, 0, nsi, r);
            let i = k / 5;
            assert(k == 5 * i);
            assert(i < insts.len());
            assert(instance_ok(rows@, i, insts[i]));
            assert(row_labelled(rows@[k], k, gd, gs, r));
            let items = insts[i];
            assert(items.len() == gs[s]);
            assert(forall|j: int| 0 <= j < items.len() ==> gd[d].in_support(#[trigger] items[j] as int));
            assert(instance_rows(rows@, k, items));
        }
    }
    rows
}

} // verus!
