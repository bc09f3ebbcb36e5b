use bpp::algorithms::{
    best_fit, best_fit_bins, best_fit_decreasing, best_fit_decreasing_bins, first_fit,
    first_fit_bins, first_fit_decreasing, first_fit_decreasing_bins, lower_bound_l2, next_fit,
    next_fit_bins, sum_sizes,
};
use bpp::experiment::{experiment_seed, run_algorithm, run_experiment, ALGORITHMS};
use bpp::generators::{
    continuous_size, generate, generator_seed, hundredths_size, splitmix64, Distribution,
};
use bpp::packing::{Solution, CAPACITY, HUNDREDTH};
use bpp::sorting::sort_decreasing;

fn units(xs: &[f64]) -> Vec<u64> {
    xs.iter().map(|&x| (x * 100.0).round() as u64 * HUNDREDTH).collect()
}

/// Load of each bin, rebuilt from the assignment.
fn loads(items: &[u64], sol: &Solution) -> Vec<i128> {
    let mut l = vec![0i128; sol.bins];
    for (i, &b) in sol.assignment.iter().enumerate() {
        l[b] += items[i] as i128;
    }
    l
}

fn sorted_desc(items: &[u64]) -> Vec<u64> {
    let mut v = items.to_vec();
    v.sort_by(|a, b| b.cmp(a));
    v
}

#[test]
fn capacity_is_a_hundred_times_two_to_the_53() {
    assert_eq!(CAPACITY, 100 * (1u64 << 53));
    assert_eq!(HUNDREDTH * 100, CAPACITY);
}

#[test]
fn empty_instance() {
    let items: Vec<u64> = Vec::new();
    let nf = next_fit(&items);
    assert_eq!(nf.bins, 1);
    assert_eq!(nf.residual, vec![CAPACITY as i128]);
    assert!(nf.assignment.is_empty());
    assert_eq!(first_fit(&items), Solution::new());
    assert_eq!(best_fit(&items), Solution::default());
    assert_eq!(first_fit_decreasing(&items).bins, 0);
    assert_eq!(best_fit_decreasing(&items).bins, 0);
    assert_eq!(next_fit_bins(&items), 1);
    assert_eq!(first_fit_bins(&items), 0);
    assert_eq!(best_fit_bins(&items), 0);
    assert_eq!(lower_bound_l2(&items), 0);
}

#[test]
fn next_fit_exact_solution() {
    let items = units(&[0.7, 0.6, 0.4, 0.2]);
    let sol = next_fit(&items);
    assert_eq!(sol.assignment, vec![0, 1, 1, 2]);
    assert_eq!(
        sol.residual,
        vec![30 * HUNDREDTH as i128, 0, 80 * HUNDREDTH as i128]
    );
}

#[test]
fn first_fit_takes_first_bin_that_fits() {
    // bins after 0.5, 0.7: [0.5 left, 0.3 left]; 0.3 fits both, FF takes bin 0
    let items = units(&[0.5, 0.7, 0.3]);
    let sol = first_fit(&items);
    assert_eq!(sol.assignment, vec![0, 1, 0]);
    assert_eq!(sol.residual, vec![20 * HUNDREDTH as i128, 30 * HUNDREDTH as i128]);
}

#[test]
fn best_fit_takes_tightest_bin() {
    // same items: BF puts 0.3 into bin 1 (0.3 left, exact fit)
    let items = units(&[0.5, 0.7, 0.3]);
    let sol = best_fit(&items);
    assert_eq!(sol.assignment, vec![0, 1, 1]);
    assert_eq!(sol.residual, vec![50 * HUNDREDTH as i128, 0]);
}

#[test]
fn best_fit_tie_goes_to_first_bin() {
    let items = units(&[0.6, 0.6, 0.2]);
    let sol = best_fit(&items);
    assert_eq!(sol.assignment, vec![0, 1, 0]);
}

#[test]
fn decreasing_variants_sort_first() {
    let items = units(&[0.2, 0.5, 0.3, 0.8]);
    let ffd = first_fit_decreasing(&items);
    // sorted: 0.8, 0.5, 0.3, 0.2
    assert_eq!(ffd.assignment, vec![0, 1, 1, 0]);
    assert_eq!(ffd.bins, 2);
    let bfd = best_fit_decreasing(&items);
    assert_eq!(bfd.assignment, vec![0, 1, 1, 0]);
}

#[test]
fn oversized_item_gets_own_bin_with_negative_capacity_left() {
    let items = vec![CAPACITY + 5, HUNDREDTH];
    let nf = next_fit(&items);
    // bin 0 stays empty: the first item does not fit it
    assert_eq!(nf.bins, 3);
    assert_eq!(
        nf.residual,
        vec![CAPACITY as i128, -5, (CAPACITY - HUNDREDTH) as i128]
    );
    let ff = first_fit(&items);
    assert_eq!(ff.residual, vec![-5, 99 * HUNDREDTH as i128]);
}

#[test]
fn l2_beats_l1() {
    // L1 = ceil(1.9) = 2, but three items exceed half a bin
    let items = units(&[0.6, 0.6, 0.6, 0.1]);
    assert_eq!(lower_bound_l2(&items), 3);
    // L1 alone
    let items = units(&[0.3, 0.3, 0.3, 0.3]);
    assert_eq!(lower_bound_l2(&items), 2);
    // a cut below half a bin: alpha = 0.3 counts 0.75, 0.75 as large and
    // the 0.3s as medium
    let items = units(&[0.75, 0.75, 0.3, 0.3, 0.3]);
    assert_eq!(lower_bound_l2(&items), 3);
}

#[test]
fn l2_saturates_on_huge_sizes() {
    let items = vec![u64::MAX; 4];
    // ceil(4 * (2^64 - 1) / CAPACITY) = 82
    assert_eq!(lower_bound_l2(&items), 82);
}

#[test]
fn sum_of_sizes() {
    assert_eq!(sum_sizes(&units(&[0.5, 0.25])), 75 * HUNDREDTH as u128);
    assert_eq!(sum_sizes(&[u64::MAX, u64::MAX]), 2 * u64::MAX as u128);
}

#[test]
fn sorting_is_non_increasing_permutation() {
    let mut v = vec![3u64, 9, 1, 9, 0, 4];
    sort_decreasing(&mut v);
    assert_eq!(v, vec![9, 9, 4, 3, 1, 0]);
}

#[test]
fn law_heuristics_pack_validly_on_samples() {
    for &dist in Distribution::all().iter() {
        for seed in 0..5u64 {
            let items = generate(60, dist, seed);
            let sorted = sorted_desc(&items);
            let cases = [
                (next_fit(&items), items.clone()),
                (first_fit(&items), items.clone()),
                (best_fit(&items), items.clone()),
                (first_fit_decreasing(&items), sorted.clone()),
                (best_fit_decreasing(&items), sorted.clone()),
            ];
            for (sol, packed) in cases.iter() {
                assert_eq!(sol.assignment.len(), packed.len());
                assert_eq!(sol.bins, sol.residual.len());
                let l = loads(packed, sol);
                for b in 0..sol.bins {
                    assert_eq!(sol.residual[b], CAPACITY as i128 - l[b]);
                    assert!(sol.residual[b] >= 0);
                }
            }
        }
    }
}

#[test]
fn law_l2_below_heuristics_on_samples() {
    for &dist in Distribution::all().iter() {
        for seed in 0..5u64 {
            let items = generate(80, dist, seed);
            let lb = lower_bound_l2(&items);
            for &alg in ALGORITHMS.iter() {
                assert!(run_algorithm(alg, &items).bins >= lb);
            }
        }
    }
}

#[test]
fn law_within_twice_any_packing() {
    for &dist in Distribution::all().iter() {
        for seed in 0..5u64 {
            let items = generate(80, dist, seed);
            // the First Fit Decreasing packing is a valid packing with k bins
            let k = first_fit_decreasing(&items).bins;
            for &alg in ALGORITHMS.iter() {
                assert!(run_algorithm(alg, &items).bins <= 2 * k - 1);
            }
        }
    }
    // the alternating instance: NF needs 2n bins against 1.5n
    let mut items = Vec::new();
    for _ in 0..10 {
        items.push(60 * HUNDREDTH);
        items.push(50 * HUNDREDTH);
    }
    assert!(next_fit(&items).bins <= 2 * first_fit(&items).bins - 1);
}

#[test]
fn law_next_fit_never_reopens_on_samples() {
    let items = generate(200, Distribution::UniformContinuous, 3);
    let sol = next_fit(&items);
    for w in sol.assignment.windows(2) {
        assert!(w[0] <= w[1] && w[1] <= w[0] + 1);
    }
    assert_eq!(*sol.assignment.last().unwrap(), sol.bins - 1);
}

#[test]
fn law_bin_counts_agree_on_edge_cases() {
    let cases = [
        units(&[]),
        units(&[1.0]),
        units(&[0.5, 0.5, 0.5]),
        vec![0, 0, 0],
        vec![CAPACITY + 1, 3],
    ];
    for items in cases.iter() {
        assert_eq!(next_fit(items).bins, next_fit_bins(items));
        assert_eq!(first_fit(items).bins, first_fit_bins(items));
        assert_eq!(best_fit(items).bins, best_fit_bins(items));
        assert_eq!(first_fit_decreasing(items).bins, first_fit_decreasing_bins(items));
        assert_eq!(best_fit_decreasing(items).bins, best_fit_decreasing_bins(items));
    }
}

#[test]
fn run_algorithm_by_name() {
    let items = units(&[0.7, 0.6, 0.4, 0.2]);
    assert_eq!(run_algorithm("NF", &items), next_fit(&items));
    assert_eq!(run_algorithm("FF", &items), first_fit(&items));
    assert_eq!(run_algorithm("BF", &items), best_fit(&items));
    assert_eq!(run_algorithm("FFD", &items), first_fit_decreasing(&items));
    assert_eq!(run_algorithm("BFD", &items), best_fit_decreasing(&items));
    assert_eq!(ALGORITHMS, ["NF", "FF", "BF", "FFD", "BFD"]);
}

#[test]
fn experiment_seed_formula() {
    assert_eq!(experiment_seed(0, 20), 1020);
    assert_eq!(experiment_seed(9, 16000), 26000);
}

#[test]
fn splitmix64_known_values() {
    assert_eq!(splitmix64(0), 0xE220A8397B1DCDAF);
    assert_eq!(splitmix64(1), 0x910A2DEC89025CC1);
    assert_eq!(generator_seed(0, 0), 0xE220A8397B1DCDAF);
    assert_eq!(generator_seed(0, 1), 0x910A2DEC89025CC1);
    assert_eq!(generator_seed(1, 0), splitmix64(0x9E3779B97F4A7C15));
    assert_eq!(generator_seed(2, 5), splitmix64(5 ^ 0x9E3779B97F4A7C15u64.wrapping_mul(2)));
}

#[test]
fn size_conversions() {
    assert_eq!(continuous_size(u64::MAX), CAPACITY);
    assert_eq!(continuous_size(1 << 11), 200);
    assert_eq!(continuous_size(0), 100);
    assert_eq!(hundredths_size(50), CAPACITY / 2);
    assert_eq!(hundredths_size(100), CAPACITY);
}

#[test]
fn distribution_names() {
    let all = Distribution::all();
    assert_eq!(
        all,
        [
            Distribution::UniformContinuous,
            Distribution::UniformDiscrete100,
            Distribution::ThreePartition,
            Distribution::FalkenauerU120
        ]
    );
    assert_eq!(Distribution::UniformContinuous.name(), "uniforme_continua");
    assert_eq!(Distribution::UniformDiscrete100.name(), "uniforme_discreta_100");
    assert_eq!(Distribution::ThreePartition.name(), "tres_particao");
    assert_eq!(Distribution::FalkenauerU120.name(), "falkenauer_u120");
    for d in all {
        assert_eq!(Distribution::from_name(d.name()), Some(d));
    }
    assert_eq!(Distribution::from_name("uniforme"), None);
    assert_eq!(Distribution::from_name(""), None);
}

#[test]
fn generated_sizes_in_support() {
    for &dist in Distribution::all().iter() {
        let items = generate(500, dist, 7);
        assert_eq!(items.len(), 500);
        for &s in &items {
            match dist {
                Distribution::UniformContinuous => assert!(s % 100 == 0 && s > 0 && s <= CAPACITY),
                Distribution::UniformDiscrete100 => {
                    assert!(s % HUNDREDTH == 0 && s >= HUNDREDTH && s <= CAPACITY)
                }
                Distribution::ThreePartition => {
                    assert!(s % HUNDREDTH == 0 && s >= 26 * HUNDREDTH && s <= 50 * HUNDREDTH)
                }
                Distribution::FalkenauerU120 => {
                    assert!(s % HUNDREDTH == 0 && s >= 10 * HUNDREDTH && s <= 50 * HUNDREDTH)
                }
            }
        }
    }
}

#[test]
fn generation_is_reproducible_and_seed_dependent() {
    for &dist in Distribution::all().iter() {
        let a = generate(100, dist, 11);
        assert_eq!(a, generate(100, dist, 11));
        assert_ne!(a, generate(100, dist, 12));
        // not a constant draw
        assert!(a.iter().any(|&s| s != a[0]));
    }
    assert!(generate(0, Distribution::ThreePartition, 1).is_empty());
}

#[test]
fn experiment_rows_in_order_with_one_instance_each() {
    let sizes = [7usize, 12];
    let dists = [Distribution::ThreePartition, Distribution::UniformContinuous];
    let reps = 3;
    let rows = run_experiment(&sizes, &dists, reps);
    assert_eq!(rows.len(), dists.len() * sizes.len() * reps * 5);
    for (d, &dist) in dists.iter().enumerate() {
        for (s, &n) in sizes.iter().enumerate() {
            for p in 0..reps {
                let items = generate(n, dist, experiment_seed(p, n));
                let lb = lower_bound_l2(&items);
                let total = sum_sizes(&items);
                for a in 0..5 {
                    let row = rows[((d * sizes.len() + s) * reps + p) * 5 + a];
                    assert_eq!(row.distribution, dist);
                    assert_eq!(row.n, n);
                    assert_eq!(row.rep, p);
                    assert_eq!(row.algorithm, ALGORITHMS[a]);
                    assert_eq!(row.bins, run_algorithm(ALGORITHMS[a], &items).bins);
                    assert_eq!(row.lower_bound, lb);
                    assert_eq!(row.total_units, total);
                }
            }
        }
    }
    assert!(run_experiment(&sizes, &[], 4).is_empty());
    assert!(run_experiment(&[], &dists, 4).is_empty());
    assert!(run_experiment(&sizes, &dists, 0).is_empty());
}

#[test]
fn hundredths_ranges() {
    assert_eq!(Distribution::UniformDiscrete100.hundredths_range(), (1, 100));
    assert_eq!(Distribution::ThreePartition.hundredths_range(), (26, 50));
    assert_eq!(Distribution::FalkenauerU120.hundredths_range(), (10, 50));
}

#[test]
fn law_any_fit_at_most_next_fit_on_samples() {
    for &dist in Distribution::all().iter() {
        for seed in 0..10u64 {
            let items = generate(120, dist, seed);
            let nf = next_fit(&items).bins;
            assert!(first_fit(&items).bins <= nf);
            assert!(best_fit(&items).bins <= nf);
        }
    }
    let items = vec![CAPACITY + 1, CAPACITY + 1, 0];
    assert!(first_fit(&items).bins <= next_fit(&items).bins);
}
