use bpp::algorithms::{
    best_fit, best_fit_bins, best_fit_decreasing, best_fit_decreasing_bins, first_fit,
    first_fit_bins, first_fit_decreasing, first_fit_decreasing_bins, lower_bound_l2, next_fit,
    next_fit_bins,
};
use bpp::generators::{generate, Distribution};
use bpp::packing::HUNDREDTH;

/// Sizes given as fractions of a bin, in units (hundredths are exact).
fn units(xs: &[f64]) -> Vec<u64> {
    xs.iter().map(|&x| (x * 100.0).round() as u64 * HUNDREDTH).collect()
}

#[test]
fn nf_ff_bf_iguais_em_instancia_trivial() {
    // 4 items of 0.5 => exactly 2 bins for every heuristic
    let items = units(&[0.5, 0.5, 0.5, 0.5]);
    assert_eq!(next_fit(&items).bins, 2);
    assert_eq!(first_fit(&items).bins, 2);
    assert_eq!(best_fit(&items).bins, 2);
    assert_eq!(first_fit_decreasing(&items).bins, 2);
    assert_eq!(best_fit_decreasing(&items).bins, 2);
}

#[test]
fn nf_pior_que_ff() {
    // [0.7, 0.6, 0.4, 0.2]: NF closes bin 1 (0.3 left) when 0.6 arrives,
    // fills bin 2 with 0.6+0.4 and opens bin 3 for 0.2 — which would fit
    // in bin 1, but NF never reopens a closed bin (3 bins). FF puts 0.2
    // back into bin 1 => 2 bins = OPT.
    let items = units(&[0.7, 0.6, 0.4, 0.2]);
    assert_eq!(next_fit(&items).bins, 3);
    assert_eq!(first_fit(&items).bins, 2);
}

#[test]
fn ffd_atinge_optimo_aqui() {
    // 0.5, 0.4, 0.3, 0.3, 0.3 => OPT = 2 (0.5+0.4 | 0.3*3)
    let items = units(&[0.5, 0.4, 0.3, 0.3, 0.3]);
    assert_eq!(first_fit_decreasing(&items).bins, 2);
    assert_eq!(best_fit_decreasing(&items).bins, 2);
}

#[test]
fn nf_pior_caso_contra_ff() {
    // (0.6, 0.5) alternating: NF never closes a pair (0.6+0.5 > 1) and
    // never reopens a bin => 2n bins. FF: each 0.6 in a bin, the 0.5s pair
    // up => 1.5n bins. OPT = 1.5n.
    let n = 10;
    let mut fractions = Vec::new();
    for _ in 0..n {
        fractions.push(0.6);
        fractions.push(0.5);
    }
    let items = units(&fractions);
    assert_eq!(next_fit(&items).bins, 2 * n);
    assert_eq!(first_fit(&items).bins, n + n / 2);
}

#[test]
fn l2_e_valido_e_apertado() {
    // 0.6 x 3 => OPT = 3 (no pair fits together)
    let items = units(&[0.6, 0.6, 0.6]);
    assert_eq!(lower_bound_l2(&items), 3);
    // 0.5 x 4 => OPT = 2
    let items = units(&[0.5, 0.5, 0.5, 0.5]);
    assert_eq!(lower_bound_l2(&items), 2);
    // empty instance
    assert_eq!(lower_bound_l2(&[]), 0);
}

#[test]
fn l2_nunca_ultrapassa_opt() {
    // sampled check: L2 <= FFD (FFD <= 11/9 OPT + 6/9)
    for &dist in Distribution::all().iter() {
        for n in [20usize, 50, 100] {
            for rep in 0..5u64 {
                let items = generate(n, dist, 42 + rep);
                let lb = lower_bound_l2(&items);
                let ffd = first_fit_decreasing(&items).bins;
                assert!(
                    lb <= ffd,
                    "L2={lb} > FFD={ffd} ({:?}, n={n}, rep={rep})",
                    dist
                );
            }
        }
    }
}

#[test]
fn variantes_bins_only_iguais_as_completas() {
    // The bins-only variants must return exactly the number of bins of the
    // full versions.
    for &dist in Distribution::all().iter() {
        for n in [10usize, 50, 200] {
            for rep in 0..10u64 {
                let items = generate(n, dist, 1234 + rep);
                assert_eq!(next_fit(&items).bins, next_fit_bins(&items));
                assert_eq!(first_fit(&items).bins, first_fit_bins(&items));
                assert_eq!(best_fit(&items).bins, best_fit_bins(&items));
                assert_eq!(
                    first_fit_decreasing(&items).bins,
                    first_fit_decreasing_bins(&items)
                );
                assert_eq!(
                    best_fit_decreasing(&items).bins,
                    best_fit_decreasing_bins(&items)
                );
            }
        }
    }
}
