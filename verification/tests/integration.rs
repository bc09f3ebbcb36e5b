use bpp::algorithms::{
    best_fit, best_fit_decreasing, first_fit, first_fit_decreasing, lower_bound_l2, next_fit,
};
use bpp::generators::{generate, Distribution};
use bpp::packing::CAPACITY;

/// Property: no heuristic uses fewer bins than the L2 lower bound.
#[test]
fn heuristicas_respeitam_lower_bound_l2() {
    for &dist in Distribution::all().iter() {
        for n in [10usize, 50, 200] {
            for rep in 0..10u64 {
                let items = generate(n, dist, 777 + rep);
                let lb = lower_bound_l2(&items);
                assert!(next_fit(&items).bins >= lb);
                assert!(first_fit(&items).bins >= lb);
                assert!(best_fit(&items).bins >= lb);
                assert!(first_fit_decreasing(&items).bins >= lb);
                assert!(best_fit_decreasing(&items).bins >= lb);
            }
        }
    }
}

/// From the theory: FFD(I) <= 11/9·OPT(I) + 6/9 and OPT(I) <= FF(I), so
/// FFD(I) <= ceil(11/9·FF(I)) + 1; likewise BFD against BF. FFD <= FF does
/// NOT hold in general: sorting can make First Fit worse.
#[test]
fn ffd_bfd_limitados_pelos_online() {
    let mut contraexemplos_ff = 0;
    let mut contraexemplos_bf = 0;
    for &dist in Distribution::all().iter() {
        for n in [10usize, 50, 200] {
            for rep in 0..10u64 {
                let items = generate(n, dist, 999 + rep);
                let ff = first_fit(&items).bins;
                let ffd = first_fit_decreasing(&items).bins;
                let bf = best_fit(&items).bins;
                let bfd = best_fit_decreasing(&items).bins;
                if ffd > ff {
                    contraexemplos_ff += 1;
                }
                if bfd > bf {
                    contraexemplos_bf += 1;
                }
                let limite_ff = ((11.0 * ff as f64) / 9.0).ceil() as usize + 1;
                assert!(
                    ffd <= limite_ff,
                    "FFD={ffd} > 11/9·FF+1={limite_ff} ({:?}, n={n}, rep={rep})",
                    dist
                );
                let limite_bf = ((11.0 * bf as f64) / 9.0).ceil() as usize + 1;
                assert!(
                    bfd <= limite_bf,
                    "BFD={bfd} > 11/9·BF+1={limite_bf} ({:?}, n={n}, rep={rep})",
                    dist
                );
            }
        }
    }
    // Records the counterexamples (not a failure — an empirical finding):
    // cases where the sorted version did WORSE than the online one.
    println!(
        "contraexemplos FFD>FF: {contraexemplos_ff}, BFD>BF: {contraexemplos_bf} (de 120 instâncias)"
    );
}

/// FFD(I) <= 11/9 OPT(I) + 6/9; as L2 <= OPT, checking against L2 is
/// STRONGER than the theorem, so the asymptotic form with slack is used:
/// FFD <= ceil(11/9 L2) + 1.
#[test]
fn ffd_respeita_garantia_11_9_com_folga() {
    for &dist in Distribution::all().iter() {
        for n in [10usize, 50, 200] {
            for rep in 0..10u64 {
                let items = generate(n, dist, 31337 + rep);
                let lb = lower_bound_l2(&items);
                let ffd = first_fit_decreasing(&items).bins;
                let limite = ((11.0 * lb as f64) / 9.0).ceil() as usize + 1;
                assert!(
                    ffd <= limite,
                    "FFD={ffd} > 11/9*{lb}+1 ({:?}, n={n}, rep={rep})",
                    dist
                );
            }
        }
    }
}

/// Capacity is never exceeded: the sizes in each bin add up to at most 1.
#[test]
fn capacidade_respeitada() {
    for &dist in Distribution::all().iter() {
        for n in [10usize, 100] {
            let items = generate(n, dist, 5);
            for sol in [
                next_fit(&items),
                first_fit(&items),
                best_fit(&items),
                first_fit_decreasing(&items),
                best_fit_decreasing(&items),
            ] {
                // For FFD/BFD the assignment follows the sorted order; the
                // capacity invariant is checked on the capacities left.
                for &r in &sol.residual {
                    let left = r as f64 / CAPACITY as f64;
                    assert!(left >= -1e-9, "capacidade violada: residual={left}");
                }
            }
        }
    }
}
