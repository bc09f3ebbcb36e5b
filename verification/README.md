# bpp — verified bin-packing heuristics

Next Fit, First Fit, Best Fit, First Fit Decreasing and Best Fit Decreasing
for one-dimensional bin packing, the Martello–Toth lower bound L2, and a
seeded instance generator, written in Verus and proved against their
specifications.

Sizes are integers: a bin holds `CAPACITY = 100 * 2^53` units, which
represents exactly every hundredth of a bin and every 53-bit binary fraction
(the sizes the generator draws). All packing arithmetic is exact.

## Layout

- `src/packing.rs` — the model: packing states, the step each heuristic takes.
- `src/algorithms.rs` — the heuristics, their bin-count variants, L2.
- `src/sorting.rs` — non-increasing sort used by the decreasing variants.
- `src/bounds.rs` — L1/L2 as sums of weights over the sizes.
- `src/validity.rs`, `src/lower_bound_proof.rs`, `src/permutation.rs`,
  `src/bin_count_bounds.rs` — proofs: valid packings, L2 below any packing,
  invariance under sorting, the factor-two bound, First/Best Fit against Next Fit.
- `src/laws.rs` — the properties stated for users of the library.
- `src/generators.rs` — distributions and the generator (random draws from `rand`).
- `src/experiment.rs` — running a heuristic by name, the timed experiment (rows).
- `app/` — command line, ratios and CSV output.
