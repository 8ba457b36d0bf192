# menobis-core

Verified core of a library of maximum-entropy null models for directed,
weighted networks: the microcanonical samplers and the constraint machinery
around them, written in Verus with their contracts proved.

Layout:

- `src/` — the verified library: pair masks and fixed-pair residualization,
  input validation, occupation families, directed fixed-degree support
  sampling (degree-preserving switches), the fixed-total pair-Gibbs chain,
  fixed-(k, T) and fixed-(E, T) samplers with their pair indexing, rejection
  samplers for positive occupation vectors, the exact ME stub-matching
  backend and the 4-cycle proposal rules of the fixed-strength chain.
  Randomness comes from `rand` through a few trusted wrappers (`src/rng.rs`,
  `src/me_direct.rs`).
- `tests/` — tests of the library, run against the compiled crate.
- `app/` — floating-point companions that Verus cannot check: the exact
  two-cell split laws (`rand_distr`), log base measures (`libm`), and the
  edges-events fit.
