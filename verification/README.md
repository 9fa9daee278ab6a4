# oneloopreduce

Verified support code for a one-loop IBP reducer, written in Verus.

- `src/chain.rs` — the reducer's propagator chain `r_i = q1 + ... + q_{i-1}` over integer
  offsets: `chain_order` finds the walk from the zero-offset propagator through every
  propagator (the lexicographically first one), `chain_slots` reads the slot of each step,
  and the proof functions show that what `chain_order` returns is a permutation that
  `chain_slots` accepts.
- `src/directions.rs` — which `dot(k, q_j)` a numerator may contract for a given chain.
- `src/family.rs` — the shape of an N-point family: `C(N, 2)` invariants, N exponents.
- `src/masters.rs` — the four scalar masters A0/B0/C0/D0 and a reduction over them.
- `src/routing.rs` — the same routing on Symbolica expressions: offsets to integer
  coefficients (`read_units` decides on Symbolica's findings), numerator relabelling (the
  steps are `relabel_plan`'s), pairwise invariants (in `pair_plan`'s lexicographic order).
- `src/expr.rs`, `src/symbols.rs` — the calls into Symbolica, each with the contract it is
  trusted to meet, and the reducer's symbols.
- `src/text.rs`, `src/error.rs` — messages.
- `app/` — the PyO3 classes for a symbolica-community build, over the library.
