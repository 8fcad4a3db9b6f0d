# mrs_proof_kernel

A deterministic checker for first-order refutations in clause form, written
in Verus: every executable function of the library carries a contract that
Verus proves.

## Layout

- `src/refutation.rs` checks a whole refutation: the shape of the proof graph
  (size, unique names, known parents, no cycles, a `$false` root), one arity
  per symbol (`signature.rs`), leaves against the problem formulas they cite
  (by name and role), and every inference step by the rule it names: the
  clause rules, identity steps (`identity.rs`) and Skolemisation of a prenex
  formula (`skolemisation.rs`). A step whose rule no check handles is never
  certified.
- `src/dispatch.rs` looks a clause rule up by name; the rules themselves
  live in `inference.rs`, `simplify.rs`, `factoring.rs`, `demodulation.rs`,
  `superposition.rs`, `equality.rs`, `ac_rules.rs` and `ac_inference.rs`,
  on top of terms (`term.rs`), substitutions (`subst.rs`), unification
  (`unify.rs`, `ac_unify.rs`), renaming (`alpha.rs`) and AC matching
  (`ac_match.rs`).
- AVATAR splitting and SAT-backed steps are checked one step at a time by
  `branch.rs`, `avatar_rules.rs`, `case_split.rs`, `sat_refutation.rs` and
  `sat_backed.rs`, with LRAT and FRAT replay in `trace.rs` and
  `sat_trace.rs`; an accepted trace is proved to refute its clause
  manifest. The whole-proof check does not call them yet: such steps are
  reported as unsupported there.
- `app/` holds what needs the clock or a printable verdict.

Laws of the library stand in `src/` as public proof functions, for example
`trace::lemma_lrat_refutes`, `ac::lemma_ac_axiom_shapes`,
`hex::lemma_decode_hex_roundtrip`,
`demodulation::lemma_demodulation_never_rejects_usable_rules` and
`refutation::lemma_expected_source`.
