# mvl_rust

Compile-time checks for annotated Rust source, and the assurance records
they produce, written in Verus: every function of the library carries a
contract that Verus proves.

## Layout

- `src/` — the verified library.
  - Refinement obligations: `expr` (expression trees), `predicate` (the
    `forall`/`exists` predicate grammar), `clause`, `interval`, `linear`,
    `sat` (Fourier–Motzkin satisfiability), `fm_rational` (what
    elimination decides over the rationals), `order`, `subst`, `native`
    (coherence at a declaration), `entail` (entailment at a call site),
    `semantics` and `laws` (what a verdict means under an integer
    assignment, and the soundness of each verdict).
  - Source checks over a syntax tree: `syntax` (the tree), `from_syn`
    (building it with `syn`), `limits` (the qualified subset), `effects`
    (effect propagation), `ifc` (label transitions), `attrs` and
    `impl_methods` (attribute and method discovery), `suite` (all tools in
    order).
  - MC/DC: `scanner` (decision sites), `decision`, `obligation` (stable
    ids), `mutate`, `discharge` (mutation runs), `harvest` (tagged tests),
    `lines`, `test_output`.
  - Reports: `diagnostics`, `report`, `schema`, `sarif`, `labels`,
    `solver`, `text`.
- `tests/` — tests of the library on concrete inputs.
- `app/` — the `mvl` command line: reading files, running `cargo test`,
  printing diagnostics and JSON reports.
