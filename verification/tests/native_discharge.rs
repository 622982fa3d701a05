//! Declaration-site coherence: which layer, if any, decides whether a
//! predicate can hold at all.

use mvl_rust::native::discharge_predicate;
use mvl_rust::predicate::Predicate;
use mvl_rust::solver::{DischargeResult, Layer};

fn discharge(src: &str) -> DischargeResult {
    let pred = Predicate::parse(src).unwrap();
    discharge_predicate(&pred)
}

#[test]
fn literal_true_is_l1() {
    assert_eq!(
        discharge("true"),
        DischargeResult::Proven { layer: Layer::L1 }
    );
}

#[test]
fn literal_false_is_violated() {
    assert!(matches!(
        discharge("false"),
        DischargeResult::Violated { .. }
    ));
}

#[test]
fn constant_comparison_is_l1() {
    assert_eq!(
        discharge("5 >= 0"),
        DischargeResult::Proven { layer: Layer::L1 }
    );
}

#[test]
fn satisfiable_interval_is_l2() {
    assert_eq!(
        discharge("x >= 0 && x < 100"),
        DischargeResult::Proven { layer: Layer::L2 }
    );
}

#[test]
fn flipped_comparison_is_l2() {
    assert_eq!(
        discharge("0 <= result && result <= 15"),
        DischargeResult::Proven { layer: Layer::L2 }
    );
}

#[test]
fn contradictory_interval_is_violated() {
    assert!(matches!(
        discharge("x >= 10 && x < 5"),
        DischargeResult::Violated { .. }
    ));
}

#[test]
fn equality_bound_is_l2() {
    assert_eq!(
        discharge("x == 5"),
        DischargeResult::Proven { layer: Layer::L2 }
    );
}

#[test]
fn contradictory_equality_is_violated() {
    assert!(matches!(
        discharge("x == 5 && x == 6"),
        DischargeResult::Violated { .. }
    ));
}

#[test]
fn function_call_is_runtime() {
    assert_eq!(discharge("len(sections) == 51"), DischargeResult::Runtime);
}

#[test]
fn disjunction_is_runtime() {
    assert_eq!(discharge("x >= 0 || x < 0"), DischargeResult::Runtime);
}

#[test]
fn not_equal_is_runtime() {
    assert_eq!(discharge("x != 5"), DischargeResult::Runtime);
}

#[test]
fn mixed_bound_and_undecidable_stays_runtime() {
    assert_eq!(discharge("x >= 0 && has_valid_shape(x)"), DischargeResult::Runtime);
}

#[test]
fn undecidable_does_not_hide_a_definite_contradiction() {
    assert!(matches!(
        discharge("false && has_valid_shape(x)"),
        DischargeResult::Violated { .. }
    ));
}

#[test]
fn bounded_forall_conjunction_proves_at_l3() {
    assert_eq!(
        discharge("forall i in [0..9] . i < 10"),
        DischargeResult::Proven { layer: Layer::L3 }
    );
}

#[test]
fn bounded_forall_violation_short_circuits_with_a_counterexample() {
    let result = discharge("forall i in [0..9] . i < 5");
    match result {
        DischargeResult::Violated { counterexample } => {
            assert!(counterexample.contains("i = 5"), "{counterexample}");
        }
        other => panic!("expected Violated, got {other:?}"),
    }
}

#[test]
fn bounded_forall_over_cap_falls_to_runtime_not_l5() {
    assert_eq!(discharge("forall i in [0..2000] . i >= 0"), DischargeResult::Runtime);
}

#[test]
fn forall_over_an_opaque_call_falls_through_to_runtime() {
    assert_eq!(discharge("forall i in [1..50] . sections_get(i) != 0"), DischargeResult::Runtime);
}

#[test]
fn forall_over_empty_range_is_vacuously_proven() {
    assert_eq!(
        discharge("forall i in [5..3] . i > 100"),
        DischargeResult::Proven { layer: Layer::L3 }
    );
}

#[test]
fn exists_with_a_satisfying_witness_proves_at_l3() {
    assert_eq!(
        discharge("exists i in [0..9] . i == 5"),
        DischargeResult::Proven { layer: Layer::L3 }
    );
}

#[test]
fn exists_with_no_witness_is_violated() {
    assert!(matches!(
        discharge("exists i in [0..9] . i == 50"),
        DischargeResult::Violated { .. }
    ));
}

#[test]
fn exists_over_empty_range_is_violated() {
    assert!(matches!(
        discharge("exists i in [5..3] . true"),
        DischargeResult::Violated { .. }
    ));
}

#[test]
fn nested_quantifiers_discharge_correctly() {
    assert_eq!(
        discharge("forall i in [0..2] . exists j in [0..2] . i == j"),
        DischargeResult::Proven { layer: Layer::L3 }
    );
}

#[test]
fn shadowed_bound_variable_is_not_substituted_by_the_outer_quantifier() {
    assert_eq!(
        discharge("forall i in [0..2] . forall i in [10..12] . i >= 10"),
        DischargeResult::Proven { layer: Layer::L3 }
    );
}

#[test]
fn negative_bounds_discharge_correctly() {
    assert_eq!(
        discharge("forall i in [-5..5] . i >= -5 && i <= 5"),
        DischargeResult::Proven { layer: Layer::L3 }
    );
}

#[test]
fn cross_variable_contradiction_is_violated_at_l4() {
    let result = discharge("a > c && b > 0 && a + b <= c");
    match result {
        DischargeResult::Violated { counterexample } => {
            assert!(counterexample.contains("L4"), "{counterexample}");
        }
        other => panic!("expected Violated, got {other:?}"),
    }
}

#[test]
fn paper_motivating_example_adapted_to_satisfiability_is_violated() {
    assert!(matches!(
        discharge("x <= 240 && x + 5 > 245"),
        DischargeResult::Violated { .. }
    ));
}

#[test]
fn a_rationally_satisfiable_relation_is_not_proven_coherent() {
    assert_eq!(discharge("a > c && b > 0 && a + b >= c"), DischargeResult::Runtime);
}

#[test]
fn single_variable_equality_with_no_divisor_is_violated() {
    assert!(matches!(
        discharge("2 * x == 5"),
        DischargeResult::Violated { .. }
    ));
}

#[test]
fn two_equalities_each_passing_divisibility_can_still_be_jointly_unsat() {
    assert_eq!(discharge("2 * x == 6 && 3 * x == 6"), DischargeResult::Runtime);
}

#[test]
fn an_equality_and_an_inequality_can_be_jointly_unsat_unseen() {
    assert_eq!(discharge("2 * x == 6 && x > 100"), DischargeResult::Runtime);
}

#[test]
fn a_rationally_satisfiable_integer_unsatisfiable_predicate_is_not_proven() {
    assert_eq!(discharge("2 * x >= 1 && 2 * x <= 1"), DischargeResult::Runtime);
}

#[test]
fn a_parity_contradiction_is_not_proven() {
    assert_eq!(discharge("2 * x == 2 * y + 1"), DischargeResult::Runtime);
}

#[test]
fn an_honestly_satisfiable_predicate_still_proves_at_l2() {
    assert_eq!(
        discharge("x > 0 && x < 10"),
        DischargeResult::Proven { layer: Layer::L2 }
    );
}

#[test]
fn single_variable_equality_with_a_divisor_is_no_longer_proven() {
    assert_eq!(discharge("2 * x == 6"), DischargeResult::Runtime);
}

#[test]
fn more_than_five_free_variables_falls_to_runtime() {
    assert_eq!(discharge("a + b + c + d + e + f <= 100 && a + b + c + d + e + f >= 200"), DischargeResult::Runtime);
}

#[test]
fn non_linear_term_falls_to_runtime_not_l4() {
    assert_eq!(discharge("x * y > 0 && x < 0"), DischargeResult::Runtime);
}

#[test]
fn l1_l2_still_take_priority_over_l4_when_they_fully_decide() {
    assert_eq!(
        discharge("x >= 0 && x < 100"),
        DischargeResult::Proven { layer: Layer::L2 }
    );
}

// ── The dispatcher ─────────────────────────────────────────────────────────

use mvl_rust::native::NativeBackend;
use mvl_rust::solver::{Obligation, ObligationClass, SolverBackend};

fn obligation(predicate: &str) -> Obligation {
    Obligation {
        id: "f::requires#0".to_string(),
        predicate: predicate.to_string(),
        provenance: "src/lib.rs:1:1".to_string(),
        kind: ObligationClass::Declaration,
    }
}

#[test]
fn the_native_backend_reads_the_predicate_text_back() {
    let backend = NativeBackend;
    assert_eq!(
        backend.discharge(&obligation("x >= 0 && x < 10")),
        DischargeResult::Proven { layer: Layer::L2 }
    );
    assert!(matches!(
        backend.discharge(&obligation("x >= 10 && x < 5")),
        DischargeResult::Violated { .. }
    ));
}

#[test]
fn the_native_backend_leaves_unreadable_text_to_a_runtime_check() {
    assert_eq!(NativeBackend.discharge(&obligation("x >= ")), DischargeResult::Runtime);
}
