//! Call-site entailment, `Γ ⊢ goal`, as opposed to declaration-site
//! coherence; and substitution of actual arguments for parameters.

use mvl_rust::expr::{parse_rust_expr, Tree};
use mvl_rust::native::{discharge_entailment, discharge_predicate};
use mvl_rust::predicate::Predicate;
use mvl_rust::solver::{DischargeResult, Layer};
use mvl_rust::subst::substitute_exprs;

fn gamma(clauses: &[&str]) -> Vec<Tree> {
    clauses
        .iter()
        .map(|c| parse_rust_expr(c).expect("hypothesis parses"))
        .collect()
}

fn goal(text: &str) -> Predicate {
    Predicate::parse(text).expect("goal parses")
}

fn entail(hypotheses: &[&str], g: &str) -> DischargeResult {
    discharge_entailment(&gamma(hypotheses), &goal(g))
}

fn assert_proven_at(result: DischargeResult, expected: Layer) {
    match result {
        DischargeResult::Proven { layer } => assert_eq!(layer, expected),
        other => panic!("expected Proven at {expected:?}, got {other:?}"),
    }
}

#[test]
fn a_tautological_goal_needs_no_hypotheses() {
    assert_proven_at(entail(&[], "5 > 0"), Layer::L1);
}

#[test]
fn an_unconstrained_goal_is_not_entailed_by_an_empty_context() {
    assert_eq!(entail(&[], "x > 0"), DischargeResult::Runtime);
    assert_proven_at(discharge_predicate(&goal("x > 0")), Layer::L2);
}

#[test]
fn a_hypothesis_bound_inside_the_goal_bound_is_entailed_at_l2() {
    assert_proven_at(entail(&["x > 10"], "x > 5"), Layer::L2);
}

#[test]
fn a_hypothesis_bound_wider_than_the_goal_bound_is_not_entailed() {
    assert_eq!(entail(&["x > 5"], "x > 10"), DischargeResult::Runtime);
}

#[test]
fn a_goal_contradicting_the_hypotheses_is_violated() {
    assert!(matches!(
        entail(&["x > 10"], "x < 5"),
        DischargeResult::Violated { .. }
    ));
}

#[test]
fn contradictory_hypotheses_entail_anything() {
    assert_proven_at(entail(&["x > 10", "x < 5"], "x == 42"), Layer::L2);
}

#[test]
fn every_clause_of_a_conjunctive_goal_must_be_entailed() {
    assert_eq!(
        entail(&["x > 10"], "x > 5 && x < 20"),
        DischargeResult::Runtime
    );
    assert_proven_at(entail(&["x > 10", "x < 15"], "x > 5 && x < 20"), Layer::L2);
}

#[test]
fn cross_variable_hypotheses_are_reached_by_l4_not_l2() {
    assert_proven_at(entail(&["x > 10", "y > x"], "y > 5"), Layer::L4);
}

#[test]
fn an_undecidable_hypothesis_is_dropped_rather_than_fatal() {
    assert_eq!(entail(&["is_valid(x)"], "x > 0"), DischargeResult::Runtime);
    assert_proven_at(entail(&["is_valid(x)", "x > 10"], "x > 0"), Layer::L2);
}

#[test]
fn an_equality_hypothesis_reaches_fourier_motzkin() {
    assert_proven_at(entail(&["x == 5", "y >= 0"], "y > x - 10"), Layer::L4);
}

#[test]
fn an_equality_goal_is_entailed_only_when_the_context_pins_it() {
    assert_proven_at(entail(&["x == 5"], "x == 5"), Layer::L2);
    assert_eq!(entail(&["x >= 5"], "x == 5"), DischargeResult::Runtime);
}

#[test]
fn a_quantified_goal_expands_at_l3_against_the_same_context() {
    assert_proven_at(
        entail(&["n > 100"], "forall i in [0..3] . i < n"),
        Layer::L3,
    );
    assert_eq!(
        entail(&[], "forall i in [0..3] . i < n"),
        DischargeResult::Runtime
    );
}

#[test]
fn an_existential_goal_needs_one_witness() {
    assert_proven_at(
        entail(&["n > 100"], "exists i in [0..3] . i < n"),
        Layer::L3,
    );
}

fn bindings(pairs: &[(&str, &str)]) -> Vec<(String, Tree)> {
    pairs
        .iter()
        .map(|(name, expr)| {
            (
                (*name).to_string(),
                parse_rust_expr(expr).expect("argument parses"),
            )
        })
        .collect()
}

#[test]
fn parameters_are_replaced_by_the_actual_arguments() {
    let substituted = substitute_exprs(&goal("n > 0"), &bindings(&[("n", "x - 1")]));
    assert_eq!(substituted.render(), "(x - 1) > 0");
}

#[test]
fn substitution_reaches_inside_a_quantifier_body() {
    let substituted = substitute_exprs(
        &goal("forall i in [0..3] . i < n"),
        &bindings(&[("n", "k")]),
    );
    assert_eq!(substituted.render(), "forall i in [0..3] . i < (k)");
}

#[test]
fn a_quantifiers_bound_variable_shadows_a_binding_of_the_same_name() {
    let substituted = substitute_exprs(
        &goal("forall i in [0..3] . i < n"),
        &bindings(&[("i", "99")]),
    );
    assert_eq!(substituted.render(), "forall i in [0..3] . i < n");
}

#[test]
fn a_later_binding_of_the_same_name_wins() {
    let substituted = substitute_exprs(
        &goal("n > 0"),
        &bindings(&[("n", "1"), ("n", "y + 2")]),
    );
    assert_eq!(substituted.render(), "(y + 2) > 0");
}

#[test]
fn a_linear_only_contradiction_in_gamma_still_entails_an_equality_goal() {
    let result = entail(&["x + y <= 0", "x >= 5", "y >= 5"], "x == 3");
    assert!(
        matches!(result, DischargeResult::Proven { .. }),
        "an unsatisfiable context entails anything, got {result:?}"
    );
}

#[test]
fn a_satisfiable_gamma_that_rules_the_goal_out_is_still_violated() {
    let result = entail(&["x >= 5"], "x < 0");
    assert!(
        matches!(result, DischargeResult::Violated { .. }),
        "expected Violated, got {result:?}"
    );
}

#[test]
fn an_equality_goal_ruled_out_by_gamma_falls_to_runtime_not_violated() {
    let result = entail(&["x >= 5"], "x == 3");
    assert!(
        matches!(result, DischargeResult::Runtime),
        "expected Runtime, got {result:?}"
    );
}

#[test]
fn nested_quantifiers_are_capped_on_their_product() {
    let pred = goal("forall i in [0..999] . forall j in [0..999] . i + j < n");
    assert!(matches!(
        discharge_predicate(&pred),
        DischargeResult::Runtime
    ));
    assert!(matches!(
        discharge_entailment(&gamma(&["n > 10"]), &pred),
        DischargeResult::Runtime
    ));
}

#[test]
fn nested_quantifiers_within_the_cap_still_expand() {
    let pred = goal("forall i in [0..19] . forall j in [0..19] . i + j < n");
    assert_proven_at(discharge_entailment(&gamma(&["n > 100"]), &pred), Layer::L3);
}
