//! The predicate grammar: a plain expression, or a bounded quantifier over
//! a literal integer range.

use mvl_rust::predicate::Predicate;

#[test]
fn plain_expr_predicate_parses() {
    let pred = Predicate::parse("x >= 0 && x < 100").unwrap();
    assert!(matches!(pred, Predicate::Expr(_)));
}

#[test]
fn forall_over_literal_range_parses() {
    let pred = Predicate::parse("forall i in [1..50] . i >= 0").unwrap();
    match pred {
        Predicate::Forall { var, lo, hi, .. } => {
            assert_eq!(var, "i");
            assert_eq!(lo, 1);
            assert_eq!(hi, 50);
        }
        other => panic!("expected Forall, got {other:?}"),
    }
}

#[test]
fn exists_over_literal_range_parses() {
    let pred = Predicate::parse("exists i in [0..9] . i == 5").unwrap();
    assert!(matches!(pred, Predicate::Exists { .. }));
}

#[test]
fn negative_bounds_parse() {
    let pred = Predicate::parse("forall i in [-5..5] . i >= -5").unwrap();
    match pred {
        Predicate::Forall { lo, hi, .. } => {
            assert_eq!(lo, -5);
            assert_eq!(hi, 5);
        }
        other => panic!("expected Forall, got {other:?}"),
    }
}

#[test]
fn body_referencing_the_bound_var_via_a_method_call_parses_correctly() {
    let pred = Predicate::parse("forall i in [1..50] . sections.get(i) != None").unwrap();
    match pred {
        Predicate::Forall { lo, hi, body, .. } => {
            assert_eq!((lo, hi), (1, 50));
            assert!(matches!(*body, Predicate::Expr(_)));
        }
        other => panic!("expected Forall, got {other:?}"),
    }
}

#[test]
fn non_literal_endpoint_is_a_parse_error() {
    assert!(Predicate::parse("forall i in [0..n] . i >= 0").is_none());
}

#[test]
fn render_round_trips_through_parse() {
    let original = Predicate::parse("forall i in [1..50] . i >= 0 && i <= 50").unwrap();
    let rendered = original.render();
    let reparsed = Predicate::parse(&rendered).unwrap();
    match (original, reparsed) {
        (
            Predicate::Forall {
                lo: lo1, hi: hi1, ..
            },
            Predicate::Forall {
                lo: lo2, hi: hi2, ..
            },
        ) => {
            assert_eq!((lo1, hi1), (lo2, hi2));
        }
        _ => panic!("round-trip changed predicate shape"),
    }
}

#[test]
fn nested_quantifiers_parse() {
    let pred = Predicate::parse("forall i in [0..2] . exists j in [0..2] . i != j").unwrap();
    match pred {
        Predicate::Forall { body, .. } => {
            assert!(matches!(*body, Predicate::Exists { .. }));
        }
        other => panic!("expected Forall, got {other:?}"),
    }
}

#[test]
fn an_ordinary_call_named_forall_is_not_misdetected_as_a_quantifier() {
    let pred = Predicate::parse("forall_helper(x)").unwrap();
    assert!(matches!(pred, Predicate::Expr(_)));
}

#[test]
fn render_writes_the_quantifier_head_and_body() {
    let pred = Predicate::parse("exists   j in [ -2 .. 7 ] .  j == 3").unwrap();
    assert_eq!(pred.render(), "exists j in [-2..7] . j == 3");
}

#[test]
fn a_quantifier_without_a_body_is_a_parse_error() {
    assert!(Predicate::parse("forall i in [0..3] .").is_none());
    assert!(Predicate::parse("forall i in [0..3] i > 0").is_none());
}

#[test]
fn text_that_is_not_an_expression_is_a_parse_error() {
    assert!(Predicate::parse("x >=").is_none());
}
