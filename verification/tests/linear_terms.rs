//! Linear terms and the equality bounds added before elimination.

use mvl_rust::linear::LinTerm;
use mvl_rust::sat::{check_satisfiability, with_equality_bounds, Constraint, SatOutcome};

fn term(constant: i128, vars: &[(&str, i128)]) -> LinTerm {
    let mut t = LinTerm::constant(constant);
    for (name, coeff) in vars {
        let v = LinTerm::var(name.to_string()).scale(*coeff).unwrap();
        t = t.add(&v).unwrap();
    }
    t
}

#[test]
fn scaling_multiplies_every_coefficient_and_keeps_the_names() {
    let t = term(3, &[("x", 2), ("y", -1)]);
    let s = t.scale(-4).unwrap();
    assert_eq!(s.constant, -12);
    assert_eq!(
        s.vars,
        vec![("x".to_string(), -8), ("y".to_string(), 4)]
    );
}

#[test]
fn scaling_by_zero_gives_the_constant_zero() {
    let t = term(3, &[("x", 2)]);
    let s = t.scale(0).unwrap();
    assert_eq!(s.constant, 0);
    assert!(s.vars.is_empty());
}

#[test]
fn scaling_past_i128_is_refused() {
    let t = term(i128::MAX, &[]);
    assert!(t.scale(2).is_none());
}

#[test]
fn each_equality_gains_its_two_bounds_in_place() {
    let eq = term(-5, &[("x", 1)]);
    let le = term(0, &[("y", 1)]);
    let out = with_equality_bounds(vec![
        Constraint::Le(le.clone()),
        Constraint::Eq(eq.clone()),
    ]);
    assert_eq!(out.len(), 4);
    match &out[0] {
        Constraint::Le(t) => assert_eq!(t.vars, le.vars),
        _ => panic!("first constraint kept as an inequality"),
    }
    match &out[1] {
        Constraint::Le(t) => {
            assert_eq!(t.constant, -5);
            assert_eq!(t.vars, vec![("x".to_string(), 1)]);
        }
        _ => panic!("upper bound of the equality"),
    }
    match &out[2] {
        Constraint::Le(t) => {
            assert_eq!(t.constant, 5);
            assert_eq!(t.vars, vec![("x".to_string(), -1)]);
        }
        _ => panic!("lower bound of the equality"),
    }
    match &out[3] {
        Constraint::Eq(t) => assert_eq!(t.constant, -5),
        _ => panic!("the equality itself comes last"),
    }
}

#[test]
fn an_equality_whose_negation_overflows_gets_one_bound() {
    let eq = term(i128::MIN, &[("x", 1)]);
    let out = with_equality_bounds(vec![Constraint::Eq(eq)]);
    assert_eq!(out.len(), 2);
    assert!(matches!(out[0], Constraint::Le(_)));
    assert!(matches!(out[1], Constraint::Eq(_)));
}

#[test]
fn a_half_integral_point_is_satisfiable_over_the_rationals_only() {
    // 2x - 1 <= 0 and -2x + 1 <= 0: only x = 1/2 satisfies both.
    let up = term(-1, &[("x", 2)]);
    let down = term(1, &[("x", -2)]);
    let out = check_satisfiability(vec![Constraint::Le(up), Constraint::Le(down)]);
    assert_eq!(out, SatOutcome::SatisfiableOverRationals);
}

#[test]
fn crossing_bounds_are_a_contradiction() {
    // x - 1 <= 0 and -x + 2 <= 0: x <= 1 and x >= 2.
    let up = term(-1, &[("x", 1)]);
    let down = term(2, &[("x", -1)]);
    let out = check_satisfiability(vec![Constraint::Le(up), Constraint::Le(down)]);
    assert_eq!(out, SatOutcome::Contradiction);
}
