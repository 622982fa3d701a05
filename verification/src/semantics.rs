//! What a predicate means, and the soundness of the clause-level layers
//! against that meaning.
//!
//! A model gives every variable an integer (`sigma`), every term the
//! backend cannot see into an integer (`tau`, keyed by the term with its
//! grouping removed) and every condition it cannot see into a truth value
//! (`rho`). Integer literals, variables, `-`, `+`, `-`, `*`, comparisons,
//! `&&`, `true` and `false` have their usual meaning over the integers.

use vstd::prelude::*;

use crate::clause::{
    ClauseV, fits_i128, lemma_int_value_fits, spec_classify_clause, spec_classify_comparison, spec_compare, spec_exprs_equivalent, spec_flatten_and, spec_flip, spec_ident_name, spec_int_value, spec_interval_for,
};
use crate::expr::{BinaryOpV, LiteralV, TreeV, UnaryOpV};
use crate::linear::{LinTermV, sum_vars};
use crate::sat::{
    ConstraintV, all_hold, all_wf, spec_cmp_to_constraints, spec_constraints_from_clause, spec_linterm, spec_with_equality_bounds,
};

verus! {

/// `e` with every layer of grouping removed, at every depth.
pub open spec fn strip(e: TreeV) -> TreeV
    decreases e,
{
    match e {
        TreeV::Paren(x) => strip(*x),
        TreeV::Group(x) => strip(*x),
        TreeV::Unary(op, x) => TreeV::Unary(op, Box::new(strip(*x))),
        TreeV::Binary(op, l, r) => TreeV::Binary(op, Box::new(strip(*l)), Box::new(strip(*r))),
        TreeV::Field(x, m) => TreeV::Field(Box::new(strip(*x)), m),
        TreeV::Index(x, i) => TreeV::Index(Box::new(strip(*x)), Box::new(strip(*i))),
        _ => e,
    }
}

/// The integer value of `e` in the model.
pub open spec fn value(
    e: TreeV,
    sigma: spec_fn(Seq<char>) -> int,
    tau: spec_fn(TreeV) -> int,
) -> int
    decreases e,
{
    match e {
        TreeV::Literal(LiteralV::Int { value: Some(v), text: _ }) => v as int,
        TreeV::Ident(n) => sigma(n),
        TreeV::Unary(UnaryOpV::Neg, x) => -value(*x, sigma, tau),
        TreeV::Paren(x) => value(*x, sigma, tau),
        TreeV::Group(x) => value(*x, sigma, tau),
        TreeV::Binary(BinaryOpV::Add, l, r) => value(*l, sigma, tau) + value(*r, sigma, tau),
        TreeV::Binary(BinaryOpV::Sub, l, r) => value(*l, sigma, tau) - value(*r, sigma, tau),
        TreeV::Binary(BinaryOpV::Mul, l, r) => value(*l, sigma, tau) * value(*r, sigma, tau),
        _ => tau(strip(e)),
    }
}

/// Whether the condition `e` holds in the model.
pub open spec fn holds(
    e: TreeV,
    sigma: spec_fn(Seq<char>) -> int,
    tau: spec_fn(TreeV) -> int,
    rho: spec_fn(TreeV) -> bool,
) -> bool
    decreases e,
{
    match e {
        TreeV::Literal(LiteralV::Bool(b)) => b,
        TreeV::Paren(x) => holds(*x, sigma, tau, rho),
        TreeV::Group(x) => holds(*x, sigma, tau, rho),
        TreeV::Binary(BinaryOpV::And, l, r) => holds(*l, sigma, tau, rho) && holds(*r, sigma, tau, rho),
        TreeV::Binary(op, l, r) => match spec_compare(op, value(*l, sigma, tau), value(*r, sigma, tau)) {
            Some(b) => b,
            None => rho(strip(e)),
        },
        _ => rho(strip(e)),
    }
}

/// Every condition of `cl` holds.
pub open spec fn all_true(
    cl: Seq<TreeV>,
    sigma: spec_fn(Seq<char>) -> int,
    tau: spec_fn(TreeV) -> int,
    rho: spec_fn(TreeV) -> bool,
) -> bool {
    forall|i: int| 0 <= i < cl.len() ==> holds(#[trigger] cl[i], sigma, tau, rho)
}

/// Every variable's value fits an `i128`, the range the interval layer
/// works in.
pub open spec fn vars_fit(sigma: spec_fn(Seq<char>) -> int) -> bool {
    forall|n: Seq<char>| fits_i128(#[trigger] sigma(n))
}

// ── Grouping ───────────────────────────────────────────────────────────────

pub proof fn lemma_strip_idempotent(e: TreeV)
    ensures
        strip(strip(e)) == strip(e),
    decreases e,
{
    match e {
        TreeV::Paren(x) => lemma_strip_idempotent(*x),
        TreeV::Group(x) => lemma_strip_idempotent(*x),
        TreeV::Unary(op, x) => lemma_strip_idempotent(*x),
        TreeV::Binary(op, l, r) => {
            lemma_strip_idempotent(*l);
            lemma_strip_idempotent(*r);
        },
        TreeV::Field(x, m) => lemma_strip_idempotent(*x),
        TreeV::Index(x, i) => {
            lemma_strip_idempotent(*x);
            lemma_strip_idempotent(*i);
        },
        _ => {},
    }
}

/// A value depends on the term only up to grouping.
pub proof fn lemma_value_strip(e: TreeV, sigma: spec_fn(Seq<char>) -> int, tau: spec_fn(TreeV) -> int)
    ensures
        value(e, sigma, tau) == value(strip(e), sigma, tau),
    decreases e,
{
    lemma_strip_idempotent(e);
    match e {
        TreeV::Paren(x) => lemma_value_strip(*x, sigma, tau),
        TreeV::Group(x) => lemma_value_strip(*x, sigma, tau),
        TreeV::Unary(op, x) => {
            lemma_value_strip(*x, sigma, tau);
        },
        TreeV::Binary(op, l, r) => {
            lemma_value_strip(*l, sigma, tau);
            lemma_value_strip(*r, sigma, tau);
        },
        _ => {},
    }
}

pub proof fn lemma_equivalent_strip(a: TreeV, b: TreeV)
    requires
        spec_exprs_equivalent(a, b),
    ensures
        strip(a) == strip(b),
    decreases a, b,
{
    match (a, b) {
        (TreeV::Paren(x), _) => lemma_equivalent_strip(*x, b),
        (TreeV::Group(x), _) => lemma_equivalent_strip(*x, b),
        (_, TreeV::Paren(y)) => lemma_equivalent_strip(a, *y),
        (_, TreeV::Group(y)) => lemma_equivalent_strip(a, *y),
        (TreeV::Binary(o1, l1, r1), TreeV::Binary(o2, l2, r2)) => {
            lemma_equivalent_strip(*l1, *l2);
            lemma_equivalent_strip(*r1, *r2);
        },
        (TreeV::Unary(o1, x1), TreeV::Unary(o2, x2)) => {
            lemma_equivalent_strip(*x1, *x2);
        },
        _ => {},
    }
}

// ── Literals and variables ─────────────────────────────────────────────────

pub proof fn lemma_int_value(e: TreeV, sigma: spec_fn(Seq<char>) -> int, tau: spec_fn(TreeV) -> int)
    ensures
        spec_int_value(e) matches Some(v) ==> value(e, sigma, tau) == v,
    decreases e,
{
    match e {
        TreeV::Unary(UnaryOpV::Neg, x) => lemma_int_value(*x, sigma, tau),
        TreeV::Paren(x) => lemma_int_value(*x, sigma, tau),
        TreeV::Group(x) => lemma_int_value(*x, sigma, tau),
        _ => {},
    }
}

pub proof fn lemma_ident_value(e: TreeV, sigma: spec_fn(Seq<char>) -> int, tau: spec_fn(TreeV) -> int)
    ensures
        spec_ident_name(e) matches Some(n) ==> value(e, sigma, tau) == sigma(n),
    decreases e,
{
    match e {
        TreeV::Paren(x) => lemma_ident_value(*x, sigma, tau),
        TreeV::Group(x) => lemma_ident_value(*x, sigma, tau),
        _ => {},
    }
}

// ── The interval layers ────────────────────────────────────────────────────

proof fn lemma_interval_for(op: BinaryOpV, lit: int, x: int)
    requires
        fits_i128(lit),
        fits_i128(x),
    ensures
        spec_interval_for(op, lit) matches Some(iv) ==> (spec_compare(op, x, lit) == Some(
            iv.has(x),
        )),
{
}

proof fn lemma_flip(op: BinaryOpV, a: int, b: int)
    ensures
        spec_compare(spec_flip(op), b, a) == spec_compare(op, a, b),
{
}

proof fn lemma_comparison_sound(
    op: BinaryOpV,
    l: TreeV,
    r: TreeV,
    sigma: spec_fn(Seq<char>) -> int,
    tau: spec_fn(TreeV) -> int,
    rho: spec_fn(TreeV) -> bool,
)
    requires
        vars_fit(sigma),
        !(op is And),
    ensures
        spec_classify_comparison(op, l, r) matches ClauseV::Constant(b) ==> holds(
            TreeV::Binary(op, Box::new(l), Box::new(r)),
            sigma,
            tau,
            rho,
        ) == b,
        spec_classify_comparison(op, l, r) matches ClauseV::Bound { var, interval } ==> (holds(
            TreeV::Binary(op, Box::new(l), Box::new(r)),
            sigma,
            tau,
            rho,
        ) <==> interval.has(sigma(var))),
{
    let e = TreeV::Binary(op, Box::new(l), Box::new(r));
    let vl = value(l, sigma, tau);
    let vr = value(r, sigma, tau);
    lemma_int_value(l, sigma, tau);
    lemma_int_value(r, sigma, tau);
    lemma_int_value_fits(l);
    lemma_int_value_fits(r);
    lemma_ident_value(l, sigma, tau);
    lemma_ident_value(r, sigma, tau);
    if spec_exprs_equivalent(l, r) {
        lemma_equivalent_strip(l, r);
        lemma_value_strip(l, sigma, tau);
        lemma_value_strip(r, sigma, tau);
    }
    match (spec_ident_name(l), spec_int_value(l), spec_ident_name(r), spec_int_value(r)) {
        (Some(var), None, None, Some(lit)) => {
            lemma_interval_for(op, lit, sigma(var));
        },
        (None, Some(lit), Some(var), None) => {
            lemma_interval_for(spec_flip(op), lit, sigma(var));
            lemma_flip(op, lit, sigma(var));
        },
        _ => {},
    }
}

/// What the interval layers conclude of a conjunct is true of it.
pub proof fn lemma_classify_sound(
    c: TreeV,
    sigma: spec_fn(Seq<char>) -> int,
    tau: spec_fn(TreeV) -> int,
    rho: spec_fn(TreeV) -> bool,
)
    requires
        vars_fit(sigma),
    ensures
        spec_classify_clause(c) matches ClauseV::Constant(b) ==> holds(c, sigma, tau, rho) == b,
        spec_classify_clause(c) matches ClauseV::Bound { var, interval } ==> (holds(
            c,
            sigma,
            tau,
            rho,
        ) <==> interval.has(sigma(var))),
    decreases c,
{
    match c {
        TreeV::Paren(x) => lemma_classify_sound(*x, sigma, tau, rho),
        TreeV::Group(x) => lemma_classify_sound(*x, sigma, tau, rho),
        TreeV::Binary(op, l, r) => {
            if !(op is And) {
                lemma_comparison_sound(op, *l, *r, sigma, tau, rho);
            } else {
                assert(spec_compare(op, 0, 0) is None);
                assert(spec_interval_for(op, 0) is None);
                assert(spec_interval_for(spec_flip(op), 0) is None);
            }
        },
        _ => {},
    }
}

// ── Conjunctions ───────────────────────────────────────────────────────────

/// A condition holds exactly when every one of its `&&`-conjuncts does.
pub proof fn lemma_flatten_sound(
    e: TreeV,
    sigma: spec_fn(Seq<char>) -> int,
    tau: spec_fn(TreeV) -> int,
    rho: spec_fn(TreeV) -> bool,
)
    ensures
        holds(e, sigma, tau, rho) <==> all_true(spec_flatten_and(e), sigma, tau, rho),
    decreases e,
{
    match e {
        TreeV::Binary(BinaryOpV::And, l, r) => {
            lemma_flatten_sound(*l, sigma, tau, rho);
            lemma_flatten_sound(*r, sigma, tau, rho);
            let a = spec_flatten_and(*l);
            let b = spec_flatten_and(*r);
            assert forall|i: int| 0 <= i < b.len() implies (a + b)[a.len() + i] == b[i] by {}
            if all_true(a + b, sigma, tau, rho) {
                assert forall|i: int| 0 <= i < a.len() implies holds(#[trigger] a[i], sigma, tau, rho) by {
                    assert((a + b)[i] == a[i]);
                }
                assert forall|i: int| 0 <= i < b.len() implies holds(#[trigger] b[i], sigma, tau, rho) by {
                    assert((a + b)[a.len() + i] == b[i]);
                }
            }
        },
        TreeV::Paren(x) => lemma_flatten_sound(*x, sigma, tau, rho),
        TreeV::Group(x) => lemma_flatten_sound(*x, sigma, tau, rho),
        _ => {
            assert(spec_flatten_and(e)[0] == e);
        },
    }
}

// ── The linear layer ───────────────────────────────────────────────────────

/// The linear term read off an expression is well formed and has the
/// expression's value.
pub proof fn lemma_linterm_sound(e: TreeV, sigma: spec_fn(Seq<char>) -> int, tau: spec_fn(TreeV) -> int)
    ensures
        spec_linterm(e) matches Some(t) ==> t.wf() && t.eval(sigma) == value(e, sigma, tau),
    decreases e,
{
    match e {
        TreeV::Literal(LiteralV::Int { value: Some(v), text: _ }) => {
            let t = LinTermV::constant_term(v as int);
            assert(sum_vars(t.vars, sigma) == 0);
            assert(fits_i128(v as int));
        },
        TreeV::Ident(n) => {
            let t = LinTermV::var_term(n);
            assert(t.vars.drop_last().len() == 0);
            assert(sum_vars(t.vars.drop_last(), sigma) == 0);
        },
        TreeV::Unary(UnaryOpV::Neg, x) => {
            lemma_linterm_sound(*x, sigma, tau);
            if let Some(t) = spec_linterm(*x) {
                t.lemma_scale(-1, sigma);
            }
        },
        TreeV::Paren(x) => lemma_linterm_sound(*x, sigma, tau),
        TreeV::Group(x) => lemma_linterm_sound(*x, sigma, tau),
        TreeV::Binary(op, l, r) => {
            lemma_linterm_sound(*l, sigma, tau);
            lemma_linterm_sound(*r, sigma, tau);
            if let (Some(a), Some(b)) = (spec_linterm(*l), spec_linterm(*r)) {
                a.lemma_add(b, sigma);
                a.lemma_sub(b, sigma);
                b.lemma_scale(a.constant, sigma);
                a.lemma_scale(b.constant, sigma);
                if a.spec_is_constant() {
                    assert(a.eval(sigma) == a.constant);
                    assert(a.constant * b.eval(sigma) == b.eval(sigma) * a.constant) by (nonlinear_arith);
                }
                if b.spec_is_constant() {
                    assert(b.eval(sigma) == b.constant);
                    assert(b.constant * a.eval(sigma) == a.eval(sigma) * b.constant) by (nonlinear_arith);
                }
            }
        },
        _ => {},
    }
}

pub proof fn lemma_negate_eval(t: LinTermV, sigma: spec_fn(Seq<char>) -> int)
    requires
        t.wf(),
    ensures
        t.spec_negate() matches Some(n) ==> n.wf() && n.eval(sigma) == -t.eval(sigma),
{
    t.lemma_scale(-1, sigma);
}

pub proof fn lemma_plus_one_eval(t: LinTermV, sigma: spec_fn(Seq<char>) -> int)
    requires
        t.wf(),
    ensures
        t.spec_plus_one() matches Some(n) ==> n.wf() && n.eval(sigma) == t.eval(sigma) + 1,
{
}

/// The constraints read off a conjunct are well formed and hold exactly
/// when the conjunct does.
pub proof fn lemma_constraints_sound(
    c: TreeV,
    sigma: spec_fn(Seq<char>) -> int,
    tau: spec_fn(TreeV) -> int,
    rho: spec_fn(TreeV) -> bool,
)
    ensures
        spec_constraints_from_clause(c) matches Some(cs) ==> all_wf(cs) && (holds(c, sigma, tau, rho)
            <==> all_hold(cs, sigma)),
    decreases c,
{
    match c {
        TreeV::Literal(LiteralV::Bool(b)) => {
            if !b {
                let cs = seq![ConstraintV::Le(LinTermV::constant_term(1))];
                assert(!cs[0].holds(sigma));
            }
        },
        TreeV::Paren(x) => lemma_constraints_sound(*x, sigma, tau, rho),
        TreeV::Group(x) => lemma_constraints_sound(*x, sigma, tau, rho),
        TreeV::Binary(op, l, r) => {
            lemma_linterm_sound(*l, sigma, tau);
            lemma_linterm_sound(*r, sigma, tau);
            if let (Some(a), Some(b)) = (spec_linterm(*l), spec_linterm(*r)) {
                a.lemma_sub(b, sigma);
                if let Some(d) = a.spec_sub(b) {
                    lemma_negate_eval(d, sigma);
                    lemma_plus_one_eval(d, sigma);
                    if let Some(n) = d.spec_negate() {
                        lemma_plus_one_eval(n, sigma);
                    }
                    if let Some(cs) = spec_cmp_to_constraints(op, d) {
                        assert(cs.len() == 1);
                        assert(!(op is And));
                        assert(all_hold(cs, sigma) <==> cs[0].holds(sigma));
                    }
                }
            }
        },
        _ => {},
    }
}

/// Each equality's two derived inequalities hold when the equality does.
pub proof fn lemma_equality_bounds_sound(cs: Seq<ConstraintV>, sigma: spec_fn(Seq<char>) -> int)
    requires
        all_wf(cs),
    ensures
        all_wf(spec_with_equality_bounds(cs)),
        all_hold(cs, sigma) ==> all_hold(spec_with_equality_bounds(cs), sigma),
    decreases cs.len(),
{
    if cs.len() > 0 {
        let prev = cs.drop_last();
        assert forall|i: int| 0 <= i < prev.len() implies (#[trigger] prev[i]).wf() by {
            assert(prev[i] == cs[i]);
        }
        lemma_equality_bounds_sound(prev, sigma);
        let c = cs.last();
        assert(c == cs[cs.len() - 1]);
        lemma_negate_eval(c.term(), sigma);
        if all_hold(cs, sigma) {
            assert forall|i: int| 0 <= i < prev.len() implies (#[trigger] prev[i]).holds(sigma) by {
                assert(prev[i] == cs[i]);
            }
        }
    }
}

/// Adding the bounds changes no solution: an assignment satisfies the
/// constraints with their equality bounds exactly when it satisfies the
/// constraints themselves.
pub proof fn lemma_equality_bounds_same_solutions(cs: Seq<ConstraintV>, sigma: spec_fn(Seq<char>) -> int)
    requires
        all_wf(cs),
    ensures
        all_hold(spec_with_equality_bounds(cs), sigma) <==> all_hold(cs, sigma),
    decreases cs.len(),
{
    lemma_equality_bounds_sound(cs, sigma);
    if cs.len() > 0 {
        let prev = cs.drop_last();
        assert forall|i: int| 0 <= i < prev.len() implies (#[trigger] prev[i]).wf() by {
            assert(prev[i] == cs[i]);
        }
        lemma_equality_bounds_same_solutions(prev, sigma);
        let pr = spec_with_equality_bounds(prev);
        let r = spec_with_equality_bounds(cs);
        let c = cs.last();
        if all_hold(r, sigma) {
            assert(r.len() >= pr.len() + 1);
            assert forall|i: int| 0 <= i < pr.len() implies (#[trigger] pr[i]).holds(sigma) by {
                assert(r[i] == pr[i]);
            }
            assert(r[r.len() - 1] == c);
            assert forall|i: int| 0 <= i < cs.len() implies (#[trigger] cs[i]).holds(sigma) by {
                if i < prev.len() {
                    assert(cs[i] == prev[i]);
                }
            }
        }
    } else {
        assert(all_hold(spec_with_equality_bounds(cs), sigma));
    }
}

} // verus!
