//! Soundness of the native dispatcher against the meaning of predicates
//! (see [`crate::semantics`]).
//!
//! - Entailment: `Proven` means the goal holds in every model of the
//!   hypotheses; `Violated` means it fails in every one.
//! - Coherence: `Violated` means no model satisfies the predicate; on a
//!   quantifier-free predicate, `Proven` means some model does.

use vstd::prelude::*;

use crate::clause::{ClauseV, spec_classify_clause, spec_flatten_and};
use crate::entail::{
    GoalScanV, all_refuted, bound_entailed, flatten_all, goal_system, hyp_bounds, negation_term, refutes_negation, scan_goal, spec_entail_expr, system_constraints, unsat_with,
};
use crate::expr::TreeV;
use crate::interval::Interval;
use crate::linear::LinTermV;
use crate::native::{
    BoundsV, ScanV, all_constraints, bkey_index, bounds_add, first_empty, lemma_bkey_index, lemma_first_empty, scan_clauses, spec_discharge_expr,
};
use crate::sat::{ConstraintV, SatOutcome, all_hold, all_wf, lemma_check_sat_sound, spec_check_sat};
use crate::semantics::{
    all_true, holds, lemma_classify_sound, lemma_constraints_sound, lemma_equality_bounds_sound, lemma_flatten_sound, lemma_negate_eval, lemma_plus_one_eval, vars_fit,
};

use crate::predicate::PredicateV;
use crate::solver::{DischargeResultV, Layer};
use crate::subst::{height, lemma_subst_height, subst_pred};
use crate::native::{
    MAX_BOUNDED_EXPANSION, exists_scan, forall_scan, spec_affordable, spec_discharge_entailment, spec_discharge_predicate, spec_verdict,
};

verus! {

// ── Sequences of conditions and constraints ────────────────────────────────

proof fn lemma_all_true_concat(
    a: Seq<TreeV>,
    b: Seq<TreeV>,
    sigma: spec_fn(Seq<char>) -> int,
    tau: spec_fn(TreeV) -> int,
    rho: spec_fn(TreeV) -> bool,
)
    ensures
        all_true(a + b, sigma, tau, rho) <==> (all_true(a, sigma, tau, rho) && all_true(b, sigma, tau, rho)),
{
    if all_true(a + b, sigma, tau, rho) {
        assert forall|i: int| 0 <= i < a.len() implies holds(#[trigger] a[i], sigma, tau, rho) by {
            assert((a + b)[i] == a[i]);
        }
        assert forall|i: int| 0 <= i < b.len() implies holds(#[trigger] b[i], sigma, tau, rho) by {
            assert((a + b)[a.len() + i] == b[i]);
        }
    }
    if all_true(a, sigma, tau, rho) && all_true(b, sigma, tau, rho) {
        assert forall|i: int| 0 <= i < (a + b).len() implies holds(#[trigger] (a + b)[i], sigma, tau, rho) by {
            if i >= a.len() {
                assert((a + b)[i] == b[i - a.len()]);
            }
        }
    }
}

proof fn lemma_all_hold_concat(a: Seq<ConstraintV>, b: Seq<ConstraintV>, sigma: spec_fn(Seq<char>) -> int)
    ensures
        (all_hold(a, sigma) && all_hold(b, sigma)) ==> all_hold(a + b, sigma),
        all_hold(a + b, sigma) ==> all_hold(a, sigma),
        (all_wf(a) && all_wf(b)) ==> all_wf(a + b),
{
    assert forall|i: int| 0 <= i < (a + b).len() && i >= a.len() implies (a + b)[i] == b[i - a.len()] by {}
    assert forall|i: int| 0 <= i < a.len() implies (a + b)[i] == a[i] by {}
}

proof fn lemma_all_true_last(
    cl: Seq<TreeV>,
    sigma: spec_fn(Seq<char>) -> int,
    tau: spec_fn(TreeV) -> int,
    rho: spec_fn(TreeV) -> bool,
)
    requires
        cl.len() > 0,
        all_true(cl, sigma, tau, rho),
    ensures
        all_true(cl.drop_last(), sigma, tau, rho),
        holds(cl.last(), sigma, tau, rho),
{
    assert forall|i: int| 0 <= i < cl.drop_last().len() implies holds(#[trigger] cl.drop_last()[i], sigma, tau, rho) by {
        assert(cl.drop_last()[i] == cl[i]);
    }
}

/// All hypotheses hold exactly when all their conjuncts do.
proof fn lemma_flatten_all_sound(
    hs: Seq<TreeV>,
    sigma: spec_fn(Seq<char>) -> int,
    tau: spec_fn(TreeV) -> int,
    rho: spec_fn(TreeV) -> bool,
)
    ensures
        all_true(hs, sigma, tau, rho) <==> all_true(flatten_all(hs), sigma, tau, rho),
    decreases hs.len(),
{
    if hs.len() > 0 {
        lemma_flatten_all_sound(hs.drop_last(), sigma, tau, rho);
        lemma_flatten_sound(hs.last(), sigma, tau, rho);
        lemma_all_true_concat(flatten_all(hs.drop_last()), spec_flatten_and(hs.last()), sigma, tau, rho);
        if all_true(hs, sigma, tau, rho) {
            lemma_all_true_last(hs, sigma, tau, rho);
        }
        if all_true(hs.drop_last(), sigma, tau, rho) && holds(hs.last(), sigma, tau, rho) {
            assert forall|i: int| 0 <= i < hs.len() implies holds(#[trigger] hs[i], sigma, tau, rho) by {
                if i < hs.len() - 1 {
                    assert(hs.drop_last()[i] == hs[i]);
                }
            }
        }
    }
}

// ── Per-variable bounds ────────────────────────────────────────────────────

/// Every recorded interval contains its variable's value.
pub open spec fn bounds_ok(b: BoundsV, sigma: spec_fn(Seq<char>) -> int) -> bool {
    forall|i: int| 0 <= i < b.len() ==> (#[trigger] b[i]).1.has(sigma(b[i].0))
}

proof fn lemma_bounds_add_ok(b: BoundsV, var: Seq<char>, iv: Interval, sigma: spec_fn(Seq<char>) -> int)
    requires
        bounds_ok(b, sigma),
        iv.has(sigma(var)),
    ensures
        bounds_ok(bounds_add(b, var, iv), sigma),
{
    lemma_bkey_index(b, var);
}

proof fn lemma_hyp_bounds_sound(
    cl: Seq<TreeV>,
    sigma: spec_fn(Seq<char>) -> int,
    tau: spec_fn(TreeV) -> int,
    rho: spec_fn(TreeV) -> bool,
)
    requires
        vars_fit(sigma),
        all_true(cl, sigma, tau, rho),
    ensures
        bounds_ok(hyp_bounds(cl), sigma),
    decreases cl.len(),
{
    if cl.len() > 0 {
        lemma_all_true_last(cl, sigma, tau, rho);
        lemma_hyp_bounds_sound(cl.drop_last(), sigma, tau, rho);
        lemma_classify_sound(cl.last(), sigma, tau, rho);
        if let ClauseV::Bound { var, interval } = spec_classify_clause(cl.last()) {
            lemma_bounds_add_ok(hyp_bounds(cl.drop_last()), var, interval, sigma);
        }
    }
}

proof fn lemma_no_empty_bound(b: BoundsV, sigma: spec_fn(Seq<char>) -> int)
    requires
        bounds_ok(b, sigma),
    ensures
        first_empty(b) is None,
{
    lemma_first_empty(b);
    if let Some(i) = first_empty(b) {
        assert(b[i].1.has(sigma(b[i].0)));
    }
}

// ── Hypotheses as a linear system ──────────────────────────────────────────

proof fn lemma_system_sound(
    cl: Seq<TreeV>,
    sigma: spec_fn(Seq<char>) -> int,
    tau: spec_fn(TreeV) -> int,
    rho: spec_fn(TreeV) -> bool,
)
    ensures
        all_wf(system_constraints(cl)),
        all_true(cl, sigma, tau, rho) ==> all_hold(system_constraints(cl), sigma),
    decreases cl.len(),
{
    if cl.len() > 0 {
        lemma_system_sound(cl.drop_last(), sigma, tau, rho);
        if all_true(cl, sigma, tau, rho) {
            lemma_all_true_last(cl, sigma, tau, rho);
        }
        lemma_constraints_sound(cl.last(), sigma, tau, rho);
        if let Some(cs) = crate::sat::spec_constraints_from_clause(cl.last()) {
            lemma_equality_bounds_sound(cs, sigma);
            lemma_all_hold_concat(
                system_constraints(cl.drop_last()),
                crate::sat::spec_with_equality_bounds(cs),
                sigma,
            );
        }
    }
}

// ── The goal scan ──────────────────────────────────────────────────────────

proof fn lemma_scan_goal_falsified(cl: Seq<TreeV>, hb: BoundsV, c: TreeV)
    requires
        scan_goal(cl, hb) == GoalScanV::Falsified(c),
    ensures
        spec_classify_clause(c) == ClauseV::Constant(false),
        exists|i: int| 0 <= i < cl.len() && cl[i] == c,
    decreases cl.len(),
{
    if cl.len() > 0 {
        match scan_goal(cl.drop_last(), hb) {
            GoalScanV::Falsified(c0) => {
                lemma_scan_goal_falsified(cl.drop_last(), hb, c);
                let i = choose|i: int| 0 <= i < cl.drop_last().len() && cl.drop_last()[i] == c;
                assert(cl[i] == c);
            },
            GoalScanV::Open(u) => {
                assert(cl[cl.len() - 1] == c);
            },
        }
    }
}

proof fn lemma_scan_goal_open(
    cl: Seq<TreeV>,
    hb: BoundsV,
    u: Seq<TreeV>,
    sigma: spec_fn(Seq<char>) -> int,
    tau: spec_fn(TreeV) -> int,
    rho: spec_fn(TreeV) -> bool,
)
    requires
        vars_fit(sigma),
        scan_goal(cl, hb) == GoalScanV::Open(u),
        bounds_ok(hb, sigma),
        all_true(u, sigma, tau, rho),
    ensures
        all_true(cl, sigma, tau, rho),
    decreases cl.len(),
{
    if cl.len() > 0 {
        let c = cl.last();
        lemma_classify_sound(c, sigma, tau, rho);
        match scan_goal(cl.drop_last(), hb) {
            GoalScanV::Open(u0) => {
                let cls = spec_classify_clause(c);
                let open = match cls {
                    ClauseV::Constant(true) => false,
                    ClauseV::Bound { var, interval } => !bound_entailed(hb, var, interval),
                    _ => true,
                };
                if open {
                    assert(u == u0.push(c));
                    assert forall|i: int| 0 <= i < u0.len() implies holds(#[trigger] u0[i], sigma, tau, rho) by {
                        assert(u[i] == u0[i]);
                    }
                    assert(holds(u[u0.len() as int], sigma, tau, rho));
                    lemma_scan_goal_open(cl.drop_last(), hb, u0, sigma, tau, rho);
                } else {
                    assert(u == u0);
                    lemma_scan_goal_open(cl.drop_last(), hb, u0, sigma, tau, rho);
                    if let ClauseV::Bound { var, interval } = cls {
                        lemma_bkey_index(hb, var);
                        let i = bkey_index(hb, var)->0;
                        assert(hb[i].1.has(sigma(hb[i].0)));
                        assert(interval.has(sigma(var)));
                    }
                }
                assert forall|i: int| 0 <= i < cl.len() implies holds(#[trigger] cl[i], sigma, tau, rho) by {
                    if i < cl.len() - 1 {
                        assert(cl.drop_last()[i] == cl[i]);
                    }
                }
            },
            GoalScanV::Falsified(_) => {},
        }
    }
}

// ── Refuting a negated goal conjunct ───────────────────────────────────────

proof fn lemma_unsat_with_sound(
    hc: Seq<ConstraintV>,
    t: LinTermV,
    sigma: spec_fn(Seq<char>) -> int,
)
    requires
        all_wf(hc),
        all_hold(hc, sigma),
        t.wf(),
        unsat_with(hc, Some(t)),
    ensures
        t.eval(sigma) > 0,
{
    let sys = hc.push(ConstraintV::Le(t));
    assert forall|i: int| 0 <= i < sys.len() implies (#[trigger] sys[i]).wf() by {
        if i < hc.len() {
            assert(sys[i] == hc[i]);
        }
    }
    lemma_check_sat_sound(sys, sigma);
    if t.eval(sigma) <= 0 {
        assert forall|i: int| 0 <= i < sys.len() implies (#[trigger] sys[i]).holds(sigma) by {
            if i < hc.len() {
                assert(sys[i] == hc[i]);
            }
        }
    }
}

proof fn lemma_refutes_sound(
    hc: Seq<ConstraintV>,
    c: TreeV,
    sigma: spec_fn(Seq<char>) -> int,
    tau: spec_fn(TreeV) -> int,
    rho: spec_fn(TreeV) -> bool,
)
    requires
        all_wf(hc),
        all_hold(hc, sigma),
        refutes_negation(hc, c),
    ensures
        holds(c, sigma, tau, rho),
{
    lemma_constraints_sound(c, sigma, tau, rho);
    let cs = crate::sat::spec_constraints_from_clause(c)->0;
    assert(cs[0].wf());
    let t = cs[0].term();
    lemma_negate_eval(t, sigma);
    lemma_plus_one_eval(t, sigma);
    if let Some(n) = t.spec_negate() {
        lemma_plus_one_eval(n, sigma);
    }
    match cs[0] {
        ConstraintV::Le(_) => {
            lemma_unsat_with_sound(hc, negation_term(t)->0, sigma);
        },
        ConstraintV::Eq(_) => {
            lemma_unsat_with_sound(hc, negation_term(t)->0, sigma);
            lemma_unsat_with_sound(hc, t.spec_plus_one()->0, sigma);
        },
    }
    assert(all_hold(cs, sigma));
}

proof fn lemma_goal_system_sound(
    hc: Seq<ConstraintV>,
    cl: Seq<TreeV>,
    sigma: spec_fn(Seq<char>) -> int,
    tau: spec_fn(TreeV) -> int,
    rho: spec_fn(TreeV) -> bool,
)
    requires
        all_wf(hc),
        goal_system(hc, cl) is Some,
    ensures
        all_wf(goal_system(hc, cl)->0),
        all_hold(hc, sigma) && all_true(cl, sigma, tau, rho) ==> all_hold(goal_system(hc, cl)->0, sigma),
    decreases cl.len(),
{
    if cl.len() > 0 {
        lemma_goal_system_sound(hc, cl.drop_last(), sigma, tau, rho);
        if all_true(cl, sigma, tau, rho) {
            lemma_all_true_last(cl, sigma, tau, rho);
        }
        lemma_constraints_sound(cl.last(), sigma, tau, rho);
        let cs = crate::sat::spec_constraints_from_clause(cl.last())->0;
        lemma_all_hold_concat(goal_system(hc, cl.drop_last())->0, cs, sigma);
    }
}

// ── Entailment, quantifier-free ────────────────────────────────────────────

/// In every model (with variables in `i128`) of the hypotheses, a goal the
/// entailment check calls `Proven` holds, and one it calls `Violated` fails.
pub proof fn lemma_entail_expr_sound(
    hyps: Seq<TreeV>,
    goal: TreeV,
    sigma: spec_fn(Seq<char>) -> int,
    tau: spec_fn(TreeV) -> int,
    rho: spec_fn(TreeV) -> bool,
)
    requires
        vars_fit(sigma),
        all_true(hyps, sigma, tau, rho),
    ensures
        spec_entail_expr(hyps, goal) is Proven ==> holds(goal, sigma, tau, rho),
        spec_entail_expr(hyps, goal) is Violated ==> !holds(goal, sigma, tau, rho),
{
    let hcl = flatten_all(hyps);
    let gcl = spec_flatten_and(goal);
    let hb = hyp_bounds(hcl);
    let hc = system_constraints(hcl);
    lemma_flatten_all_sound(hyps, sigma, tau, rho);
    lemma_flatten_sound(goal, sigma, tau, rho);
    lemma_hyp_bounds_sound(hcl, sigma, tau, rho);
    lemma_no_empty_bound(hb, sigma);
    lemma_system_sound(hcl, sigma, tau, rho);
    if spec_check_sat(hc) == SatOutcome::Contradiction {
        lemma_check_sat_sound(hc, sigma);
    }
    match scan_goal(gcl, hb) {
        GoalScanV::Falsified(c) => {
            lemma_scan_goal_falsified(gcl, hb, c);
            lemma_classify_sound(c, sigma, tau, rho);
        },
        GoalScanV::Open(u) => {
            if u.len() == 0 {
                lemma_scan_goal_open(gcl, hb, u, sigma, tau, rho);
            } else if all_refuted(hc, u) {
                assert forall|i: int| 0 <= i < u.len() implies holds(#[trigger] u[i], sigma, tau, rho) by {
                    lemma_refutes_sound(hc, u[i], sigma, tau, rho);
                }
                lemma_scan_goal_open(gcl, hb, u, sigma, tau, rho);
            } else if spec_check_sat(hc) != SatOutcome::Contradiction {
                if let Some(s) = goal_system(hc, gcl) {
                    lemma_goal_system_sound(hc, gcl, sigma, tau, rho);
                    if spec_check_sat(s) == SatOutcome::Contradiction {
                        lemma_check_sat_sound(s, sigma);
                    }
                }
            }
        },
    }
}

// ── Coherence, quantifier-free ─────────────────────────────────────────────

/// The interval recorded for `var`, if any.
pub open spec fn bound_of(b: BoundsV, var: Seq<char>) -> Option<Interval> {
    match bkey_index(b, var) {
        Some(i) => Some(b[i].1),
        None => None,
    }
}

proof fn lemma_bkey_index_same_keys(b: BoundsV, b2: BoundsV, k: Seq<char>)
    requires
        b.len() == b2.len(),
        forall|j: int| 0 <= j < b.len() ==> (#[trigger] b2[j]).0 == b[j].0,
    ensures
        bkey_index(b2, k) == bkey_index(b, k),
    decreases b.len(),
{
    if b.len() > 0 {
        assert(b2.last().0 == b.last().0);
        let d = b.drop_last();
        let d2 = b2.drop_last();
        assert forall|j: int| 0 <= j < d.len() implies (#[trigger] d2[j]).0 == d[j].0 by {
            assert(d2[j] == b2[j]);
            assert(d[j] == b[j]);
        }
        lemma_bkey_index_same_keys(d, d2, k);
    }
}

proof fn lemma_bound_of_add(b: BoundsV, var: Seq<char>, iv: Interval, k: Seq<char>)
    ensures
        bound_of(bounds_add(b, var, iv), k) == if k == var {
            Some(
                match bound_of(b, var) {
                    Some(old) => old.spec_intersect(iv),
                    None => iv,
                },
            )
        } else {
            bound_of(b, k)
        },
{
    lemma_bkey_index(b, var);
    lemma_bkey_index(b, k);
    match bkey_index(b, var) {
        Some(i) => {
            let b2 = b.update(i, (var, b[i].1.spec_intersect(iv)));
            lemma_bkey_index_same_keys(b, b2, k);
            if let Some(j) = bkey_index(b, k) {
                if k != var {
                    assert(j != i);
                    assert(b2[j] == b[j]);
                }
            }
        },
        None => {
            let b2 = b.push((var, iv));
            assert(b2.drop_last() =~= b);
            if k != var {
                if let Some(j) = bkey_index(b, k) {
                    assert(b2[j] == b[j]);
                }
            }
        },
    }
}

proof fn lemma_scan_stop(cl: Seq<TreeV>, c: TreeV)
    requires
        scan_clauses(cl) == ScanV::Stop(c),
    ensures
        spec_classify_clause(c) == ClauseV::Constant(false),
        exists|i: int| 0 <= i < cl.len() && cl[i] == c,
    decreases cl.len(),
{
    if cl.len() > 0 {
        match scan_clauses(cl.drop_last()) {
            ScanV::Stop(c0) => {
                lemma_scan_stop(cl.drop_last(), c);
                let i = choose|i: int| 0 <= i < cl.drop_last().len() && cl.drop_last()[i] == c;
                assert(cl[i] == c);
            },
            ScanV::Go { .. } => {
                assert(cl[cl.len() - 1] == c);
            },
        }
    }
}

proof fn lemma_scan_bounds_sound(
    cl: Seq<TreeV>,
    sigma: spec_fn(Seq<char>) -> int,
    tau: spec_fn(TreeV) -> int,
    rho: spec_fn(TreeV) -> bool,
)
    requires
        vars_fit(sigma),
        all_true(cl, sigma, tau, rho),
        scan_clauses(cl) is Go,
    ensures
        bounds_ok(scan_clauses(cl)->bounds, sigma),
    decreases cl.len(),
{
    if cl.len() > 0 {
        lemma_all_true_last(cl, sigma, tau, rho);
        lemma_scan_bounds_sound(cl.drop_last(), sigma, tau, rho);
        lemma_classify_sound(cl.last(), sigma, tau, rho);
        if let ClauseV::Bound { var, interval } = spec_classify_clause(cl.last()) {
            lemma_bounds_add_ok(scan_clauses(cl.drop_last())->bounds, var, interval, sigma);
        }
    }
}

/// After a scan with nothing undecidable, every conjunct is `true` or a
/// bound whose interval contains the combined interval of its variable.
proof fn lemma_scan_covers(cl: Seq<TreeV>)
    requires
        scan_clauses(cl) matches ScanV::Go { undecidable: false, .. },
    ensures
        forall|j: int|
            0 <= j < cl.len() ==> match #[trigger] spec_classify_clause(cl[j]) {
                ClauseV::Constant(b) => b,
                ClauseV::Bound { var, interval } => bound_of(scan_clauses(cl)->bounds, var) matches Some(
                    cur,
                ) && interval.spec_contains(cur),
                ClauseV::Unknown => false,
            },
    decreases cl.len(),
{
    if cl.len() > 0 {
        let prev = cl.drop_last();
        lemma_scan_covers(prev);
        let b0 = scan_clauses(prev)->bounds;
        let b = scan_clauses(cl)->bounds;
        assert forall|j: int| 0 <= j < cl.len() implies match #[trigger] spec_classify_clause(cl[j]) {
            ClauseV::Constant(b) => b,
            ClauseV::Bound { var, interval } => bound_of(b, var) matches Some(cur)
                && interval.spec_contains(cur),
            ClauseV::Unknown => false,
        } by {
            if j < cl.len() - 1 {
                assert(prev[j] == cl[j]);
            }
            if let ClauseV::Bound { var: v1, interval: i1 } = spec_classify_clause(cl.last()) {
                if let ClauseV::Bound { var, interval } = spec_classify_clause(cl[j]) {
                    lemma_bound_of_add(b0, v1, i1, var);
                }
            }
        }
    }
}

proof fn lemma_all_constraints_sound(
    cl: Seq<TreeV>,
    sigma: spec_fn(Seq<char>) -> int,
    tau: spec_fn(TreeV) -> int,
    rho: spec_fn(TreeV) -> bool,
)
    requires
        all_constraints(cl) is Some,
    ensures
        all_wf(all_constraints(cl)->0),
        all_true(cl, sigma, tau, rho) ==> all_hold(all_constraints(cl)->0, sigma),
    decreases cl.len(),
{
    if cl.len() > 0 {
        lemma_all_constraints_sound(cl.drop_last(), sigma, tau, rho);
        if all_true(cl, sigma, tau, rho) {
            lemma_all_true_last(cl, sigma, tau, rho);
        }
        lemma_constraints_sound(cl.last(), sigma, tau, rho);
        let cs = crate::sat::spec_constraints_from_clause(cl.last())->0;
        lemma_all_hold_concat(all_constraints(cl.drop_last())->0, cs, sigma);
    }
}

/// A quantifier-free predicate the coherence check calls `Violated` has no
/// model (with variables in `i128`).
pub proof fn lemma_discharge_expr_violated(
    e: TreeV,
    sigma: spec_fn(Seq<char>) -> int,
    tau: spec_fn(TreeV) -> int,
    rho: spec_fn(TreeV) -> bool,
)
    requires
        vars_fit(sigma),
        spec_discharge_expr(e) is Violated,
    ensures
        !holds(e, sigma, tau, rho),
{
    let cl = spec_flatten_and(e);
    lemma_flatten_sound(e, sigma, tau, rho);
    if holds(e, sigma, tau, rho) {
        match scan_clauses(cl) {
            ScanV::Stop(c) => {
                lemma_scan_stop(cl, c);
                lemma_classify_sound(c, sigma, tau, rho);
            },
            ScanV::Go { bounds, saw_bound, undecidable } => {
                lemma_scan_bounds_sound(cl, sigma, tau, rho);
                lemma_no_empty_bound(bounds, sigma);
                if let Some(cs) = all_constraints(cl) {
                    lemma_all_constraints_sound(cl, sigma, tau, rho);
                    if spec_check_sat(cs) == SatOutcome::Contradiction {
                        lemma_check_sat_sound(cs, sigma);
                    }
                }
            },
        }
    }
}

/// The model that gives each bounded variable the lower end of its
/// combined interval, and every other variable `0`.
pub open spec fn lower_ends(b: BoundsV) -> spec_fn(Seq<char>) -> int {
    |n: Seq<char>| match bound_of(b, n) {
        Some(iv) => iv.lo as int,
        None => 0,
    }
}

/// A quantifier-free predicate the coherence check calls `Proven` has a
/// model (whatever the opaque terms and conditions mean).
pub proof fn lemma_discharge_expr_proven(
    e: TreeV,
    tau: spec_fn(TreeV) -> int,
    rho: spec_fn(TreeV) -> bool,
)
    requires
        spec_discharge_expr(e) is Proven,
    ensures
        exists|sigma: spec_fn(Seq<char>) -> int| vars_fit(sigma) && holds(e, sigma, tau, rho),
{
    let cl = spec_flatten_and(e);
    let b = scan_clauses(cl)->bounds;
    lemma_scan_covers(cl);
    lemma_first_empty(b);
    let sigma = lower_ends(b);
    assert forall|n: Seq<char>| crate::clause::fits_i128(#[trigger] sigma(n)) by {}
    assert(vars_fit(sigma));
    assert forall|j: int| 0 <= j < cl.len() implies holds(#[trigger] cl[j], sigma, tau, rho) by {
        lemma_classify_sound(cl[j], sigma, tau, rho);
        if let ClauseV::Bound { var, interval } = spec_classify_clause(cl[j]) {
            lemma_bkey_index(b, var);
            let i = bkey_index(b, var)->0;
            assert(!b[i].1.spec_is_empty());
        }
    }
    lemma_flatten_sound(e, sigma, tau, rho);
    assert(vars_fit(sigma) && holds(e, sigma, tau, rho));
}

// ── Predicates with bounded quantifiers ────────────────────────────────────

/// Truth of a predicate, quantifiers read by expansion: `forall` (`exists`)
/// holds when every (some) instance of its body, the bound variable
/// replaced by an integer of the range, holds. `n` bounds the quantifier
/// depth looked through.
pub open spec fn pholds_within(
    p: PredicateV,
    n: nat,
    sigma: spec_fn(Seq<char>) -> int,
    tau: spec_fn(TreeV) -> int,
    rho: spec_fn(TreeV) -> bool,
) -> bool
    decreases n,
{
    match p {
        PredicateV::Expr(e) => holds(e, sigma, tau, rho),
        PredicateV::Forall { var, lo, hi, body } => n > 0 && forall|k: int|
            lo <= k <= hi ==> pholds_within(#[trigger] subst_pred(*body, var, k), (n - 1) as nat, sigma, tau, rho),
        PredicateV::Exists { var, lo, hi, body } => n > 0 && exists|k: int|
            lo <= k <= hi && pholds_within(#[trigger] subst_pred(*body, var, k), (n - 1) as nat, sigma, tau, rho),
    }
}

/// Whether the predicate holds in the model.
pub open spec fn pholds(
    p: PredicateV,
    sigma: spec_fn(Seq<char>) -> int,
    tau: spec_fn(TreeV) -> int,
    rho: spec_fn(TreeV) -> bool,
) -> bool {
    pholds_within(p, height(p), sigma, tau, rho)
}

/// The hypotheses, if any, all hold.
pub open spec fn context_holds(
    hyps: Option<Seq<TreeV>>,
    sigma: spec_fn(Seq<char>) -> int,
    tau: spec_fn(TreeV) -> int,
    rho: spec_fn(TreeV) -> bool,
) -> bool {
    match hyps {
        Some(h) => all_true(h, sigma, tau, rho),
        None => true,
    }
}

proof fn lemma_instance_holds(
    var: Seq<char>,
    body: PredicateV,
    k: int,
    sigma: spec_fn(Seq<char>) -> int,
    tau: spec_fn(TreeV) -> int,
    rho: spec_fn(TreeV) -> bool,
)
    ensures
        pholds_within(subst_pred(body, var, k), height(body), sigma, tau, rho) == pholds(
            subst_pred(body, var, k),
            sigma,
            tau,
            rho,
        ),
{
    lemma_subst_height(body, var, k);
}

proof fn lemma_verdict_sound(
    p: PredicateV,
    hyps: Option<Seq<TreeV>>,
    sigma: spec_fn(Seq<char>) -> int,
    tau: spec_fn(TreeV) -> int,
    rho: spec_fn(TreeV) -> bool,
)
    requires
        vars_fit(sigma),
        context_holds(hyps, sigma, tau, rho),
    ensures
        spec_verdict(p, hyps) is Violated ==> !pholds(p, sigma, tau, rho),
        hyps is Some && spec_verdict(p, hyps) is Proven ==> pholds(p, sigma, tau, rho),
    decreases height(p), 1int, 0int,
{
    if spec_affordable(p) {
        match p {
            PredicateV::Expr(e) => match hyps {
                None => {
                    if spec_discharge_expr(e) is Violated {
                        lemma_discharge_expr_violated(e, sigma, tau, rho);
                    }
                },
                Some(h) => lemma_entail_expr_sound(h, e, sigma, tau, rho),
            },
            PredicateV::Forall { var, lo, hi, body } => {
                if lo <= hi && hi - lo + 1 <= MAX_BOUNDED_EXPANSION {
                    lemma_forall_scan_sound(var, lo, hi, *body, hyps, lo as int, false, sigma, tau, rho);
                    if spec_verdict(p, hyps) is Violated {
                        let k = choose|k: int| lo <= k <= hi && !pholds(subst_pred(*body, var, k), sigma, tau, rho);
                        lemma_instance_holds(var, *body, k, sigma, tau, rho);
                        assert(height(*body) == (height(p) - 1) as nat);
                        assert(!pholds_within(subst_pred(*body, var, k), (height(p) - 1) as nat, sigma, tau, rho));
                    }
                }
                if hyps is Some && spec_verdict(p, hyps) is Proven {
                    assert forall|k: int| lo <= k <= hi implies pholds_within(
                        #[trigger] subst_pred(*body, var, k),
                        (height(p) - 1) as nat,
                        sigma,
                        tau,
                        rho,
                    ) by {
                        lemma_instance_holds(var, *body, k, sigma, tau, rho);
                        assert(height(*body) == (height(p) - 1) as nat);
                    }
                }
            },
            PredicateV::Exists { var, lo, hi, body } => {
                if lo <= hi && hi - lo + 1 <= MAX_BOUNDED_EXPANSION {
                    lemma_exists_scan_sound(var, lo, hi, *body, hyps, lo as int, false, sigma, tau, rho);
                    if hyps is Some && spec_verdict(p, hyps) is Proven {
                        let k = choose|k: int| lo <= k <= hi && pholds(subst_pred(*body, var, k), sigma, tau, rho);
                        lemma_instance_holds(var, *body, k, sigma, tau, rho);
                        assert(height(*body) == (height(p) - 1) as nat);
                        assert(pholds_within(subst_pred(*body, var, k), (height(p) - 1) as nat, sigma, tau, rho));
                    }
                }
                if spec_verdict(p, hyps) is Violated {
                    assert forall|k: int| lo <= k <= hi implies !pholds_within(
                        #[trigger] subst_pred(*body, var, k),
                        (height(p) - 1) as nat,
                        sigma,
                        tau,
                        rho,
                    ) by {
                        lemma_instance_holds(var, *body, k, sigma, tau, rho);
                        assert(height(*body) == (height(p) - 1) as nat);
                    }
                }
            },
        }
    }
}

proof fn lemma_forall_scan_sound(
    var: Seq<char>,
    lo: i64,
    hi: i64,
    body: PredicateV,
    hyps: Option<Seq<TreeV>>,
    k: int,
    any_runtime: bool,
    sigma: spec_fn(Seq<char>) -> int,
    tau: spec_fn(TreeV) -> int,
    rho: spec_fn(TreeV) -> bool,
)
    requires
        vars_fit(sigma),
        context_holds(hyps, sigma, tau, rho),
    ensures
        any_runtime ==> !(forall_scan(var, lo, hi, body, hyps, k, any_runtime) is Proven),
        forall_scan(var, lo, hi, body, hyps, k, any_runtime) is Violated ==> exists|j: int|
            k <= j <= hi && !pholds(subst_pred(body, var, j), sigma, tau, rho),
        hyps is Some && forall_scan(var, lo, hi, body, hyps, k, any_runtime) is Proven ==> forall|j: int|
            k <= j <= hi ==> pholds(#[trigger] subst_pred(body, var, j), sigma, tau, rho),
    decreases height(body) + 1, 0int, hi - k + 1,
{
    if k <= hi {
        lemma_subst_height(body, var, k);
        lemma_verdict_sound(subst_pred(body, var, k), hyps, sigma, tau, rho);
        let v = spec_verdict(subst_pred(body, var, k), hyps);
        if !(v is Violated) {
            let next = any_runtime || v is Runtime;
            lemma_forall_scan_sound(var, lo, hi, body, hyps, k + 1, next, sigma, tau, rho);
            if forall_scan(var, lo, hi, body, hyps, k, any_runtime) is Violated {
                let j = choose|j: int| k + 1 <= j <= hi && !pholds(subst_pred(body, var, j), sigma, tau, rho);
                assert(k <= j <= hi);
            }
        }
    }
}

proof fn lemma_exists_scan_sound(
    var: Seq<char>,
    lo: i64,
    hi: i64,
    body: PredicateV,
    hyps: Option<Seq<TreeV>>,
    k: int,
    any_runtime: bool,
    sigma: spec_fn(Seq<char>) -> int,
    tau: spec_fn(TreeV) -> int,
    rho: spec_fn(TreeV) -> bool,
)
    requires
        vars_fit(sigma),
        context_holds(hyps, sigma, tau, rho),
    ensures
        any_runtime ==> !(exists_scan(var, lo, hi, body, hyps, k, any_runtime) is Violated),
        exists_scan(var, lo, hi, body, hyps, k, any_runtime) is Violated ==> forall|j: int|
            k <= j <= hi ==> !pholds(#[trigger] subst_pred(body, var, j), sigma, tau, rho),
        hyps is Some && exists_scan(var, lo, hi, body, hyps, k, any_runtime) is Proven ==> exists|j: int|
            k <= j <= hi && pholds(subst_pred(body, var, j), sigma, tau, rho),
    decreases height(body) + 1, 0int, hi - k + 1,
{
    if k <= hi {
        lemma_subst_height(body, var, k);
        lemma_verdict_sound(subst_pred(body, var, k), hyps, sigma, tau, rho);
        let v = spec_verdict(subst_pred(body, var, k), hyps);
        if !(v is Proven) {
            let next = any_runtime || v is Runtime;
            lemma_exists_scan_sound(var, lo, hi, body, hyps, k + 1, next, sigma, tau, rho);
            if hyps is Some && exists_scan(var, lo, hi, body, hyps, k, any_runtime) is Proven {
                let j = choose|j: int| k + 1 <= j <= hi && pholds(subst_pred(body, var, j), sigma, tau, rho);
                assert(k <= j <= hi);
            }
        }
    }
}

/// Entailment is sound: in every model of the hypotheses (with variables in
/// `i128`), a goal the check calls `Proven` holds and a goal it calls
/// `Violated` fails, quantified goals included.
pub proof fn lemma_entailment_sound(
    hyps: Seq<TreeV>,
    goal: PredicateV,
    sigma: spec_fn(Seq<char>) -> int,
    tau: spec_fn(TreeV) -> int,
    rho: spec_fn(TreeV) -> bool,
)
    requires
        vars_fit(sigma),
        all_true(hyps, sigma, tau, rho),
    ensures
        spec_discharge_entailment(hyps, goal) is Proven ==> pholds(goal, sigma, tau, rho),
        spec_discharge_entailment(hyps, goal) is Violated ==> !pholds(goal, sigma, tau, rho),
{
    lemma_verdict_sound(goal, Some(hyps), sigma, tau, rho);
}

/// A predicate the coherence check calls `Violated` holds in no model (with
/// variables in `i128`), quantified predicates included.
pub proof fn lemma_coherence_violated_sound(
    p: PredicateV,
    sigma: spec_fn(Seq<char>) -> int,
    tau: spec_fn(TreeV) -> int,
    rho: spec_fn(TreeV) -> bool,
)
    requires
        vars_fit(sigma),
    ensures
        spec_discharge_predicate(p) is Violated ==> !pholds(p, sigma, tau, rho),
{
    lemma_verdict_sound(p, None, sigma, tau, rho);
}

/// A quantifier-free predicate the coherence check calls `Proven` has a
/// model, whatever its opaque terms and conditions mean.
pub proof fn lemma_coherence_proven_satisfiable(
    e: TreeV,
    tau: spec_fn(TreeV) -> int,
    rho: spec_fn(TreeV) -> bool,
)
    requires
        spec_discharge_predicate(PredicateV::Expr(e)) is Proven,
    ensures
        exists|sigma: spec_fn(Seq<char>) -> int| vars_fit(sigma) && pholds(PredicateV::Expr(e), sigma, tau, rho),
{
    lemma_discharge_expr_proven(e, tau, rho);
    let sigma = choose|sigma: spec_fn(Seq<char>) -> int| vars_fit(sigma) && holds(e, sigma, tau, rho);
    assert(pholds(PredicateV::Expr(e), sigma, tau, rho));
}

// ── Bounded `forall` by its instances ─────────────────────────────────────

/// `Proven` by bounded expansion.
pub open spec fn proven_l3() -> DischargeResultV {
    DischargeResultV::Proven { layer: Layer::L3 }
}

/// The verdict on the instance of `body` at `var = k`.
pub open spec fn instance_verdict(
    var: Seq<char>,
    body: PredicateV,
    hyps: Option<Seq<TreeV>>,
    k: int,
) -> DischargeResultV {
    spec_verdict(subst_pred(body, var, k), hyps)
}

proof fn lemma_forall_scan_instances(
    var: Seq<char>,
    lo: i64,
    hi: i64,
    body: PredicateV,
    hyps: Option<Seq<TreeV>>,
    k: int,
    any_runtime: bool,
)
    ensures
        (forall_scan(var, lo, hi, body, hyps, k, any_runtime) is Violated) <==> exists|j: int|
            k <= j <= hi && #[trigger] instance_verdict(var, body, hyps, j) is Violated,
        (forall_scan(var, lo, hi, body, hyps, k, any_runtime) == proven_l3()) <==> (!any_runtime && forall|j: int|
            k <= j <= hi ==> #[trigger] instance_verdict(var, body, hyps, j) is Proven),
        forall_scan(var, lo, hi, body, hyps, k, any_runtime) is Violated
            || forall_scan(var, lo, hi, body, hyps, k, any_runtime) is Runtime
            || forall_scan(var, lo, hi, body, hyps, k, any_runtime) == proven_l3(),
    decreases hi - k + 1,
{
    if k <= hi {
        let v = instance_verdict(var, body, hyps, k);
        let next = match v {
            DischargeResultV::Runtime => true,
            _ => any_runtime,
        };
        lemma_forall_scan_instances(var, lo, hi, body, hyps, k + 1, next);
        if forall_scan(var, lo, hi, body, hyps, k + 1, next) is Violated {
            let j = choose|j: int| k + 1 <= j <= hi && #[trigger] instance_verdict(var, body, hyps, j) is Violated;
            assert(k <= j <= hi && instance_verdict(var, body, hyps, j) is Violated);
        }
        if exists|j: int| k <= j <= hi && #[trigger] instance_verdict(var, body, hyps, j) is Violated {
            let j = choose|j: int| k <= j <= hi && #[trigger] instance_verdict(var, body, hyps, j) is Violated;
            if j > k {
                assert(k + 1 <= j <= hi && instance_verdict(var, body, hyps, j) is Violated);
            }
        }
    }
}

/// A bounded `forall` is decided instance by instance: when the
/// dispatcher expands it (its whole expansion stays within
/// [`MAX_BOUNDED_EXPANSION`] instances and its own range has at most that
/// many values) it is violated exactly when some instance in `lo..=hi`
/// is, proven (at `L3`) exactly when every instance is proven, and
/// otherwise left to a runtime check; in particular an empty range is
/// proven. Any other `forall` is left to a runtime check.
pub proof fn lemma_forall_by_instances(
    var: Seq<char>,
    lo: i64,
    hi: i64,
    body: PredicateV,
    hyps: Option<Seq<TreeV>>,
)
    ensures
        ({
            let p = PredicateV::Forall { var, lo, hi, body: Box::new(body) };
            let r = spec_verdict(p, hyps);
            &&& (!spec_affordable(p) || hi - lo + 1 > MAX_BOUNDED_EXPANSION) ==> r is Runtime
            &&& (spec_affordable(p) && hi - lo + 1 <= MAX_BOUNDED_EXPANSION) ==> {
                &&& (r is Violated <==> exists|k: int|
                    lo <= k <= hi && #[trigger] instance_verdict(var, body, hyps, k) is Violated)
                &&& (r == proven_l3() <==> forall|k: int|
                    lo <= k <= hi ==> #[trigger] instance_verdict(var, body, hyps, k) is Proven)
                &&& (r is Violated || r is Runtime || r == proven_l3())
            }
        }),
{
    lemma_forall_scan_instances(var, lo, hi, body, hyps, lo as int, false);
}

proof fn lemma_exists_scan_instances(
    var: Seq<char>,
    lo: i64,
    hi: i64,
    body: PredicateV,
    hyps: Option<Seq<TreeV>>,
    k: int,
    any_runtime: bool,
)
    ensures
        (exists_scan(var, lo, hi, body, hyps, k, any_runtime) is Proven) <==> exists|j: int|
            k <= j <= hi && #[trigger] instance_verdict(var, body, hyps, j) is Proven,
        exists_scan(var, lo, hi, body, hyps, k, any_runtime) is Proven ==> exists_scan(
            var,
            lo,
            hi,
            body,
            hyps,
            k,
            any_runtime,
        ) == proven_l3(),
        (exists_scan(var, lo, hi, body, hyps, k, any_runtime) is Violated) <==> (!any_runtime
            && forall|j: int| k <= j <= hi ==> #[trigger] instance_verdict(var, body, hyps, j) is Violated),
    decreases hi - k + 1,
{
    if k <= hi {
        let v = instance_verdict(var, body, hyps, k);
        let next = match v {
            DischargeResultV::Runtime => true,
            _ => any_runtime,
        };
        lemma_exists_scan_instances(var, lo, hi, body, hyps, k + 1, next);
        if exists_scan(var, lo, hi, body, hyps, k + 1, next) is Proven {
            let j = choose|j: int| k + 1 <= j <= hi && #[trigger] instance_verdict(var, body, hyps, j) is Proven;
            assert(k <= j <= hi && instance_verdict(var, body, hyps, j) is Proven);
        }
        if exists|j: int| k <= j <= hi && #[trigger] instance_verdict(var, body, hyps, j) is Proven {
            let j = choose|j: int| k <= j <= hi && #[trigger] instance_verdict(var, body, hyps, j) is Proven;
            if j > k {
                assert(k + 1 <= j <= hi && instance_verdict(var, body, hyps, j) is Proven);
            }
        }
    }
}

/// A bounded `exists` is decided instance by instance: when the
/// dispatcher expands it (as for `forall`) it is proven (at `L3`) exactly
/// when some instance in `lo..=hi` is, violated exactly when every
/// instance is (an empty range included), and otherwise left to a runtime
/// check. Any other `exists` is left to a runtime check.
pub proof fn lemma_exists_by_instances(
    var: Seq<char>,
    lo: i64,
    hi: i64,
    body: PredicateV,
    hyps: Option<Seq<TreeV>>,
)
    ensures
        ({
            let p = PredicateV::Exists { var, lo, hi, body: Box::new(body) };
            let r = spec_verdict(p, hyps);
            &&& (!spec_affordable(p) || (lo <= hi && hi - lo + 1 > MAX_BOUNDED_EXPANSION)) ==> r is Runtime
            &&& (spec_affordable(p) && hi - lo + 1 <= MAX_BOUNDED_EXPANSION) ==> {
                &&& (r == proven_l3() <==> exists|k: int|
                    lo <= k <= hi && #[trigger] instance_verdict(var, body, hyps, k) is Proven)
                &&& (r is Violated <==> forall|k: int|
                    lo <= k <= hi ==> #[trigger] instance_verdict(var, body, hyps, k) is Violated)
                &&& (r is Violated || r is Runtime || r == proven_l3())
            }
        }),
{
    lemma_exists_scan_instances(var, lo, hi, body, hyps, lo as int, false);
}

} // verus!
