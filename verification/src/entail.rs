//! Entailment at a call site: does the hypothesis context Γ entail a
//! quantifier-free goal?
//!
//! | Query              | Meaning                              | Result     |
//! |--------------------|--------------------------------------|------------|
//! | `Γ ∧ ¬goal` unsat  | the goal holds wherever Γ does       | `Proven`   |
//! | `Γ ∧ goal` unsat   | the goal fails wherever Γ holds      | `Violated` |
//! | neither            | may hold, may not                    | `Runtime`  |
//!
//! Hypothesis conjuncts outside the fragment this backend understands are
//! dropped (fewer facts only make both queries harder to close); goal
//! conjuncts are never dropped. Negation stays inside the `≤`/`=` fragment:
//! `¬(t ≤ 0)` is `-t + 1 ≤ 0`, and an equality goal is refuted one half at
//! a time.

use vstd::prelude::*;

use crate::clause::{
    Clause, ClauseV, classify_clause, flatten_and, spec_classify_clause, spec_flatten_and, views,
};
use crate::expr::{Tree, TreeV};
use crate::interval::Interval;
use crate::linear::{LinTerm, LinTermV};
use crate::native::{
    BoundsV, add_bound, always_false_message, bkey_index, bounds_add, bviews, find_bound, find_first_empty, first_empty, lemma_bkey_index, msg_always_false, msg_no_value, no_value_message,
};
use crate::sat::{
    Constraint, ConstraintV, SatOutcome, check_satisfiability, constraints_from_clause, cviews, spec_check_sat, spec_constraints_from_clause, spec_with_equality_bounds, with_equality_bounds,
};
use crate::solver::{DischargeResult, DischargeResultV, Layer};

verus! {

// ── The hypothesis side ────────────────────────────────────────────────────

/// Every hypothesis split into its `&&`-conjuncts, in order.
pub open spec fn flatten_all(hs: Seq<TreeV>) -> Seq<TreeV>
    decreases hs.len(),
{
    if hs.len() == 0 {
        Seq::empty()
    } else {
        flatten_all(hs.drop_last()) + spec_flatten_and(hs.last())
    }
}

/// What Γ establishes as a per-variable interval.
pub open spec fn hyp_bounds(cl: Seq<TreeV>) -> BoundsV
    decreases cl.len(),
{
    if cl.len() == 0 {
        Seq::empty()
    } else {
        let b = hyp_bounds(cl.drop_last());
        match spec_classify_clause(cl.last()) {
            ClauseV::Bound { var, interval } => bounds_add(b, var, interval),
            _ => b,
        }
    }
}

/// Γ as a linear system: the conjuncts outside the linear fragment are
/// skipped, and each equality also contributes its two inequalities.
pub open spec fn system_constraints(cl: Seq<TreeV>) -> Seq<ConstraintV>
    decreases cl.len(),
{
    if cl.len() == 0 {
        Seq::empty()
    } else {
        let prev = system_constraints(cl.drop_last());
        match spec_constraints_from_clause(cl.last()) {
            Some(cs) => prev + spec_with_equality_bounds(cs),
            None => prev,
        }
    }
}

// ── The goal side ──────────────────────────────────────────────────────────

/// Whether what Γ knows of `var` already fits inside `iv`.
pub open spec fn bound_entailed(hb: BoundsV, var: Seq<char>, iv: Interval) -> bool {
    match bkey_index(hb, var) {
        Some(i) => iv.spec_contains(hb[i].1),
        None => false,
    }
}

/// Scanning the goal's conjuncts: stopped at one that is false on its
/// face, or the conjuncts the interval layers left open.
pub enum GoalScanV {
    Falsified(TreeV),
    Open(Seq<TreeV>),
}

pub open spec fn scan_goal(cl: Seq<TreeV>, hb: BoundsV) -> GoalScanV
    decreases cl.len(),
{
    if cl.len() == 0 {
        GoalScanV::Open(Seq::empty())
    } else {
        match scan_goal(cl.drop_last(), hb) {
            GoalScanV::Falsified(c) => GoalScanV::Falsified(c),
            GoalScanV::Open(u) => match spec_classify_clause(cl.last()) {
                ClauseV::Constant(true) => GoalScanV::Open(u),
                ClauseV::Constant(false) => GoalScanV::Falsified(cl.last()),
                ClauseV::Bound { var, interval } => if bound_entailed(hb, var, interval) {
                    GoalScanV::Open(u)
                } else {
                    GoalScanV::Open(u.push(cl.last()))
                },
                ClauseV::Unknown => GoalScanV::Open(u.push(cl.last())),
            },
        }
    }
}

/// `-t + 1`, the negation of `t ≤ 0` over the integers.
pub open spec fn negation_term(t: LinTermV) -> Option<LinTermV> {
    match t.spec_negate() {
        Some(n) => n.spec_plus_one(),
        None => None,
    }
}

/// Whether `hc` together with `t ≤ 0` is a proven contradiction.
pub open spec fn unsat_with(hc: Seq<ConstraintV>, t: Option<LinTermV>) -> bool {
    match t {
        Some(t) => spec_check_sat(hc.push(ConstraintV::Le(t))) == SatOutcome::Contradiction,
        None => false,
    }
}

/// Whether Γ ∧ ¬clause is refuted: a single `t ≤ 0` by refuting `t ≥ 1`,
/// a single `t = 0` by refuting both `t ≥ 1` and `t ≤ -1`. Anything else
/// is not claimed.
pub open spec fn refutes_negation(hc: Seq<ConstraintV>, c: TreeV) -> bool {
    match spec_constraints_from_clause(c) {
        Some(cs) => if cs.len() == 1 {
            match cs[0] {
                ConstraintV::Le(t) => unsat_with(hc, negation_term(t)),
                ConstraintV::Eq(t) => unsat_with(hc, negation_term(t)) && unsat_with(
                    hc,
                    t.spec_plus_one(),
                ),
            }
        } else {
            false
        },
        None => false,
    }
}

pub open spec fn all_refuted(hc: Seq<ConstraintV>, u: Seq<TreeV>) -> bool {
    forall|i: int| 0 <= i < u.len() ==> refutes_negation(hc, #[trigger] u[i])
}

/// Γ's system extended with every goal conjunct's constraints, as they
/// are (an equality goal is not split); `None` when a goal conjunct is
/// outside the linear fragment.
pub open spec fn goal_system(hc: Seq<ConstraintV>, cl: Seq<TreeV>) -> Option<Seq<ConstraintV>>
    decreases cl.len(),
{
    if cl.len() == 0 {
        Some(hc)
    } else {
        match goal_system(hc, cl.drop_last()) {
            Some(s) => match spec_constraints_from_clause(cl.last()) {
                Some(cs) => Some(s + cs),
                None => None,
            },
            None => None,
        }
    }
}

/// The entailment verdict for `hyps ⊢ goal` on a quantifier-free goal.
pub open spec fn spec_entail_expr(hyps: Seq<TreeV>, goal: TreeV) -> DischargeResultV {
    let hcl = flatten_all(hyps);
    let gcl = spec_flatten_and(goal);
    let hb = hyp_bounds(hcl);
    if first_empty(hb) is Some {
        DischargeResultV::Proven { layer: Layer::L2 }
    } else {
        let hc = system_constraints(hcl);
        match scan_goal(gcl, hb) {
            GoalScanV::Falsified(c) => if spec_check_sat(hc) == SatOutcome::Contradiction {
                DischargeResultV::Proven { layer: Layer::L4 }
            } else {
                DischargeResultV::Violated { counterexample: msg_always_false(c) }
            },
            GoalScanV::Open(u) => if u.len() == 0 {
                DischargeResultV::Proven {
                    layer: if hb.len() == 0 {
                        Layer::L1
                    } else {
                        Layer::L2
                    },
                }
            } else if all_refuted(hc, u) {
                DischargeResultV::Proven { layer: Layer::L4 }
            } else if spec_check_sat(hc) == SatOutcome::Contradiction {
                DischargeResultV::Proven { layer: Layer::L4 }
            } else {
                match goal_system(hc, gcl) {
                    Some(s) => if spec_check_sat(s) == SatOutcome::Contradiction {
                        DischargeResultV::Violated { counterexample: msg_no_value(goal) }
                    } else {
                        DischargeResultV::Runtime
                    },
                    None => DischargeResultV::Runtime,
                }
            },
        }
    }
}

// ── Executable pieces ──────────────────────────────────────────────────────

fn duplicate_all(cs: &Vec<Constraint>) -> (r: Vec<Constraint>)
    ensures
        cviews(r@) == cviews(cs@),
{
    let mut out: Vec<Constraint> = Vec::new();
    let mut i: usize = 0;
    while i < cs.len()
        invariant
            i <= cs.len(),
            cviews(out@) == cviews(cs@).take(i as int),
        decreases cs.len() - i,
    {
        let c = cs[i].duplicate();
        let ghost before = cviews(out@);
        out.push(c);
        assert(cviews(out@) =~= before.push(c@));
        assert(cviews(out@) =~= cviews(cs@).take(i + 1));
        i = i + 1;
    }
    assert(cviews(cs@).take(cs.len() as int) =~= cviews(cs@));
    out
}

fn flatten_hypotheses(hyps: &[Tree]) -> (r: Vec<Tree>)
    ensures
        views(r@) == flatten_all(views(hyps@)),
{
    let ghost hv = views(hyps@);
    let mut out: Vec<Tree> = Vec::new();
    let mut i: usize = 0;
    assert(views(out@) =~= Seq::<TreeV>::empty());
    while i < hyps.len()
        invariant
            i <= hyps.len(),
            hv == views(hyps@),
            views(out@) == flatten_all(hv.take(i as int)),
        decreases hyps.len() - i,
    {
        proof {
            assert(hv.take(i + 1).drop_last() =~= hv.take(i as int));
            assert(hv.take(i + 1).last() == hv[i as int]);
        }
        flatten_and(&hyps[i], &mut out);
        i = i + 1;
    }
    assert(hv.take(hyps.len() as int) =~= hv);
    out
}

fn collect_hyp_bounds(cl: &Vec<Tree>) -> (r: Vec<(String, Interval)>)
    ensures
        bviews(r@) == hyp_bounds(views(cl@)),
{
    let ghost v = views(cl@);
    let mut bounds: Vec<(String, Interval)> = Vec::new();
    let mut i: usize = 0;
    assert(bviews(bounds@) =~= Seq::<(Seq<char>, Interval)>::empty());
    while i < cl.len()
        invariant
            i <= cl.len(),
            v == views(cl@),
            bviews(bounds@) == hyp_bounds(v.take(i as int)),
        decreases cl.len() - i,
    {
        proof {
            assert(v.take(i + 1).drop_last() =~= v.take(i as int));
            assert(v.take(i + 1).last() == v[i as int]);
        }
        match classify_clause(&cl[i]) {
            Clause::Bound { var, interval } => {
                add_bound(&mut bounds, var, interval);
            },
            _ => {},
        }
        i = i + 1;
    }
    assert(v.take(cl.len() as int) =~= v);
    bounds
}

fn collect_system(cl: &Vec<Tree>) -> (r: Vec<Constraint>)
    ensures
        cviews(r@) == system_constraints(views(cl@)),
{
    let ghost v = views(cl@);
    let mut out: Vec<Constraint> = Vec::new();
    let mut i: usize = 0;
    assert(cviews(out@) =~= Seq::<ConstraintV>::empty());
    while i < cl.len()
        invariant
            i <= cl.len(),
            v == views(cl@),
            cviews(out@) == system_constraints(v.take(i as int)),
        decreases cl.len() - i,
    {
        proof {
            assert(v.take(i + 1).drop_last() =~= v.take(i as int));
            assert(v.take(i + 1).last() == v[i as int]);
        }
        match constraints_from_clause(&cl[i]) {
            Some(cs) => {
                let ghost before = cviews(out@);
                let mut more = with_equality_bounds(cs);
                let ghost added = cviews(more@);
                out.append(&mut more);
                assert(cviews(out@) =~= before + added);
            },
            None => {},
        }
        i = i + 1;
    }
    assert(v.take(cl.len() as int) =~= v);
    out
}

fn is_bound_entailed(hb: &Vec<(String, Interval)>, var: &String, iv: Interval) -> (r: bool)
    ensures
        r == bound_entailed(bviews(hb@), var@, iv),
{
    match find_bound(hb, var) {
        Some(i) => {
            proof {
                lemma_bkey_index(bviews(hb@), var@);
            }
            iv.contains(hb[i].1)
        },
        None => false,
    }
}

fn unsat_with_term(hc: &Vec<Constraint>, t: Option<LinTerm>) -> (r: bool)
    ensures
        r == unsat_with(cviews(hc@), match t {
            Some(t) => Some(t@),
            None => None,
        }),
{
    match t {
        Some(t) => {
            let mut sys = duplicate_all(hc);
            let ghost before = cviews(sys@);
            let ghost tv = t@;
            sys.push(Constraint::Le(t));
            assert(cviews(sys@) =~= before.push(ConstraintV::Le(tv)));
            check_satisfiability(sys) == SatOutcome::Contradiction
        },
        None => false,
    }
}

fn negation_of(t: &LinTerm) -> (r: Option<LinTerm>)
    ensures
        match r {
            Some(u) => negation_term(t@) == Some(u@),
            None => negation_term(t@) is None,
        },
{
    match t.negate() {
        Some(n) => n.plus_one(),
        None => None,
    }
}

fn refutes(hc: &Vec<Constraint>, c: &Tree) -> (r: bool)
    ensures
        r == refutes_negation(cviews(hc@), c@),
{
    match constraints_from_clause(c) {
        Some(cs) => {
            if cs.len() == 1 {
                assert(cviews(cs@)[0] == cs@[0]@);
                match &cs[0] {
                    Constraint::Le(t) => unsat_with_term(hc, negation_of(t)),
                    Constraint::Eq(t) => unsat_with_term(hc, negation_of(t)) && unsat_with_term(
                        hc,
                        t.plus_one(),
                    ),
                }
            } else {
                false
            }
        },
        None => false,
    }
}

proof fn lemma_goal_system_none_prefix(hc: Seq<ConstraintV>, cl: Seq<TreeV>, n: int)
    requires
        0 <= n <= cl.len(),
        goal_system(hc, cl.take(n)) is None,
    ensures
        goal_system(hc, cl) is None,
    decreases cl.len() - n,
{
    if n < cl.len() {
        assert(cl.take(n + 1).drop_last() =~= cl.take(n));
        lemma_goal_system_none_prefix(hc, cl, n + 1);
    } else {
        assert(cl.take(n) =~= cl);
    }
}

fn collect_goal_system(hc: &Vec<Constraint>, cl: &Vec<Tree>) -> (r: Option<Vec<Constraint>>)
    ensures
        r.is_some() == goal_system(cviews(hc@), views(cl@)).is_some(),
        r matches Some(s) ==> goal_system(cviews(hc@), views(cl@)) == Some(cviews(s@)),
{
    let ghost v = views(cl@);
    let ghost h = cviews(hc@);
    let mut out = duplicate_all(hc);
    let mut i: usize = 0;
    while i < cl.len()
        invariant
            i <= cl.len(),
            v == views(cl@),
            h == cviews(hc@),
            goal_system(h, v.take(i as int)) == Some(cviews(out@)),
        decreases cl.len() - i,
    {
        proof {
            assert(v.take(i + 1).drop_last() =~= v.take(i as int));
            assert(v.take(i + 1).last() == v[i as int]);
        }
        match constraints_from_clause(&cl[i]) {
            Some(cs) => {
                let ghost before = cviews(out@);
                let ghost added = cviews(cs@);
                let mut more = cs;
                out.append(&mut more);
                assert(cviews(out@) =~= before + added);
            },
            None => {
                proof {
                    lemma_goal_system_none_prefix(h, v, i + 1);
                }
                return None;
            },
        }
        i = i + 1;
    }
    assert(v.take(cl.len() as int) =~= v);
    Some(out)
}

proof fn lemma_scan_goal_falsified_prefix(cl: Seq<TreeV>, hb: BoundsV, n: int, c: TreeV)
    requires
        0 <= n <= cl.len(),
        scan_goal(cl.take(n), hb) == GoalScanV::Falsified(c),
    ensures
        scan_goal(cl, hb) == GoalScanV::Falsified(c),
    decreases cl.len() - n,
{
    if n < cl.len() {
        assert(cl.take(n + 1).drop_last() =~= cl.take(n));
        lemma_scan_goal_falsified_prefix(cl, hb, n + 1, c);
    } else {
        assert(cl.take(n) =~= cl);
    }
}

/// Decides `hypotheses ⊢ goal` for a quantifier-free goal; see
/// [`spec_entail_expr`] for the exact verdict.
pub fn entail_expr(hypotheses: &[Tree], goal: &Tree) -> (r: DischargeResult)
    ensures
        r@ == spec_entail_expr(views(hypotheses@), goal@),
{
    let hyp = flatten_hypotheses(hypotheses);
    let mut gcl: Vec<Tree> = Vec::new();
    flatten_and(goal, &mut gcl);
    let ghost hv = views(hyp@);
    let ghost gv = views(gcl@);
    assert(gv =~= spec_flatten_and(goal@));
    let bounds = collect_hyp_bounds(&hyp);
    let ghost hb = bviews(bounds@);
    if find_first_empty(&bounds).is_some() {
        return DischargeResult::Proven { layer: Layer::L2 };
    }
    let hc = collect_system(&hyp);
    let ghost h = cviews(hc@);
    let mut unresolved: Vec<Tree> = Vec::new();
    let mut i: usize = 0;
    assert(views(unresolved@) =~= Seq::<TreeV>::empty());
    while i < gcl.len()
        invariant
            i <= gcl.len(),
            gv == views(gcl@),
            gv == spec_flatten_and(goal@),
            hv == views(hyp@),
            hv == flatten_all(views(hypotheses@)),
            hb == bviews(bounds@),
            hb == hyp_bounds(hv),
            first_empty(hb) is None,
            h == cviews(hc@),
            h == system_constraints(hv),
            scan_goal(gv.take(i as int), hb) == GoalScanV::Open(views(unresolved@)),
        decreases gcl.len() - i,
    {
        proof {
            assert(gv.take(i + 1).drop_last() =~= gv.take(i as int));
            assert(gv.take(i + 1).last() == gv[i as int]);
        }
        let ghost before = views(unresolved@);
        match classify_clause(&gcl[i]) {
            Clause::Constant(true) => {},
            Clause::Constant(false) => {
                proof {
                    lemma_scan_goal_falsified_prefix(gv, hb, i + 1, gv[i as int]);
                }
                if check_satisfiability(duplicate_all(&hc)) == SatOutcome::Contradiction {
                    return DischargeResult::Proven { layer: Layer::L4 };
                }
                return DischargeResult::Violated {
                    counterexample: always_false_message(&gcl[i]),
                };
            },
            Clause::Bound { var, interval } => {
                if !is_bound_entailed(&bounds, &var, interval) {
                    unresolved.push(gcl[i].duplicate());
                    assert(views(unresolved@) =~= before.push(gv[i as int]));
                }
            },
            Clause::Unknown => {
                unresolved.push(gcl[i].duplicate());
                assert(views(unresolved@) =~= before.push(gv[i as int]));
            },
        }
        i = i + 1;
    }
    assert(gv.take(gcl.len() as int) =~= gv);
    let ghost u = views(unresolved@);
    if unresolved.len() == 0 {
        return DischargeResult::Proven {
            layer: if bounds.len() == 0 {
                Layer::L1
            } else {
                Layer::L2
            },
        };
    }
    let mut all = true;
    let mut k: usize = 0;
    while k < unresolved.len() && all
        invariant
            k <= unresolved.len(),
            u == views(unresolved@),
            h == cviews(hc@),
            all ==> forall|j: int| 0 <= j < k ==> refutes_negation(h, #[trigger] u[j]),
            !all ==> !all_refuted(h, u),
        decreases unresolved.len() - k + (if all { 1int } else { 0int }),
    {
        if refutes(&hc, &unresolved[k]) {
            k = k + 1;
        } else {
            all = false;
            assert(!refutes_negation(h, u[k as int]));
        }
    }
    if all {
        return DischargeResult::Proven { layer: Layer::L4 };
    }
    if check_satisfiability(duplicate_all(&hc)) == SatOutcome::Contradiction {
        return DischargeResult::Proven { layer: Layer::L4 };
    }
    match collect_goal_system(&hc, &gcl) {
        Some(sys) => {
            if check_satisfiability(sys) == SatOutcome::Contradiction {
                DischargeResult::Violated { counterexample: no_value_message(goal) }
            } else {
                DischargeResult::Runtime
            }
        },
        None => DischargeResult::Runtime,
    }
}

} // verus!
