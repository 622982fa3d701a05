//! The native dispatcher for quantifier-free predicates: `L1` (constants),
//! `L2` (per-variable intervals) and `L4` (linear arithmetic), answering
//! either the coherence question (is the predicate satisfiable?) or the
//! entailment question (do the hypotheses entail it?).

use vstd::prelude::*;

use crate::clause::{
    Clause, ClauseV, classify_clause, flatten_and, spec_classify_clause, spec_flatten_and, views,
};
use crate::expr::{Tree, TreeV, render_into, spec_render};
use crate::interval::Interval;
use crate::sat::{
    Constraint, ConstraintV, SatOutcome, check_satisfiability, constraints_from_clause, cviews, spec_check_sat, spec_constraints_from_clause,
};
use crate::solver::{DischargeResult, DischargeResultV, Layer};
use crate::text::{int_text_into, push_str, spec_int_text};
use crate::predicate::{Predicate, PredicateV, spec_parse_predicate};
use crate::subst::{height, lemma_subst_height, subst_pred, substitute};
use crate::entail::{entail_expr, spec_entail_expr};
use crate::solver::{Obligation, SolverBackend};

verus! {

// ── Per-variable bounds ────────────────────────────────────────────────────

/// Per-variable intervals, in first-seen order.
pub type BoundsV = Seq<(Seq<char>, Interval)>;

pub open spec fn bkey_index(b: BoundsV, var: Seq<char>) -> Option<int>
    decreases b.len(),
{
    if b.len() == 0 {
        None
    } else if b.last().0 == var {
        Some(b.len() - 1)
    } else {
        bkey_index(b.drop_last(), var)
    }
}

/// `b` with `var` narrowed to `iv` (intersected with what it already had).
pub open spec fn bounds_add(b: BoundsV, var: Seq<char>, iv: Interval) -> BoundsV {
    match bkey_index(b, var) {
        Some(i) => b.update(i, (var, b[i].1.spec_intersect(iv))),
        None => b.push((var, iv)),
    }
}

pub open spec fn bviews(b: Seq<(String, Interval)>) -> BoundsV {
    b.map_values(|p: (String, Interval)| (p.0@, p.1))
}

pub(crate) fn find_bound(b: &Vec<(String, Interval)>, var: &String) -> (r: Option<usize>)
    ensures
        r matches Some(i) ==> bkey_index(bviews(b@), var@) == Some(i as int),
        r is None ==> bkey_index(bviews(b@), var@) is None,
{
    let ghost s = bviews(b@);
    let mut i: usize = b.len();
    assert(s.take(i as int) =~= s);
    while i > 0
        invariant
            i <= b.len(),
            s == bviews(b@),
            bkey_index(s, var@) == bkey_index(s.take(i as int), var@),
        decreases i,
    {
        assert(s.take(i as int).drop_last() =~= s.take(i - 1));
        if b[i - 1].0 == *var {
            return Some(i - 1);
        }
        i = i - 1;
    }
    None
}

pub(crate) proof fn lemma_bkey_index(b: BoundsV, var: Seq<char>)
    ensures
        bkey_index(b, var) matches Some(i) ==> 0 <= i < b.len() && b[i].0 == var,
        bkey_index(b, var) is None ==> forall|i: int| 0 <= i < b.len() ==> b[i].0 != var,
    decreases b.len(),
{
    if b.len() > 0 && b.last().0 != var {
        lemma_bkey_index(b.drop_last(), var);
        if bkey_index(b, var) is None {
            assert forall|i: int| 0 <= i < b.len() implies b[i].0 != var by {
                if i < b.len() - 1 {
                    assert(b.drop_last()[i] == b[i]);
                }
            }
        }
    }
}

pub(crate) fn add_bound(b: &mut Vec<(String, Interval)>, var: String, iv: Interval)
    ensures
        bviews(final(b)@) == bounds_add(bviews(old(b)@), var@, iv),
{
    let ghost s = bviews(b@);
    match find_bound(b, &var) {
        Some(i) => {
            proof {
                lemma_bkey_index(s, var@);
            }
            let narrowed = b[i].1.intersect(iv);
            b.set(i, (var, narrowed));
            assert(bviews(b@) =~= s.update(i as int, (var@, s[i as int].1.spec_intersect(iv))));
        },
        None => {
            b.push((var, iv));
            assert(bviews(b@) =~= s.push((var@, iv)));
        },
    }
}

/// Index of the first empty interval.
pub open spec fn first_empty(b: BoundsV) -> Option<int>
    decreases b.len(),
{
    if b.len() == 0 {
        None
    } else {
        match first_empty(b.drop_last()) {
            Some(i) => Some(i),
            None => if b.last().1.spec_is_empty() {
                Some(b.len() - 1)
            } else {
                None
            },
        }
    }
}

pub(crate) proof fn lemma_first_empty(b: BoundsV)
    ensures
        first_empty(b) matches Some(i) ==> 0 <= i < b.len() && b[i].1.spec_is_empty() && forall|
            j: int,
        | 0 <= j < i ==> !(#[trigger] b[j]).1.spec_is_empty(),
        first_empty(b) is None ==> forall|j: int| 0 <= j < b.len() ==> !(#[trigger] b[j]).1.spec_is_empty(),
    decreases b.len(),
{
    if b.len() > 0 {
        lemma_first_empty(b.drop_last());
        assert forall|j: int| 0 <= j < b.len() - 1 implies b.drop_last()[j] == b[j] by {}
    }
}

pub(crate) fn find_first_empty(b: &Vec<(String, Interval)>) -> (r: Option<usize>)
    ensures
        r matches Some(i) ==> first_empty(bviews(b@)) == Some(i as int),
        r is None ==> first_empty(bviews(b@)) is None,
{
    let ghost s = bviews(b@);
    proof {
        lemma_first_empty(s);
    }
    let mut i: usize = 0;
    while i < b.len()
        invariant
            i <= b.len(),
            s == bviews(b@),
            forall|j: int| 0 <= j < i ==> !(#[trigger] s[j]).1.spec_is_empty(),
        decreases b.len() - i,
    {
        if b[i].1.is_empty() {
            proof {
                lemma_first_empty(s);
                assert(s[i as int] == (b@[i as int].0@, b@[i as int].1));
            }
            return Some(i);
        }
        i = i + 1;
    }
    proof {
        if let Some(k) = first_empty(s) {
            assert(!s[k].1.spec_is_empty());
        }
    }
    None
}

// ── Messages ───────────────────────────────────────────────────────────────

pub open spec fn msg_always_false(c: TreeV) -> Seq<char> {
    "`"@ + spec_render(c) + "` is always false"@
}

pub open spec fn msg_empty_bounds(var: Seq<char>, iv: Interval) -> Seq<char> {
    "no value of `"@ + var + "` satisfies the combined bounds ("@ + spec_int_text(iv.lo as int)
        + "..="@ + spec_int_text(iv.hi as int) + " is empty)"@
}

/// The conjuncts rendered and joined with ` && `.
pub open spec fn joined(cl: Seq<TreeV>) -> Seq<char>
    decreases cl.len(),
{
    if cl.len() == 0 {
        Seq::empty()
    } else if cl.len() == 1 {
        spec_render(cl[0])
    } else {
        joined(cl.drop_last()) + " && "@ + spec_render(cl.last())
    }
}

pub open spec fn msg_l4(cl: Seq<TreeV>) -> Seq<char> {
    "the conjunction `"@ + joined(cl) + "` is unsatisfiable over the integers (L4)"@
}

pub open spec fn msg_no_value(goal: TreeV) -> Seq<char> {
    "no value satisfying the hypotheses can satisfy `"@ + spec_render(goal) + "`"@
}

pub(crate) fn always_false_message(c: &Tree) -> (r: String)
    ensures
        r@ == msg_always_false(c@),
{
    let mut out = String::new();
    push_str(&mut out, "`");
    render_into(c, &mut out);
    push_str(&mut out, "` is always false");
    proof {
        assert(out@ =~= msg_always_false(c@));
    }
    out
}

fn empty_bounds_message(var: &String, iv: Interval) -> (r: String)
    ensures
        r@ == msg_empty_bounds(var@, iv),
{
    let mut out = String::new();
    push_str(&mut out, "no value of `");
    push_str(&mut out, var.as_str());
    push_str(&mut out, "` satisfies the combined bounds (");
    int_text_into(iv.lo, &mut out);
    push_str(&mut out, "..=");
    int_text_into(iv.hi, &mut out);
    push_str(&mut out, " is empty)");
    proof {
        assert(out@ =~= msg_empty_bounds(var@, iv));
    }
    out
}

fn l4_message(cl: &Vec<Tree>) -> (r: String)
    ensures
        r@ == msg_l4(views(cl@)),
{
    let ghost v = views(cl@);
    let mut out = String::new();
    push_str(&mut out, "the conjunction `");
    let ghost start = out@;
    let mut i: usize = 0;
    while i < cl.len()
        invariant
            i <= cl.len(),
            v == views(cl@),
            out@ == start + joined(v.take(i as int)),
        decreases cl.len() - i,
    {
        proof {
            assert(v.take(i + 1).drop_last() =~= v.take(i as int));
            assert(v.take(i + 1).last() == v[i as int]);
        }
        if i > 0 {
            push_str(&mut out, " && ");
        }
        render_into(&cl[i], &mut out);
        proof {
            if i == 0 {
                assert(v.take(1)[0] == v[0]);
                assert(v.take(0).len() == 0);
            }
            assert(out@ =~= start + joined(v.take(i + 1)));
        }
        i = i + 1;
    }
    assert(v.take(cl.len() as int) =~= v);
    push_str(&mut out, "` is unsatisfiable over the integers (L4)");
    proof {
        assert(out@ =~= msg_l4(v));
    }
    out
}

pub(crate) fn no_value_message(goal: &Tree) -> (r: String)
    ensures
        r@ == msg_no_value(goal@),
{
    let mut out = String::new();
    push_str(&mut out, "no value satisfying the hypotheses can satisfy `");
    render_into(goal, &mut out);
    push_str(&mut out, "`");
    proof {
        assert(out@ =~= msg_no_value(goal@));
    }
    out
}

// ── Coherence: is a quantifier-free predicate satisfiable? ─────────────────

/// Where scanning the conjuncts got to: stopped at a conjunct that is
/// false on its face, or the bounds collected so far plus whether any bound
/// was seen and whether any conjunct was undecidable.
pub enum ScanV {
    Stop(TreeV),
    Go { bounds: BoundsV, saw_bound: bool, undecidable: bool },
}

pub open spec fn scan_clauses(cl: Seq<TreeV>) -> ScanV
    decreases cl.len(),
{
    if cl.len() == 0 {
        ScanV::Go { bounds: Seq::empty(), saw_bound: false, undecidable: false }
    } else {
        match scan_clauses(cl.drop_last()) {
            ScanV::Stop(c) => ScanV::Stop(c),
            ScanV::Go { bounds, saw_bound, undecidable } => match spec_classify_clause(cl.last()) {
                ClauseV::Constant(false) => ScanV::Stop(cl.last()),
                ClauseV::Constant(true) => ScanV::Go { bounds, saw_bound, undecidable },
                ClauseV::Bound { var, interval } => ScanV::Go {
                    bounds: bounds_add(bounds, var, interval),
                    saw_bound: true,
                    undecidable,
                },
                ClauseV::Unknown => ScanV::Go { bounds, saw_bound, undecidable: true },
            },
        }
    }
}

/// Every conjunct converted to constraints, concatenated; `None` when one
/// is outside the linear fragment.
pub open spec fn all_constraints(cl: Seq<TreeV>) -> Option<Seq<ConstraintV>>
    decreases cl.len(),
{
    if cl.len() == 0 {
        Some(Seq::empty())
    } else {
        match all_constraints(cl.drop_last()) {
            Some(cs) => match spec_constraints_from_clause(cl.last()) {
                Some(more) => Some(cs + more),
                None => None,
            },
            None => None,
        }
    }
}

/// `L4` on a whole conjunction: `Violated` when the linear system is
/// contradictory, `None` (no verdict) otherwise.
pub open spec fn spec_discharge_l4(cl: Seq<TreeV>) -> Option<DischargeResultV> {
    match all_constraints(cl) {
        Some(cs) => if spec_check_sat(cs) == SatOutcome::Contradiction {
            Some(DischargeResultV::Violated { counterexample: msg_l4(cl) })
        } else {
            None
        },
        None => None,
    }
}

/// The coherence verdict on a quantifier-free predicate.
pub open spec fn spec_discharge_expr(e: TreeV) -> DischargeResultV {
    let cl = spec_flatten_and(e);
    match scan_clauses(cl) {
        ScanV::Stop(c) => DischargeResultV::Violated { counterexample: msg_always_false(c) },
        ScanV::Go { bounds, saw_bound, undecidable } => match first_empty(bounds) {
            Some(i) => DischargeResultV::Violated {
                counterexample: msg_empty_bounds(bounds[i].0, bounds[i].1),
            },
            None => if !undecidable {
                DischargeResultV::Proven { layer: if saw_bound { Layer::L2 } else { Layer::L1 } }
            } else {
                match spec_discharge_l4(cl) {
                    Some(r) => r,
                    None => DischargeResultV::Runtime,
                }
            },
        },
    }
}

proof fn lemma_all_constraints_none_prefix(cl: Seq<TreeV>, n: int)
    requires
        0 <= n <= cl.len(),
        all_constraints(cl.take(n)) is None,
    ensures
        all_constraints(cl) is None,
    decreases cl.len() - n,
{
    if n < cl.len() {
        assert(cl.take(n + 1).drop_last() =~= cl.take(n));
        lemma_all_constraints_none_prefix(cl, n + 1);
    } else {
        assert(cl.take(n) =~= cl);
    }
}

fn collect_constraints(cl: &Vec<Tree>) -> (r: Option<Vec<Constraint>>)
    ensures
        r.is_some() == all_constraints(views(cl@)).is_some(),
        r matches Some(v) ==> all_constraints(views(cl@)) == Some(cviews(v@)),
{
    let ghost v = views(cl@);
    let mut out: Vec<Constraint> = Vec::new();
    let mut i: usize = 0;
    assert(cviews(out@) =~= Seq::<ConstraintV>::empty());
    while i < cl.len()
        invariant
            i <= cl.len(),
            v == views(cl@),
            all_constraints(v.take(i as int)) == Some(cviews(out@)),
        decreases cl.len() - i,
    {
        proof {
            assert(v.take(i + 1).drop_last() =~= v.take(i as int));
            assert(v.take(i + 1).last() == v[i as int]);
        }
        match constraints_from_clause(&cl[i]) {
            None => {
                proof {
                    lemma_all_constraints_none_prefix(v, i + 1);
                }
                return None;
            },
            Some(more) => {
                let ghost before = cviews(out@);
                let ghost added = cviews(more@);
                let mut more = more;
                out.append(&mut more);
                assert(cviews(out@) =~= before + added);
            },
        }
        i = i + 1;
    }
    assert(v.take(cl.len() as int) =~= v);
    Some(out)
}

fn discharge_l4(cl: &Vec<Tree>) -> (r: Option<DischargeResult>)
    ensures
        r.is_some() == spec_discharge_l4(views(cl@)).is_some(),
        r matches Some(d) ==> spec_discharge_l4(views(cl@)) == Some(d@),
{
    match collect_constraints(cl) {
        Some(cs) => {
            if check_satisfiability(cs) == SatOutcome::Contradiction {
                Some(DischargeResult::Violated { counterexample: l4_message(cl) })
            } else {
                None
            }
        },
        None => None,
    }
}

/// Discharges a quantifier-free predicate at a declaration site: `L1`/`L2`
/// when every conjunct is a constant or a variable bound, `L4` on a linear
/// conjunction the interval layers leave open, else `Runtime`.
pub fn discharge_expr(e: &Tree) -> (r: DischargeResult)
    ensures
        r@ == spec_discharge_expr(e@),
{
    let mut cl: Vec<Tree> = Vec::new();
    flatten_and(e, &mut cl);
    let ghost v = views(cl@);
    assert(v =~= spec_flatten_and(e@));
    let mut bounds: Vec<(String, Interval)> = Vec::new();
    let mut saw_bound = false;
    let mut undecidable = false;
    let mut i: usize = 0;
    assert(bviews(bounds@) =~= Seq::<(Seq<char>, Interval)>::empty());
    while i < cl.len()
        invariant
            i <= cl.len(),
            v == views(cl@),
            v == spec_flatten_and(e@),
            scan_clauses(v.take(i as int)) == (ScanV::Go {
                bounds: bviews(bounds@),
                saw_bound,
                undecidable,
            }),
        decreases cl.len() - i,
    {
        proof {
            assert(v.take(i + 1).drop_last() =~= v.take(i as int));
            assert(v.take(i + 1).last() == v[i as int]);
        }
        match classify_clause(&cl[i]) {
            Clause::Constant(false) => {
                proof {
                    lemma_scan_stop_prefix(v, i as int + 1, v[i as int]);
                }
                return DischargeResult::Violated { counterexample: always_false_message(&cl[i]) };
            },
            Clause::Constant(true) => {},
            Clause::Bound { var, interval } => {
                saw_bound = true;
                add_bound(&mut bounds, var, interval);
            },
            Clause::Unknown => {
                undecidable = true;
            },
        }
        i = i + 1;
    }
    assert(v.take(cl.len() as int) =~= v);
    match find_first_empty(&bounds) {
        Some(k) => {
            proof {
                lemma_first_empty(bviews(bounds@));
            }
            let iv = bounds[k].1;
            return DischargeResult::Violated {
                counterexample: empty_bounds_message(&bounds[k].0, iv),
            };
        },
        None => {},
    }
    if !undecidable {
        return DischargeResult::Proven {
            layer: if saw_bound {
                Layer::L2
            } else {
                Layer::L1
            },
        };
    }
    match discharge_l4(&cl) {
        Some(r) => r,
        None => DischargeResult::Runtime,
    }
}

proof fn lemma_scan_stop_prefix(cl: Seq<TreeV>, n: int, c: TreeV)
    requires
        0 <= n <= cl.len(),
        scan_clauses(cl.take(n)) == ScanV::Stop(c),
    ensures
        scan_clauses(cl) == ScanV::Stop(c),
    decreases cl.len() - n,
{
    if n < cl.len() {
        assert(cl.take(n + 1).drop_last() =~= cl.take(n));
        lemma_scan_stop_prefix(cl, n + 1, c);
    } else {
        assert(cl.take(n) =~= cl);
    }
}

// ── Bounded quantifiers (`L3`) ─────────────────────────────────────────────
//
// `forall`/`exists x in [lo..hi]. body` is decided by expansion: the bound
// variable is replaced by each integer of the range, each instance is
// dispatched through the same backend, and the verdicts are aggregated.
// Every instance counts as `L3` whichever inner layer closed it.

/// A range wider than this many elements, or nested ranges whose product
/// is, are not expanded: the obligation is left to a runtime check.
pub const MAX_BOUNDED_EXPANSION: i64 = 1000;

pub open spec fn fits_i64(v: int) -> bool {
    i64::MIN <= v <= i64::MAX
}

/// Instances one quantifier of range `[lo, hi]` expands to, given what its
/// body expands to; `None` when an `i64` step overflows.
pub open spec fn width_times(lo: i64, hi: i64, inner: Option<int>) -> Option<int> {
    if !fits_i64(hi - lo) || !fits_i64(hi - lo + 1) {
        None
    } else {
        let w = if hi - lo + 1 < 0 {
            0
        } else {
            hi - lo + 1
        };
        match inner {
            Some(b) => if fits_i64(w * b) {
                Some(w * b)
            } else {
                None
            },
            None => None,
        }
    }
}

/// Total instances a predicate expands to: the product of its quantifier
/// widths, `1` for a quantifier-free one, `None` on `i64` overflow.
pub open spec fn spec_expansion_size(p: PredicateV) -> Option<int>
    decreases p,
{
    match p {
        PredicateV::Expr(_) => Some(1),
        PredicateV::Forall { var: _, lo, hi, body } => width_times(lo, hi, spec_expansion_size(*body)),
        PredicateV::Exists { var: _, lo, hi, body } => width_times(lo, hi, spec_expansion_size(*body)),
    }
}

/// Whether expanding `p` stays within [`MAX_BOUNDED_EXPANSION`] instances.
pub open spec fn spec_affordable(p: PredicateV) -> bool {
    match spec_expansion_size(p) {
        Some(n) => n <= MAX_BOUNDED_EXPANSION,
        None => false,
    }
}

pub open spec fn bracket(lo: i64, hi: i64) -> Seq<char> {
    spec_int_text(lo as int) + ".."@ + spec_int_text(hi as int)
}

pub open spec fn msg_forall_fails(var: Seq<char>, lo: i64, hi: i64, k: int, ce: Seq<char>) -> Seq<
    char,
> {
    "forall "@ + var + " in ["@ + bracket(lo, hi) + "]: fails at "@ + var + " = "@ + spec_int_text(k)
        + ": "@ + ce
}

pub open spec fn msg_empty_range(var: Seq<char>, lo: i64, hi: i64) -> Seq<char> {
    "the range ["@ + bracket(lo, hi) + "] for `"@ + var + "` is empty; no witness"@
}

pub open spec fn msg_no_witness(var: Seq<char>, lo: i64, hi: i64) -> Seq<char> {
    "no value of `"@ + var + "` in ["@ + bracket(lo, hi) + "] satisfies the existential"@
}

/// The verdict on `p`: coherence when `hyps` is `None`, entailment from
/// the hypotheses otherwise.
pub open spec fn spec_verdict(p: PredicateV, hyps: Option<Seq<TreeV>>) -> DischargeResultV
    decreases height(p), 1int, 0int,
{
    if !spec_affordable(p) {
        DischargeResultV::Runtime
    } else {
        match p {
            PredicateV::Expr(e) => match hyps {
                None => spec_discharge_expr(e),
                Some(h) => spec_entail_expr(h, e),
            },
            PredicateV::Forall { var, lo, hi, body } => if hi < lo {
                DischargeResultV::Proven { layer: Layer::L3 }
            } else if hi - lo + 1 > MAX_BOUNDED_EXPANSION {
                DischargeResultV::Runtime
            } else {
                forall_scan(var, lo, hi, *body, hyps, lo as int, false)
            },
            PredicateV::Exists { var, lo, hi, body } => if hi < lo {
                DischargeResultV::Violated { counterexample: msg_empty_range(var, lo, hi) }
            } else if hi - lo + 1 > MAX_BOUNDED_EXPANSION {
                DischargeResultV::Runtime
            } else {
                exists_scan(var, lo, hi, *body, hyps, lo as int, false)
            },
        }
    }
}

/// `forall` from instance `k` on: the first `Violated` instance decides,
/// else `Runtime` if any instance was, else `Proven` at `L3`.
pub open spec fn forall_scan(
    var: Seq<char>,
    lo: i64,
    hi: i64,
    body: PredicateV,
    hyps: Option<Seq<TreeV>>,
    k: int,
    any_runtime: bool,
) -> DischargeResultV
    decreases height(body) + 1, 0int, hi - k + 1,
{
    if k > hi {
        if any_runtime {
            DischargeResultV::Runtime
        } else {
            DischargeResultV::Proven { layer: Layer::L3 }
        }
    } else {
        proof {
            lemma_subst_height(body, var, k);
        }
        match spec_verdict(subst_pred(body, var, k), hyps) {
            DischargeResultV::Violated { counterexample } => DischargeResultV::Violated {
                counterexample: msg_forall_fails(var, lo, hi, k, counterexample),
            },
            DischargeResultV::Runtime => forall_scan(var, lo, hi, body, hyps, k + 1, true),
            DischargeResultV::Proven { .. } => forall_scan(var, lo, hi, body, hyps, k + 1, any_runtime),
        }
    }
}

/// `exists` from instance `k` on: the first `Proven` instance decides, else
/// `Runtime` if any instance was, else `Violated` (no witness).
pub open spec fn exists_scan(
    var: Seq<char>,
    lo: i64,
    hi: i64,
    body: PredicateV,
    hyps: Option<Seq<TreeV>>,
    k: int,
    any_runtime: bool,
) -> DischargeResultV
    decreases height(body) + 1, 0int, hi - k + 1,
{
    if k > hi {
        if any_runtime {
            DischargeResultV::Runtime
        } else {
            DischargeResultV::Violated { counterexample: msg_no_witness(var, lo, hi) }
        }
    } else {
        proof {
            lemma_subst_height(body, var, k);
        }
        match spec_verdict(subst_pred(body, var, k), hyps) {
            DischargeResultV::Proven { .. } => DischargeResultV::Proven { layer: Layer::L3 },
            DischargeResultV::Runtime => exists_scan(var, lo, hi, body, hyps, k + 1, true),
            DischargeResultV::Violated { .. } => exists_scan(var, lo, hi, body, hyps, k + 1, any_runtime),
        }
    }
}

fn expansion_size(p: &Predicate) -> (r: Option<i64>)
    ensures
        match r {
            Some(n) => spec_expansion_size(p@) == Some(n as int),
            None => spec_expansion_size(p@) is None,
        },
    decreases p, 0int,
{
    match p {
        Predicate::Expr(_) => Some(1),
        Predicate::Forall { var: _, lo, hi, body } => quantifier_size(*lo, *hi, &**body),
        Predicate::Exists { var: _, lo, hi, body } => quantifier_size(*lo, *hi, &**body),
    }
}

fn quantifier_size(lo: i64, hi: i64, body: &Predicate) -> (r: Option<i64>)
    ensures
        match r {
            Some(n) => width_times(lo, hi, spec_expansion_size(body@)) == Some(n as int),
            None => width_times(lo, hi, spec_expansion_size(body@)) is None,
        },
    decreases body, 1int,
{
    let span = match hi.checked_sub(lo) {
        Some(v) => v,
        None => {
            return None;
        },
    };
    let width = match span.checked_add(1) {
        Some(v) => v,
        None => {
            return None;
        },
    };
    let width = if width < 0 {
        0
    } else {
        width
    };
    match expansion_size(body) {
        Some(inner) => width.checked_mul(inner),
        None => None,
    }
}

fn is_affordable(p: &Predicate) -> (r: bool)
    ensures
        r == spec_affordable(p@),
{
    match expansion_size(p) {
        Some(n) => n <= MAX_BOUNDED_EXPANSION,
        None => false,
    }
}

fn bracket_into(lo: i64, hi: i64, out: &mut String)
    ensures
        final(out)@ == old(out)@ + bracket(lo, hi),
{
    int_text_into(lo as i128, out);
    push_str(out, "..");
    int_text_into(hi as i128, out);
    proof {
        assert(out@ =~= old(out)@ + bracket(lo, hi));
    }
}

fn forall_fails_message(var: &String, lo: i64, hi: i64, k: i64, ce: &String) -> (r: String)
    ensures
        r@ == msg_forall_fails(var@, lo, hi, k as int, ce@),
{
    let mut out = String::new();
    push_str(&mut out, "forall ");
    push_str(&mut out, var.as_str());
    push_str(&mut out, " in [");
    bracket_into(lo, hi, &mut out);
    push_str(&mut out, "]: fails at ");
    push_str(&mut out, var.as_str());
    push_str(&mut out, " = ");
    int_text_into(k as i128, &mut out);
    push_str(&mut out, ": ");
    push_str(&mut out, ce.as_str());
    proof {
        assert(out@ =~= msg_forall_fails(var@, lo, hi, k as int, ce@));
    }
    out
}

fn empty_range_message(var: &String, lo: i64, hi: i64) -> (r: String)
    ensures
        r@ == msg_empty_range(var@, lo, hi),
{
    let mut out = String::new();
    push_str(&mut out, "the range [");
    bracket_into(lo, hi, &mut out);
    push_str(&mut out, "] for `");
    push_str(&mut out, var.as_str());
    push_str(&mut out, "` is empty; no witness");
    proof {
        assert(out@ =~= msg_empty_range(var@, lo, hi));
    }
    out
}

fn no_witness_message(var: &String, lo: i64, hi: i64) -> (r: String)
    ensures
        r@ == msg_no_witness(var@, lo, hi),
{
    let mut out = String::new();
    push_str(&mut out, "no value of `");
    push_str(&mut out, var.as_str());
    push_str(&mut out, "` in [");
    bracket_into(lo, hi, &mut out);
    push_str(&mut out, "] satisfies the existential");
    proof {
        assert(out@ =~= msg_no_witness(var@, lo, hi));
    }
    out
}

pub open spec fn hyps_view(hyps: Option<&[Tree]>) -> Option<Seq<TreeV>> {
    match hyps {
        Some(h) => Some(views(h@)),
        None => None,
    }
}

fn forall_instances(
    var: &String,
    lo: i64,
    hi: i64,
    body: &Predicate,
    hyps: Option<&[Tree]>,
) -> (r: DischargeResult)
    requires
        lo <= hi,
    ensures
        r@ == forall_scan(var@, lo, hi, body@, hyps_view(hyps), lo as int, false),
    decreases height(body@) + 1, 0int,
{
    let ghost hv = hyps_view(hyps);
    let mut any_runtime = false;
    let mut k: i64 = lo;
    loop
        invariant
            lo <= k <= hi,
            hv == hyps_view(hyps),
            forall_scan(var@, lo, hi, body@, hv, lo as int, false) == forall_scan(
                var@,
                lo,
                hi,
                body@,
                hv,
                k as int,
                any_runtime,
            ),
        decreases hi - k,
    {
        let instance = substitute(body, var, k);
        proof {
            lemma_subst_height(body@, var@, k as int);
        }
        let ghost before = any_runtime;
        let verdict = discharge_with(&instance, hyps);
        proof {
            assert(verdict@ == spec_verdict(subst_pred(body@, var@, k as int), hv));
            if !(verdict is Violated) {
                assert(forall_scan(var@, lo, hi, body@, hv, k as int, before) == forall_scan(
                    var@,
                    lo,
                    hi,
                    body@,
                    hv,
                    k + 1,
                    before || (verdict is Runtime),
                ));
            }
        }
        match verdict {
            DischargeResult::Violated { counterexample } => {
                return DischargeResult::Violated {
                    counterexample: forall_fails_message(var, lo, hi, k, &counterexample),
                };
            },
            DischargeResult::Runtime => {
                any_runtime = true;
            },
            DischargeResult::Proven { .. } => {},
        }
        if k == hi {
            return if any_runtime {
                DischargeResult::Runtime
            } else {
                DischargeResult::Proven { layer: Layer::L3 }
            };
        }
        k = k + 1;
    }
}

fn exists_instances(
    var: &String,
    lo: i64,
    hi: i64,
    body: &Predicate,
    hyps: Option<&[Tree]>,
) -> (r: DischargeResult)
    requires
        lo <= hi,
    ensures
        r@ == exists_scan(var@, lo, hi, body@, hyps_view(hyps), lo as int, false),
    decreases height(body@) + 1, 0int,
{
    let ghost hv = hyps_view(hyps);
    let mut any_runtime = false;
    let mut k: i64 = lo;
    loop
        invariant
            lo <= k <= hi,
            hv == hyps_view(hyps),
            exists_scan(var@, lo, hi, body@, hv, lo as int, false) == exists_scan(
                var@,
                lo,
                hi,
                body@,
                hv,
                k as int,
                any_runtime,
            ),
        decreases hi - k,
    {
        let instance = substitute(body, var, k);
        proof {
            lemma_subst_height(body@, var@, k as int);
        }
        let ghost before = any_runtime;
        let verdict = discharge_with(&instance, hyps);
        proof {
            assert(verdict@ == spec_verdict(subst_pred(body@, var@, k as int), hv));
            if !(verdict is Proven) {
                assert(exists_scan(var@, lo, hi, body@, hv, k as int, before) == exists_scan(
                    var@,
                    lo,
                    hi,
                    body@,
                    hv,
                    k + 1,
                    before || (verdict is Runtime),
                ));
            }
        }
        match verdict {
            DischargeResult::Proven { .. } => {
                return DischargeResult::Proven { layer: Layer::L3 };
            },
            DischargeResult::Runtime => {
                any_runtime = true;
            },
            DischargeResult::Violated { .. } => {},
        }
        if k == hi {
            return if any_runtime {
                DischargeResult::Runtime
            } else {
                DischargeResult::Violated { counterexample: no_witness_message(var, lo, hi) }
            };
        }
        k = k + 1;
    }
}

fn discharge_with(p: &Predicate, hyps: Option<&[Tree]>) -> (r: DischargeResult)
    ensures
        r@ == spec_verdict(p@, hyps_view(hyps)),
    decreases height(p@), 1int,
{
    if !is_affordable(p) {
        return DischargeResult::Runtime;
    }
    match p {
        Predicate::Expr(e) => match hyps {
            None => discharge_expr(e),
            Some(h) => entail_expr(h, e),
        },
        Predicate::Forall { var, lo, hi, body } => {
            if *hi < *lo {
                DischargeResult::Proven { layer: Layer::L3 }
            } else if (*hi as i128) - (*lo as i128) + 1 > MAX_BOUNDED_EXPANSION as i128 {
                DischargeResult::Runtime
            } else {
                forall_instances(var, *lo, *hi, &**body, hyps)
            }
        },
        Predicate::Exists { var, lo, hi, body } => {
            if *hi < *lo {
                DischargeResult::Violated { counterexample: empty_range_message(var, *lo, *hi) }
            } else if (*hi as i128) - (*lo as i128) + 1 > MAX_BOUNDED_EXPANSION as i128 {
                DischargeResult::Runtime
            } else {
                exists_instances(var, *lo, *hi, &**body, hyps)
            }
        },
    }
}

/// The coherence verdict on a predicate (the declaration-site question).
pub open spec fn spec_discharge_predicate(p: PredicateV) -> DischargeResultV {
    spec_verdict(p, None)
}

/// The entailment verdict `hyps ⊢ goal` (the call-site question).
pub open spec fn spec_discharge_entailment(hyps: Seq<TreeV>, goal: PredicateV) -> DischargeResultV {
    spec_verdict(goal, Some(hyps))
}

/// Discharges a predicate at a declaration site: is it coherent? A plain
/// expression goes through `L1`/`L2`/`L4`; a bounded quantifier is
/// expanded (`L3`), each instance decided the same way; a predicate whose
/// expansion exceeds [`MAX_BOUNDED_EXPANSION`] instances is left to a
/// runtime check.
pub fn discharge_predicate(p: &Predicate) -> (r: DischargeResult)
    ensures
        r@ == spec_discharge_predicate(p@),
{
    discharge_with(p, None)
}

/// Discharges `hypotheses ⊢ goal` at a call site: whether the goal follows
/// from everything the hypotheses establish. Each hypothesis is split
/// into its `&&`-conjuncts independently.
pub fn discharge_entailment(hypotheses: &[Tree], goal: &Predicate) -> (r: DischargeResult)
    ensures
        r@ == spec_discharge_entailment(views(hypotheses@), goal@),
{
    discharge_with(goal, Some(hypotheses))
}

/// The native `L1`–`L4` obligation dispatcher. It holds no state: every
/// obligation is analysed on its own predicate text.
pub struct NativeBackend;

impl SolverBackend for NativeBackend {
    /// The verdict on an obligation: its predicate text read back and
    /// checked for coherence; text that is not a predicate is left to a
    /// runtime check.
    fn discharge(&self, obligation: &Obligation) -> (r: DischargeResult)
        ensures
            r@ == match spec_parse_predicate(obligation.predicate@) {
                Some(p) => spec_discharge_predicate(p),
                None => DischargeResultV::Runtime,
            },
    {
        match Predicate::parse(obligation.predicate.as_str()) {
            Some(p) => discharge_predicate(&p),
            None => DischargeResult::Runtime,
        }
    }
}

} // verus!
