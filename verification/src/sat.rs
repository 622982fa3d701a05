//! `L4`: linear constraints extracted from comparisons, and their
//! satisfiability by a divisibility check plus Fourier–Motzkin elimination.

use vstd::prelude::*;

use crate::clause::fits_i128;
use crate::expr::{Tree, TreeV, Literal, LiteralV, BinaryOp, BinaryOpV, UnaryOp, UnaryOpV};
use crate::order::{
    seq_lt, sorted_names, str_lt, lemma_lt_total, lemma_lt_transitive, lemma_sorted_unique,
};
use crate::linear::{LinTerm, LinTermV, sum_vars};

verus! {

/// A linear constraint `term ≤ 0` or `term = 0`.
#[derive(Debug, Clone)]
pub enum Constraint {
    Le(LinTerm),
    Eq(LinTerm),
}

pub enum ConstraintV {
    Le(LinTermV),
    Eq(LinTermV),
}

impl View for Constraint {
    type V = ConstraintV;

    open spec fn view(&self) -> ConstraintV {
        match self {
            Constraint::Le(t) => ConstraintV::Le(t@),
            Constraint::Eq(t) => ConstraintV::Eq(t@),
        }
    }
}

impl ConstraintV {
    pub open spec fn term(self) -> LinTermV {
        match self {
            ConstraintV::Le(t) => t,
            ConstraintV::Eq(t) => t,
        }
    }

    pub open spec fn wf(self) -> bool {
        self.term().wf()
    }

    /// Whether the constraint holds when each variable `v` is `sigma(v)`.
    pub open spec fn holds(self, sigma: spec_fn(Seq<char>) -> int) -> bool {
        match self {
            ConstraintV::Le(t) => t.eval(sigma) <= 0,
            ConstraintV::Eq(t) => t.eval(sigma) == 0,
        }
    }

    pub open spec fn trivially_false(self) -> bool {
        match self {
            ConstraintV::Le(t) => t.spec_is_constant() && t.constant > 0,
            ConstraintV::Eq(t) => t.spec_is_constant() && t.constant != 0,
        }
    }

    pub open spec fn trivially_true(self) -> bool {
        match self {
            ConstraintV::Le(t) => t.spec_is_constant() && t.constant <= 0,
            ConstraintV::Eq(t) => t.spec_is_constant() && t.constant == 0,
        }
    }
}

pub open spec fn cviews(s: Seq<Constraint>) -> Seq<ConstraintV> {
    s.map_values(|c: Constraint| c@)
}

pub open spec fn all_wf(s: Seq<ConstraintV>) -> bool {
    forall|i: int| 0 <= i < s.len() ==> (#[trigger] s[i]).wf()
}

pub open spec fn all_hold(s: Seq<ConstraintV>, sigma: spec_fn(Seq<char>) -> int) -> bool {
    forall|i: int| 0 <= i < s.len() ==> (#[trigger] s[i]).holds(sigma)
}

impl Constraint {
    pub fn duplicate(&self) -> (r: Constraint)
        ensures
            r@ == self@,
    {
        match self {
            Constraint::Le(t) => Constraint::Le(t.duplicate()),
            Constraint::Eq(t) => Constraint::Eq(t.duplicate()),
        }
    }

    pub fn is_trivially_false(&self) -> (r: bool)
        ensures
            r == self@.trivially_false(),
    {
        match self {
            Constraint::Le(t) => t.is_constant() && t.constant > 0,
            Constraint::Eq(t) => t.is_constant() && t.constant != 0,
        }
    }

    pub fn is_trivially_true(&self) -> (r: bool)
        ensures
            r == self@.trivially_true(),
    {
        match self {
            Constraint::Le(t) => t.is_constant() && t.constant <= 0,
            Constraint::Eq(t) => t.is_constant() && t.constant == 0,
        }
    }
}

// ── From expressions to constraints ────────────────────────────────────────

/// The linear term an expression denotes: integer literals, bare
/// identifiers, `-`, `+`, `-` and multiplication by a constant, through
/// grouping. `None` outside that fragment or on `i128` overflow.
pub open spec fn spec_linterm(e: TreeV) -> Option<LinTermV>
    decreases e,
{
    match e {
        TreeV::Literal(LiteralV::Int { value: Some(v), text: _ }) => Some(
            LinTermV::constant_term(v as int),
        ),
        TreeV::Ident(n) => Some(LinTermV::var_term(n)),
        TreeV::Unary(UnaryOpV::Neg, x) => match spec_linterm(*x) {
            Some(t) => t.spec_negate(),
            None => None,
        },
        TreeV::Paren(x) => spec_linterm(*x),
        TreeV::Group(x) => spec_linterm(*x),
        TreeV::Binary(op, l, r) => match (spec_linterm(*l), spec_linterm(*r)) {
            (Some(a), Some(b)) => match op {
                BinaryOpV::Add => a.spec_add(b),
                BinaryOpV::Sub => a.spec_sub(b),
                BinaryOpV::Mul => if a.spec_is_constant() {
                    b.spec_scale(a.constant)
                } else if b.spec_is_constant() {
                    a.spec_scale(b.constant)
                } else {
                    None
                },
                _ => None,
            },
            _ => None,
        },
        _ => None,
    }
}

pub fn linterm_from_expr(e: &Tree) -> (r: Option<LinTerm>)
    ensures
        r.is_some() == spec_linterm(e@).is_some(),
        r matches Some(t) ==> spec_linterm(e@) == Some(t@),
    decreases e,
{
    match e {
        Tree::Literal(Literal::Int { value: Some(v), text: _ }) => Some(LinTerm::constant(*v)),
        Tree::Ident(n) => Some(LinTerm::var(n.clone())),
        Tree::Unary(UnaryOp::Neg, x) => match linterm_from_expr(&**x) {
            Some(t) => t.negate(),
            None => None,
        },
        Tree::Paren(x) => linterm_from_expr(&**x),
        Tree::Group(x) => linterm_from_expr(&**x),
        Tree::Binary(op, l, r) => {
            let a = match linterm_from_expr(&**l) {
                Some(a) => a,
                None => {
                    return None;
                },
            };
            let b = match linterm_from_expr(&**r) {
                Some(b) => b,
                None => {
                    return None;
                },
            };
            match op {
                BinaryOp::Add => a.add(&b),
                BinaryOp::Sub => a.sub(&b),
                BinaryOp::Mul => if a.is_constant() {
                    b.scale(a.constant)
                } else if b.is_constant() {
                    a.scale(b.constant)
                } else {
                    None
                },
                _ => None,
            }
        },
        _ => None,
    }
}

/// `term OP 0` as constraints, strict bounds tightened over the integers
/// (`t < 0` ⟺ `t + 1 ≤ 0`); `None` for `!=` and non-comparisons.
pub open spec fn spec_cmp_to_constraints(op: BinaryOpV, t: LinTermV) -> Option<Seq<ConstraintV>> {
    match op {
        BinaryOpV::Le => Some(seq![ConstraintV::Le(t)]),
        BinaryOpV::Lt => match t.spec_plus_one() {
            Some(u) => Some(seq![ConstraintV::Le(u)]),
            None => None,
        },
        BinaryOpV::Ge => match t.spec_negate() {
            Some(u) => Some(seq![ConstraintV::Le(u)]),
            None => None,
        },
        BinaryOpV::Gt => match t.spec_negate() {
            Some(u) => match u.spec_plus_one() {
                Some(w) => Some(seq![ConstraintV::Le(w)]),
                None => None,
            },
            None => None,
        },
        BinaryOpV::Eq => Some(seq![ConstraintV::Eq(t)]),
        _ => None,
    }
}

fn single(c: Constraint) -> (v: Vec<Constraint>)
    ensures
        cviews(v@) == seq![c@],
{
    let mut v = Vec::new();
    v.push(c);
    assert(cviews(v@) =~= seq![c@]);
    v
}

fn cmp_to_constraints(op: &BinaryOp, t: LinTerm) -> (r: Option<Vec<Constraint>>)
    ensures
        r.is_some() == spec_cmp_to_constraints(op@, t@).is_some(),
        r matches Some(v) ==> spec_cmp_to_constraints(op@, t@) == Some(cviews(v@)),
{
    match op {
        BinaryOp::Le => Some(single(Constraint::Le(t))),
        BinaryOp::Lt => match t.plus_one() {
            Some(u) => Some(single(Constraint::Le(u))),
            None => None,
        },
        BinaryOp::Ge => match t.negate() {
            Some(u) => Some(single(Constraint::Le(u))),
            None => None,
        },
        BinaryOp::Gt => match t.negate() {
            Some(u) => match u.plus_one() {
                Some(w) => Some(single(Constraint::Le(w))),
                None => None,
            },
            None => None,
        },
        BinaryOp::Eq => Some(single(Constraint::Eq(t))),
        _ => None,
    }
}

/// The constraints one `&&`-conjunct denotes; `None` outside the linear
/// fragment.
pub open spec fn spec_constraints_from_clause(e: TreeV) -> Option<Seq<ConstraintV>>
    decreases e,
{
    match e {
        TreeV::Literal(LiteralV::Bool(b)) => if b {
            Some(Seq::empty())
        } else {
            Some(seq![ConstraintV::Le(LinTermV::constant_term(1))])
        },
        TreeV::Paren(x) => spec_constraints_from_clause(*x),
        TreeV::Group(x) => spec_constraints_from_clause(*x),
        TreeV::Binary(op, l, r) => match (spec_linterm(*l), spec_linterm(*r)) {
            (Some(a), Some(b)) => match a.spec_sub(b) {
                Some(d) => spec_cmp_to_constraints(op, d),
                None => None,
            },
            _ => None,
        },
        _ => None,
    }
}

pub fn constraints_from_clause(e: &Tree) -> (r: Option<Vec<Constraint>>)
    ensures
        r.is_some() == spec_constraints_from_clause(e@).is_some(),
        r matches Some(v) ==> spec_constraints_from_clause(e@) == Some(cviews(v@)),
    decreases e,
{
    match e {
        Tree::Literal(Literal::Bool(b)) => {
            let mut v = Vec::new();
            if !*b {
                v.push(Constraint::Le(LinTerm::constant(1)));
                assert(cviews(v@) =~= seq![ConstraintV::Le(LinTermV::constant_term(1))]);
            } else {
                assert(cviews(v@) =~= Seq::<ConstraintV>::empty());
            }
            Some(v)
        },
        Tree::Paren(x) => constraints_from_clause(&**x),
        Tree::Group(x) => constraints_from_clause(&**x),
        Tree::Binary(op, l, r) => {
            let a = match linterm_from_expr(&**l) {
                Some(a) => a,
                None => {
                    return None;
                },
            };
            let b = match linterm_from_expr(&**r) {
                Some(b) => b,
                None => {
                    return None;
                },
            };
            match a.sub(&b) {
                Some(d) => cmp_to_constraints(op, d),
                None => None,
            }
        },
        _ => None,
    }
}

/// Each `Eq(t)` preceded by the two inequalities it implies (`t ≤ 0`,
/// `-t ≤ 0`) so elimination can use it; `-t` is left out when it would
/// leave `i128`.
pub open spec fn spec_with_equality_bounds(cs: Seq<ConstraintV>) -> Seq<ConstraintV>
    decreases cs.len(),
{
    if cs.len() == 0 {
        Seq::empty()
    } else {
        let prev = spec_with_equality_bounds(cs.drop_last());
        let c = cs.last();
        match c {
            ConstraintV::Eq(t) => match t.spec_negate() {
                Some(n) => prev.push(ConstraintV::Le(t)).push(ConstraintV::Le(n)).push(c),
                None => prev.push(ConstraintV::Le(t)).push(c),
            },
            ConstraintV::Le(_) => prev.push(c),
        }
    }
}

/// How many of the constraints are equalities.
pub open spec fn eq_count(cs: Seq<ConstraintV>) -> nat
    decreases cs.len(),
{
    if cs.len() == 0 {
        0
    } else {
        eq_count(cs.drop_last()) + if cs.last() is Eq {
            1nat
        } else {
            0nat
        }
    }
}

/// When every equality can be negated within `i128`, each of them gains
/// exactly two inequalities and nothing else is added or lost.
pub proof fn lemma_equality_bounds_len(cs: Seq<ConstraintV>)
    requires
        forall|i: int| 0 <= i < cs.len() ==> (#[trigger] cs[i] matches ConstraintV::Eq(t)
            ==> t.spec_negate() is Some),
    ensures
        spec_with_equality_bounds(cs).len() == cs.len() + 2 * eq_count(cs),
    decreases cs.len(),
{
    if cs.len() > 0 {
        let prev = cs.drop_last();
        assert forall|i: int| 0 <= i < prev.len() implies (#[trigger] prev[i] matches ConstraintV::Eq(t)
            ==> t.spec_negate() is Some) by {
            assert(prev[i] == cs[i]);
        }
        lemma_equality_bounds_len(prev);
        assert(cs.last() == cs[cs.len() - 1]);
    }
}

/// The constraints in order, each equality `t = 0` preceded by `t ≤ 0` and
/// `-t ≤ 0`. When negating `t` would leave `i128` (a coefficient or the
/// constant is `i128::MIN`), the second bound is left out: the system is
/// then weaker, but every constraint in it still follows from the
/// originals, so a contradiction found in it is still real.
pub fn with_equality_bounds(cs: Vec<Constraint>) -> (r: Vec<Constraint>)
    ensures
        cviews(r@) == spec_with_equality_bounds(cviews(cs@)),
{
    let ghost s = cviews(cs@);
    let mut out: Vec<Constraint> = Vec::new();
    let mut i: usize = 0;
    while i < cs.len()
        invariant
            i <= cs.len(),
            s == cviews(cs@),
            cviews(out@) == spec_with_equality_bounds(s.take(i as int)),
        decreases cs.len() - i,
    {
        proof {
            assert(s.take(i + 1).drop_last() =~= s.take(i as int));
            assert(s.take(i + 1).last() == s[i as int]);
        }
        let ghost before = cviews(out@);
        match &cs[i] {
            Constraint::Eq(t) => {
                out.push(Constraint::Le(t.duplicate()));
                match t.negate() {
                    Some(n) => {
                        out.push(Constraint::Le(n));
                    },
                    None => {},
                }
                out.push(Constraint::Eq(t.duplicate()));
            },
            Constraint::Le(t) => {
                out.push(Constraint::Le(t.duplicate()));
            },
        }
        assert(cviews(out@) =~= spec_with_equality_bounds(s.take(i + 1)));
        i = i + 1;
    }
    assert(s.take(cs.len() as int) =~= s);
    out
}

// ── Satisfiability ─────────────────────────────────────────────────────────

/// Outcome of a satisfiability question about a constraint system.
#[derive(Debug, Clone, Copy, PartialEq, Eq, Structural)]
pub enum SatOutcome {
    /// Proven contradictory: no integer assignment satisfies every constraint.
    Contradiction,
    /// Elimination finished without a contradiction: satisfiable over the
    /// rationals, which says nothing definite about the integers.
    SatisfiableOverRationals,
    /// A complexity guard (or an `i128` overflow) stopped the elimination.
    Unknown,
}

/// `(coefficient, rest)` pairs: `coefficient·x + rest ≤ 0`.
pub type Bound = (int, LinTermV);

/// Splits `term ≤ 0` constraints by the sign of `x`'s coefficient: those
/// without `x` pass through; positive ones are upper bounds and negative ones
/// lower bounds (stored with the coefficient's magnitude and `x` removed).
/// `None` when a magnitude leaves `i128`.
pub open spec fn spec_partition(cs: Seq<LinTermV>, x: Seq<char>) -> Option<
    (Seq<LinTermV>, Seq<Bound>, Seq<Bound>),
>
    decreases cs.len(),
{
    if cs.len() == 0 {
        Some((Seq::empty(), Seq::empty(), Seq::empty()))
    } else {
        match spec_partition(cs.drop_last(), x) {
            Some((pass, ups, lows)) => {
                let t = cs.last();
                let c = t.spec_coeff(x);
                if c == 0 {
                    Some((pass.push(t), ups, lows))
                } else if c > 0 {
                    Some((pass, ups.push((c, t.spec_without_var(x))), lows))
                } else if fits_i128(-c) {
                    Some((pass, ups, lows.push((-c, t.spec_without_var(x)))))
                } else {
                    None
                }
            },
            None => None,
        }
    }
}

pub open spec fn abs(v: int) -> int {
    if v < 0 { -v } else { v }
}

/// `b·r + a·s`: eliminates `x` from `a·x + r ≤ 0` and `-b·x + s ≤ 0`.
pub open spec fn spec_combine(u: Bound, l: Bound) -> Option<LinTermV> {
    match (u.1.spec_scale(l.0), l.1.spec_scale(u.0)) {
        (Some(p), Some(q)) => p.spec_add(q),
        _ => None,
    }
}

/// Pairs one upper bound with each lower bound in turn, appending to `acc`;
/// `None` when a guard fires (a coefficient above one million, more than
/// 128 constraints, or an overflow).
pub open spec fn spec_pair_with(u: Bound, lows: Seq<Bound>, acc: Seq<LinTermV>) -> Option<
    Seq<LinTermV>,
>
    decreases lows.len(),
{
    if lows.len() == 0 {
        Some(acc)
    } else {
        match spec_pair_with(u, lows.drop_last(), acc) {
            Some(a1) => {
                let l = lows.last();
                if abs(u.0) > 1_000_000 || abs(l.0) > 1_000_000 {
                    None
                } else {
                    match spec_combine(u, l) {
                        Some(t) => if a1.len() + 1 > 128 {
                            None
                        } else {
                            Some(a1.push(t))
                        },
                        None => None,
                    }
                }
            },
            None => None,
        }
    }
}

pub open spec fn spec_pair_all(ups: Seq<Bound>, lows: Seq<Bound>, acc: Seq<LinTermV>) -> Option<
    Seq<LinTermV>,
>
    decreases ups.len(),
{
    if ups.len() == 0 {
        Some(acc)
    } else {
        match spec_pair_all(ups.drop_last(), lows, acc) {
            Some(a1) => spec_pair_with(ups.last(), lows, a1),
            None => None,
        }
    }
}

pub open spec fn has_positive_constant(cs: Seq<LinTermV>) -> bool {
    exists|i: int| 0 <= i < cs.len() && (#[trigger] cs[i]).spec_is_constant() && cs[i].constant > 0
}

/// Fourier–Motzkin elimination of `vars`, in order, from `term ≤ 0`
/// constraints.
pub open spec fn spec_fm(cs: Seq<LinTermV>, vars: Seq<Seq<char>>) -> SatOutcome
    decreases vars.len(),
{
    if has_positive_constant(cs) {
        SatOutcome::Contradiction
    } else if vars.len() == 0 {
        SatOutcome::SatisfiableOverRationals
    } else {
        match spec_partition(cs, vars[0]) {
            Some((pass, ups, lows)) => match spec_pair_all(ups, lows, pass) {
                Some(next) => spec_fm(next, vars.drop_first()),
                None => SatOutcome::Unknown,
            },
            None => SatOutcome::Unknown,
        }
    }
}

pub open spec fn lviews(s: Seq<LinTerm>) -> Seq<LinTermV> {
    s.map_values(|t: LinTerm| t@)
}

pub open spec fn bviews(s: Seq<(i128, LinTerm)>) -> Seq<Bound> {
    s.map_values(|p: (i128, LinTerm)| (p.0 as int, p.1@))
}

pub open spec fn names(s: Seq<String>) -> Seq<Seq<char>> {
    s.map_values(|n: String| n@)
}

fn has_positive_constant_exec(cs: &Vec<LinTerm>) -> (r: bool)
    ensures
        r == has_positive_constant(lviews(cs@)),
{
    let ghost s = lviews(cs@);
    let mut i: usize = 0;
    while i < cs.len()
        invariant
            i <= cs.len(),
            s == lviews(cs@),
            forall|j: int| 0 <= j < i ==> !((#[trigger] s[j]).spec_is_constant() && s[j].constant > 0),
        decreases cs.len() - i,
    {
        if cs[i].is_constant() && cs[i].constant > 0 {
            assert(s[i as int].spec_is_constant() && s[i as int].constant > 0);
            return true;
        }
        i = i + 1;
    }
    false
}

proof fn lemma_partition_none_prefix(cs: Seq<LinTermV>, x: Seq<char>, n: int)
    requires
        0 <= n <= cs.len(),
        spec_partition(cs.take(n), x) is None,
    ensures
        spec_partition(cs, x) is None,
    decreases cs.len() - n,
{
    if n < cs.len() {
        assert(cs.take(n + 1).drop_last() =~= cs.take(n));
        lemma_partition_none_prefix(cs, x, n + 1);
    } else {
        assert(cs.take(n) =~= cs);
    }
}

fn partition(cs: &Vec<LinTerm>, x: &String) -> (r: Option<(Vec<LinTerm>, Vec<(i128, LinTerm)>, Vec<(i128, LinTerm)>)>)
    ensures
        r.is_some() == spec_partition(lviews(cs@), x@).is_some(),
        r matches Some((p, u, l)) ==> spec_partition(lviews(cs@), x@) == Some(
            (lviews(p@), bviews(u@), bviews(l@)),
        ),
{
    let ghost s = lviews(cs@);
    let mut pass: Vec<LinTerm> = Vec::new();
    let mut ups: Vec<(i128, LinTerm)> = Vec::new();
    let mut lows: Vec<(i128, LinTerm)> = Vec::new();
    let mut i: usize = 0;
    assert(lviews(pass@) =~= Seq::<LinTermV>::empty());
    assert(bviews(ups@) =~= Seq::<Bound>::empty());
    assert(bviews(lows@) =~= Seq::<Bound>::empty());
    while i < cs.len()
        invariant
            i <= cs.len(),
            s == lviews(cs@),
            spec_partition(s.take(i as int), x@) == Some(
                (lviews(pass@), bviews(ups@), bviews(lows@)),
            ),
        decreases cs.len() - i,
    {
        proof {
            assert(s.take(i + 1).drop_last() =~= s.take(i as int));
            assert(s.take(i + 1).last() == s[i as int]);
        }
        let t = &cs[i];
        let c = t.coeff_of(x);
        let ghost p0 = lviews(pass@);
        let ghost u0 = bviews(ups@);
        let ghost l0 = bviews(lows@);
        if c == 0 {
            pass.push(t.duplicate());
            assert(lviews(pass@) =~= p0.push(s[i as int]));
        } else if c > 0 {
            ups.push((c, t.without_var(x)));
            assert(bviews(ups@) =~= u0.push((c as int, s[i as int].spec_without_var(x@))));
        } else if c == i128::MIN {
            proof {
                lemma_partition_none_prefix(s, x@, i + 1);
            }
            return None;
        } else {
            lows.push((-c, t.without_var(x)));
            assert(bviews(lows@) =~= l0.push((-c as int, s[i as int].spec_without_var(x@))));
        }
        i = i + 1;
    }
    assert(s.take(cs.len() as int) =~= s);
    Some((pass, ups, lows))
}

fn abs_exceeds_million(v: i128) -> (r: bool)
    ensures
        r == (abs(v as int) > 1_000_000),
{
    v > 1_000_000 || v < -1_000_000
}

fn combine(u: &(i128, LinTerm), l: &(i128, LinTerm)) -> (r: Option<LinTerm>)
    ensures
        r.is_some() == spec_combine((u.0 as int, u.1@), (l.0 as int, l.1@)).is_some(),
        r matches Some(t) ==> spec_combine((u.0 as int, u.1@), (l.0 as int, l.1@)) == Some(t@),
{
    let p = match u.1.scale(l.0) {
        Some(p) => p,
        None => {
            return None;
        },
    };
    let q = match l.1.scale(u.0) {
        Some(q) => q,
        None => {
            return None;
        },
    };
    p.add(&q)
}

proof fn lemma_pair_with_none_prefix(u: Bound, lows: Seq<Bound>, acc: Seq<LinTermV>, n: int)
    requires
        0 <= n <= lows.len(),
        spec_pair_with(u, lows.take(n), acc) is None,
    ensures
        spec_pair_with(u, lows, acc) is None,
    decreases lows.len() - n,
{
    if n < lows.len() {
        assert(lows.take(n + 1).drop_last() =~= lows.take(n));
        lemma_pair_with_none_prefix(u, lows, acc, n + 1);
    } else {
        assert(lows.take(n) =~= lows);
    }
}

proof fn lemma_pair_all_none_prefix(ups: Seq<Bound>, lows: Seq<Bound>, acc: Seq<LinTermV>, n: int)
    requires
        0 <= n <= ups.len(),
        spec_pair_all(ups.take(n), lows, acc) is None,
    ensures
        spec_pair_all(ups, lows, acc) is None,
    decreases ups.len() - n,
{
    if n < ups.len() {
        assert(ups.take(n + 1).drop_last() =~= ups.take(n));
        lemma_pair_all_none_prefix(ups, lows, acc, n + 1);
    } else {
        assert(ups.take(n) =~= ups);
    }
}

fn pair_with(u: &(i128, LinTerm), lows: &Vec<(i128, LinTerm)>, acc: &mut Vec<LinTerm>) -> (ok: bool)
    ensures
        ok == spec_pair_with((u.0 as int, u.1@), bviews(lows@), lviews(old(acc)@)).is_some(),
        ok ==> spec_pair_with((u.0 as int, u.1@), bviews(lows@), lviews(old(acc)@)) == Some(
            lviews(final(acc)@),
        ),
{
    let ghost ub = (u.0 as int, u.1@);
    let ghost ls = bviews(lows@);
    let ghost a0 = lviews(acc@);
    let mut j: usize = 0;
    while j < lows.len()
        invariant
            j <= lows.len(),
            ub == (u.0 as int, u.1@),
            ls == bviews(lows@),
            a0 == lviews(old(acc)@),
            spec_pair_with(ub, ls.take(j as int), a0) == Some(lviews(acc@)),
        decreases lows.len() - j,
    {
        proof {
            assert(ls.take(j + 1).drop_last() =~= ls.take(j as int));
            assert(ls.take(j + 1).last() == ls[j as int]);
        }
        if abs_exceeds_million(u.0) || abs_exceeds_million(lows[j].0) {
            proof {
                lemma_pair_with_none_prefix(ub, ls, a0, j + 1);
            }
            return false;
        }
        match combine(u, &lows[j]) {
            None => {
                proof {
                    lemma_pair_with_none_prefix(ub, ls, a0, j + 1);
                }
                return false;
            },
            Some(t) => {
                if acc.len() >= 128 {
                    proof {
                        lemma_pair_with_none_prefix(ub, ls, a0, j + 1);
                    }
                    return false;
                }
                let ghost before = lviews(acc@);
                acc.push(t);
                assert(lviews(acc@) =~= before.push(t@));
            },
        }
        j = j + 1;
    }
    assert(ls.take(lows.len() as int) =~= ls);
    true
}

fn pair_all(ups: &Vec<(i128, LinTerm)>, lows: &Vec<(i128, LinTerm)>, acc: &mut Vec<LinTerm>) -> (ok: bool)
    ensures
        ok == spec_pair_all(bviews(ups@), bviews(lows@), lviews(old(acc)@)).is_some(),
        ok ==> spec_pair_all(bviews(ups@), bviews(lows@), lviews(old(acc)@)) == Some(
            lviews(final(acc)@),
        ),
{
    let ghost us = bviews(ups@);
    let ghost ls = bviews(lows@);
    let ghost a0 = lviews(acc@);
    let mut i: usize = 0;
    while i < ups.len()
        invariant
            i <= ups.len(),
            us == bviews(ups@),
            ls == bviews(lows@),
            a0 == lviews(old(acc)@),
            spec_pair_all(us.take(i as int), ls, a0) == Some(lviews(acc@)),
        decreases ups.len() - i,
    {
        proof {
            assert(us.take(i + 1).drop_last() =~= us.take(i as int));
            assert(us.take(i + 1).last() == us[i as int]);
        }
        if !pair_with(&ups[i], lows, acc) {
            proof {
                lemma_pair_all_none_prefix(us, ls, a0, i + 1);
            }
            return false;
        }
        i = i + 1;
    }
    assert(us.take(ups.len() as int) =~= us);
    true
}

/// Fourier–Motzkin elimination of `vars[k..]`, in order.
fn fm_eliminate(cs: Vec<LinTerm>, vars: &Vec<String>, k: usize) -> (r: SatOutcome)
    requires
        k <= vars.len(),
    ensures
        r == spec_fm(lviews(cs@), names(vars@).skip(k as int)),
    decreases vars.len() - k,
{
    let ghost vs = names(vars@).skip(k as int);
    if has_positive_constant_exec(&cs) {
        return SatOutcome::Contradiction;
    }
    if k == vars.len() {
        assert(vs.len() == 0);
        return SatOutcome::SatisfiableOverRationals;
    }
    assert(vs[0] == vars@[k as int]@);
    match partition(&cs, &vars[k]) {
        None => SatOutcome::Unknown,
        Some((pass, ups, lows)) => {
            let mut next = pass;
            if pair_all(&ups, &lows, &mut next) {
                assert(names(vars@).skip(k + 1) =~= vs.drop_first());
                fm_eliminate(next, vars, k + 1)
            } else {
                SatOutcome::Unknown
            }
        },
    }
}

// ── The satisfiability question ────────────────────────────────────────────

/// Whether some constraint mentions the variable `x`.
pub open spec fn mentions(le: Seq<LinTermV>, x: Seq<char>) -> bool {
    exists|i: int, j: int| 0 <= i < le.len() && 0 <= j < le[i].vars.len() && (#[trigger] le[i].vars[j]).0 == x
}

/// The variables the constraints mention, sorted and without repeats.
pub open spec fn spec_free_vars(le: Seq<LinTermV>) -> Seq<Seq<char>> {
    choose|v: Seq<Seq<char>>| sorted_names(v) && forall|x: Seq<char>| v.contains(x) <==> mentions(le, x)
}

/// `cs` without its trivially true constraints, order kept.
pub open spec fn keep_nontrivial(cs: Seq<ConstraintV>) -> Seq<ConstraintV>
    decreases cs.len(),
{
    if cs.len() == 0 {
        Seq::empty()
    } else if cs.last().trivially_true() {
        keep_nontrivial(cs.drop_last())
    } else {
        keep_nontrivial(cs.drop_last()).push(cs.last())
    }
}

/// The terms of the `≤` constraints, order kept.
pub open spec fn le_terms(cs: Seq<ConstraintV>) -> Seq<LinTermV>
    decreases cs.len(),
{
    if cs.len() == 0 {
        Seq::empty()
    } else {
        match cs.last() {
            ConstraintV::Le(t) => le_terms(cs.drop_last()).push(t),
            ConstraintV::Eq(_) => le_terms(cs.drop_last()),
        }
    }
}

/// `a·x + c = 0` with `a` not dividing `c`: no integer solution.
pub open spec fn indivisible(c: ConstraintV) -> bool {
    match c {
        ConstraintV::Eq(t) => t.vars.len() == 1 && t.vars[0].1 != 0 && !(t.constant == i128::MIN
            && t.vars[0].1 == -1) && t.constant % t.vars[0].1 != 0,
        ConstraintV::Le(_) => false,
    }
}

/// Satisfiability of a constraint system over the integers: a trivially
/// false constraint or an indivisible single-variable equality is a
/// contradiction; otherwise Fourier–Motzkin over the `≤` constraints, the
/// variables eliminated in sorted order, giving up (`Unknown`) beyond five
/// variables.
pub open spec fn spec_check_sat(cs: Seq<ConstraintV>) -> SatOutcome {
    if exists|i: int| 0 <= i < cs.len() && (#[trigger] cs[i]).trivially_false() {
        SatOutcome::Contradiction
    } else {
        let kept = keep_nontrivial(cs);
        if exists|i: int| 0 <= i < kept.len() && indivisible(#[trigger] kept[i]) {
            SatOutcome::Contradiction
        } else {
            let le = le_terms(kept);
            if le.len() == 0 {
                SatOutcome::SatisfiableOverRationals
            } else {
                let vars = spec_free_vars(le);
                if vars.len() > 5 {
                    SatOutcome::Unknown
                } else {
                    spec_fm(le, vars)
                }
            }
        }
    }
}

/// Adds `name` to the sorted list `out` unless already there.
pub(crate) fn insert_sorted(out: &mut Vec<String>, name: &String)
    requires
        sorted_names(names(old(out)@)),
    ensures
        sorted_names(names(final(out)@)),
        forall|x: Seq<char>| names(final(out)@).contains(x) <==> (names(old(out)@).contains(x) || x == name@),
{
    let ghost s = names(out@);
    let mut p: usize = 0;
    while p < out.len() && str_lt(&out[p], name)
        invariant
            p <= out.len(),
            s == names(out@),
            sorted_names(s),
            forall|k: int| 0 <= k < p ==> seq_lt(#[trigger] s[k], name@),
        decreases out.len() - p,
    {
        p = p + 1;
    }
    if p < out.len() && out[p] == *name {
        assert(s[p as int] == name@);
        assert forall|x: Seq<char>| names(out@).contains(x) <==> (s.contains(x) || x == name@) by {
            if x == name@ {
                assert(s[p as int] == x);
            }
        }
        return;
    }
    proof {
        if p < out.len() {
            assert(s[p as int] != name@);
            lemma_lt_total(s[p as int], name@);
            assert(seq_lt(name@, s[p as int]));
        }
    }
    out.insert(p, name.clone());
    let ghost t = names(out@);
    assert(t =~= s.insert(p as int, name@));
    assert forall|i: int, j: int| 0 <= i < j < t.len() implies seq_lt(#[trigger] t[i], #[trigger] t[j]) by {
        if j < p {
            assert(t[i] == s[i] && t[j] == s[j]);
        } else if j == p {
            assert(t[i] == s[i]);
        } else if i < p {
            assert(t[i] == s[i] && t[j] == s[j - 1]);
            assert(seq_lt(s[i], name@));
            if j - 1 > p {
                assert(seq_lt(s[p as int], s[j - 1]));
                lemma_lt_transitive(name@, s[p as int], s[j - 1]);
            }
            lemma_lt_transitive(s[i], name@, s[j - 1]);
        } else if i == p {
            assert(t[j] == s[j - 1]);
            if j - 1 > p {
                assert(seq_lt(s[p as int], s[j - 1]));
                lemma_lt_transitive(name@, s[p as int], s[j - 1]);
            }
        } else {
            assert(t[i] == s[i - 1] && t[j] == s[j - 1]);
        }
    }
    assert forall|x: Seq<char>| t.contains(x) <==> (s.contains(x) || x == name@) by {
        if t.contains(x) {
            let k = choose|k: int| 0 <= k < t.len() && t[k] == x;
            if k < p {
                assert(s[k] == x);
            } else if k > p {
                assert(s[k - 1] == x);
            }
        }
        if s.contains(x) {
            let k = choose|k: int| 0 <= k < s.len() && s[k] == x;
            if k < p {
                assert(t[k] == x);
            } else {
                assert(t[k + 1] == x);
            }
        }
        if x == name@ {
            assert(t[p as int] == x);
        }
    }
}

/// The variables `le` mentions, sorted, without repeats.
fn free_vars(le: &Vec<LinTerm>) -> (r: Vec<String>)
    ensures
        names(r@) == spec_free_vars(lviews(le@)),
{
    let ghost ls = lviews(le@);
    let mut out: Vec<String> = Vec::new();
    let mut i: usize = 0;
    assert(names(out@) =~= Seq::<Seq<char>>::empty());
    while i < le.len()
        invariant
            i <= le.len(),
            ls == lviews(le@),
            sorted_names(names(out@)),
            forall|x: Seq<char>| names(out@).contains(x) <==> exists|a: int, b: int|
                0 <= a < i && 0 <= b < ls[a].vars.len() && (#[trigger] ls[a].vars[b]).0 == x,
        decreases le.len() - i,
    {
        let vars = &le[i].vars;
        let mut j: usize = 0;
        while j < vars.len()
            invariant
                i < le.len(),
                j <= vars.len(),
                vars == le@[i as int].vars,
                ls == lviews(le@),
                sorted_names(names(out@)),
                forall|x: Seq<char>| names(out@).contains(x) <==> (exists|a: int, b: int|
                    0 <= a < i && 0 <= b < ls[a].vars.len() && (#[trigger] ls[a].vars[b]).0 == x)
                    || (exists|b: int| 0 <= b < j && (#[trigger] ls[i as int].vars[b]).0 == x),
            decreases vars.len() - j,
        {
            let ghost before = names(out@);
            insert_sorted(&mut out, &vars[j].0);
            assert(ls[i as int].vars[j as int].0 == vars@[j as int].0@);
            assert forall|x: Seq<char>| names(out@).contains(x) <==> (exists|a: int, b: int|
                0 <= a < i && 0 <= b < ls[a].vars.len() && (#[trigger] ls[a].vars[b]).0 == x)
                || (exists|b: int| 0 <= b < j + 1 && (#[trigger] ls[i as int].vars[b]).0 == x) by {
                if x == vars@[j as int].0@ {
                    assert(ls[i as int].vars[j as int].0 == x);
                }
                if exists|b: int| 0 <= b < j + 1 && (#[trigger] ls[i as int].vars[b]).0 == x {
                    let b = choose|b: int| 0 <= b < j + 1 && (#[trigger] ls[i as int].vars[b]).0 == x;
                    if b < j {
                        assert(before.contains(x));
                    }
                }
            }
            j = j + 1;
        }
        assert forall|x: Seq<char>| names(out@).contains(x) <==> exists|a: int, b: int|
            0 <= a < i + 1 && 0 <= b < ls[a].vars.len() && (#[trigger] ls[a].vars[b]).0 == x by {
            if exists|a: int, b: int| 0 <= a < i + 1 && 0 <= b < ls[a].vars.len() && (#[trigger] ls[a].vars[b]).0 == x {
                let (a, b) = choose|a: int, b: int| 0 <= a < i + 1 && 0 <= b < ls[a].vars.len() && (#[trigger] ls[a].vars[b]).0 == x;
                if a == i {
                    assert(ls[i as int].vars[b].0 == x);
                }
            }
        }
        i = i + 1;
    }
    proof {
        let v = names(out@);
        assert forall|x: Seq<char>| v.contains(x) <==> mentions(ls, x) by {}
        let c = spec_free_vars(ls);
        assert(sorted_names(c) && forall|x: Seq<char>| c.contains(x) <==> mentions(ls, x));
        assert forall|x: Seq<char>| v.contains(x) <==> c.contains(x) by {}
        lemma_sorted_unique(v, c);
    }
    out
}

/// Whether the conjunction of `cs` is satisfiable over the integers; see
/// [`spec_check_sat`].
pub fn check_satisfiability(cs: Vec<Constraint>) -> (r: SatOutcome)
    ensures
        r == spec_check_sat(cviews(cs@)),
{
    let ghost s = cviews(cs@);
    let mut i: usize = 0;
    while i < cs.len()
        invariant
            i <= cs.len(),
            s == cviews(cs@),
            forall|j: int| 0 <= j < i ==> !(#[trigger] s[j]).trivially_false(),
        decreases cs.len() - i,
    {
        if cs[i].is_trivially_false() {
            assert(s[i as int].trivially_false());
            return SatOutcome::Contradiction;
        }
        i = i + 1;
    }
    let mut kept: Vec<Constraint> = Vec::new();
    let mut i: usize = 0;
    while i < cs.len()
        invariant
            i <= cs.len(),
            s == cviews(cs@),
            cviews(kept@) == keep_nontrivial(s.take(i as int)),
            forall|j: int| 0 <= j < s.len() ==> !(#[trigger] s[j]).trivially_false(),
        decreases cs.len() - i,
    {
        proof {
            assert(s.take(i + 1).drop_last() =~= s.take(i as int));
            assert(s.take(i + 1).last() == s[i as int]);
        }
        if !cs[i].is_trivially_true() {
            let ghost before = cviews(kept@);
            kept.push(cs[i].duplicate());
            assert(cviews(kept@) =~= before.push(s[i as int]));
        }
        i = i + 1;
    }
    assert(s.take(cs.len() as int) =~= s);
    let ghost k = cviews(kept@);
    let mut i: usize = 0;
    while i < kept.len()
        invariant
            i <= kept.len(),
            k == cviews(kept@),
            forall|j: int| 0 <= j < i ==> !indivisible(#[trigger] k[j]),
            s == cviews(cs@),
            k == keep_nontrivial(s),
            forall|j: int| 0 <= j < s.len() ==> !(#[trigger] s[j]).trivially_false(),
        decreases kept.len() - i,
    {
        match &kept[i] {
            Constraint::Eq(t) => {
                if t.vars.len() == 1 {
                    let coeff = t.vars[0].1;
                    match t.constant.checked_rem_euclid(coeff) {
                        Some(rem) => {
                            if rem != 0 {
                                assert(indivisible(k[i as int]));
                                return SatOutcome::Contradiction;
                            }
                        },
                        None => {},
                    }
                }
            },
            Constraint::Le(_) => {},
        }
        i = i + 1;
    }
    let mut le: Vec<LinTerm> = Vec::new();
    let mut i: usize = 0;
    while i < kept.len()
        invariant
            i <= kept.len(),
            k == cviews(kept@),
            lviews(le@) == le_terms(k.take(i as int)),
            s == cviews(cs@),
            k == keep_nontrivial(s),
            forall|j: int| 0 <= j < s.len() ==> !(#[trigger] s[j]).trivially_false(),
            forall|j: int| 0 <= j < k.len() ==> !indivisible(#[trigger] k[j]),
        decreases kept.len() - i,
    {
        proof {
            assert(k.take(i + 1).drop_last() =~= k.take(i as int));
            assert(k.take(i + 1).last() == k[i as int]);
        }
        match &kept[i] {
            Constraint::Le(t) => {
                let ghost before = lviews(le@);
                le.push(t.duplicate());
                assert(lviews(le@) =~= before.push(t@));
            },
            Constraint::Eq(_) => {},
        }
        i = i + 1;
    }
    assert(k.take(kept.len() as int) =~= k);
    if le.len() == 0 {
        return SatOutcome::SatisfiableOverRationals;
    }
    let vars = free_vars(&le);
    if vars.len() > 5 {
        return SatOutcome::Unknown;
    }
    assert(names(vars@).skip(0) =~= names(vars@));
    fm_eliminate(le, &vars, 0)
}

// ── Soundness: a reported contradiction is real ────────────────────────────

pub open spec fn terms_hold(cs: Seq<LinTermV>, sigma: spec_fn(Seq<char>) -> int) -> bool {
    forall|i: int| 0 <= i < cs.len() ==> (#[trigger] cs[i]).eval(sigma) <= 0
}

pub open spec fn uppers_ok(us: Seq<Bound>, x: Seq<char>, sigma: spec_fn(Seq<char>) -> int) -> bool {
    forall|i: int|
        0 <= i < us.len() ==> (#[trigger] us[i]).0 > 0 && us[i].0 * sigma(x)
            + us[i].1.eval(sigma) <= 0
}

pub open spec fn lowers_ok(ls: Seq<Bound>, x: Seq<char>, sigma: spec_fn(Seq<char>) -> int) -> bool {
    forall|i: int|
        0 <= i < ls.len() ==> (#[trigger] ls[i]).0 > 0 && -ls[i].0 * sigma(x)
            + ls[i].1.eval(sigma) <= 0
}

proof fn lemma_partition_sound(cs: Seq<LinTermV>, x: Seq<char>, sigma: spec_fn(Seq<char>) -> int)
    requires
        terms_hold(cs, sigma),
    ensures
        spec_partition(cs, x) matches Some((p, u, l)) ==> terms_hold(p, sigma)
            && uppers_ok(u, x, sigma) && lowers_ok(l, x, sigma),
    decreases cs.len(),
{
    if cs.len() > 0 {
        let c2 = cs.drop_last();
        assert forall|i: int| 0 <= i < c2.len() implies (#[trigger] c2[i]).eval(sigma) <= 0 by {
            assert(c2[i] == cs[i]);
        }
        lemma_partition_sound(c2, x, sigma);
        let t = cs.last();
        assert(t == cs[cs.len() - 1]);
        t.lemma_without_var(x, sigma);
        match spec_partition(c2, x) {
            Some((p, u, l)) => {
                let c = t.spec_coeff(x);
                if c == 0 {
                    let p2 = p.push(t);
                    assert forall|i: int| 0 <= i < p2.len() implies (#[trigger] p2[i]).eval(sigma) <= 0 by {
                        if i < p.len() {
                            assert(p2[i] == p[i]);
                        }
                    }
                } else if c > 0 {
                    let u2 = u.push((c, t.spec_without_var(x)));
                    assert forall|i: int| 0 <= i < u2.len() implies (#[trigger] u2[i]).0 > 0
                        && u2[i].0 * sigma(x) + u2[i].1.eval(sigma) <= 0 by {
                        if i < u.len() {
                            assert(u2[i] == u[i]);
                        }
                    }
                } else if fits_i128(-c) {
                    let l2 = l.push((-c, t.spec_without_var(x)));
                    assert forall|i: int| 0 <= i < l2.len() implies (#[trigger] l2[i]).0 > 0
                        && -l2[i].0 * sigma(x) + l2[i].1.eval(sigma) <= 0 by {
                        if i < l.len() {
                            assert(l2[i] == l[i]);
                        } else {
                            assert(-(-c) * sigma(x) == c * sigma(x)) by (nonlinear_arith);
                        }
                    }
                }
            },
            None => {},
        }
    }
}

proof fn lemma_combine_sound(u: Bound, l: Bound, x: Seq<char>, sigma: spec_fn(Seq<char>) -> int)
    requires
        u.0 > 0,
        u.0 * sigma(x) + u.1.eval(sigma) <= 0,
        l.0 > 0,
        -l.0 * sigma(x) + l.1.eval(sigma) <= 0,
    ensures
        spec_combine(u, l) matches Some(t) ==> t.eval(sigma) <= 0,
{
    u.1.lemma_scale(l.0, sigma);
    l.1.lemma_scale(u.0, sigma);
    match (u.1.spec_scale(l.0), l.1.spec_scale(u.0)) {
        (Some(p), Some(q)) => {
            p.lemma_add(q, sigma);
            let a = u.0;
            let b = l.0;
            let er = u.1.eval(sigma);
            let es = l.1.eval(sigma);
            let sx = sigma(x);
            assert(b * er + a * es <= 0) by (nonlinear_arith)
                requires
                    a > 0,
                    b > 0,
                    a * sx + er <= 0,
                    -b * sx + es <= 0,
            ;
        },
        _ => {},
    }
}

proof fn lemma_pair_with_sound(
    u: Bound,
    lows: Seq<Bound>,
    acc: Seq<LinTermV>,
    x: Seq<char>,
    sigma: spec_fn(Seq<char>) -> int,
)
    requires
        u.0 > 0,
        u.0 * sigma(x) + u.1.eval(sigma) <= 0,
        lowers_ok(lows, x, sigma),
        terms_hold(acc, sigma),
    ensures
        spec_pair_with(u, lows, acc) matches Some(r) ==> terms_hold(r, sigma),
    decreases lows.len(),
{
    if lows.len() > 0 {
        let l2 = lows.drop_last();
        assert forall|i: int| 0 <= i < l2.len() implies (#[trigger] l2[i]).0 > 0
            && -l2[i].0 * sigma(x) + l2[i].1.eval(sigma) <= 0 by {
            assert(l2[i] == lows[i]);
        }
        lemma_pair_with_sound(u, l2, acc, x, sigma);
        let l = lows.last();
        assert(l == lows[lows.len() - 1]);
        lemma_combine_sound(u, l, x, sigma);
        match spec_pair_with(u, l2, acc) {
            Some(a1) => match spec_combine(u, l) {
                Some(t) => {
                    let a2 = a1.push(t);
                    assert forall|i: int| 0 <= i < a2.len() implies (#[trigger] a2[i]).eval(sigma) <= 0 by {
                        if i < a1.len() {
                            assert(a2[i] == a1[i]);
                        }
                    }
                },
                None => {},
            },
            None => {},
        }
    }
}

proof fn lemma_pair_all_sound(
    ups: Seq<Bound>,
    lows: Seq<Bound>,
    acc: Seq<LinTermV>,
    x: Seq<char>,
    sigma: spec_fn(Seq<char>) -> int,
)
    requires
        uppers_ok(ups, x, sigma),
        lowers_ok(lows, x, sigma),
        terms_hold(acc, sigma),
    ensures
        spec_pair_all(ups, lows, acc) matches Some(r) ==> terms_hold(r, sigma),
    decreases ups.len(),
{
    if ups.len() > 0 {
        let u2 = ups.drop_last();
        assert forall|i: int| 0 <= i < u2.len() implies (#[trigger] u2[i]).0 > 0
            && u2[i].0 * sigma(x) + u2[i].1.eval(sigma) <= 0 by {
            assert(u2[i] == ups[i]);
        }
        lemma_pair_all_sound(u2, lows, acc, x, sigma);
        assert(ups.last() == ups[ups.len() - 1]);
        match spec_pair_all(u2, lows, acc) {
            Some(a1) => lemma_pair_with_sound(ups.last(), lows, a1, x, sigma),
            None => {},
        }
    }
}

/// Fourier–Motzkin never derives a contradiction from constraints that an
/// integer assignment satisfies.
pub proof fn lemma_fm_sound(cs: Seq<LinTermV>, vars: Seq<Seq<char>>, sigma: spec_fn(Seq<char>) -> int)
    requires
        terms_hold(cs, sigma),
    ensures
        spec_fm(cs, vars) != SatOutcome::Contradiction,
    decreases vars.len(),
{
    if has_positive_constant(cs) {
        let i = choose|i: int| 0 <= i < cs.len() && (#[trigger] cs[i]).spec_is_constant() && cs[i].constant > 0;
        assert(cs[i].vars.len() == 0);
        assert(sum_vars(cs[i].vars, sigma) == 0);
        assert(cs[i].eval(sigma) <= 0);
    } else if vars.len() > 0 {
        lemma_partition_sound(cs, vars[0], sigma);
        match spec_partition(cs, vars[0]) {
            Some((pass, ups, lows)) => {
                lemma_pair_all_sound(ups, lows, pass, vars[0], sigma);
                match spec_pair_all(ups, lows, pass) {
                    Some(next) => lemma_fm_sound(next, vars.drop_first(), sigma),
                    None => {},
                }
            },
            None => {},
        }
    }
}

proof fn lemma_keep_nontrivial(cs: Seq<ConstraintV>, sigma: spec_fn(Seq<char>) -> int)
    requires
        all_hold(cs, sigma),
    ensures
        all_hold(keep_nontrivial(cs), sigma),
    decreases cs.len(),
{
    if cs.len() > 0 {
        let c2 = cs.drop_last();
        assert forall|i: int| 0 <= i < c2.len() implies (#[trigger] c2[i]).holds(sigma) by {
            assert(c2[i] == cs[i]);
        }
        lemma_keep_nontrivial(c2, sigma);
        let k = keep_nontrivial(c2);
        assert(cs.last() == cs[cs.len() - 1]);
        if !cs.last().trivially_true() {
            let k2 = k.push(cs.last());
            assert forall|i: int| 0 <= i < k2.len() implies (#[trigger] k2[i]).holds(sigma) by {
                if i < k.len() {
                    assert(k2[i] == k[i]);
                }
            }
        }
    }
}

proof fn lemma_le_terms(cs: Seq<ConstraintV>, sigma: spec_fn(Seq<char>) -> int)
    requires
        all_hold(cs, sigma),
    ensures
        terms_hold(le_terms(cs), sigma),
    decreases cs.len(),
{
    if cs.len() > 0 {
        let c2 = cs.drop_last();
        assert forall|i: int| 0 <= i < c2.len() implies (#[trigger] c2[i]).holds(sigma) by {
            assert(c2[i] == cs[i]);
        }
        lemma_le_terms(c2, sigma);
        let k = le_terms(c2);
        assert(cs.last() == cs[cs.len() - 1]);
        match cs.last() {
            ConstraintV::Le(t) => {
                let k2 = k.push(t);
                assert forall|i: int| 0 <= i < k2.len() implies (#[trigger] k2[i]).eval(sigma) <= 0 by {
                    if i < k.len() {
                        assert(k2[i] == k[i]);
                    }
                }
            },
            ConstraintV::Eq(_) => {},
        }
    }
}

proof fn lemma_indivisible_sound(c: ConstraintV, sigma: spec_fn(Seq<char>) -> int)
    requires
        indivisible(c),
    ensures
        !c.holds(sigma),
{
    let t = c.term();
    let k = t.vars[0].0;
    let a = t.vars[0].1;
    let x = sigma(k);
    assert(t.vars.drop_last().len() == 0);
    assert(sum_vars(t.vars.drop_last(), sigma) == 0);
    assert(t.vars.last() == t.vars[0]);
    assert(sum_vars(t.vars, sigma) == a * x);
    if t.eval(sigma) == 0 {
        let cst = t.constant;
        assert(cst == a * (-x)) by (nonlinear_arith)
            requires
                cst + a * x == 0,
        ;
        if a > 0 {
            vstd::arithmetic::div_mod::lemma_fundamental_div_mod_converse_mod(cst, a, -x, 0);
        } else {
            assert(cst == (-a) * x) by (nonlinear_arith)
                requires
                    cst + a * x == 0,
            ;
            assert(cst == x * (-a) + 0) by (nonlinear_arith)
                requires
                    cst == (-a) * x,
            ;
            assert(cst % a == 0) by (nonlinear_arith)
                requires
                    a < 0,
                    cst == x * (-a),
            ;
        }
    }
}

/// A reported contradiction is real: no integer assignment satisfies every
/// constraint of the system, whatever the terms' entries (repeated names
/// and zero coefficients included).
pub proof fn lemma_check_sat_sound(cs: Seq<ConstraintV>, sigma: spec_fn(Seq<char>) -> int)
    requires
        spec_check_sat(cs) == SatOutcome::Contradiction,
    ensures
        !all_hold(cs, sigma),
{
    if all_hold(cs, sigma) {
        if exists|i: int| 0 <= i < cs.len() && (#[trigger] cs[i]).trivially_false() {
            let i = choose|i: int| 0 <= i < cs.len() && (#[trigger] cs[i]).trivially_false();
            assert(cs[i].term().vars.len() == 0);
            assert(sum_vars(cs[i].term().vars, sigma) == 0);
            assert(cs[i].holds(sigma));
        } else {
            lemma_keep_nontrivial(cs, sigma);
            let kept = keep_nontrivial(cs);
            if exists|i: int| 0 <= i < kept.len() && indivisible(#[trigger] kept[i]) {
                let i = choose|i: int| 0 <= i < kept.len() && indivisible(#[trigger] kept[i]);
                assert(kept[i].holds(sigma));
                lemma_indivisible_sound(kept[i], sigma);
            } else {
                lemma_le_terms(kept, sigma);
                let le = le_terms(kept);
                if le.len() > 0 {
                    lemma_fm_sound(le, spec_free_vars(le), sigma);
                }
            }
        }
    }
}

} // verus!
