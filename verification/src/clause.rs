//! Splitting a predicate into `&&`-conjuncts and classifying each conjunct
//! for the `L1` (constant) and `L2` (single-variable bound) layers.

use vstd::prelude::*;

use crate::expr::{Tree, TreeV, Literal, LiteralV, BinaryOp, BinaryOpV, UnaryOp, UnaryOpV};
use crate::interval::Interval;

verus! {

/// `e` with any layers of parenthesization or invisible grouping peeled off.
pub open spec fn spec_ungroup(e: TreeV) -> TreeV
    decreases e,
{
    match e {
        TreeV::Paren(x) => spec_ungroup(*x),
        TreeV::Group(x) => spec_ungroup(*x),
        _ => e,
    }
}

pub fn ungroup(e: &Tree) -> (r: &Tree)
    ensures
        r@ == spec_ungroup(e@),
    decreases e,
{
    match e {
        Tree::Paren(x) => ungroup(&**x),
        Tree::Group(x) => ungroup(&**x),
        _ => e,
    }
}

/// The conjuncts of `a && b && c` (through any grouping), left to right; an
/// expression with no top-level `&&` is its own single conjunct.
pub open spec fn spec_flatten_and(e: TreeV) -> Seq<TreeV>
    decreases e,
{
    match e {
        TreeV::Binary(BinaryOpV::And, l, r) => spec_flatten_and(*l) + spec_flatten_and(*r),
        TreeV::Paren(x) => spec_flatten_and(*x),
        TreeV::Group(x) => spec_flatten_and(*x),
        _ => seq![e],
    }
}

pub open spec fn views(s: Seq<Tree>) -> Seq<TreeV> {
    s.map_values(|t: Tree| t@)
}

/// Appends the conjuncts of `e` to `out`.
pub fn flatten_and(e: &Tree, out: &mut Vec<Tree>)
    ensures
        views(final(out)@) == views(old(out)@) + spec_flatten_and(e@),
    decreases e,
{
    match e {
        Tree::Binary(BinaryOp::And, l, r) => {
            flatten_and(&**l, out);
            flatten_and(&**r, out);
            proof {
                assert(views(final(out)@) =~= views(old(out)@) + spec_flatten_and(e@));
            }
        },
        Tree::Paren(x) => flatten_and(&**x, out),
        Tree::Group(x) => flatten_and(&**x, out),
        _ => {
            out.push(e.duplicate());
            proof {
                assert(views(final(out)@) =~= views(old(out)@) + spec_flatten_and(e@));
            }
        },
    }
}

/// Whether `e` is built only from shapes that cannot run user code
/// (literals, plain paths, arithmetic/logic operators, `-`/`!`, fields,
/// indexing), so comparing it with itself is decided by the operator alone.
pub open spec fn spec_is_call_free(e: TreeV) -> bool
    decreases e,
{
    match e {
        TreeV::Literal(_) => true,
        TreeV::Ident(_) => true,
        TreeV::Path { qself, text: _ } => !qself,
        TreeV::Paren(x) => spec_is_call_free(*x),
        TreeV::Group(x) => spec_is_call_free(*x),
        TreeV::Binary(_, l, r) => spec_is_call_free(*l) && spec_is_call_free(*r),
        TreeV::Unary(op, x) => (op is Neg || op is Not) && spec_is_call_free(*x),
        TreeV::Field(x, _) => spec_is_call_free(*x),
        TreeV::Index(x, i) => spec_is_call_free(*x) && spec_is_call_free(*i),
        TreeV::Opaque(_) => false,
    }
}

pub fn is_call_free(e: &Tree) -> (r: bool)
    ensures
        r == spec_is_call_free(e@),
    decreases e,
{
    match e {
        Tree::Literal(_) => true,
        Tree::Ident(_) => true,
        Tree::Path { qself, text: _ } => !*qself,
        Tree::Paren(x) => is_call_free(&**x),
        Tree::Group(x) => is_call_free(&**x),
        Tree::Binary(_, l, r) => is_call_free(&**l) && is_call_free(&**r),
        Tree::Unary(op, x) => {
            let ok_op = match op {
                UnaryOp::Neg => true,
                UnaryOp::Not => true,
                UnaryOp::Other(_) => false,
            };
            ok_op && is_call_free(&**x)
        },
        Tree::Field(x, _) => is_call_free(&**x),
        Tree::Index(x, i) => is_call_free(&**x) && is_call_free(&**i),
        Tree::Opaque(_) => false,
    }
}

/// Structural equality, transparent to grouping on either side of every
/// operand independently; leaves compare exactly.
pub open spec fn spec_exprs_equivalent(a: TreeV, b: TreeV) -> bool
    decreases a, b,
{
    match (a, b) {
        (TreeV::Paren(x), _) => spec_exprs_equivalent(*x, b),
        (TreeV::Group(x), _) => spec_exprs_equivalent(*x, b),
        (_, TreeV::Paren(y)) => spec_exprs_equivalent(a, *y),
        (_, TreeV::Group(y)) => spec_exprs_equivalent(a, *y),
        (TreeV::Binary(o1, l1, r1), TreeV::Binary(o2, l2, r2)) => o1 == o2
            && spec_exprs_equivalent(*l1, *l2) && spec_exprs_equivalent(*r1, *r2),
        (TreeV::Unary(o1, x1), TreeV::Unary(o2, x2)) => o1 == o2 && spec_exprs_equivalent(*x1, *x2),
        _ => a == b,
    }
}

pub fn exprs_equivalent(a: &Tree, b: &Tree) -> (r: bool)
    ensures
        r == spec_exprs_equivalent(a@, b@),
    decreases a, b,
{
    match (a, b) {
        (Tree::Paren(x), _) => exprs_equivalent(&**x, b),
        (Tree::Group(x), _) => exprs_equivalent(&**x, b),
        (_, Tree::Paren(y)) => exprs_equivalent(a, &**y),
        (_, Tree::Group(y)) => exprs_equivalent(a, &**y),
        (Tree::Binary(o1, l1, r1), Tree::Binary(o2, l2, r2)) => o1.same(o2) && exprs_equivalent(
            &**l1,
            &**l2,
        ) && exprs_equivalent(&**r1, &**r2),
        (Tree::Unary(o1, x1), Tree::Unary(o2, x2)) => o1.same(o2) && exprs_equivalent(&**x1, &**x2),
        _ => a.same(b),
    }
}

/// A single bare identifier, through grouping.
pub open spec fn spec_ident_name(e: TreeV) -> Option<Seq<char>>
    decreases e,
{
    match e {
        TreeV::Ident(n) => Some(n),
        TreeV::Paren(x) => spec_ident_name(*x),
        TreeV::Group(x) => spec_ident_name(*x),
        _ => None,
    }
}

pub fn ident_name(e: &Tree) -> (r: Option<String>)
    ensures
        r.is_some() == spec_ident_name(e@).is_some(),
        r matches Some(n) ==> spec_ident_name(e@) == Some(n@),
    decreases e,
{
    match e {
        Tree::Ident(n) => Some(n.clone()),
        Tree::Paren(x) => ident_name(&**x),
        Tree::Group(x) => ident_name(&**x),
        _ => None,
    }
}

pub open spec fn fits_i128(v: int) -> bool {
    i128::MIN <= v <= i128::MAX
}

/// An integer literal, including leading unary `-`s, through grouping;
/// `None` when a negation would leave `i128`.
pub open spec fn spec_int_value(e: TreeV) -> Option<int>
    decreases e,
{
    match e {
        TreeV::Literal(LiteralV::Int { value: Some(v), text: _ }) => Some(v as int),
        TreeV::Unary(UnaryOpV::Neg, x) => match spec_int_value(*x) {
            Some(v) => if fits_i128(-v) {
                Some(-v)
            } else {
                None
            },
            None => None,
        },
        TreeV::Paren(x) => spec_int_value(*x),
        TreeV::Group(x) => spec_int_value(*x),
        _ => None,
    }
}

pub proof fn lemma_int_value_fits(e: TreeV)
    ensures
        spec_int_value(e) matches Some(v) ==> fits_i128(v),
    decreases e,
{
    match e {
        TreeV::Unary(UnaryOpV::Neg, x) => lemma_int_value_fits(*x),
        TreeV::Paren(x) => lemma_int_value_fits(*x),
        TreeV::Group(x) => lemma_int_value_fits(*x),
        _ => {},
    }
}

pub fn int_value(e: &Tree) -> (r: Option<i128>)
    ensures
        r.is_some() == spec_int_value(e@).is_some(),
        r matches Some(v) ==> spec_int_value(e@) == Some(v as int),
    decreases e,
{
    match e {
        Tree::Literal(Literal::Int { value: Some(v), text: _ }) => Some(*v),
        Tree::Unary(UnaryOp::Neg, x) => match int_value(&**x) {
            Some(v) => if v == i128::MIN {
                None
            } else {
                Some(-v)
            },
            None => None,
        },
        Tree::Paren(x) => int_value(&**x),
        Tree::Group(x) => int_value(&**x),
        _ => None,
    }
}

/// The interval a variable must lie in for `var OP lit` to hold, for the
/// operators expressible as one bound (`!=` is not); `None` also when the
/// bound `lit ± 1` leaves `i128`.
pub open spec fn spec_interval_for(op: BinaryOpV, lit: int) -> Option<Interval> {
    match op {
        BinaryOpV::Lt => if fits_i128(lit - 1) {
            Some(Interval { lo: i128::MIN, hi: (lit - 1) as i128 })
        } else {
            None
        },
        BinaryOpV::Le => Some(Interval { lo: i128::MIN, hi: lit as i128 }),
        BinaryOpV::Gt => if fits_i128(lit + 1) {
            Some(Interval { lo: (lit + 1) as i128, hi: i128::MAX })
        } else {
            None
        },
        BinaryOpV::Ge => Some(Interval { lo: lit as i128, hi: i128::MAX }),
        BinaryOpV::Eq => Some(Interval { lo: lit as i128, hi: lit as i128 }),
        _ => None,
    }
}

pub fn interval_for(op: &BinaryOp, lit: i128) -> (r: Option<Interval>)
    ensures
        r == spec_interval_for(op@, lit as int),
{
    match op {
        BinaryOp::Lt => if lit == i128::MIN {
            None
        } else {
            Some(Interval::at_most(lit - 1))
        },
        BinaryOp::Le => Some(Interval::at_most(lit)),
        BinaryOp::Gt => if lit == i128::MAX {
            None
        } else {
            Some(Interval::at_least(lit + 1))
        },
        BinaryOp::Ge => Some(Interval::at_least(lit)),
        BinaryOp::Eq => Some(Interval::point(lit)),
        _ => None,
    }
}

/// Re-reads `lit OP var` as `var OP' lit`.
pub open spec fn spec_flip(op: BinaryOpV) -> BinaryOpV {
    match op {
        BinaryOpV::Lt => BinaryOpV::Gt,
        BinaryOpV::Le => BinaryOpV::Ge,
        BinaryOpV::Gt => BinaryOpV::Lt,
        BinaryOpV::Ge => BinaryOpV::Le,
        _ => op,
    }
}

pub fn flip(op: &BinaryOp) -> (r: BinaryOp)
    ensures
        r@ == spec_flip(op@),
{
    match op {
        BinaryOp::Lt => BinaryOp::Gt,
        BinaryOp::Le => BinaryOp::Ge,
        BinaryOp::Gt => BinaryOp::Lt,
        BinaryOp::Ge => BinaryOp::Le,
        _ => op.duplicate(),
    }
}

/// The truth value of `l OP r` for a comparison operator on two integers.
pub open spec fn spec_compare(op: BinaryOpV, l: int, r: int) -> Option<bool> {
    match op {
        BinaryOpV::Lt => Some(l < r),
        BinaryOpV::Le => Some(l <= r),
        BinaryOpV::Gt => Some(l > r),
        BinaryOpV::Ge => Some(l >= r),
        BinaryOpV::Eq => Some(l == r),
        BinaryOpV::Ne => Some(l != r),
        _ => None,
    }
}

pub fn constant_fold(op: &BinaryOp, l: i128, r: i128) -> (res: Option<bool>)
    ensures
        res == spec_compare(op@, l as int, r as int),
{
    match op {
        BinaryOp::Lt => Some(l < r),
        BinaryOp::Le => Some(l <= r),
        BinaryOp::Gt => Some(l > r),
        BinaryOp::Ge => Some(l >= r),
        BinaryOp::Eq => Some(l == r),
        BinaryOp::Ne => Some(l != r),
        _ => None,
    }
}

/// What one `&&`-conjunct reduced to.
#[derive(Debug, Clone)]
pub enum Clause {
    /// A constant-foldable conjunct with no free variables.
    Constant(bool),
    /// `var` must lie in `interval` for this conjunct to hold.
    Bound { var: String, interval: Interval },
    /// Not decomposable by the interval layers.
    Unknown,
}

pub enum ClauseV {
    Constant(bool),
    Bound { var: Seq<char>, interval: Interval },
    Unknown,
}

impl View for Clause {
    type V = ClauseV;

    open spec fn view(&self) -> ClauseV {
        match self {
            Clause::Constant(b) => ClauseV::Constant(*b),
            Clause::Bound { var, interval } => ClauseV::Bound { var: var@, interval: *interval },
            Clause::Unknown => ClauseV::Unknown,
        }
    }
}

/// Reflexivity first (a call-free term compared with itself), then
/// `lit OP lit` folding, then `var OP lit` / `lit OP var` bounds.
pub open spec fn spec_classify_comparison(op: BinaryOpV, l: TreeV, r: TreeV) -> ClauseV {
    if spec_exprs_equivalent(l, r) && spec_is_call_free(l) && (op is Eq || op is Le || op is Ge) {
        ClauseV::Constant(true)
    } else if spec_exprs_equivalent(l, r) && spec_is_call_free(l) && (op is Ne || op is Lt
        || op is Gt) {
        ClauseV::Constant(false)
    } else {
        match (spec_ident_name(l), spec_int_value(l), spec_ident_name(r), spec_int_value(r)) {
            (None, Some(a), None, Some(b)) => match spec_compare(op, a, b) {
                Some(v) => ClauseV::Constant(v),
                None => ClauseV::Unknown,
            },
            (Some(var), None, None, Some(lit)) => match spec_interval_for(op, lit) {
                Some(interval) => ClauseV::Bound { var, interval },
                None => ClauseV::Unknown,
            },
            (None, Some(lit), Some(var), None) => match spec_interval_for(spec_flip(op), lit) {
                Some(interval) => ClauseV::Bound { var, interval },
                None => ClauseV::Unknown,
            },
            _ => ClauseV::Unknown,
        }
    }
}

pub open spec fn spec_classify_clause(e: TreeV) -> ClauseV
    decreases e,
{
    match e {
        TreeV::Literal(LiteralV::Bool(b)) => ClauseV::Constant(b),
        TreeV::Paren(x) => spec_classify_clause(*x),
        TreeV::Group(x) => spec_classify_clause(*x),
        TreeV::Binary(op, l, r) => spec_classify_comparison(op, *l, *r),
        _ => ClauseV::Unknown,
    }
}

fn classify_comparison(op: &BinaryOp, l: &Tree, r: &Tree) -> (c: Clause)
    ensures
        c@ == spec_classify_comparison(op@, l@, r@),
{
    if exprs_equivalent(l, r) && is_call_free(l) {
        match op {
            BinaryOp::Eq | BinaryOp::Le | BinaryOp::Ge => {
                return Clause::Constant(true);
            },
            BinaryOp::Ne | BinaryOp::Lt | BinaryOp::Gt => {
                return Clause::Constant(false);
            },
            _ => {},
        }
    }
    proof {
        lemma_int_value_fits(l@);
        lemma_int_value_fits(r@);
    }
    let left_var = ident_name(l);
    let left_lit = int_value(l);
    let right_var = ident_name(r);
    let right_lit = int_value(r);
    match (left_var, left_lit, right_var, right_lit) {
        (None, Some(a), None, Some(b)) => match constant_fold(op, a, b) {
            Some(v) => Clause::Constant(v),
            None => Clause::Unknown,
        },
        (Some(var), None, None, Some(lit)) => match interval_for(op, lit) {
            Some(interval) => Clause::Bound { var, interval },
            None => Clause::Unknown,
        },
        (None, Some(lit), Some(var), None) => {
            let flipped = flip(op);
            match interval_for(&flipped, lit) {
                Some(interval) => Clause::Bound { var, interval },
                None => Clause::Unknown,
            }
        },
        _ => Clause::Unknown,
    }
}

/// Classifies one conjunct.
pub fn classify_clause(e: &Tree) -> (c: Clause)
    ensures
        c@ == spec_classify_clause(e@),
    decreases e,
{
    match e {
        Tree::Literal(Literal::Bool(b)) => Clause::Constant(*b),
        Tree::Paren(x) => classify_clause(&**x),
        Tree::Group(x) => classify_clause(&**x),
        Tree::Binary(op, l, r) => classify_comparison(op, &**l, &**r),
        _ => Clause::Unknown,
    }
}

} // verus!
