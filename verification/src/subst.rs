//! Substitution into predicates: a quantifier's bound variable by each
//! integer of its range, and a callee's parameters by the caller's
//! arguments. A nested quantifier that binds the same name shadows it.
//! Opaque subexpressions (calls, casts, ...) are carried as token text and
//! are left as they are.

use vstd::prelude::*;

use crate::expr::{Tree, TreeV, int_literal_expr, spec_int_literal};
use crate::predicate::{Predicate, PredicateV};

verus! {

// ── Trees ──────────────────────────────────────────────────────────────────

/// `e` with every bare occurrence of `var` replaced by `with`.
pub open spec fn subst_tree(e: TreeV, var: Seq<char>, with: TreeV) -> TreeV
    decreases e,
{
    match e {
        TreeV::Ident(n) => if n == var {
            with
        } else {
            e
        },
        TreeV::Unary(op, x) => TreeV::Unary(op, Box::new(subst_tree(*x, var, with))),
        TreeV::Binary(op, l, r) => TreeV::Binary(
            op,
            Box::new(subst_tree(*l, var, with)),
            Box::new(subst_tree(*r, var, with)),
        ),
        TreeV::Paren(x) => TreeV::Paren(Box::new(subst_tree(*x, var, with))),
        TreeV::Group(x) => TreeV::Group(Box::new(subst_tree(*x, var, with))),
        TreeV::Field(x, m) => TreeV::Field(Box::new(subst_tree(*x, var, with)), m),
        TreeV::Index(x, i) => TreeV::Index(
            Box::new(subst_tree(*x, var, with)),
            Box::new(subst_tree(*i, var, with)),
        ),
        _ => e,
    }
}

fn subst_tree_exec(e: &Tree, var: &String, with: &Tree) -> (r: Tree)
    ensures
        r@ == subst_tree(e@, var@, with@),
    decreases e,
{
    match e {
        Tree::Ident(n) => if *n == *var {
            with.duplicate()
        } else {
            e.duplicate()
        },
        Tree::Unary(op, x) => Tree::Unary(op.duplicate(), Box::new(subst_tree_exec(&**x, var, with))),
        Tree::Binary(op, l, r) => Tree::Binary(
            op.duplicate(),
            Box::new(subst_tree_exec(&**l, var, with)),
            Box::new(subst_tree_exec(&**r, var, with)),
        ),
        Tree::Paren(x) => Tree::Paren(Box::new(subst_tree_exec(&**x, var, with))),
        Tree::Group(x) => Tree::Group(Box::new(subst_tree_exec(&**x, var, with))),
        Tree::Field(x, m) => Tree::Field(Box::new(subst_tree_exec(&**x, var, with)), m.clone()),
        Tree::Index(x, i) => Tree::Index(
            Box::new(subst_tree_exec(&**x, var, with)),
            Box::new(subst_tree_exec(&**i, var, with)),
        ),
        _ => e.duplicate(),
    }
}

// ── Bound variable by an integer ───────────────────────────────────────────

/// `p` with `var` replaced by the literal `k`, except under a quantifier
/// that rebinds `var`.
pub open spec fn subst_pred(p: PredicateV, var: Seq<char>, k: int) -> PredicateV
    decreases p,
{
    match p {
        PredicateV::Expr(e) => PredicateV::Expr(subst_tree(e, var, spec_int_literal(k))),
        PredicateV::Forall { var: bound, lo, hi, body } => if bound == var {
            p
        } else {
            PredicateV::Forall { var: bound, lo, hi, body: Box::new(subst_pred(*body, var, k)) }
        },
        PredicateV::Exists { var: bound, lo, hi, body } => if bound == var {
            p
        } else {
            PredicateV::Exists { var: bound, lo, hi, body: Box::new(subst_pred(*body, var, k)) }
        },
    }
}

/// Number of quantifiers from the root down to the expression.
pub open spec fn height(p: PredicateV) -> nat
    decreases p,
{
    match p {
        PredicateV::Expr(_) => 0,
        PredicateV::Forall { body, .. } => 1 + height(*body),
        PredicateV::Exists { body, .. } => 1 + height(*body),
    }
}

pub proof fn lemma_subst_height(p: PredicateV, var: Seq<char>, k: int)
    ensures
        height(subst_pred(p, var, k)) == height(p),
    decreases p,
{
    match p {
        PredicateV::Forall { var: bound, lo, hi, body } => if bound != var {
            lemma_subst_height(*body, var, k);
        },
        PredicateV::Exists { var: bound, lo, hi, body } => if bound != var {
            lemma_subst_height(*body, var, k);
        },
        _ => {},
    }
}

pub fn duplicate_predicate(p: &Predicate) -> (r: Predicate)
    ensures
        r@ == p@,
    decreases p,
{
    match p {
        Predicate::Expr(e) => Predicate::Expr(e.duplicate()),
        Predicate::Forall { var, lo, hi, body } => Predicate::Forall {
            var: var.clone(),
            lo: *lo,
            hi: *hi,
            body: Box::new(duplicate_predicate(&**body)),
        },
        Predicate::Exists { var, lo, hi, body } => Predicate::Exists {
            var: var.clone(),
            lo: *lo,
            hi: *hi,
            body: Box::new(duplicate_predicate(&**body)),
        },
    }
}

fn subst_pred_with(p: &Predicate, var: &String, lit: &Tree, Ghost(k): Ghost<int>) -> (r: Predicate)
    requires
        lit@ == spec_int_literal(k),
    ensures
        r@ == subst_pred(p@, var@, k),
    decreases p,
{
    match p {
        Predicate::Expr(e) => Predicate::Expr(subst_tree_exec(e, var, lit)),
        Predicate::Forall { var: bound, lo, hi, body } => if *bound == *var {
            duplicate_predicate(p)
        } else {
            Predicate::Forall {
                var: bound.clone(),
                lo: *lo,
                hi: *hi,
                body: Box::new(subst_pred_with(&**body, var, lit, Ghost(k))),
            }
        },
        Predicate::Exists { var: bound, lo, hi, body } => if *bound == *var {
            duplicate_predicate(p)
        } else {
            Predicate::Exists {
                var: bound.clone(),
                lo: *lo,
                hi: *hi,
                body: Box::new(subst_pred_with(&**body, var, lit, Ghost(k))),
            }
        },
    }
}

/// `p` with `var` replaced by the integer literal `k`; a nested quantifier
/// that reuses `var` as its own bound variable keeps its body untouched.
pub fn substitute(p: &Predicate, var: &String, k: i64) -> (r: Predicate)
    ensures
        r@ == subst_pred(p@, var@, k as int),
{
    let lit = int_literal_expr(k as i128);
    subst_pred_with(p, var, &lit, Ghost(k as int))
}

// ── Parameters by arguments ────────────────────────────────────────────────

/// The argument bound to `name`: the last binding of that name.
pub open spec fn lookup(b: Seq<(Seq<char>, TreeV)>, name: Seq<char>) -> Option<TreeV>
    decreases b.len(),
{
    if b.len() == 0 {
        None
    } else if b.last().0 == name {
        Some(b.last().1)
    } else {
        lookup(b.drop_last(), name)
    }
}

/// `b` without the bindings of `name`.
pub open spec fn without(b: Seq<(Seq<char>, TreeV)>, name: Seq<char>) -> Seq<(Seq<char>, TreeV)>
    decreases b.len(),
{
    if b.len() == 0 {
        b
    } else if b.last().0 == name {
        without(b.drop_last(), name)
    } else {
        without(b.drop_last(), name).push(b.last())
    }
}

/// `e` with each bound name replaced by its argument, parenthesized so a
/// compound argument keeps its own precedence.
pub open spec fn subst_args(e: TreeV, b: Seq<(Seq<char>, TreeV)>) -> TreeV
    decreases e,
{
    match e {
        TreeV::Ident(n) => match lookup(b, n) {
            Some(a) => TreeV::Paren(Box::new(a)),
            None => e,
        },
        TreeV::Unary(op, x) => TreeV::Unary(op, Box::new(subst_args(*x, b))),
        TreeV::Binary(op, l, r) => TreeV::Binary(
            op,
            Box::new(subst_args(*l, b)),
            Box::new(subst_args(*r, b)),
        ),
        TreeV::Paren(x) => TreeV::Paren(Box::new(subst_args(*x, b))),
        TreeV::Group(x) => TreeV::Group(Box::new(subst_args(*x, b))),
        TreeV::Field(x, m) => TreeV::Field(Box::new(subst_args(*x, b)), m),
        TreeV::Index(x, i) => TreeV::Index(Box::new(subst_args(*x, b)), Box::new(subst_args(*i, b))),
        _ => e,
    }
}

pub open spec fn subst_pred_args(p: PredicateV, b: Seq<(Seq<char>, TreeV)>) -> PredicateV
    decreases p,
{
    match p {
        PredicateV::Expr(e) => PredicateV::Expr(subst_args(e, b)),
        PredicateV::Forall { var, lo, hi, body } => PredicateV::Forall {
            var,
            lo,
            hi,
            body: Box::new(subst_pred_args(*body, without(b, var))),
        },
        PredicateV::Exists { var, lo, hi, body } => PredicateV::Exists {
            var,
            lo,
            hi,
            body: Box::new(subst_pred_args(*body, without(b, var))),
        },
    }
}

pub open spec fn binding_views(b: Seq<(String, Tree)>) -> Seq<(Seq<char>, TreeV)> {
    b.map_values(|p: (String, Tree)| (p.0@, p.1@))
}

fn find_binding(b: &Vec<(String, Tree)>, name: &String) -> (r: Option<usize>)
    ensures
        match r {
            Some(i) => i < b.len() && lookup(binding_views(b@), name@) == Some(b@[i as int].1@),
            None => lookup(binding_views(b@), name@) is None,
        },
{
    let ghost s = binding_views(b@);
    let mut i: usize = b.len();
    assert(s.take(i as int) =~= s);
    while i > 0
        invariant
            i <= b.len(),
            s == binding_views(b@),
            lookup(s, name@) == lookup(s.take(i as int), name@),
        decreases i,
    {
        assert(s.take(i as int).drop_last() =~= s.take(i - 1));
        if b[i - 1].0 == *name {
            return Some(i - 1);
        }
        i = i - 1;
    }
    None
}

fn subst_args_exec(e: &Tree, b: &Vec<(String, Tree)>) -> (r: Tree)
    ensures
        r@ == subst_args(e@, binding_views(b@)),
    decreases e,
{
    match e {
        Tree::Ident(n) => match find_binding(b, n) {
            Some(i) => Tree::Paren(Box::new(b[i].1.duplicate())),
            None => e.duplicate(),
        },
        Tree::Unary(op, x) => Tree::Unary(op.duplicate(), Box::new(subst_args_exec(&**x, b))),
        Tree::Binary(op, l, r) => Tree::Binary(
            op.duplicate(),
            Box::new(subst_args_exec(&**l, b)),
            Box::new(subst_args_exec(&**r, b)),
        ),
        Tree::Paren(x) => Tree::Paren(Box::new(subst_args_exec(&**x, b))),
        Tree::Group(x) => Tree::Group(Box::new(subst_args_exec(&**x, b))),
        Tree::Field(x, m) => Tree::Field(Box::new(subst_args_exec(&**x, b)), m.clone()),
        Tree::Index(x, i) => Tree::Index(
            Box::new(subst_args_exec(&**x, b)),
            Box::new(subst_args_exec(&**i, b)),
        ),
        _ => e.duplicate(),
    }
}

fn without_exec(b: &Vec<(String, Tree)>, name: &String) -> (r: Vec<(String, Tree)>)
    ensures
        binding_views(r@) == without(binding_views(b@), name@),
{
    let ghost s = binding_views(b@);
    let mut out: Vec<(String, Tree)> = Vec::new();
    let mut i: usize = 0;
    assert(binding_views(out@) =~= without(s.take(0), name@));
    while i < b.len()
        invariant
            i <= b.len(),
            s == binding_views(b@),
            binding_views(out@) == without(s.take(i as int), name@),
        decreases b.len() - i,
    {
        assert(s.take(i + 1).drop_last() =~= s.take(i as int));
        assert(s.take(i + 1).last() == s[i as int]);
        if b[i].0 != *name {
            let ghost before = binding_views(out@);
            out.push((b[i].0.clone(), b[i].1.duplicate()));
            assert(binding_views(out@) =~= before.push(s[i as int]));
        }
        i = i + 1;
    }
    assert(s.take(b.len() as int) =~= s);
    out
}

/// Substitutes each bound parameter name with its argument expression —
/// the call-site step `pred[params := args]`. When a name is bound more
/// than once, the last binding counts; a quantifier that binds one of the
/// names shadows it in its body.
pub fn substitute_exprs(p: &Predicate, bindings: &Vec<(String, Tree)>) -> (r: Predicate)
    ensures
        r@ == subst_pred_args(p@, binding_views(bindings@)),
    decreases p,
{
    match p {
        Predicate::Expr(e) => Predicate::Expr(subst_args_exec(e, bindings)),
        Predicate::Forall { var, lo, hi, body } => {
            let inner = without_exec(bindings, var);
            Predicate::Forall {
                var: var.clone(),
                lo: *lo,
                hi: *hi,
                body: Box::new(substitute_exprs(&**body, &inner)),
            }
        },
        Predicate::Exists { var, lo, hi, body } => {
            let inner = without_exec(bindings, var);
            Predicate::Exists {
                var: var.clone(),
                lo: *lo,
                hi: *hi,
                body: Box::new(substitute_exprs(&**body, &inner)),
            }
        },
    }
}

// ── What substitution leaves free ──────────────────────────────────────────

/// Whether the variable `n` occurs in `e` (as a bare identifier, under
/// any operator, parenthesis, group, field access or index).
pub open spec fn occurs(e: TreeV, n: Seq<char>) -> bool
    decreases e,
{
    match e {
        TreeV::Ident(m) => m == n,
        TreeV::Unary(_, x) => occurs(*x, n),
        TreeV::Binary(_, l, r) => occurs(*l, n) || occurs(*r, n),
        TreeV::Paren(x) => occurs(*x, n),
        TreeV::Group(x) => occurs(*x, n),
        TreeV::Field(x, _) => occurs(*x, n),
        TreeV::Index(x, i) => occurs(*x, n) || occurs(*i, n),
        _ => false,
    }
}

proof fn lemma_lookup_from(b: Seq<(Seq<char>, TreeV)>, n: Seq<char>)
    ensures
        lookup(b, n) matches Some(a) ==> exists|k: int| 0 <= k < b.len() && #[trigger] b[k] == (n, a),
    decreases b.len(),
{
    if b.len() > 0 {
        if b.last().0 == n {
            assert(b[b.len() - 1] == (n, b.last().1));
        } else {
            lemma_lookup_from(b.drop_last(), n);
            if lookup(b.drop_last(), n) is Some {
                let a = lookup(b, n)->Some_0;
                let k = choose|k: int| 0 <= k < b.drop_last().len() && #[trigger] b.drop_last()[k] == (n, a);
                assert(b[k] == b.drop_last()[k]);
            }
        }
    }
}

/// After substituting arguments for parameters, a parameter occurs only
/// inside an argument that itself mentions it: every occurrence of a
/// bound name in the operand is replaced, at any depth. A name without a
/// binding is kept wherever it occurred.
pub proof fn lemma_subst_leaves_no_parameter(e: TreeV, b: Seq<(Seq<char>, TreeV)>, n: Seq<char>)
    ensures
        occurs(subst_args(e, b), n) && lookup(b, n) is Some ==> exists|k: int|
            0 <= k < b.len() && occurs(#[trigger] b[k].1, n),
        occurs(e, n) && lookup(b, n) is None ==> occurs(subst_args(e, b), n),
    decreases e,
{
    match e {
        TreeV::Ident(m) => {
            lemma_lookup_from(b, m);
            match lookup(b, m) {
                Some(a) => {
                    if occurs(subst_args(e, b), n) && lookup(b, n) is Some {
                        let k = choose|k: int| 0 <= k < b.len() && #[trigger] b[k] == (m, a);
                        assert(occurs(b[k].1, n));
                    }
                },
                None => {},
            }
        },
        TreeV::Unary(_, x) => lemma_subst_leaves_no_parameter(*x, b, n),
        TreeV::Binary(_, l, r) => {
            lemma_subst_leaves_no_parameter(*l, b, n);
            lemma_subst_leaves_no_parameter(*r, b, n);
        },
        TreeV::Paren(x) => lemma_subst_leaves_no_parameter(*x, b, n),
        TreeV::Group(x) => lemma_subst_leaves_no_parameter(*x, b, n),
        TreeV::Field(x, _) => lemma_subst_leaves_no_parameter(*x, b, n),
        TreeV::Index(x, i) => {
            lemma_subst_leaves_no_parameter(*x, b, n);
            lemma_subst_leaves_no_parameter(*i, b, n);
        },
        _ => {},
    }
}

} // verus!
