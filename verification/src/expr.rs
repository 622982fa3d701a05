//! The expression model the solver reasons about: a plain-value tree of the
//! Rust expression shapes that matter to refinement predicates (literals,
//! identifiers, unary/binary operators, grouping, field access, indexing),
//! with every other shape kept as an opaque token text.
//!
//! Rust expression text is parsed with `syn` (see [`parse_rust_expr`]); the
//! resulting tree is converted into [`Tree`] node for node.

use vstd::prelude::*;
use quote::ToTokens;

use crate::text::{push_str, int_to_text, spec_int_text};

verus! {

/// A literal.
#[derive(Debug, Clone, PartialEq, Eq)]
pub enum Literal {
    /// An integer literal: its base-10 value when it fits an `i128`, and
    /// its source token text.
    Int { value: Option<i128>, text: String },
    /// `true` / `false`.
    Bool(bool),
    /// Any other literal (string, char, float, ...), by token text.
    Other(String),
}

/// A binary operator.
#[derive(Debug, Clone, PartialEq, Eq)]
pub enum BinaryOp {
    Add,
    Sub,
    Mul,
    Div,
    Rem,
    And,
    Or,
    Eq,
    Lt,
    Le,
    Ne,
    Ge,
    Gt,
    /// Any other binary operator (bitwise, shifts, compound assignment),
    /// by token text.
    Other(String),
}

/// A unary operator.
#[derive(Debug, Clone, PartialEq, Eq)]
pub enum UnaryOp {
    Neg,
    Not,
    /// Any other unary operator (`*`), by token text.
    Other(String),
}

/// A Rust expression, as far as refinement predicates need to see into it.
#[derive(Debug, PartialEq, Eq)]
pub enum Tree {
    Literal(Literal),
    /// A path that is a single bare identifier (`x`, `result`).
    Ident(String),
    /// Any other path (`a::b`, `<T as Tr>::C`, ...): whether it carries a
    /// qualified self type, and its token text.
    Path { qself: bool, text: String },
    Unary(UnaryOp, Box<Tree>),
    Binary(BinaryOp, Box<Tree>, Box<Tree>),
    /// `( e )`
    Paren(Box<Tree>),
    /// An invisible group.
    Group(Box<Tree>),
    /// `base.member`, the member by token text.
    Field(Box<Tree>, String),
    /// `base[index]`
    Index(Box<Tree>, Box<Tree>),
    /// Any other expression (calls, method calls, casts, closures, ...), by
    /// token text.
    Opaque(String),
}

// ── syn conversion ─────────────────────────────────────────────────────────

#[verifier::external_type_specification]
#[verifier::external_body]
pub struct ExSynExpr(syn::Expr);

#[verifier::external_type_specification]
#[verifier::external_body]
pub struct ExSynLit(syn::Lit);

#[verifier::external_type_specification]
#[verifier::external_body]
pub struct ExSynBinOp(syn::BinOp);

#[verifier::external_type_specification]
#[verifier::external_body]
pub struct ExSynUnOp(syn::UnOp);

#[verifier::external_type_specification]
#[verifier::external_body]
pub struct ExSynExprPath(syn::ExprPath);

/// What `syn` parses `text` into, as an [`Tree`] (`None` when `text` is not
/// a Rust expression).
pub uninterp spec fn rust_expr_syntax(text: Seq<char>) -> Option<Tree>;

/// Parses Rust expression text with `syn::parse_str::<syn::Expr>` and
/// converts the tree node for node. The contract claims only that the
/// result is a function of the text (it is named, not described).
#[verifier::external_body]
pub fn parse_rust_expr(text: &str) -> (r: Option<Tree>)
    ensures
        r == rust_expr_syntax(text@),
{
    match syn::parse_str::<syn::Expr>(text) {
        Ok(e) => Some(expr_node(&e)),
        Err(_) => None,
    }
}

/// One `syn` expression node converted to the model (children converted the
/// same way). Nothing is promised of it beyond what [`parse_rust_expr`] names.
#[verifier::external_body]
fn expr_node(e: &syn::Expr) -> Tree {
    match e {
        syn::Expr::Lit(x) => Tree::Literal(lit_node(&x.lit)),
        syn::Expr::Path(x) => path_node(x),
        syn::Expr::Unary(x) => Tree::Unary(unop_node(&x.op), boxed(&x.expr)),
        syn::Expr::Binary(x) => Tree::Binary(binop_node(&x.op), boxed(&x.left), boxed(&x.right)),
        syn::Expr::Paren(x) => Tree::Paren(boxed(&x.expr)),
        other => access_node(other),
    }
}

/// Groups, field and index accesses, and everything else as opaque text.
#[verifier::external_body]
fn access_node(e: &syn::Expr) -> Tree {
    match e {
        syn::Expr::Group(x) => Tree::Group(boxed(&x.expr)),
        syn::Expr::Field(x) => Tree::Field(boxed(&x.base), x.member.to_token_stream().to_string()),
        syn::Expr::Index(x) => Tree::Index(boxed(&x.expr), boxed(&x.index)),
        other => Tree::Opaque(other.to_token_stream().to_string()),
    }
}

#[verifier::external_body]
fn boxed(e: &syn::Expr) -> Box<Tree> {
    Box::new(expr_node(e))
}

#[verifier::external_body]
fn lit_node(l: &syn::Lit) -> Literal {
    match l {
        syn::Lit::Int(x) => Literal::Int {
            value: x.base10_parse::<i128>().ok(),
            text: x.to_token_stream().to_string(),
        },
        syn::Lit::Bool(x) => Literal::Bool(x.value),
        other => Literal::Other(other.to_token_stream().to_string()),
    }
}

#[verifier::external_body]
fn path_node(p: &syn::ExprPath) -> Tree {
    match (&p.qself, p.path.get_ident()) {
        (None, Some(ident)) => Tree::Ident(ident.to_string()),
        (q, _) => Tree::Path { qself: q.is_some(), text: p.to_token_stream().to_string() },
    }
}

#[verifier::external_body]
fn binop_node(op: &syn::BinOp) -> BinaryOp {
    match op {
        syn::BinOp::Add(_) => BinaryOp::Add,
        syn::BinOp::Sub(_) => BinaryOp::Sub,
        syn::BinOp::Mul(_) => BinaryOp::Mul,
        syn::BinOp::Div(_) => BinaryOp::Div,
        syn::BinOp::Rem(_) => BinaryOp::Rem,
        syn::BinOp::And(_) => BinaryOp::And,
        syn::BinOp::Or(_) => BinaryOp::Or,
        other => relation_node(other),
    }
}

#[verifier::external_body]
fn relation_node(op: &syn::BinOp) -> BinaryOp {
    match op {
        syn::BinOp::Eq(_) => BinaryOp::Eq,
        syn::BinOp::Lt(_) => BinaryOp::Lt,
        syn::BinOp::Le(_) => BinaryOp::Le,
        syn::BinOp::Ne(_) => BinaryOp::Ne,
        syn::BinOp::Ge(_) => BinaryOp::Ge,
        syn::BinOp::Gt(_) => BinaryOp::Gt,
        other => BinaryOp::Other(other.to_token_stream().to_string()),
    }
}

#[verifier::external_body]
fn unop_node(op: &syn::UnOp) -> UnaryOp {
    match op {
        syn::UnOp::Neg(_) => UnaryOp::Neg,
        syn::UnOp::Not(_) => UnaryOp::Not,
        other => UnaryOp::Other(other.to_token_stream().to_string()),
    }
}

// ── The spec-side view of the model ────────────────────────────────────────

pub enum LiteralV {
    Int { value: Option<i128>, text: Seq<char> },
    Bool(bool),
    Other(Seq<char>),
}

pub enum BinaryOpV {
    Add,
    Sub,
    Mul,
    Div,
    Rem,
    And,
    Or,
    Eq,
    Lt,
    Le,
    Ne,
    Ge,
    Gt,
    Other(Seq<char>),
}

pub enum UnaryOpV {
    Neg,
    Not,
    Other(Seq<char>),
}

pub enum TreeV {
    Literal(LiteralV),
    Ident(Seq<char>),
    Path { qself: bool, text: Seq<char> },
    Unary(UnaryOpV, Box<TreeV>),
    Binary(BinaryOpV, Box<TreeV>, Box<TreeV>),
    Paren(Box<TreeV>),
    Group(Box<TreeV>),
    Field(Box<TreeV>, Seq<char>),
    Index(Box<TreeV>, Box<TreeV>),
    Opaque(Seq<char>),
}

impl View for Literal {
    type V = LiteralV;

    open spec fn view(&self) -> LiteralV {
        match self {
            Literal::Int { value, text } => LiteralV::Int { value: *value, text: text@ },
            Literal::Bool(b) => LiteralV::Bool(*b),
            Literal::Other(t) => LiteralV::Other(t@),
        }
    }
}

impl View for BinaryOp {
    type V = BinaryOpV;

    open spec fn view(&self) -> BinaryOpV {
        match self {
            BinaryOp::Add => BinaryOpV::Add,
            BinaryOp::Sub => BinaryOpV::Sub,
            BinaryOp::Mul => BinaryOpV::Mul,
            BinaryOp::Div => BinaryOpV::Div,
            BinaryOp::Rem => BinaryOpV::Rem,
            BinaryOp::And => BinaryOpV::And,
            BinaryOp::Or => BinaryOpV::Or,
            BinaryOp::Eq => BinaryOpV::Eq,
            BinaryOp::Lt => BinaryOpV::Lt,
            BinaryOp::Le => BinaryOpV::Le,
            BinaryOp::Ne => BinaryOpV::Ne,
            BinaryOp::Ge => BinaryOpV::Ge,
            BinaryOp::Gt => BinaryOpV::Gt,
            BinaryOp::Other(t) => BinaryOpV::Other(t@),
        }
    }
}

impl View for UnaryOp {
    type V = UnaryOpV;

    open spec fn view(&self) -> UnaryOpV {
        match self {
            UnaryOp::Neg => UnaryOpV::Neg,
            UnaryOp::Not => UnaryOpV::Not,
            UnaryOp::Other(t) => UnaryOpV::Other(t@),
        }
    }
}

pub open spec fn tree_view(e: Tree) -> TreeV
    decreases e,
{
    match e {
        Tree::Literal(l) => TreeV::Literal(l@),
        Tree::Ident(n) => TreeV::Ident(n@),
        Tree::Path { qself, text } => TreeV::Path { qself, text: text@ },
        Tree::Unary(op, x) => TreeV::Unary(op@, Box::new(tree_view(*x))),
        Tree::Binary(op, l, r) => TreeV::Binary(
            op@,
            Box::new(tree_view(*l)),
            Box::new(tree_view(*r)),
        ),
        Tree::Paren(x) => TreeV::Paren(Box::new(tree_view(*x))),
        Tree::Group(x) => TreeV::Group(Box::new(tree_view(*x))),
        Tree::Field(x, m) => TreeV::Field(Box::new(tree_view(*x)), m@),
        Tree::Index(x, i) => TreeV::Index(Box::new(tree_view(*x)), Box::new(tree_view(*i))),
        Tree::Opaque(t) => TreeV::Opaque(t@),
    }
}

impl View for Tree {
    type V = TreeV;

    open spec fn view(&self) -> TreeV {
        tree_view(*self)
    }
}

// ── Copying and structural equality ────────────────────────────────────────

impl Literal {
    pub fn duplicate(&self) -> (r: Literal)
        ensures
            r@ == self@,
    {
        match self {
            Literal::Int { value, text } => Literal::Int { value: *value, text: text.clone() },
            Literal::Bool(b) => Literal::Bool(*b),
            Literal::Other(t) => Literal::Other(t.clone()),
        }
    }

    pub fn same(&self, other: &Literal) -> (r: bool)
        ensures
            r == (self@ == other@),
    {
        match (self, other) {
            (Literal::Int { value: v1, text: t1 }, Literal::Int { value: v2, text: t2 }) => {
                let same_value = match (v1, v2) {
                    (Some(a), Some(b)) => *a == *b,
                    (None, None) => true,
                    _ => false,
                };
                same_value && *t1 == *t2
            },
            (Literal::Bool(a), Literal::Bool(b)) => *a == *b,
            (Literal::Other(a), Literal::Other(b)) => *a == *b,
            _ => false,
        }
    }
}

impl BinaryOpV {
    /// The operator's source spelling.
    pub open spec fn spec_text(self) -> Seq<char> {
        match self {
            BinaryOpV::Add => "+"@,
            BinaryOpV::Sub => "-"@,
            BinaryOpV::Mul => "*"@,
            BinaryOpV::Div => "/"@,
            BinaryOpV::Rem => "%"@,
            BinaryOpV::And => "&&"@,
            BinaryOpV::Or => "||"@,
            BinaryOpV::Eq => "=="@,
            BinaryOpV::Lt => "<"@,
            BinaryOpV::Le => "<="@,
            BinaryOpV::Ne => "!="@,
            BinaryOpV::Ge => ">="@,
            BinaryOpV::Gt => ">"@,
            BinaryOpV::Other(t) => t,
        }
    }
}

impl UnaryOpV {
    pub open spec fn spec_text(self) -> Seq<char> {
        match self {
            UnaryOpV::Neg => "-"@,
            UnaryOpV::Not => "!"@,
            UnaryOpV::Other(t) => t,
        }
    }
}

impl BinaryOp {
    pub fn duplicate(&self) -> (r: BinaryOp)
        ensures
            r@ == self@,
    {
        match self {
            BinaryOp::Add => BinaryOp::Add,
            BinaryOp::Sub => BinaryOp::Sub,
            BinaryOp::Mul => BinaryOp::Mul,
            BinaryOp::Div => BinaryOp::Div,
            BinaryOp::Rem => BinaryOp::Rem,
            BinaryOp::And => BinaryOp::And,
            BinaryOp::Or => BinaryOp::Or,
            BinaryOp::Eq => BinaryOp::Eq,
            BinaryOp::Lt => BinaryOp::Lt,
            BinaryOp::Le => BinaryOp::Le,
            BinaryOp::Ne => BinaryOp::Ne,
            BinaryOp::Ge => BinaryOp::Ge,
            BinaryOp::Gt => BinaryOp::Gt,
            BinaryOp::Other(t) => BinaryOp::Other(t.clone()),
        }
    }

    pub fn same(&self, other: &BinaryOp) -> (r: bool)
        ensures
            r == (self@ == other@),
    {
        match (self, other) {
            (BinaryOp::Other(a), BinaryOp::Other(b)) => *a == *b,
            (BinaryOp::Add, BinaryOp::Add) => true,
            (BinaryOp::Sub, BinaryOp::Sub) => true,
            (BinaryOp::Mul, BinaryOp::Mul) => true,
            (BinaryOp::Div, BinaryOp::Div) => true,
            (BinaryOp::Rem, BinaryOp::Rem) => true,
            (BinaryOp::And, BinaryOp::And) => true,
            (BinaryOp::Or, BinaryOp::Or) => true,
            (BinaryOp::Eq, BinaryOp::Eq) => true,
            (BinaryOp::Lt, BinaryOp::Lt) => true,
            (BinaryOp::Le, BinaryOp::Le) => true,
            (BinaryOp::Ne, BinaryOp::Ne) => true,
            (BinaryOp::Ge, BinaryOp::Ge) => true,
            (BinaryOp::Gt, BinaryOp::Gt) => true,
            _ => false,
        }
    }

    pub fn text(&self) -> (r: String)
        ensures
            r@ == self@.spec_text(),
    {
        match self {
            BinaryOp::Add => String::from_str("+"),
            BinaryOp::Sub => String::from_str("-"),
            BinaryOp::Mul => String::from_str("*"),
            BinaryOp::Div => String::from_str("/"),
            BinaryOp::Rem => String::from_str("%"),
            BinaryOp::And => String::from_str("&&"),
            BinaryOp::Or => String::from_str("||"),
            BinaryOp::Eq => String::from_str("=="),
            BinaryOp::Lt => String::from_str("<"),
            BinaryOp::Le => String::from_str("<="),
            BinaryOp::Ne => String::from_str("!="),
            BinaryOp::Ge => String::from_str(">="),
            BinaryOp::Gt => String::from_str(">"),
            BinaryOp::Other(t) => t.clone(),
        }
    }
}

impl UnaryOp {
    pub fn duplicate(&self) -> (r: UnaryOp)
        ensures
            r@ == self@,
    {
        match self {
            UnaryOp::Neg => UnaryOp::Neg,
            UnaryOp::Not => UnaryOp::Not,
            UnaryOp::Other(t) => UnaryOp::Other(t.clone()),
        }
    }

    pub fn same(&self, other: &UnaryOp) -> (r: bool)
        ensures
            r == (self@ == other@),
    {
        match (self, other) {
            (UnaryOp::Neg, UnaryOp::Neg) => true,
            (UnaryOp::Not, UnaryOp::Not) => true,
            (UnaryOp::Other(a), UnaryOp::Other(b)) => *a == *b,
            _ => false,
        }
    }

    pub fn text(&self) -> (r: String)
        ensures
            r@ == self@.spec_text(),
    {
        match self {
            UnaryOp::Neg => String::from_str("-"),
            UnaryOp::Not => String::from_str("!"),
            UnaryOp::Other(t) => t.clone(),
        }
    }
}

impl Tree {
    /// A deep copy.
    pub fn duplicate(&self) -> (r: Tree)
        ensures
            r@ == self@,
        decreases self,
    {
        match self {
            Tree::Literal(l) => Tree::Literal(l.duplicate()),
            Tree::Ident(n) => Tree::Ident(n.clone()),
            Tree::Path { qself, text } => Tree::Path { qself: *qself, text: text.clone() },
            Tree::Unary(op, e) => Tree::Unary(op.duplicate(), Box::new((**e).duplicate())),
            Tree::Binary(op, l, r) => Tree::Binary(
                op.duplicate(),
                Box::new((**l).duplicate()),
                Box::new((**r).duplicate()),
            ),
            Tree::Paren(e) => Tree::Paren(Box::new((**e).duplicate())),
            Tree::Group(e) => Tree::Group(Box::new((**e).duplicate())),
            Tree::Field(e, m) => Tree::Field(Box::new((**e).duplicate()), m.clone()),
            Tree::Index(e, i) => Tree::Index(Box::new((**e).duplicate()), Box::new((**i).duplicate())),
            Tree::Opaque(t) => Tree::Opaque(t.clone()),
        }
    }

    /// Structural equality: same tree, same operators, same leaf tokens.
    pub fn same(&self, other: &Tree) -> (r: bool)
        ensures
            r == (self@ == other@),
        decreases self,
    {
        match (self, other) {
            (Tree::Literal(a), Tree::Literal(b)) => a.same(b),
            (Tree::Ident(a), Tree::Ident(b)) => *a == *b,
            (Tree::Path { qself: q1, text: t1 }, Tree::Path { qself: q2, text: t2 }) => *q1 == *q2
                && *t1 == *t2,
            (Tree::Unary(o1, e1), Tree::Unary(o2, e2)) => o1.same(o2) && (**e1).same(&**e2),
            (Tree::Binary(o1, l1, r1), Tree::Binary(o2, l2, r2)) => o1.same(o2) && (**l1).same(
                &**l2,
            ) && (**r1).same(&**r2),
            (Tree::Paren(a), Tree::Paren(b)) => (**a).same(&**b),
            (Tree::Group(a), Tree::Group(b)) => (**a).same(&**b),
            (Tree::Field(a, m1), Tree::Field(b, m2)) => (**a).same(&**b) && *m1 == *m2,
            (Tree::Index(a, i1), Tree::Index(b, i2)) => (**a).same(&**b) && (**i1).same(&**i2),
            (Tree::Opaque(a), Tree::Opaque(b)) => *a == *b,
            _ => false,
        }
    }
}

// ── Rendering back to source text ──────────────────────────────────────────

pub open spec fn spec_lit_text(l: LiteralV) -> Seq<char> {
    match l {
        LiteralV::Int { value: _, text } => text,
        LiteralV::Bool(b) => if b { "true"@ } else { "false"@ },
        LiteralV::Other(t) => t,
    }
}

/// Source text for an expression, tokens separated by single spaces.
pub open spec fn spec_render(e: TreeV) -> Seq<char>
    decreases e,
{
    match e {
        TreeV::Literal(l) => spec_lit_text(l),
        TreeV::Ident(n) => n,
        TreeV::Path { qself: _, text } => text,
        TreeV::Unary(op, x) => op.spec_text() + " "@ + spec_render(*x),
        TreeV::Binary(op, l, r) => spec_render(*l) + " "@ + op.spec_text() + " "@ + spec_render(*r),
        TreeV::Paren(x) => "("@ + spec_render(*x) + ")"@,
        TreeV::Group(x) => spec_render(*x),
        TreeV::Field(x, m) => spec_render(*x) + " . "@ + m,
        TreeV::Index(x, i) => spec_render(*x) + " ["@ + spec_render(*i) + "]"@,
        TreeV::Opaque(t) => t,
    }
}

fn lit_text(l: &Literal) -> (r: String)
    ensures
        r@ == spec_lit_text(l@),
{
    match l {
        Literal::Int { value: _, text } => text.clone(),
        Literal::Bool(b) => if *b {
            String::from_str("true")
        } else {
            String::from_str("false")
        },
        Literal::Other(t) => t.clone(),
    }
}

/// Appends the rendering of `e` to `out`.
pub fn render_into(e: &Tree, out: &mut String)
    ensures
        final(out)@ == old(out)@ + spec_render(e@),
    decreases e,
{
    match e {
        Tree::Literal(l) => {
            let t = lit_text(l);
            push_str(out, t.as_str());
        },
        Tree::Ident(n) => push_str(out, n.as_str()),
        Tree::Path { qself: _, text } => push_str(out, text.as_str()),
        Tree::Unary(op, x) => {
            let t = op.text();
            push_str(out, t.as_str());
            push_str(out, " ");
            render_into(&**x, out);
        },
        Tree::Binary(op, l, r) => {
            render_into(&**l, out);
            push_str(out, " ");
            let t = op.text();
            push_str(out, t.as_str());
            push_str(out, " ");
            render_into(&**r, out);
        },
        Tree::Paren(x) => {
            push_str(out, "(");
            render_into(&**x, out);
            push_str(out, ")");
        },
        Tree::Group(x) => render_into(&**x, out),
        Tree::Field(x, m) => {
            render_into(&**x, out);
            push_str(out, " . ");
            push_str(out, m.as_str());
        },
        Tree::Index(x, i) => {
            render_into(&**x, out);
            push_str(out, " [");
            render_into(&**i, out);
            push_str(out, "]");
        },
        Tree::Opaque(t) => push_str(out, t.as_str()),
    }
}

/// The source text of `e`.
pub fn render(e: &Tree) -> (r: String)
    ensures
        r@ == spec_render(e@),
{
    let mut out = String::new();
    render_into(e, &mut out);
    out
}

/// The model of an integer literal with value `v` (a negative one is a
/// negated literal, as Rust writes it).
pub open spec fn spec_int_literal(v: int) -> TreeV {
    if v < 0 {
        TreeV::Unary(UnaryOpV::Neg, Box::new(spec_nonneg_literal(-v)))
    } else {
        spec_nonneg_literal(v)
    }
}

pub open spec fn spec_nonneg_literal(v: int) -> TreeV {
    TreeV::Literal(LiteralV::Int { value: Some(v as i128), text: spec_int_text(v) })
}

/// Builds the literal expression for `v`.
pub fn int_literal_expr(v: i128) -> (r: Tree)
    requires
        v > i128::MIN,
    ensures
        r@ == spec_int_literal(v as int),
{
    if v < 0 {
        let t = int_to_text(-v);
        let lit = Tree::Literal(Literal::Int { value: Some(-v), text: t });
        assert(lit@ == spec_nonneg_literal(-v as int));
        let r = Tree::Unary(UnaryOp::Neg, Box::new(lit));
        assert(r@ == TreeV::Unary(UnaryOpV::Neg, Box::new(lit@)));
        r
    } else {
        let t = int_to_text(v);
        Tree::Literal(Literal::Int { value: Some(v), text: t })
    }
}

} // verus!
