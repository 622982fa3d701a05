//! A Rust source file as a uniform tree of syntax nodes, as far as the
//! checks need to see into it.
//!
//! `syn` parses the file; each `syn` node the checks care about becomes a
//! [`Node`] of a given [`Kind`], its children in the order `syn::visit`
//! visits them. Everything else is kept as a generic node of the matching
//! family (`ItemOther`, `ExprOther`, `TypeOther`, `PatOther`) so that what
//! lies inside it is still reached.
//!
//! The conversion is trusted: [`parse_rust_file`] names its result
//! ([`rust_file_syntax`]); every check is a verified function of the tree.

use vstd::prelude::*;

verus! {

/// Where a piece of syntax lies: its byte range in the source, and the
/// line (from 1) and column (from 0, in characters) where it starts.
#[derive(Debug, Clone, Copy, PartialEq, Eq, Structural)]
pub struct Loc {
    pub start: usize,
    pub end: usize,
    pub line: usize,
    pub column: usize,
}

/// What a [`Node`] is.
#[derive(Debug, Clone, Copy, PartialEq, Eq, Structural)]
pub enum Kind {
    /// The whole file: attributes, then items.
    SourceFile,
    /// A `fn` (free, in an `impl`, in a trait, or foreign): `name` is its
    /// ident; children are its attributes, its `FnSig`, and its body block
    /// when it has one; `span` covers the whole item.
    FnItem,
    /// A signature: `name` is the ident, `flag` whether it is `unsafe`,
    /// `aux` the `unsafe` token (or the signature when there is none);
    /// children are generic parameters, where-predicates, parameters and
    /// the return type.
    FnSig,
    /// A typed parameter: children are its pattern and its type.
    Param,
    /// A `self` parameter: children are its written lifetime, if any, and
    /// its type.
    SelfParam,
    /// An `impl` block: `name` is the last segment of its `Self` type when
    /// that is a path (empty otherwise), `flag` whether it is `unsafe`,
    /// `aux` the `unsafe` token; children are attributes, generics, the
    /// trait path, the `Self` type and the items.
    ImplBlock,
    /// A trait: `name`, `flag` (unsafe) and `aux` as for an `impl`;
    /// children are attributes, generics, supertraits and items.
    TraitDef,
    /// An inline module: children are attributes and items.
    ModDef,
    /// Any other item.
    ItemOther,
    /// An attribute: `name` is the last segment of its path; `flag` whether
    /// it has a parenthesized argument list, whose tokens are `text` (as
    /// printed) and whose token trees are the children.
    Attr,
    /// A generic parameter or where-predicate.
    GenericParam,
    /// A trait bound: `name` is the last segment of the trait's path;
    /// children are its `for<..>` lifetimes and its path.
    Bound,
    /// A block: children are its statements.
    BlockNode,
    /// A `let` statement: children are the pattern, the initializer and
    /// the `else` branch.
    LocalLet,
    /// A call: children are the callee and the arguments.
    Call,
    /// A method call: `name` is the method, `aux` its span; children are
    /// the receiver, the turbofish arguments and the arguments.
    MethodCall,
    /// A path (in expression, type or pattern position): `flag` whether it
    /// starts with `::`; children are the qualified self type (a `QSelf`
    /// node), if any, then the segments.
    PathNode,
    /// A path segment: `name` its ident, `text` `"<>"`, `"()"` or empty
    /// for its argument form; children are the arguments.
    Segment,
    /// A qualified self type `<T as ..>`: the child is the type.
    QSelf,
    /// A type generic argument: the child is the type.
    TypeArg,
    /// Any other generic argument.
    ArgOther,
    /// `if`: children are the condition, the then block and the else
    /// branch.
    IfExpr,
    /// `while`: `flag` whether it has a label; children are the label, the
    /// condition and the body.
    WhileExpr,
    /// `match`: `aux` is the `match` keyword; children are the scrutinee
    /// and the arms.
    MatchExpr,
    /// A match arm: `flag` whether it has a guard; children are the
    /// pattern, the guard and the body.
    ArmNode,
    /// A binary operation: `name` is the operator as written, `aux` its
    /// span; children are the operands.
    Binary,
    /// A unary operation: `name` is the operator; the child is the operand.
    Unary,
    /// `( e )`
    Paren,
    /// An invisible group.
    Group,
    /// A literal.
    Lit,
    /// `let` in a condition: children are the pattern and the expression.
    LetCond,
    /// A closure: children are its `for<..>` lifetimes, its parameter
    /// patterns, its return type and its body.
    Closure,
    /// An `unsafe` block: `aux` is the `unsafe` token; the child is the
    /// block.
    UnsafeBlock,
    /// `&raw const e` / `&raw mut e`: the child is the operand.
    RawAddr,
    /// A macro invocation: `name` is the last segment of its path (empty
    /// when there is none).
    MacroCall,
    /// Any other expression.
    ExprOther,
    /// A trait object type `dyn ..`: children are the bounds.
    TraitObject,
    /// Any other type.
    TypeOther,
    /// A lifetime: `name` is its ident (without the `'`).
    LifetimeNode,
    /// An identifier pattern: `name` is the ident; the child is its
    /// subpattern, if any.
    PatIdent,
    /// `_`
    PatWild,
    /// Any other pattern.
    PatOther,
    /// A token tree of an attribute's arguments: an identifier (`name`).
    TokIdent,
    /// A punctuation character (`name`).
    TokPunct,
    /// A literal token (`name` as written).
    TokLit,
    /// A delimited group: `name` is the opening delimiter (`(`, `[`, `{`,
    /// or empty for an invisible one); children are the inner tokens.
    TokGroup,
}

/// One syntax node.
#[derive(Debug)]
pub struct Node {
    pub kind: Kind,
    pub name: String,
    pub text: String,
    pub flag: bool,
    pub span: Loc,
    pub aux: Loc,
    pub children: Vec<Node>,
}

/// A node with every field given.
pub fn mk(kind: Kind, name: String, text: String, flag: bool, span: Loc, aux: Loc, children: Vec<Node>) -> (r: Node)
    ensures
        r == (Node { kind, name, text, flag, span, aux, children }),
{
    Node { kind, name, text, flag, span, aux, children }
}

/// A node with only a kind, a span and children.
pub fn group(kind: Kind, span: Loc, children: Vec<Node>) -> (r: Node)
    ensures
        r.kind == kind,
        r.name@ == Seq::<char>::empty(),
        r.text@ == Seq::<char>::empty(),
        !r.flag,
        r.span == span,
        r.aux == span,
        r.children == children,
{
    Node { kind, name: String::new(), text: String::new(), flag: false, span, aux: span, children }
}

/// A node with a name, a span and children.
pub fn named(kind: Kind, name: String, span: Loc, children: Vec<Node>) -> (r: Node)
    ensures
        r.kind == kind,
        r.name == name,
        r.text@ == Seq::<char>::empty(),
        !r.flag,
        r.span == span,
        r.aux == span,
        r.children == children,
{
    Node { kind, name, text: String::new(), flag: false, span, aux: span, children }
}

/// A childless node.
pub fn leaf(kind: Kind, span: Loc) -> (r: Node)
    ensures
        r.kind == kind,
        r.name@ == Seq::<char>::empty(),
        r.children@.len() == 0,
        r.span == span,
{
    group(kind, span, Vec::new())
}

} // verus!

