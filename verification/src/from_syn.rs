//! Parsing a Rust source file with `syn` and converting it, node for node,
//! into a [`Node`] tree. Every function here is trusted: it only moves what
//! `syn` parsed into the tree, one `syn` node to one tree node (or to its
//! children's list), children in the order `syn::visit` visits them.

use vstd::prelude::*;

use quote::ToTokens;
use syn::spanned::Spanned;

use crate::syntax::{group, leaf, mk, named, Kind, Loc, Node};

verus! {

#[verifier::external_type_specification]
#[verifier::external_body]
pub struct ExSynFile(syn::File);

#[verifier::external_type_specification]
#[verifier::external_body]
pub struct ExSynItem(syn::Item);

#[verifier::external_type_specification]
#[verifier::external_body]
pub struct ExSynItemImpl(syn::ItemImpl);

#[verifier::external_type_specification]
#[verifier::external_body]
pub struct ExSynItemTrait(syn::ItemTrait);

#[verifier::external_type_specification]
#[verifier::external_body]
pub struct ExSynItemMod(syn::ItemMod);

#[verifier::external_type_specification]
#[verifier::external_body]
pub struct ExSynImplItem(syn::ImplItem);

#[verifier::external_type_specification]
#[verifier::external_body]
pub struct ExSynTraitItem(syn::TraitItem);

#[verifier::external_type_specification]
#[verifier::external_body]
pub struct ExSynForeignItem(syn::ForeignItem);

#[verifier::external_type_specification]
#[verifier::external_body]
pub struct ExSynVariant(syn::Variant);

#[verifier::external_type_specification]
#[verifier::external_body]
pub struct ExSynFields(syn::Fields);

#[verifier::external_type_specification]
#[verifier::external_body]
pub struct ExSynAttribute(syn::Attribute);

#[verifier::external_type_specification]
#[verifier::external_body]
pub struct ExSynPath(syn::Path);

#[verifier::external_type_specification]
#[verifier::external_body]
pub struct ExSynPathSegment(syn::PathSegment);

#[verifier::external_type_specification]
#[verifier::external_body]
pub struct ExSynQSelf(syn::QSelf);

#[verifier::external_type_specification]
#[verifier::external_body]
pub struct ExSynGenericArgument(syn::GenericArgument);

#[verifier::external_type_specification]
#[verifier::external_body]
pub struct ExSynGenericParam(syn::GenericParam);

#[verifier::external_type_specification]
#[verifier::external_body]
pub struct ExSynGenerics(syn::Generics);

#[verifier::external_type_specification]
#[verifier::external_body]
pub struct ExSynWherePredicate(syn::WherePredicate);

#[verifier::external_type_specification]
#[verifier::external_body]
pub struct ExSynBoundLifetimes(syn::BoundLifetimes);

#[verifier::external_type_specification]
#[verifier::external_body]
pub struct ExSynTypeParamBound(syn::TypeParamBound);

#[verifier::external_type_specification]
#[verifier::external_body]
pub struct ExSynLifetime(syn::Lifetime);

#[verifier::external_type_specification]
#[verifier::external_body]
pub struct ExSynType(syn::Type);

#[verifier::external_type_specification]
#[verifier::external_body]
pub struct ExSynReturnType(syn::ReturnType);

#[verifier::external_type_specification]
#[verifier::external_body]
pub struct ExSynBlock(syn::Block);

#[verifier::external_type_specification]
#[verifier::external_body]
pub struct ExSynStmt(syn::Stmt);

#[verifier::external_type_specification]
#[verifier::external_body]
pub struct ExSynLocal(syn::Local);

#[verifier::external_type_specification]
#[verifier::external_body]
pub struct ExSynArm(syn::Arm);

#[verifier::external_type_specification]
#[verifier::external_body]
pub struct ExSynPat(syn::Pat);

#[verifier::external_type_specification]
#[verifier::external_body]
pub struct ExSynMacro(syn::Macro);

#[verifier::external_type_specification]
#[verifier::external_body]
pub struct ExSynSignature(syn::Signature);

#[verifier::external_type_specification]
#[verifier::external_body]
pub struct ExSynFnArg(syn::FnArg);

#[verifier::external_type_specification]
#[verifier::external_body]
pub struct ExSynUnsafe(syn::token::Unsafe);

#[verifier::external_type_specification]
#[verifier::external_body]
pub struct ExProcSpan(proc_macro2::Span);

#[verifier::external_type_specification]
#[verifier::external_body]
pub struct ExProcTokenStream(proc_macro2::TokenStream);

#[verifier::external_type_specification]
#[verifier::external_body]
pub struct ExProcTokenTree(proc_macro2::TokenTree);

#[verifier::external_type_specification]
#[verifier::external_body]
pub struct ExProcGroup(proc_macro2::Group);

#[verifier::external_type_specification]
#[verifier::external_body]
pub struct ExSynCapturedParam(syn::CapturedParam);

#[verifier::external_type_specification]
#[verifier::external_body]
pub struct ExSynExprMethodCall(syn::ExprMethodCall);

#[verifier::external_type_specification]
#[verifier::external_body]
pub struct ExSynLabel(syn::Label);

#[verifier::external_type_specification]
#[verifier::external_body]
pub struct ExSynExprWhile(syn::ExprWhile);

#[verifier::external_type_specification]
#[verifier::external_body]
pub struct ExSynExprMatch(syn::ExprMatch);

#[verifier::external_type_specification]
#[verifier::external_body]
pub struct ExSynExprBinary(syn::ExprBinary);

#[verifier::external_type_specification]
#[verifier::external_body]
pub struct ExSynTypeReference(syn::TypeReference);

#[verifier::external_type_specification]
#[verifier::external_body]
pub struct ExSynAngleBracketedGenericArguments(syn::AngleBracketedGenericArguments);

#[verifier::external_type_specification]
#[verifier::external_body]
pub struct ExSynTraitBound(syn::TraitBound);

#[verifier::external_type_specification]
#[verifier::external_body]
pub struct ExSynExprIf(syn::ExprIf);

#[verifier::external_type_specification]
#[verifier::external_body]
pub struct ExSynExprClosure(syn::ExprClosure);

#[verifier::external_type_specification]
#[verifier::external_body]
pub struct ExSynExprStruct(syn::ExprStruct);

#[verifier::external_type_specification]
#[verifier::external_body]
pub struct ExSynComma(syn::token::Comma);

#[verifier::external_type_specification]
#[verifier::external_body]
#[verifier::reject_recursive_types(T)]
#[verifier::reject_recursive_types(P)]
pub struct ExSynPunctuated<T, P>(syn::punctuated::Punctuated<T, P>);

/// What `syn` makes of a source file: the [`Node`] tree of its syntax, or
/// the message of the parse error.
pub uninterp spec fn rust_file_syntax(text: Seq<char>) -> Result<Node, String>;

/// Parses `text` with `syn::parse_str::<syn::File>` and converts the file
/// node for node; on a parse error, the error's message. The contract
/// claims only that the result is a function of the text (it is named,
/// not described).
#[verifier::external_body]
pub fn parse_rust_file(text: &str) -> (r: Result<Node, String>)
    ensures
        r == rust_file_syntax(text@),
{
    match syn::parse_str::<syn::File>(text) {
        Ok(f) => Ok(file_node(&f)),
        Err(e) => Err(e.to_string()),
    }
}

#[verifier::external_body]
fn loc(s: proc_macro2::Span) -> Loc {
    let r = s.byte_range();
    let lc = s.start();
    Loc { start: r.start, end: r.end, line: lc.line, column: lc.column }
}

#[verifier::external_body]
fn unsafe_loc(u: &Option<syn::token::Unsafe>, otherwise: proc_macro2::Span) -> Loc {
    match u {
        Some(u) => loc(u.span),
        None => loc(otherwise),
    }
}

#[verifier::external_body]
fn last_ident(p: &syn::Path) -> String {
    match p.segments.last() {
        Some(s) => s.ident.to_string(),
        None => String::new(),
    }
}

#[verifier::external_body]
fn file_node(f: &syn::File) -> Node {
    group(Kind::SourceFile, loc(f.span()), [attrs(&f.attrs), items(&f.items)].into_iter().flatten().collect())
}

#[verifier::external_body]
fn attrs(a: &Vec<syn::Attribute>) -> Vec<Node> {
    a.iter().map(attr_node).collect()
}

#[verifier::external_body]
fn items(v: &Vec<syn::Item>) -> Vec<Node> {
    v.iter().map(item_node).collect()
}

// ── Attributes and tokens ──────────────────────────────────────────────────

#[verifier::external_body]
fn attr_node(a: &syn::Attribute) -> Node {
    match &a.meta {
        syn::Meta::Path(p) => named(Kind::Attr, last_ident(p), loc(a.span()), vec![]),
        syn::Meta::List(l) => {
            let toks = tokens(&l.tokens);
            mk(Kind::Attr, last_ident(&l.path), l.tokens.to_string(), true, loc(a.span()), loc(l.span()), toks)
        },
        syn::Meta::NameValue(nv) => named(Kind::Attr, last_ident(&nv.path), loc(a.span()), vec![expr(&nv.value)]),
    }
}

#[verifier::external_body]
fn tokens(ts: &proc_macro2::TokenStream) -> Vec<Node> {
    ts.clone().into_iter().map(token).collect()
}

#[verifier::external_body]
fn token(t: proc_macro2::TokenTree) -> Node {
    match t {
        proc_macro2::TokenTree::Group(g) => named(Kind::TokGroup, delim(&g), loc(g.span()), tokens(&g.stream())),
        proc_macro2::TokenTree::Ident(i) => named(Kind::TokIdent, i.to_string(), loc(i.span()), vec![]),
        proc_macro2::TokenTree::Punct(p) => named(Kind::TokPunct, p.as_char().to_string(), loc(p.span()), vec![]),
        proc_macro2::TokenTree::Literal(l) => named(Kind::TokLit, l.to_string(), loc(l.span()), vec![]),
    }
}

#[verifier::external_body]
fn delim(g: &proc_macro2::Group) -> String {
    match g.delimiter() {
        proc_macro2::Delimiter::Parenthesis => "(".to_string(),
        proc_macro2::Delimiter::Bracket => "[".to_string(),
        proc_macro2::Delimiter::Brace => "{".to_string(),
        proc_macro2::Delimiter::None => String::new(),
    }
}

// ── Items ──────────────────────────────────────────────────────────────────

#[verifier::external_body]
fn item_node(i: &syn::Item) -> Node {
    match i {
        syn::Item::Fn(x) => fn_node(&x.attrs, &x.sig, Some(&x.block), loc(x.span())),
        syn::Item::Impl(x) => impl_node(x),
        syn::Item::Trait(x) => trait_node(x),
        syn::Item::Mod(x) => mod_node(x),
        syn::Item::Macro(x) => macro_node(&x.mac),
        other => item_rest(other),
    }
}

#[verifier::external_body]
fn item_rest(i: &syn::Item) -> Node {
    group(Kind::ItemOther, loc(i.span()), item_children(i))
}

#[verifier::external_body]
fn item_children(i: &syn::Item) -> Vec<Node> {
    match i {
        syn::Item::Struct(x) => [attrs(&x.attrs), generics(&x.generics), fields(&x.fields)].into_iter().flatten().collect(),
        syn::Item::Enum(x) => [attrs(&x.attrs), generics(&x.generics), x.variants.iter().map(variant).collect()].into_iter().flatten().collect(),
        other => item_children_b(other),
    }
}

#[verifier::external_body]
fn item_children_b(i: &syn::Item) -> Vec<Node> {
    match i {
        syn::Item::Union(x) => [attrs(&x.attrs), generics(&x.generics), x.fields.named.iter().map(|f| &f.ty).map(ty).collect()].into_iter().flatten().collect(),
        syn::Item::Const(x) => [attrs(&x.attrs), generics(&x.generics), vec![ty(&x.ty), expr(&x.expr)]].into_iter().flatten().collect(),
        other => item_children_c(other),
    }
}

#[verifier::external_body]
fn item_children_c(i: &syn::Item) -> Vec<Node> {
    match i {
        syn::Item::Static(x) => [attrs(&x.attrs), vec![ty(&x.ty), expr(&x.expr)]].into_iter().flatten().collect(),
        syn::Item::Type(x) => [attrs(&x.attrs), generics(&x.generics), vec![ty(&x.ty)]].into_iter().flatten().collect(),
        other => item_children_d(other),
    }
}

/// The children of a foreign block or trait alias. `use` and `extern crate`
/// items, and items `syn` keeps as unparsed tokens, get no children.
#[verifier::external_body]
fn item_children_d(i: &syn::Item) -> Vec<Node> {
    match i {
        syn::Item::ForeignMod(x) => [attrs(&x.attrs), x.items.iter().map(foreign_item).collect()].into_iter().flatten().collect(),
        syn::Item::TraitAlias(x) => [attrs(&x.attrs), generics(&x.generics), x.bounds.iter().map(bound).collect()].into_iter().flatten().collect(),
        _ => vec![],
    }
}

#[verifier::external_body]
fn variant(v: &syn::Variant) -> Node {
    let discriminant: Vec<Node> = v.discriminant.iter().map(|d| &d.1).map(expr).collect();
    group(Kind::ItemOther, loc(v.span()), [fields(&v.fields), discriminant].into_iter().flatten().collect())
}

#[verifier::external_body]
fn fields(f: &syn::Fields) -> Vec<Node> {
    f.iter().map(|x| &x.ty).map(ty).collect()
}

#[verifier::external_body]
fn fn_node(a: &Vec<syn::Attribute>, sig: &syn::Signature, body: Option<&syn::Block>, span: Loc) -> Node {
    let body: Vec<Node> = body.into_iter().map(block).collect();
    named(Kind::FnItem, sig.ident.to_string(), span, [attrs(a), vec![sig_node(sig)], body].into_iter().flatten().collect())
}

#[verifier::external_body]
fn sig_node(s: &syn::Signature) -> Node {
    let children: Vec<Node> = [
        generics(&s.generics),
        s.inputs.iter().map(fn_arg).collect(),
        ret(&s.output),
    ].into_iter().flatten().collect();
    let u = unsafe_loc(&s.unsafety, s.span());
    mk(Kind::FnSig, s.ident.to_string(), String::new(), s.unsafety.is_some(), loc(s.span()), u, children)
}

#[verifier::external_body]
fn fn_arg(a: &syn::FnArg) -> Node {
    match a {
        syn::FnArg::Receiver(r) => {
            let written: Vec<Node> = r.reference.iter().flat_map(|x| x.1.iter()).map(lifetime).collect();
            group(Kind::SelfParam, loc(r.span()), [written, vec![ty(&r.ty)]].into_iter().flatten().collect())
        },
        syn::FnArg::Typed(t) => group(Kind::Param, loc(t.span()), vec![pat(&t.pat), ty(&t.ty)]),
    }
}

#[verifier::external_body]
fn impl_node(x: &syn::ItemImpl) -> Node {
    let children: Vec<Node> = [
        attrs(&x.attrs),
        generics(&x.generics),
        x.trait_.iter().map(|t| &t.1).map(path_node).collect(),
        vec![ty(&x.self_ty)],
        x.items.iter().map(impl_item).collect(),
    ].into_iter().flatten().collect();
    let u = unsafe_loc(&x.unsafety, x.span());
    mk(Kind::ImplBlock, self_name(&x.self_ty), String::new(), x.unsafety.is_some(), loc(x.span()), u, children)
}

/// The name of an `impl`'s self type: the last segment of a path type;
/// empty for any other type (a reference, a tuple, ...).
#[verifier::external_body]
fn self_name(t: &syn::Type) -> String {
    match t {
        syn::Type::Path(p) => last_ident(&p.path),
        _ => String::new(),
    }
}

#[verifier::external_body]
fn impl_item(i: &syn::ImplItem) -> Node {
    match i {
        syn::ImplItem::Fn(f) => fn_node(&f.attrs, &f.sig, Some(&f.block), loc(f.span())),
        syn::ImplItem::Macro(m) => macro_node(&m.mac),
        other => group(Kind::ItemOther, loc(other.span()), impl_item_children(other)),
    }
}

/// The children of an associated `const` or `type` in an `impl`. Items
/// `syn` keeps as unparsed tokens get no children.
#[verifier::external_body]
fn impl_item_children(i: &syn::ImplItem) -> Vec<Node> {
    match i {
        syn::ImplItem::Const(c) => [generics(&c.generics), vec![ty(&c.ty), expr(&c.expr)]].into_iter().flatten().collect(),
        syn::ImplItem::Type(t) => [generics(&t.generics), vec![ty(&t.ty)]].into_iter().flatten().collect(),
        _ => vec![],
    }
}

#[verifier::external_body]
fn trait_node(x: &syn::ItemTrait) -> Node {
    let children: Vec<Node> = [
        attrs(&x.attrs),
        generics(&x.generics),
        x.supertraits.iter().map(bound).collect(),
        x.items.iter().map(trait_item).collect(),
    ].into_iter().flatten().collect();
    let u = unsafe_loc(&x.unsafety, x.span());
    mk(Kind::TraitDef, x.ident.to_string(), String::new(), x.unsafety.is_some(), loc(x.span()), u, children)
}

#[verifier::external_body]
fn trait_item(i: &syn::TraitItem) -> Node {
    match i {
        syn::TraitItem::Fn(f) => fn_node(&f.attrs, &f.sig, f.default.as_ref(), loc(f.span())),
        syn::TraitItem::Macro(m) => macro_node(&m.mac),
        other => group(Kind::ItemOther, loc(other.span()), trait_item_children(other)),
    }
}

/// The children of an associated `const` or `type` in a trait. Items
/// `syn` keeps as unparsed tokens get no children.
#[verifier::external_body]
fn trait_item_children(i: &syn::TraitItem) -> Vec<Node> {
    match i {
        syn::TraitItem::Const(c) => {
            let default = c.default.iter().map(|d| &d.1).map(expr);
            generics(&c.generics).into_iter().chain(Some(ty(&c.ty))).chain(default).collect()
        },
        syn::TraitItem::Type(t) => {
            let default = t.default.iter().map(|d| &d.1).map(ty);
            generics(&t.generics).into_iter().chain(t.bounds.iter().map(bound)).chain(default).collect()
        },
        _ => vec![],
    }
}

#[verifier::external_body]
fn mod_node(x: &syn::ItemMod) -> Node {
    let content: Vec<Node> = x.content.iter().flat_map(|c| c.1.iter()).map(item_node).collect();
    named(Kind::ModDef, x.ident.to_string(), loc(x.span()), [attrs(&x.attrs), content].into_iter().flatten().collect())
}

#[verifier::external_body]
fn foreign_item(i: &syn::ForeignItem) -> Node {
    match i {
        syn::ForeignItem::Fn(f) => fn_node(&f.attrs, &f.sig, None, loc(f.span())),
        syn::ForeignItem::Static(s) => group(Kind::ItemOther, loc(s.span()), vec![ty(&s.ty)]),
        syn::ForeignItem::Macro(m) => macro_node(&m.mac),
        other => leaf(Kind::ItemOther, loc(other.span())),
    }
}

#[verifier::external_body]
fn macro_node(m: &syn::Macro) -> Node {
    let name = last_ident(&m.path);
    mk(Kind::MacroCall, name, String::new(), m.path.segments.last().is_some(), loc(m.span()), loc(m.span()), vec![])
}

// ── Generics, bounds, lifetimes ────────────────────────────────────────────

#[verifier::external_body]
fn generics(g: &syn::Generics) -> Vec<Node> {
    let params: Vec<Node> = g.params.iter().map(generic_param).collect();
    let preds: Vec<Node> = g.where_clause.iter().flat_map(|w| w.predicates.iter()).map(where_pred).collect();
    [params, preds].into_iter().flatten().collect()
}

#[verifier::external_body]
fn generic_param(p: &syn::GenericParam) -> Node {
    let children: Vec<Node> = match p {
        syn::GenericParam::Lifetime(x) => Some(&x.lifetime).into_iter().chain(x.bounds.iter()).map(lifetime).collect(),
        syn::GenericParam::Type(x) => x.bounds.iter().map(bound).chain(x.default.iter().map(ty)).collect(),
        syn::GenericParam::Const(x) => Some(ty(&x.ty)).into_iter().chain(x.default.iter().map(expr)).collect(),
    };
    group(Kind::GenericParam, loc(p.span()), children)
}

#[verifier::external_body]
fn where_pred(p: &syn::WherePredicate) -> Node {
    let children: Vec<Node> = match p {
        syn::WherePredicate::Lifetime(x) => [vec![lifetime(&x.lifetime)], x.bounds.iter().map(lifetime).collect()].into_iter().flatten().collect(),
        syn::WherePredicate::Type(x) => {
            let bounds: Vec<Node> = x.bounds.iter().map(bound).collect();
            [bound_lifetimes(&x.lifetimes), vec![ty(&x.bounded_ty)], bounds].into_iter().flatten().collect()
        },
        _ => vec![],
    };
    group(Kind::GenericParam, loc(p.span()), children)
}

#[verifier::external_body]
fn bound_lifetimes(b: &Option<syn::BoundLifetimes>) -> Vec<Node> {
    b.iter().flat_map(|b| b.lifetimes.iter()).map(generic_param).collect()
}

#[verifier::external_body]
fn bound(b: &syn::TypeParamBound) -> Node {
    match b {
        syn::TypeParamBound::Trait(t) => trait_bound(t),
        syn::TypeParamBound::Lifetime(l) => lifetime(l),
        syn::TypeParamBound::PreciseCapture(p) => group(Kind::TypeOther, loc(p.span()), p.params.iter().map(captured).collect()),
        other => leaf(Kind::TypeOther, loc(other.span())),
    }
}

#[verifier::external_body]
fn trait_bound(t: &syn::TraitBound) -> Node {
    let children: Vec<Node> = bound_lifetimes(&t.lifetimes).into_iter().chain(Some(path_node(&t.path))).collect();
    mk(Kind::Bound, last_ident(&t.path), String::new(), true, loc(t.span()), loc(t.span()), children)
}

#[verifier::external_body]
fn captured(c: &syn::CapturedParam) -> Node {
    match c {
        syn::CapturedParam::Lifetime(l) => lifetime(l),
        other => leaf(Kind::TypeOther, loc(other.span())),
    }
}

#[verifier::external_body]
fn lifetime(l: &syn::Lifetime) -> Node {
    named(Kind::LifetimeNode, l.ident.to_string(), loc(l.span()), vec![])
}

// ── Types and paths ────────────────────────────────────────────────────────

#[verifier::external_body]
fn ty(t: &syn::Type) -> Node {
    match t {
        syn::Type::Path(x) => path_q(&x.qself, &x.path, loc(x.span())),
        syn::Type::TraitObject(x) => group(Kind::TraitObject, loc(x.span()), x.bounds.iter().map(bound).collect()),
        syn::Type::Reference(x) => reference(x),
        syn::Type::Macro(x) => macro_node(&x.mac),
        other => group(Kind::TypeOther, loc(other.span()), ty_children(other)),
    }
}

#[verifier::external_body]
fn reference(x: &syn::TypeReference) -> Node {
    let written = x.lifetime.iter().map(lifetime);
    group(Kind::TypeOther, loc(x.span()), written.chain(Some(ty(&x.elem))).collect())
}

#[verifier::external_body]
fn ty_children(t: &syn::Type) -> Vec<Node> {
    match t {
        syn::Type::Array(x) => vec![ty(&x.elem), expr(&x.len)],
        syn::Type::Slice(x) => vec![ty(&x.elem)],
        syn::Type::Ptr(x) => vec![ty(&x.elem)],
        syn::Type::Tuple(x) => x.elems.iter().map(ty).collect(),
        syn::Type::Paren(x) => vec![ty(&x.elem)],
        other => ty_children_b(other),
    }
}

/// The children of a grouped type, an `impl Trait` or a function pointer.
/// `_`, `!` and types `syn` keeps as unparsed tokens get no children.
#[verifier::external_body]
fn ty_children_b(t: &syn::Type) -> Vec<Node> {
    match t {
        syn::Type::Group(x) => vec![ty(&x.elem)],
        syn::Type::ImplTrait(x) => x.bounds.iter().map(bound).collect(),
        syn::Type::BareFn(x) => {
            let inputs = x.inputs.iter().map(|a| &a.ty).map(ty);
            bound_lifetimes(&x.lifetimes).into_iter().chain(inputs).chain(ret(&x.output)).collect()
        },
        _ => vec![],
    }
}

#[verifier::external_body]
fn ret(r: &syn::ReturnType) -> Vec<Node> {
    match r {
        syn::ReturnType::Default => vec![],
        syn::ReturnType::Type(_, t) => vec![ty(t)],
    }
}

#[verifier::external_body]
fn path_node(p: &syn::Path) -> Node {
    path_q(&None, p, loc(p.span()))
}

#[verifier::external_body]
fn path_q(q: &Option<syn::QSelf>, p: &syn::Path, span: Loc) -> Node {
    let qs: Vec<Node> = q.iter().map(qself).collect();
    let segs: Vec<Node> = p.segments.iter().map(segment).collect();
    mk(Kind::PathNode, String::new(), String::new(), p.leading_colon.is_some(), span, span, [qs, segs].into_iter().flatten().collect())
}

#[verifier::external_body]
fn qself(q: &syn::QSelf) -> Node {
    group(Kind::QSelf, loc(q.ty.span()), vec![ty(&q.ty)])
}

#[verifier::external_body]
fn segment(s: &syn::PathSegment) -> Node {
    let (text, args) = match &s.arguments {
        syn::PathArguments::None => ("", vec![]),
        syn::PathArguments::AngleBracketed(a) => ("<>", a.args.iter().map(garg).collect()),
        syn::PathArguments::Parenthesized(a) => ("()", [a.inputs.iter().map(ty).collect(), ret(&a.output)].into_iter().flatten().collect()),
    };
    mk(Kind::Segment, s.ident.to_string(), text.to_string(), false, loc(s.span()), loc(s.ident.span()), args)
}

#[verifier::external_body]
fn garg(a: &syn::GenericArgument) -> Node {
    match a {
        syn::GenericArgument::Lifetime(l) => lifetime(l),
        syn::GenericArgument::Type(t) => group(Kind::TypeArg, loc(t.span()), vec![ty(t)]),
        syn::GenericArgument::Const(e) => group(Kind::ArgOther, loc(e.span()), vec![expr(e)]),
        other => group(Kind::ArgOther, loc(other.span()), garg_children(other)),
    }
}

#[verifier::external_body]
fn garg_children(a: &syn::GenericArgument) -> Vec<Node> {
    match a {
        syn::GenericArgument::AssocType(x) => assoc_args(&x.generics).into_iter().chain(Some(ty(&x.ty))).collect(),
        syn::GenericArgument::AssocConst(x) => assoc_args(&x.generics).into_iter().chain(Some(expr(&x.value))).collect(),
        syn::GenericArgument::Constraint(x) => assoc_args(&x.generics).into_iter().chain(x.bounds.iter().map(bound)).collect(),
        _ => vec![],
    }
}

#[verifier::external_body]
fn assoc_args(g: &Option<syn::AngleBracketedGenericArguments>) -> Vec<Node> {
    g.iter().flat_map(|g| g.args.iter()).map(garg).collect()
}

// ── Expressions ────────────────────────────────────────────────────────────

#[verifier::external_body]
fn expr(e: &syn::Expr) -> Node {
    match e {
        syn::Expr::Call(x) => group(Kind::Call, loc(x.span()), [vec![expr(&x.func)], exprs(&x.args)].into_iter().flatten().collect()),
        syn::Expr::MethodCall(x) => method_call(x),
        syn::Expr::Path(x) => path_q(&x.qself, &x.path, loc(x.span())),
        syn::Expr::If(x) => if_node(x),
        other => expr_b(other),
    }
}

#[verifier::external_body]
fn exprs(p: &syn::punctuated::Punctuated<syn::Expr, syn::token::Comma>) -> Vec<Node> {
    p.iter().map(expr).collect()
}

#[verifier::external_body]
fn if_node(x: &syn::ExprIf) -> Node {
    let otherwise = x.else_branch.iter().map(|b| &*b.1).map(expr);
    group(Kind::IfExpr, loc(x.span()), vec![expr(&x.cond), block(&x.then_branch)].into_iter().chain(otherwise).collect())
}

#[verifier::external_body]
fn method_call(x: &syn::ExprMethodCall) -> Node {
    let turbofish = x.turbofish.iter().flat_map(|t| t.args.iter()).map(garg);
    let children: Vec<Node> = vec![expr(&x.receiver)].into_iter().chain(turbofish).chain(exprs(&x.args)).collect();
    let m = loc(x.method.span());
    mk(Kind::MethodCall, x.method.to_string(), String::new(), false, loc(x.span()), m, children)
}

#[verifier::external_body]
fn label(l: &Option<syn::Label>) -> Vec<Node> {
    l.iter().map(|l| &l.name).map(lifetime).collect()
}

#[verifier::external_body]
fn expr_b(e: &syn::Expr) -> Node {
    match e {
        syn::Expr::While(x) => while_node(x),
        syn::Expr::Match(x) => match_node(x),
        other => expr_c(other),
    }
}

#[verifier::external_body]
fn while_node(x: &syn::ExprWhile) -> Node {
    let children: Vec<Node> = label(&x.label).into_iter().chain(vec![expr(&x.cond), block(&x.body)]).collect();
    mk(Kind::WhileExpr, String::new(), String::new(), x.label.is_some(), loc(x.span()), loc(x.span()), children)
}

#[verifier::external_body]
fn match_node(x: &syn::ExprMatch) -> Node {
    let children: Vec<Node> = vec![expr(&x.expr)].into_iter().chain(x.arms.iter().map(arm)).collect();
    mk(Kind::MatchExpr, String::new(), String::new(), false, loc(x.span()), loc(x.match_token.span), children)
}

#[verifier::external_body]
fn expr_c(e: &syn::Expr) -> Node {
    match e {
        syn::Expr::Binary(x) => binary(x),
        syn::Expr::Unary(x) => named(Kind::Unary, x.op.to_token_stream().to_string(), loc(x.span()), vec![expr(&x.expr)]),
        syn::Expr::Paren(x) => group(Kind::Paren, loc(x.span()), vec![expr(&x.expr)]),
        other => expr_d(other),
    }
}

#[verifier::external_body]
fn binary(x: &syn::ExprBinary) -> Node {
    let op = x.op.to_token_stream().to_string();
    mk(Kind::Binary, op, String::new(), false, loc(x.span()), loc(x.op.span()), vec![expr(&x.left), expr(&x.right)])
}

#[verifier::external_body]
fn expr_d(e: &syn::Expr) -> Node {
    match e {
        syn::Expr::Group(x) => group(Kind::Group, loc(x.span()), vec![expr(&x.expr)]),
        syn::Expr::Lit(x) => leaf(Kind::Lit, loc(x.span())),
        syn::Expr::Let(x) => group(Kind::LetCond, loc(x.span()), vec![pat(&x.pat), expr(&x.expr)]),
        syn::Expr::Closure(x) => closure(x),
        other => expr_e(other),
    }
}

#[verifier::external_body]
fn closure(x: &syn::ExprClosure) -> Node {
    let inputs = x.inputs.iter().map(pat);
    let rest = ret(&x.output).into_iter().chain(Some(expr(&x.body)));
    group(Kind::Closure, loc(x.span()), bound_lifetimes(&x.lifetimes).into_iter().chain(inputs).chain(rest).collect())
}

#[verifier::external_body]
fn expr_e(e: &syn::Expr) -> Node {
    match e {
        syn::Expr::Unsafe(x) => {
            let u = loc(x.unsafe_token.span);
            mk(Kind::UnsafeBlock, String::new(), String::new(), false, loc(x.span()), u, vec![block(&x.block)])
        },
        syn::Expr::RawAddr(x) => group(Kind::RawAddr, loc(x.span()), vec![expr(&x.expr)]),
        syn::Expr::Macro(x) => macro_node(&x.mac),
        other => group(Kind::ExprOther, loc(other.span()), expr_children(other)),
    }
}

#[verifier::external_body]
fn expr_children(e: &syn::Expr) -> Vec<Node> {
    match e {
        syn::Expr::Block(x) => label(&x.label).into_iter().chain(Some(block(&x.block))).collect(),
        syn::Expr::Loop(x) => label(&x.label).into_iter().chain(Some(block(&x.body))).collect(),
        syn::Expr::ForLoop(x) => label(&x.label).into_iter().chain(vec![pat(&x.pat), expr(&x.expr), block(&x.body)]).collect(),
        syn::Expr::Field(x) => vec![expr(&x.base)],
        other => expr_children_b(other),
    }
}

#[verifier::external_body]
fn expr_children_b(e: &syn::Expr) -> Vec<Node> {
    match e {
        syn::Expr::Index(x) => vec![expr(&x.expr), expr(&x.index)],
        syn::Expr::Assign(x) => vec![expr(&x.left), expr(&x.right)],
        syn::Expr::Cast(x) => vec![expr(&x.expr), ty(&x.ty)],
        syn::Expr::Array(x) => exprs(&x.elems),
        syn::Expr::Tuple(x) => exprs(&x.elems),
        syn::Expr::Reference(x) => vec![expr(&x.expr)],
        other => expr_children_c(other),
    }
}

#[verifier::external_body]
fn expr_children_c(e: &syn::Expr) -> Vec<Node> {
    match e {
        syn::Expr::Return(x) => x.expr.iter().map(|e| &**e).map(expr).collect(),
        syn::Expr::Break(x) => x.label.iter().map(lifetime).chain(x.expr.iter().map(|e| &**e).map(expr)).collect(),
        syn::Expr::Continue(x) => x.label.iter().map(lifetime).collect(),
        syn::Expr::Try(x) => vec![expr(&x.expr)],
        syn::Expr::Await(x) => vec![expr(&x.base)],
        other => expr_children_d(other),
    }
}

#[verifier::external_body]
fn expr_children_d(e: &syn::Expr) -> Vec<Node> {
    match e {
        syn::Expr::Range(x) => x.start.iter().chain(x.end.iter()).map(|e| &**e).map(expr).collect(),
        syn::Expr::Repeat(x) => vec![expr(&x.expr), expr(&x.len)],
        syn::Expr::Struct(x) => struct_children(x),
        other => expr_children_e(other),
    }
}

/// The children of an `async`, `try` or `const` block and of `yield`. `_`
/// and expressions `syn` keeps as unparsed tokens get no children.
#[verifier::external_body]
fn expr_children_e(e: &syn::Expr) -> Vec<Node> {
    match e {
        syn::Expr::Async(x) => vec![block(&x.block)],
        syn::Expr::TryBlock(x) => vec![block(&x.block)],
        syn::Expr::Const(x) => vec![block(&x.block)],
        syn::Expr::Yield(x) => x.expr.iter().map(|e| &**e).map(expr).collect(),
        _ => vec![],
    }
}

#[verifier::external_body]
fn struct_children(x: &syn::ExprStruct) -> Vec<Node> {
    let values = x.fields.iter().map(|f| &f.expr).map(expr);
    let rest = x.rest.iter().map(|e| &**e).map(expr);
    vec![path_q(&x.qself, &x.path, loc(x.path.span()))].into_iter().chain(values).chain(rest).collect()
}

// ── Blocks, statements, arms ───────────────────────────────────────────────

#[verifier::external_body]
fn block(b: &syn::Block) -> Node {
    group(Kind::BlockNode, loc(b.span()), b.stmts.iter().map(stmt).collect())
}

#[verifier::external_body]
fn stmt(s: &syn::Stmt) -> Node {
    match s {
        syn::Stmt::Local(l) => local(l),
        syn::Stmt::Item(i) => item_node(i),
        syn::Stmt::Expr(e, _) => expr(e),
        syn::Stmt::Macro(m) => macro_node(&m.mac),
    }
}

#[verifier::external_body]
fn local(l: &syn::Local) -> Node {
    let init: Vec<Node> = l.init.iter().map(|i| &*i.expr).map(expr).collect();
    let diverge: Vec<Node> = l.init.iter().flat_map(|i| i.diverge.iter()).map(|d| &*d.1).map(expr).collect();
    group(Kind::LocalLet, loc(l.span()), [vec![pat(&l.pat)], init, diverge].into_iter().flatten().collect())
}

#[verifier::external_body]
fn arm(a: &syn::Arm) -> Node {
    let guard: Vec<Node> = a.guard.iter().map(|g| &*g.1).map(expr).collect();
    let children: Vec<Node> = [vec![pat(&a.pat)], guard, vec![expr(&a.body)]].into_iter().flatten().collect();
    mk(Kind::ArmNode, String::new(), String::new(), a.guard.is_some(), loc(a.span()), loc(a.span()), children)
}

// ── Patterns ───────────────────────────────────────────────────────────────

#[verifier::external_body]
fn pat(p: &syn::Pat) -> Node {
    match p {
        syn::Pat::Ident(x) => {
            let sub = x.subpat.iter().map(|s| &*s.1).map(pat);
            named(Kind::PatIdent, x.ident.to_string(), loc(x.span()), sub.collect())
        },
        syn::Pat::Wild(x) => leaf(Kind::PatWild, loc(x.span())),
        syn::Pat::Macro(x) => macro_node(&x.mac),
        other => group(Kind::PatOther, loc(other.span()), pat_children(other)),
    }
}

#[verifier::external_body]
fn pat_children(p: &syn::Pat) -> Vec<Node> {
    match p {
        syn::Pat::Type(x) => vec![pat(&x.pat), ty(&x.ty)],
        syn::Pat::Or(x) => x.cases.iter().map(pat).collect(),
        syn::Pat::Paren(x) => vec![pat(&x.pat)],
        syn::Pat::Reference(x) => vec![pat(&x.pat)],
        syn::Pat::Slice(x) => x.elems.iter().map(pat).collect(),
        syn::Pat::Tuple(x) => x.elems.iter().map(pat).collect(),
        other => pat_children_b(other),
    }
}

#[verifier::external_body]
fn pat_children_b(p: &syn::Pat) -> Vec<Node> {
    match p {
        syn::Pat::TupleStruct(x) => {
            let elems = x.elems.iter().map(pat);
            vec![path_q(&x.qself, &x.path, loc(x.path.span()))].into_iter().chain(elems).collect()
        },
        syn::Pat::Struct(x) => {
            let fields = x.fields.iter().map(|f| &*f.pat).map(pat);
            vec![path_q(&x.qself, &x.path, loc(x.path.span()))].into_iter().chain(fields).collect()
        },
        other => pat_children_c(other),
    }
}

/// The children of a path, range or `const` pattern. Literal patterns,
/// `..` and patterns `syn` keeps as unparsed tokens get no children.
#[verifier::external_body]
fn pat_children_c(p: &syn::Pat) -> Vec<Node> {
    match p {
        syn::Pat::Path(x) => vec![path_q(&x.qself, &x.path, loc(x.span()))],
        syn::Pat::Range(x) => x.start.iter().chain(x.end.iter()).map(|e| &**e).map(expr).collect(),
        syn::Pat::Const(x) => vec![block(&x.block)],
        _ => vec![],
    }
}

} // verus!
