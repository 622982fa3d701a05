//! The attribute grammar: which attributes the checks own, recognized by
//! the last segment of their path (so `#[total]` and `#[mvl::total]` are
//! the same), and what their arguments say.
//!
//! - `total`, `partial`, `unchecked`, `label`: no arguments are read;
//! - `decreases(measure)`: a Rust expression;
//! - `requires(pred)`, `ensures(pred)`: a [`Predicate`];
//! - `effect(A, B, ..)`: identifiers separated by commas (a trailing comma
//!   is allowed, none at all is an empty list);
//! - `relabel(from = "..", to = "..", audit)`: keys in any order, `from`
//!   and `to` required, `audit` an optional flag; a repeated key keeps its
//!   last value.
//!
//! Any other attribute is not owned and is left alone.

use vstd::prelude::*;

use crate::expr::{parse_rust_expr, rust_expr_syntax, Tree};
use crate::predicate::{spec_parse_predicate, Predicate, PredicateV};
use crate::syntax::{Kind, Node};
use crate::text::{push_str, same_text};

verus! {

/// `#[mvl::total]` on a `fn`: carries no arguments.
#[derive(Debug, Clone, Default)]
pub struct TotalAttr;

/// `#[mvl::partial]` on a `fn`: carries no arguments.
#[derive(Debug, Clone, Default)]
pub struct PartialAttr;

/// `#[mvl::unchecked]` on a `fn`: its contract is declared but not
/// enforced at run time. Carries no arguments.
#[derive(Debug, Clone, Default)]
pub struct UncheckedAttr;

/// `#[mvl::label]` on a label's marker type: carries no arguments.
#[derive(Debug, Clone, Default)]
pub struct LabelAttr;

/// `#[mvl::decreases(measure)]`.
#[derive(Debug)]
pub struct DecreasesAttr {
    pub measure: Tree,
}

/// `#[mvl::effect(..)]`: the effects a function performs.
#[derive(Debug, Clone, Default)]
pub struct EffectAttr {
    pub effects: Vec<String>,
}

/// `#[mvl::requires(pred)]`: a precondition over the parameters.
#[derive(Debug)]
pub struct RequiresAttr {
    pub predicate: Predicate,
}

/// `#[mvl::ensures(pred)]`: a postcondition over `result`.
#[derive(Debug)]
pub struct EnsuresAttr {
    pub predicate: Predicate,
}

/// `#[mvl::relabel(from = "..", to = "..", audit)]`: a named, directional
/// label transition (`"_"` is the unlabelled level).
#[derive(Debug, Clone)]
pub struct RelabelAttr {
    pub from: String,
    pub to: String,
    pub audit: bool,
}

/// An attribute the checks own, by kind.
#[derive(Debug)]
pub enum MvlAttr {
    Total(TotalAttr),
    Partial(PartialAttr),
    Unchecked(UncheckedAttr),
    Decreases(DecreasesAttr),
    Effect(EffectAttr),
    Requires(RequiresAttr),
    Ensures(EnsuresAttr),
    Label(LabelAttr),
    Relabel(RelabelAttr),
}

/// An owned attribute as plain values.
pub enum MvlAttrV {
    Total,
    Partial,
    Unchecked,
    Decreases(Tree),
    Effect(Seq<Seq<char>>),
    Requires(PredicateV),
    Ensures(PredicateV),
    Label,
    Relabel(Seq<char>, Seq<char>, bool),
}

pub open spec fn mvl_attr_view(a: MvlAttr) -> MvlAttrV {
    match a {
        MvlAttr::Total(_) => MvlAttrV::Total,
        MvlAttr::Partial(_) => MvlAttrV::Partial,
        MvlAttr::Unchecked(_) => MvlAttrV::Unchecked,
        MvlAttr::Decreases(d) => MvlAttrV::Decreases(d.measure),
        MvlAttr::Effect(e) => MvlAttrV::Effect(e.effects@.map_values(|s: String| s@)),
        MvlAttr::Requires(r) => MvlAttrV::Requires(r.predicate@),
        MvlAttr::Ensures(e) => MvlAttrV::Ensures(e.predicate@),
        MvlAttr::Label(_) => MvlAttrV::Label,
        MvlAttr::Relabel(r) => MvlAttrV::Relabel(r.from@, r.to@, r.audit),
    }
}

// ── Outside parsers ────────────────────────────────────────────────────────

/// Whether `syn` reads the text as an identifier (`syn::Ident`, which
/// excludes keywords and `_`).
pub uninterp spec fn syn_ident_ok(text: Seq<char>) -> bool;

/// The value of a string literal token as `syn::LitStr` reads it (escapes
/// resolved), or `None` when the token is not a string literal.
pub uninterp spec fn syn_lit_str(text: Seq<char>) -> Option<Seq<char>>;

/// Whether `syn::parse_str::<syn::Ident>` accepts the text. The contract
/// names the answer; it does not describe it.
#[verifier::external_body]
fn is_plain_ident(text: &str) -> (r: bool)
    ensures
        r == syn_ident_ok(text@),
{
    syn::parse_str::<syn::Ident>(text).is_ok()
}

/// The value `syn::LitStr::value` gives for a literal token's text, when
/// `syn::parse_str::<syn::LitStr>` accepts it. The contract names the
/// answer; it does not describe it.
#[verifier::external_body]
fn string_literal_value(text: &str) -> (r: Option<String>)
    ensures
        match r {
            Some(v) => syn_lit_str(text@) == Some(v@),
            None => syn_lit_str(text@) is None,
        },
{
    match syn::parse_str::<syn::LitStr>(text) {
        Ok(l) => Some(l.value()),
        Err(_) => None,
    }
}

// ── The grammar ────────────────────────────────────────────────────────────

pub open spec fn is_tok(t: Node, kind: Kind, name: Seq<char>) -> bool {
    t.kind == kind && t.name@ == name
}

pub open spec fn is_ident_tok(t: Node) -> bool {
    t.kind == Kind::TokIdent && syn_ident_ok(t.name@)
}

/// The effect names from position `i` of an `effect` argument list.
pub open spec fn effect_names(toks: Seq<Node>, i: int) -> Result<Seq<Seq<char>>, Seq<char>>
    decreases toks.len() - i,
{
    if i < 0 || i >= toks.len() {
        Ok(Seq::empty())
    } else if !is_ident_tok(toks[i]) {
        Err("expected an effect name"@)
    } else if i + 1 >= toks.len() {
        Ok(seq![toks[i].name@])
    } else if !is_tok(toks[i + 1], Kind::TokPunct, ","@) {
        Err("expected `,` between effect names"@)
    } else {
        match effect_names(toks, i + 2) {
            Ok(rest) => Ok(seq![toks[i].name@] + rest),
            Err(e) => Err(e),
        }
    }
}

/// What one `relabel` item says, and where the next one starts: `from`
/// and `to` take `= "literal"`, `audit` stands alone.
pub open spec fn relabel_item(toks: Seq<Node>, i: int) -> Result<(int, int, Seq<char>), Seq<char>> {
    if !(0 <= i < toks.len() && is_ident_tok(toks[i])) {
        Err("expected `from`, `to`, or `audit`"@)
    } else if toks[i].name@ == "from"@ || toks[i].name@ == "to"@ {
        if !(i + 1 < toks.len() && is_tok(toks[i + 1], Kind::TokPunct, "="@)) {
            Err("expected `=`"@)
        } else if !(i + 2 < toks.len() && toks[i + 2].kind == Kind::TokLit && syn_lit_str(toks[i + 2].name@) is Some) {
            Err("expected a string literal"@)
        } else {
            Ok((if toks[i].name@ == "from"@ { 0int } else { 1int }, i + 3, syn_lit_str(toks[i + 2].name@)->0))
        }
    } else if toks[i].name@ == "audit"@ {
        Ok((2, i + 1, Seq::empty()))
    } else {
        Err("unknown `relabel` key `"@ + toks[i].name@ + "`, expected `from`, `to`, or `audit`"@)
    }
}

/// The `relabel` keys read from position `i` on, given what was read
/// before.
pub open spec fn relabel_items(
    toks: Seq<Node>,
    i: int,
    from: Option<Seq<char>>,
    to: Option<Seq<char>>,
    audit: bool,
) -> Result<(Option<Seq<char>>, Option<Seq<char>>, bool), Seq<char>>
    decreases toks.len() - i,
{
    if i < 0 || i >= toks.len() {
        Ok((from, to, audit))
    } else {
        match relabel_item(toks, i) {
            Err(e) => Err(e),
            Ok((key, j, v)) => {
                let from2 = if key == 0 { Some(v) } else { from };
                let to2 = if key == 1 { Some(v) } else { to };
                let audit2 = audit || key == 2;
                if j >= toks.len() {
                    Ok((from2, to2, audit2))
                } else if !is_tok(toks[j], Kind::TokPunct, ","@) {
                    Err("expected `,` between `relabel` keys"@)
                } else {
                    relabel_items(toks, j + 1, from2, to2, audit2)
                }
            },
        }
    }
}

pub open spec fn relabel_args(toks: Seq<Node>) -> Result<MvlAttrV, Seq<char>> {
    match relabel_items(toks, 0, None, None, false) {
        Err(e) => Err(e),
        Ok((None, _, _)) => Err("expected `from = \"...\"`"@),
        Ok((Some(_), None, _)) => Err("expected `to = \"...\"`"@),
        Ok((Some(f), Some(t), a)) => Ok(MvlAttrV::Relabel(f, t, a)),
    }
}

pub open spec fn not_a_list() -> Seq<char> {
    "expected attribute arguments in parentheses"@
}

/// What an attribute node says: `None` when the checks do not own it;
/// otherwise what its arguments parse as, or why they do not.
pub open spec fn spec_attr(a: Node) -> Option<Result<MvlAttrV, Seq<char>>> {
    let name = a.name@;
    if a.kind != Kind::Attr {
        None
    } else if name == "total"@ {
        Some(Ok(MvlAttrV::Total))
    } else if name == "partial"@ {
        Some(Ok(MvlAttrV::Partial))
    } else if name == "unchecked"@ {
        Some(Ok(MvlAttrV::Unchecked))
    } else if name == "label"@ {
        Some(Ok(MvlAttrV::Label))
    } else if name == "decreases"@ || name == "requires"@ || name == "ensures"@ || name == "effect"@ || name
        == "relabel"@ {
        Some(
            if !a.flag {
                Err(not_a_list())
            } else if name == "decreases"@ {
                match rust_expr_syntax(a.text@) {
                    Some(t) => Ok(MvlAttrV::Decreases(t)),
                    None => Err("malformed `decreases` measure"@),
                }
            } else if name == "requires"@ || name == "ensures"@ {
                match spec_parse_predicate(a.text@) {
                    Some(p) => if name == "requires"@ {
                        Ok(MvlAttrV::Requires(p))
                    } else {
                        Ok(MvlAttrV::Ensures(p))
                    },
                    None => Err("malformed predicate"@),
                }
            } else if name == "effect"@ {
                match effect_names(a.children@, 0) {
                    Ok(names) => Ok(MvlAttrV::Effect(names)),
                    Err(e) => Err(e),
                }
            } else {
                relabel_args(a.children@)
            },
        )
    } else {
        None
    }
}

// ── Reading the grammar ────────────────────────────────────────────────────

fn is_tok_exec(t: &Node, kind: Kind, name: &str) -> (r: bool)
    ensures
        r == is_tok(*t, kind, name@),
{
    t.kind == kind && same_text(t.name.as_str(), name)
}

fn is_ident_exec(t: &Node) -> (r: bool)
    ensures
        r == is_ident_tok(*t),
{
    t.kind == Kind::TokIdent && is_plain_ident(t.name.as_str())
}

fn read_effects(toks: &Vec<Node>) -> (r: Result<Vec<String>, String>)
    ensures
        match r {
            Ok(v) => effect_names(toks@, 0) == Ok::<Seq<Seq<char>>, Seq<char>>(v@.map_values(|s: String| s@)),
            Err(e) => effect_names(toks@, 0) == Err::<Seq<Seq<char>>, Seq<char>>(e@),
        },
{
    let mut names: Vec<String> = Vec::new();
    let mut i: usize = 0;
    let ghost whole = effect_names(toks@, 0);
    while i < toks.len()
        invariant
            i <= toks@.len() + 1,
            whole == effect_names(toks@, 0),
            whole == match effect_names(toks@, i as int) {
                Ok(rest) => Ok(names@.map_values(|s: String| s@) + rest),
                Err(e) => Err(e),
            },
        decreases toks@.len() - i,
    {
        if !is_ident_exec(&toks[i]) {
            return Err(String::from_str("expected an effect name"));
        }
        let ghost before = names@.map_values(|s: String| s@);
        names.push(toks[i].name.clone());
        assert(names@.map_values(|s: String| s@) =~= before.push(toks@[i as int].name@));
        if i + 1 >= toks.len() {
            assert(effect_names(toks@, i + 1) == Ok::<Seq<Seq<char>>, Seq<char>>(Seq::empty()));
            assert(before + seq![toks@[i as int].name@] =~= names@.map_values(|s: String| s@) + Seq::<
                Seq<char>,
            >::empty());
            i = i + 1;
        } else if !is_tok_exec(&toks[i + 1], Kind::TokPunct, ",") {
            return Err(String::from_str("expected `,` between effect names"));
        } else {
            proof {
                match effect_names(toks@, i + 2) {
                    Ok(rest) => {
                        assert(before + (seq![toks@[i as int].name@] + rest) =~= names@.map_values(
                            |s: String| s@,
                        ) + rest);
                    },
                    Err(_) => {},
                }
            }
            i = i + 2;
        }
    }
    proof {
        assert(effect_names(toks@, i as int) == Ok::<Seq<Seq<char>>, Seq<char>>(Seq::empty()));
        assert(names@.map_values(|s: String| s@) + Seq::<Seq<char>>::empty() =~= names@.map_values(
            |s: String| s@,
        ));
    }
    Ok(names)
}

fn read_relabel_item(toks: &Vec<Node>, i: usize) -> (r: Result<(u8, usize, String), String>)
    requires
        i < toks@.len(),
    ensures
        match r {
            Ok((key, j, v)) => relabel_item(toks@, i as int) == Ok::<(int, int, Seq<char>), Seq<char>>(
                (key as int, j as int, v@),
            ),
            Err(e) => relabel_item(toks@, i as int) == Err::<(int, int, Seq<char>), Seq<char>>(e@),
        },
{
    let n = toks.len();
    let t = &toks[i];
    if !is_ident_exec(t) {
        return Err(String::from_str("expected `from`, `to`, or `audit`"));
    }
    let is_from = same_text(t.name.as_str(), "from");
    if is_from || same_text(t.name.as_str(), "to") {
        if !(i + 1 < toks.len() && is_tok_exec(&toks[i + 1], Kind::TokPunct, "=")) {
            return Err(String::from_str("expected `=`"));
        }
        if !(i + 2 < toks.len() && toks[i + 2].kind == Kind::TokLit) {
            return Err(String::from_str("expected a string literal"));
        }
        match string_literal_value(toks[i + 2].name.as_str()) {
            Some(v) => Ok((
                if is_from {
                    0
                } else {
                    1
                },
                i + 3,
                v,
            )),
            None => Err(String::from_str("expected a string literal")),
        }
    } else if same_text(t.name.as_str(), "audit") {
        Ok((2, i + 1, String::new()))
    } else {
        let mut m = String::from_str("unknown `relabel` key `");
        push_str(&mut m, t.name.as_str());
        push_str(&mut m, "`, expected `from`, `to`, or `audit`");
        Err(m)
    }
}

fn read_relabel(toks: &Vec<Node>) -> (r: Result<RelabelAttr, String>)
    ensures
        match r {
            Ok(a) => relabel_args(toks@) == Ok::<MvlAttrV, Seq<char>>(MvlAttrV::Relabel(a.from@, a.to@, a.audit)),
            Err(e) => relabel_args(toks@) == Err::<MvlAttrV, Seq<char>>(e@),
        },
{
    let mut from: Option<String> = None;
    let mut to: Option<String> = None;
    let mut audit = false;
    let mut i: usize = 0;
    let ghost whole = relabel_items(toks@, 0, None, None, false);
    while i < toks.len()
        invariant
            whole == relabel_items(toks@, 0, None, None, false),
            whole == relabel_items(
                toks@,
                i as int,
                crate::diagnostics::opt_text(from),
                crate::diagnostics::opt_text(to),
                audit,
            ),
        decreases toks@.len() - i,
    {
        let (key, j, v) = match read_relabel_item(toks, i) {
            Ok(x) => x,
            Err(e) => {
                return Err(e);
            },
        };
        let ghost vv = v@;
        if key == 0 {
            from = Some(v);
        } else if key == 1 {
            to = Some(v);
        } else {
            audit = true;
        }
        if j >= toks.len() {
            i = j;
        } else if !is_tok_exec(&toks[j], Kind::TokPunct, ",") {
            return Err(String::from_str("expected `,` between `relabel` keys"));
        } else {
            i = j + 1;
        }
    }
    match (from, to) {
        (None, _) => Err(String::from_str("expected `from = \"...\"`")),
        (Some(_), None) => Err(String::from_str("expected `to = \"...\"`")),
        (Some(f), Some(t)) => Ok(RelabelAttr { from: f, to: t, audit }),
    }
}

impl MvlAttr {
    /// Recognizes an attribute by the last segment of its path and reads
    /// its arguments: `None` for an attribute the checks do not own,
    /// `Some(Err(..))` when an owned attribute's arguments do not parse.
    pub fn try_from_attribute(attr: &Node) -> (r: Option<Result<MvlAttr, String>>)
        ensures
            match r {
                None => spec_attr(*attr) is None,
                Some(Ok(a)) => spec_attr(*attr) == Some(Ok::<MvlAttrV, Seq<char>>(mvl_attr_view(a))),
                Some(Err(e)) => spec_attr(*attr) == Some(Err::<MvlAttrV, Seq<char>>(e@)),
            },
    {
        if attr.kind != Kind::Attr {
            return None;
        }
        let name = attr.name.as_str();
        if same_text(name, "total") {
            Some(Ok(MvlAttr::Total(TotalAttr)))
        } else if same_text(name, "partial") {
            Some(Ok(MvlAttr::Partial(PartialAttr)))
        } else if same_text(name, "unchecked") {
            Some(Ok(MvlAttr::Unchecked(UncheckedAttr)))
        } else if same_text(name, "label") {
            Some(Ok(MvlAttr::Label(LabelAttr)))
        } else if same_text(name, "decreases") || same_text(name, "requires") || same_text(name, "ensures")
            || same_text(name, "effect") || same_text(name, "relabel") {
            if !attr.flag {
                return Some(Err(String::from_str("expected attribute arguments in parentheses")));
            }
            if same_text(name, "decreases") {
                match parse_rust_expr(attr.text.as_str()) {
                    Some(t) => Some(Ok(MvlAttr::Decreases(DecreasesAttr { measure: t }))),
                    None => Some(Err(String::from_str("malformed `decreases` measure"))),
                }
            } else if same_text(name, "requires") || same_text(name, "ensures") {
                match Predicate::parse(attr.text.as_str()) {
                    Some(p) => if same_text(name, "requires") {
                        Some(Ok(MvlAttr::Requires(RequiresAttr { predicate: p })))
                    } else {
                        Some(Ok(MvlAttr::Ensures(EnsuresAttr { predicate: p })))
                    },
                    None => Some(Err(String::from_str("malformed predicate"))),
                }
            } else if same_text(name, "effect") {
                match read_effects(&attr.children) {
                    Ok(v) => Some(Ok(MvlAttr::Effect(EffectAttr { effects: v }))),
                    Err(e) => Some(Err(e)),
                }
            } else {
                match read_relabel(&attr.children) {
                    Ok(a) => Some(Ok(MvlAttr::Relabel(a))),
                    Err(e) => Some(Err(e)),
                }
            }
        } else {
            None
        }
    }
}

} // verus!
