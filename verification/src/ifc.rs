//! Label enforcement: every declassification (`.into_inner()` on a labeled
//! parameter) and classification (`Tainted::new(..)`, `Secret::new(..)`,
//! `Labeled::<L, _>::new(..)`) inside a top-level function must be the
//! transition that the function's own `#[mvl::relabel(from = .., to = ..)]`
//! declares.
//!
//! Both directions are recognized from local, written-out facts only:
//! - declassify: the receiver is a bare identifier naming one of the
//!   function's own parameters whose declared type is `Tainted<T>`,
//!   `Secret<T>` (the label is the alias's name) or `Labeled<L, T>` (the
//!   label is `L`'s name);
//! - classify: the call's path ends in `Tainted::new`, `Secret::new`, or
//!   `Labeled::<L, T>::new` with the turbofish written out.
//!
//! Nothing else is attempted: a value labeled through a `let`, a field or a
//! generic helper, and a bare `Labeled::new(..)`, are not recognized.

use vstd::prelude::*;

use crate::attrs::{spec_attr, MvlAttr, MvlAttrV};
use crate::diagnostics::{error, error_at, Diagnostic, DiagnosticV};
use crate::effects::{first_sig, first_sig_of};
use crate::from_syn::{parse_rust_file, rust_file_syntax};
use crate::limits::{views, CheckError};
use crate::syntax::{Kind, Node};
use crate::text::{push_str, same_text};

verus! {

// ── Recognized shapes ──────────────────────────────────────────────────────

/// The segments of a path (its children after the qualified self type).
pub open spec fn segments(p: Node) -> Seq<Node> {
    if p.children@.len() > 0 && p.children@[0].kind == Kind::QSelf {
        p.children@.skip(1)
    } else {
        p.children@
    }
}

/// The last segment's name of a type that is a path without a qualified
/// self type.
pub open spec fn simple_type_name(t: Node) -> Option<Seq<char>> {
    if t.kind == Kind::PathNode && !(t.children@.len() > 0 && t.children@[0].kind == Kind::QSelf) && t.children@.len() > 0 {
        Some(t.children@.last().name@)
    } else {
        None
    }
}

/// The type arguments of a segment, in order.
pub open spec fn type_args(args: Seq<Node>) -> Seq<Node>
    decreases args.len(),
{
    if args.len() == 0 {
        Seq::empty()
    } else {
        type_args(args.drop_last()) + if args.last().kind == Kind::TypeArg {
            seq![args.last()]
        } else {
            Seq::empty()
        }
    }
}

/// The label `Labeled<L, T>` names: `L`'s name, when the segment has
/// exactly two type arguments in angle brackets and the first is a simple
/// path.
pub open spec fn labeled_form(seg: Node) -> Option<Seq<char>> {
    let ts = type_args(seg.children@);
    if seg.text@ == "<>"@ && ts.len() == 2 && ts[0].children@.len() > 0 {
        simple_type_name(ts[0].children@[0])
    } else {
        None
    }
}

/// The label a segment names as a type: `Tainted`, `Secret`, or the `L` of
/// `Labeled<L, T>`.
pub open spec fn label_of_segment(seg: Node) -> Option<Seq<char>> {
    if seg.name@ == "Tainted"@ || seg.name@ == "Secret"@ {
        Some(seg.name@)
    } else if seg.name@ == "Labeled"@ {
        labeled_form(seg)
    } else {
        None
    }
}

/// The label a parameter's declared type carries, when it is one of the
/// recognized forms.
pub open spec fn recognized_label_type(t: Node) -> Option<Seq<char>> {
    if t.kind == Kind::PathNode && !(t.children@.len() > 0 && t.children@[0].kind == Kind::QSelf) && t.children@.len() > 0 {
        label_of_segment(t.children@.last())
    } else {
        None
    }
}

/// The label a `..::new` call path constructs, when it is one of the
/// recognized forms (matched on the last two segments).
pub open spec fn recognized_label_construction(p: Node) -> Option<Seq<char>> {
    let s = segments(p);
    if p.kind == Kind::PathNode && s.len() >= 2 && s[s.len() - 1].name@ == "new"@ {
        label_of_segment(s[s.len() - 2])
    } else {
        None
    }
}

/// The name a bare-identifier path stands for.
pub open spec fn path_ident(p: Node) -> Option<Seq<char>> {
    if p.kind == Kind::PathNode && !p.flag && p.children@.len() == 1 && p.children@[0].kind == Kind::Segment
        && p.children@[0].text@.len() == 0 {
        Some(p.children@[0].name@)
    } else {
        None
    }
}

// ── A function's declarations ──────────────────────────────────────────────

/// The `from`/`to` labels of the first well-formed `relabel` attribute
/// among `cs`.
pub open spec fn first_relabel(cs: Seq<Node>) -> Option<(Seq<char>, Seq<char>)>
    decreases cs.len(),
{
    if cs.len() == 0 {
        None
    } else {
        match first_relabel(cs.drop_last()) {
            Some(x) => Some(x),
            None => match spec_attr(cs.last()) {
                Some(Ok(MvlAttrV::Relabel(from, to, _))) => Some((from, to)),
                _ => None,
            },
        }
    }
}

/// The labeled parameters among a signature's children: name and label,
/// in order.
pub open spec fn labeled_params(cs: Seq<Node>) -> Seq<(Seq<char>, Seq<char>)>
    decreases cs.len(),
{
    if cs.len() == 0 {
        Seq::empty()
    } else {
        let c = cs.last();
        labeled_params(cs.drop_last()) + if c.kind == Kind::Param && c.children@.len() == 2 && c.children@[0].kind
            == Kind::PatIdent {
            match recognized_label_type(c.children@[1]) {
                Some(l) => seq![(c.children@[0].name@, l)],
                None => Seq::empty(),
            }
        } else {
            Seq::empty()
        }
    }
}

/// The labeled parameters of a `fn` node's signature.
pub open spec fn sig_params(cs: Seq<Node>) -> Seq<(Seq<char>, Seq<char>)> {
    match first_sig(cs) {
        Some(sig) => labeled_params(sig.children@),
        None => Seq::empty(),
    }
}

/// The label of the last parameter named `id`.
pub open spec fn param_label(ps: Seq<(Seq<char>, Seq<char>)>, id: Seq<char>) -> Option<Seq<char>>
    decreases ps.len(),
{
    if ps.len() == 0 {
        None
    } else if ps.last().0 == id {
        Some(ps.last().1)
    } else {
        param_label(ps.drop_last(), id)
    }
}

// ── What is reported ───────────────────────────────────────────────────────

pub open spec fn declassify_message(f: Seq<char>, label: Seq<char>) -> Seq<char> {
    "`"@ + f + "` strips label `"@ + label + "` via `.into_inner()` without a matching `#[mvl::relabel(from = \""@
        + label + "\", ..)]`"@
}

pub open spec fn classify_message(f: Seq<char>, label: Seq<char>) -> Seq<char> {
    "`"@ + f + "` constructs label `"@ + label + "` without a matching `#[mvl::relabel(.., to = \""@ + label
        + "\")]`"@
}

/// What one node reports inside function `f`.
pub open spec fn ifc_at(
    n: Node,
    f: Seq<char>,
    relabel: Option<(Seq<char>, Seq<char>)>,
    params: Seq<(Seq<char>, Seq<char>)>,
) -> Option<DiagnosticV> {
    if n.kind == Kind::MethodCall && n.name@ == "into_inner"@ && n.children@.len() > 0 {
        match path_ident(n.children@[0]) {
            Some(id) => match param_label(params, id) {
                Some(label) => if relabel matches Some((from, _)) && from == label {
                    None
                } else {
                    Some(error_at(declassify_message(f, label), n.aux, "illegal declassification"@))
                },
                None => None,
            },
            None => None,
        }
    } else if n.kind == Kind::Call && n.children@.len() > 0 {
        match recognized_label_construction(n.children@[0]) {
            Some(label) => if relabel matches Some((_, to)) && to == label {
                None
            } else {
                Some(error_at(classify_message(f, label), n.span, "illegal classification"@))
            },
            None => None,
        }
    } else {
        None
    }
}

pub open spec fn opt_seq(o: Option<DiagnosticV>) -> Seq<DiagnosticV> {
    match o {
        Some(d) => seq![d],
        None => Seq::empty(),
    }
}

pub open spec fn ifc_tree(
    n: Node,
    f: Seq<char>,
    relabel: Option<(Seq<char>, Seq<char>)>,
    params: Seq<(Seq<char>, Seq<char>)>,
) -> Seq<DiagnosticV>
    decreases n, 1nat,
{
    opt_seq(ifc_at(n, f, relabel, params)) + ifc_list(n.children@, f, relabel, params)
}

pub open spec fn ifc_list(
    ns: Seq<Node>,
    f: Seq<char>,
    relabel: Option<(Seq<char>, Seq<char>)>,
    params: Seq<(Seq<char>, Seq<char>)>,
) -> Seq<DiagnosticV>
    decreases ns, 0nat,
{
    if ns.len() == 0 {
        Seq::empty()
    } else {
        ifc_list(ns.drop_last(), f, relabel, params) + ifc_tree(ns.last(), f, relabel, params)
    }
}

/// What one top-level function reports: over its body.
pub open spec fn fn_report(f: Node) -> Seq<DiagnosticV> {
    if f.children@.len() > 0 && f.children@.last().kind == Kind::BlockNode {
        ifc_tree(f.children@.last(), f.name@, first_relabel(f.children@), sig_params(f.children@))
    } else {
        Seq::empty()
    }
}

/// What the label check reports over the top-level items from `k` on.
pub open spec fn ifc_report_from(items: Seq<Node>, k: int) -> Seq<DiagnosticV>
    decreases items.len() - k,
{
    if 0 <= k < items.len() {
        (if items[k].kind == Kind::FnItem {
            fn_report(items[k])
        } else {
            Seq::empty()
        }) + ifc_report_from(items, k + 1)
    } else {
        Seq::empty()
    }
}

/// What the label check reports over a file's tree.
pub open spec fn ifc_report(file: Node) -> Seq<DiagnosticV> {
    ifc_report_from(file.children@, 0)
}

// ── Checking ───────────────────────────────────────────────────────────────

fn no_qself_exec(t: &Node) -> (r: bool)
    ensures
        r == !(t.children@.len() > 0 && t.children@[0].kind == Kind::QSelf),
{
    !(t.children.len() > 0 && t.children[0].kind == Kind::QSelf)
}

fn simple_type_name_exec(t: &Node) -> (r: Option<&str>)
    ensures
        match r {
            Some(n) => simple_type_name(*t) == Some(n@),
            None => simple_type_name(*t) is None,
        },
{
    if t.kind == Kind::PathNode && no_qself_exec(t) && t.children.len() > 0 {
        Some(t.children[t.children.len() - 1].name.as_str())
    } else {
        None
    }
}

fn labeled_form_exec(seg: &Node) -> (r: Option<&str>)
    ensures
        match r {
            Some(n) => labeled_form(*seg) == Some(n@),
            None => labeled_form(*seg) is None,
        },
{
    let mut count: usize = 0;
    let mut first: Option<usize> = None;
    let mut i: usize = 0;
    while i < seg.children.len()
        invariant
            i <= seg.children@.len(),
            count == type_args(seg.children@.take(i as int)).len(),
            count <= i,
            match first {
                Some(j) => j < i && type_args(seg.children@.take(i as int)).len() > 0 && type_args(
                    seg.children@.take(i as int),
                )[0] == seg.children@[j as int],
                None => count == 0,
            },
        decreases seg.children@.len() - i,
    {
        assert(seg.children@.take(i + 1).drop_last() =~= seg.children@.take(i as int));
        assert(seg.children@.take(i + 1).last() == seg.children@[i as int]);
        if seg.children[i].kind == Kind::TypeArg {
            if first.is_none() {
                first = Some(i);
            }
            count = count + 1;
        }
        i = i + 1;
    }
    assert(seg.children@.take(seg.children@.len() as int) =~= seg.children@);
    if same_text(seg.text.as_str(), "<>") && count == 2 {
        match first {
            Some(j) => {
                let a = &seg.children[j];
                if a.children.len() > 0 {
                    simple_type_name_exec(&a.children[0])
                } else {
                    None
                }
            },
            None => None,
        }
    } else {
        None
    }
}

fn label_of_segment_exec(seg: &Node) -> (r: Option<&str>)
    ensures
        match r {
            Some(n) => label_of_segment(*seg) == Some(n@),
            None => label_of_segment(*seg) is None,
        },
{
    if same_text(seg.name.as_str(), "Tainted") || same_text(seg.name.as_str(), "Secret") {
        Some(seg.name.as_str())
    } else if same_text(seg.name.as_str(), "Labeled") {
        labeled_form_exec(seg)
    } else {
        None
    }
}

fn label_type_exec(t: &Node) -> (r: Option<&str>)
    ensures
        match r {
            Some(n) => recognized_label_type(*t) == Some(n@),
            None => recognized_label_type(*t) is None,
        },
{
    if t.kind == Kind::PathNode && no_qself_exec(t) && t.children.len() > 0 {
        label_of_segment_exec(&t.children[t.children.len() - 1])
    } else {
        None
    }
}

fn label_construction_exec(p: &Node) -> (r: Option<&str>)
    ensures
        match r {
            Some(n) => recognized_label_construction(*p) == Some(n@),
            None => recognized_label_construction(*p) is None,
        },
{
    let n = p.children.len();
    let skip: usize = if n > 0 && p.children[0].kind == Kind::QSelf {
        1
    } else {
        0
    };
    let ghost s = segments(*p);
    assert(s.len() == n - skip);
    if p.kind == Kind::PathNode && n - skip >= 2 && same_text(p.children[n - 1].name.as_str(), "new") {
        assert(s[s.len() - 1] == p.children@[n - 1]);
        assert(s[s.len() - 2] == p.children@[n - 2]);
        label_of_segment_exec(&p.children[n - 2])
    } else {
        proof {
            if p.kind == Kind::PathNode && n - skip >= 2 {
                assert(s[s.len() - 1] == p.children@[n - 1]);
            }
        }
        None
    }
}

fn path_ident_exec(p: &Node) -> (r: Option<&str>)
    ensures
        match r {
            Some(id) => path_ident(*p) == Some(id@),
            None => path_ident(*p) is None,
        },
{
    if p.kind == Kind::PathNode && !p.flag && p.children.len() == 1 && p.children[0].kind == Kind::Segment
        && p.children[0].text.unicode_len() == 0 {
        Some(p.children[0].name.as_str())
    } else {
        None
    }
}

proof fn lemma_first_relabel_prefix(cs: Seq<Node>, k: int)
    requires
        0 <= k <= cs.len(),
        first_relabel(cs.take(k)) is Some,
    ensures
        first_relabel(cs) == first_relabel(cs.take(k)),
    decreases cs.len() - k,
{
    if k < cs.len() {
        assert(cs.take(k + 1).drop_last() =~= cs.take(k));
        lemma_first_relabel_prefix(cs, k + 1);
    } else {
        assert(cs.take(k) =~= cs);
    }
}

fn first_relabel_exec(f: &Node) -> (r: Option<(String, String)>)
    ensures
        match r {
            Some((a, b)) => first_relabel(f.children@) == Some((a@, b@)),
            None => first_relabel(f.children@) is None,
        },
{
    let mut i: usize = 0;
    while i < f.children.len()
        invariant
            i <= f.children@.len(),
            first_relabel(f.children@.take(i as int)) is None,
        decreases f.children@.len() - i,
    {
        assert(f.children@.take(i + 1).drop_last() =~= f.children@.take(i as int));
        assert(f.children@.take(i + 1).last() == f.children@[i as int]);
        match MvlAttr::try_from_attribute(&f.children[i]) {
            Some(Ok(MvlAttr::Relabel(r))) => {
                proof {
                    lemma_first_relabel_prefix(f.children@, i + 1);
                }
                return Some((r.from, r.to));
            },
            _ => {},
        }
        i = i + 1;
    }
    assert(f.children@.take(f.children@.len() as int) =~= f.children@);
    None
}

pub open spec fn param_views(ps: Seq<(String, String)>) -> Seq<(Seq<char>, Seq<char>)> {
    ps.map_values(|p: (String, String)| (p.0@, p.1@))
}

fn params_of(sig: &Node) -> (r: Vec<(String, String)>)
    ensures
        param_views(r@) == labeled_params(sig.children@),
{
    let mut out: Vec<(String, String)> = Vec::new();
    let mut i: usize = 0;
    while i < sig.children.len()
        invariant
            i <= sig.children@.len(),
            param_views(out@) == labeled_params(sig.children@.take(i as int)),
        decreases sig.children@.len() - i,
    {
        assert(sig.children@.take(i + 1).drop_last() =~= sig.children@.take(i as int));
        assert(sig.children@.take(i + 1).last() == sig.children@[i as int]);
        let c = &sig.children[i];
        let ghost before = param_views(out@);
        if c.kind == Kind::Param && c.children.len() == 2 && c.children[0].kind == Kind::PatIdent {
            match label_type_exec(&c.children[1]) {
                Some(l) => {
                    out.push((c.children[0].name.clone(), l.to_owned()));
                    assert(param_views(out@) =~= before.push((c.children@[0].name@, l@)));
                },
                None => {},
            }
        }
        assert(param_views(out@) =~= labeled_params(sig.children@.take(i + 1)));
        i = i + 1;
    }
    assert(sig.children@.take(sig.children@.len() as int) =~= sig.children@);
    out
}

fn param_label_exec<'a>(ps: &'a Vec<(String, String)>, id: &str) -> (r: Option<&'a str>)
    ensures
        match r {
            Some(l) => param_label(param_views(ps@), id@) == Some(l@),
            None => param_label(param_views(ps@), id@) is None,
        },
{
    let ghost v = param_views(ps@);
    let mut k: usize = ps.len();
    assert(v.take(k as int) =~= v);
    while k > 0
        invariant
            k <= ps@.len(),
            v == param_views(ps@),
            param_label(v, id@) == param_label(v.take(k as int), id@),
        decreases k,
    {
        assert(v.take(k as int).drop_last() =~= v.take(k - 1));
        assert(v.take(k as int).last() == v[k - 1]);
        if same_text(ps[k - 1].0.as_str(), id) {
            return Some(ps[k - 1].1.as_str());
        }
        k = k - 1;
    }
    None
}

pub open spec fn relabel_view(r: Option<(String, String)>) -> Option<(Seq<char>, Seq<char>)> {
    match r {
        Some((a, b)) => Some((a@, b@)),
        None => None,
    }
}

fn ifc_at_exec(
    n: &Node,
    f: &str,
    relabel: &Option<(String, String)>,
    params: &Vec<(String, String)>,
) -> (r: Option<Diagnostic>)
    ensures
        match r {
            Some(d) => ifc_at(*n, f@, relabel_view(*relabel), param_views(params@)) == Some(d@),
            None => ifc_at(*n, f@, relabel_view(*relabel), param_views(params@)) is None,
        },
{
    if n.kind == Kind::MethodCall && same_text(n.name.as_str(), "into_inner") && n.children.len() > 0 {
        match path_ident_exec(&n.children[0]) {
            Some(id) => match param_label_exec(params, id) {
                Some(label) => {
                    let declared = match relabel {
                        Some((from, _)) => same_text(from.as_str(), label),
                        None => false,
                    };
                    if declared {
                        None
                    } else {
                        let mut m = String::from_str("`");
                        push_str(&mut m, f);
                        push_str(&mut m, "` strips label `");
                        push_str(&mut m, label);
                        push_str(&mut m, "` via `.into_inner()` without a matching `#[mvl::relabel(from = \"");
                        push_str(&mut m, label);
                        push_str(&mut m, "\", ..)]`");
                        Some(error(m, n.aux, "illegal declassification"))
                    }
                },
                None => None,
            },
            None => None,
        }
    } else if n.kind == Kind::Call && n.children.len() > 0 {
        match label_construction_exec(&n.children[0]) {
            Some(label) => {
                let declared = match relabel {
                    Some((_, to)) => same_text(to.as_str(), label),
                    None => false,
                };
                if declared {
                    None
                } else {
                    let mut m = String::from_str("`");
                    push_str(&mut m, f);
                    push_str(&mut m, "` constructs label `");
                    push_str(&mut m, label);
                    push_str(&mut m, "` without a matching `#[mvl::relabel(.., to = \"");
                    push_str(&mut m, label);
                    push_str(&mut m, "\")]`");
                    Some(error(m, n.span, "illegal classification"))
                }
            },
            None => None,
        }
    } else {
        None
    }
}

fn ifc_walk(
    n: &Node,
    f: &str,
    relabel: &Option<(String, String)>,
    params: &Vec<(String, String)>,
    out: &mut Vec<Diagnostic>,
)
    ensures
        views(final(out)@) == views(old(out)@) + ifc_tree(*n, f@, relabel_view(*relabel), param_views(params@)),
    decreases n,
{
    let ghost start = views(out@);
    match ifc_at_exec(n, f, relabel, params) {
        Some(d) => {
            out.push(d);
        },
        None => {},
    }
    assert(views(out@) =~= start + opt_seq(ifc_at(*n, f@, relabel_view(*relabel), param_views(params@))));
    let ghost mid = views(out@);
    let mut i: usize = 0;
    while i < n.children.len()
        invariant
            i <= n.children@.len(),
            views(out@) == mid + ifc_list(n.children@.take(i as int), f@, relabel_view(*relabel), param_views(params@)),
        decreases n.children@.len() - i,
    {
        assert(n.children@.take(i + 1).drop_last() =~= n.children@.take(i as int));
        ifc_walk(&n.children[i], f, relabel, params, out);
        assert(views(out@) =~= mid + ifc_list(n.children@.take(i + 1), f@, relabel_view(*relabel), param_views(params@)));
        i = i + 1;
    }
    assert(n.children@.take(n.children@.len() as int) =~= n.children@);
}

/// What the label check reports over a file's tree: for each top-level
/// function in order, every declassification or classification its own
/// `relabel` does not declare.
pub fn check_labels(file: &Node) -> (r: Vec<Diagnostic>)
    ensures
        views(r@) == ifc_report(*file),
{
    let mut out: Vec<Diagnostic> = Vec::new();
    let mut k: usize = 0;
    while k < file.children.len()
        invariant
            k <= file.children@.len(),
            views(out@) + ifc_report_from(file.children@, k as int) == ifc_report_from(file.children@, 0),
        decreases file.children@.len() - k,
    {
        let f = &file.children[k];
        let ghost before = views(out@);
        let n = f.children.len();
        if f.kind == Kind::FnItem && n > 0 && f.children[n - 1].kind == Kind::BlockNode {
            let relabel = first_relabel_exec(f);
            let params: Vec<(String, String)> = match first_sig_of(f) {
                Some(sig) => params_of(sig),
                None => Vec::new(),
            };
            assert(param_views(params@) =~= sig_params(f.children@));
            ifc_walk(&f.children[n - 1], f.name.as_str(), &relabel, &params, &mut out);
        }
        assert(views(out@) + ifc_report_from(file.children@, k + 1) =~= before + ifc_report_from(
            file.children@,
            k as int,
        ));
        k = k + 1;
    }
    assert(views(out@) =~= ifc_report(*file));
    out
}

/// Checks source text for undeclared label transitions: every diagnostic,
/// or the parse error.
pub fn check_source(source: &str) -> (r: Result<Vec<Diagnostic>, CheckError>)
    ensures
        match rust_file_syntax(source@) {
            Ok(file) => r matches Ok(ds) && views(ds@) == ifc_report(file),
            Err(m) => r matches Err(CheckError::Parse(e)) && e == m,
        },
{
    match parse_rust_file(source) {
        Ok(file) => Ok(check_labels(&file)),
        Err(m) => Err(CheckError::Parse(m)),
    }
}


// ── The transition law ─────────────────────────────────────────────────────

/// Whether every recognized declassification under `n` strips the label
/// the declared transition starts from, and every recognized
/// classification constructs the label it ends at.
pub open spec fn transitions_declared_tree(
    n: Node,
    relabel: Option<(Seq<char>, Seq<char>)>,
    params: Seq<(Seq<char>, Seq<char>)>,
) -> bool
    decreases n, 1nat,
{
    &&& (n.kind == Kind::MethodCall && n.name@ == "into_inner"@ && n.children@.len() > 0 ==> match path_ident(
        n.children@[0],
    ) {
        Some(id) => match param_label(params, id) {
            Some(label) => relabel matches Some((from, _)) && from == label,
            None => true,
        },
        None => true,
    })
    &&& (n.kind == Kind::Call && n.children@.len() > 0 ==> match recognized_label_construction(n.children@[0]) {
        Some(label) => relabel matches Some((_, to)) && to == label,
        None => true,
    })
    &&& transitions_declared_list(n.children@, relabel, params)
}

pub open spec fn transitions_declared_list(
    ns: Seq<Node>,
    relabel: Option<(Seq<char>, Seq<char>)>,
    params: Seq<(Seq<char>, Seq<char>)>,
) -> bool
    decreases ns, 0nat,
{
    if ns.len() == 0 {
        true
    } else {
        transitions_declared_list(ns.drop_last(), relabel, params) && transitions_declared_tree(
            ns.last(),
            relabel,
            params,
        )
    }
}

proof fn lemma_quiet_tree(
    n: Node,
    f: Seq<char>,
    relabel: Option<(Seq<char>, Seq<char>)>,
    params: Seq<(Seq<char>, Seq<char>)>,
)
    requires
        ifc_tree(n, f, relabel, params).len() == 0,
    ensures
        transitions_declared_tree(n, relabel, params),
    decreases n, 1nat,
{
    assert(opt_seq(ifc_at(n, f, relabel, params)).len() == 0);
    lemma_quiet_list(n.children@, f, relabel, params);
}

proof fn lemma_quiet_list(
    ns: Seq<Node>,
    f: Seq<char>,
    relabel: Option<(Seq<char>, Seq<char>)>,
    params: Seq<(Seq<char>, Seq<char>)>,
)
    requires
        ifc_list(ns, f, relabel, params).len() == 0,
    ensures
        transitions_declared_list(ns, relabel, params),
    decreases ns, 0nat,
{
    if ns.len() > 0 {
        lemma_quiet_list(ns.drop_last(), f, relabel, params);
        lemma_quiet_tree(ns.last(), f, relabel, params);
    }
}

proof fn lemma_quiet_from(items: Seq<Node>, k: int)
    requires
        0 <= k,
        ifc_report_from(items, k).len() == 0,
    ensures
        forall|j: int|
            k <= j < items.len() ==> ((#[trigger] items[j]).kind == Kind::FnItem && items[j].children@.len() > 0
                && items[j].children@.last().kind == Kind::BlockNode ==> transitions_declared_tree(
                items[j].children@.last(),
                first_relabel(items[j].children@),
                sig_params(items[j].children@),
            )),
    decreases items.len() - k,
{
    if k < items.len() {
        lemma_quiet_from(items, k + 1);
        let f = items[k];
        if f.kind == Kind::FnItem && f.children@.len() > 0 && f.children@.last().kind == Kind::BlockNode {
            lemma_quiet_tree(f.children@.last(), f.name@, first_relabel(f.children@), sig_params(f.children@));
        }
    }
}

/// Labeled data is only relabelled through a declared transition: when
/// the label check reports nothing on a file, every declassification it
/// recognizes in a top-level function strips exactly the label that the
/// function's `#[mvl::relabel]` starts from, and every classification it
/// recognizes constructs exactly the label that transition ends at.
pub proof fn lemma_quiet_report_means_declared(file: Node)
    requires
        ifc_report(file).len() == 0,
    ensures
        forall|j: int|
            0 <= j < file.children@.len() ==> ((#[trigger] file.children@[j]).kind == Kind::FnItem
                && file.children@[j].children@.len() > 0 && file.children@[j].children@.last().kind
                == Kind::BlockNode ==> transitions_declared_tree(
                file.children@[j].children@.last(),
                first_relabel(file.children@[j].children@),
                sig_params(file.children@[j].children@),
            )),
{
    lemma_quiet_from(file.children@, 0);
}

// ── Classification by construction ─────────────────────────────────────────

/// Whether `relabel` declares a classification to `label`.
pub open spec fn declares_to(relabel: Option<(Seq<char>, Seq<char>)>, label: Seq<char>) -> bool {
    relabel matches Some((_, to)) && to == label
}

/// A call `Labeled::<L, T>::new(..)` (a path, without a qualified self
/// type, whose last two segments are `Labeled` with the two type
/// arguments `L` and `T` in angle brackets, then `new`; `L` a plain type
/// path) classifies at label `L`: it is an illegal classification inside
/// a function exactly when the function's `relabel` does not declare
/// `to = L`.
pub proof fn lemma_labeled_new_classifies(
    n: Node,
    f: Seq<char>,
    relabel: Option<(Seq<char>, Seq<char>)>,
    params: Seq<(Seq<char>, Seq<char>)>,
)
    requires
        n.kind == Kind::Call,
        n.children@.len() > 0,
        n.children@[0].kind == Kind::PathNode,
        n.children@[0].children@.len() >= 2,
        n.children@[0].children@[0].kind != Kind::QSelf,
        n.children@[0].children@.last().name@ == "new"@,
        ({
            let seg = n.children@[0].children@[n.children@[0].children@.len() - 2];
            &&& seg.name@ == "Labeled"@
            &&& seg.text@ == "<>"@
            &&& seg.children@.len() == 2
            &&& seg.children@[0].kind == Kind::TypeArg
            &&& seg.children@[1].kind == Kind::TypeArg
            &&& seg.children@[0].children@.len() > 0
            &&& seg.children@[0].children@[0].kind == Kind::PathNode
            &&& seg.children@[0].children@[0].children@.len() > 0
            &&& seg.children@[0].children@[0].children@[0].kind != Kind::QSelf
        }),
    ensures
        ({
            let seg = n.children@[0].children@[n.children@[0].children@.len() - 2];
            let label = seg.children@[0].children@[0].children@.last().name@;
            &&& recognized_label_construction(n.children@[0]) == Some(label)
            &&& ifc_at(n, f, relabel, params) == if declares_to(relabel, label) {
                None
            } else {
                Some(error_at(classify_message(f, label), n.span, "illegal classification"@))
            }
        }),
{
    reveal_strlit("Labeled");
    reveal_strlit("Tainted");
    reveal_strlit("Secret");
    let p = n.children@[0];
    let seg = p.children@[p.children@.len() - 2];
    let cs = seg.children@;
    let c1 = cs.drop_last();
    assert(c1.drop_last() =~= Seq::<Node>::empty());
    assert(type_args(c1.drop_last()) =~= Seq::<Node>::empty());
    assert(c1.last() == cs[0]);
    assert(type_args(c1) =~= seq![cs[0]]);
    assert(cs.last() == cs[1]);
    assert(type_args(cs) =~= cs);
    assert(labeled_form(seg) == simple_type_name(cs[0].children@[0]));
    let label = cs[0].children@[0].children@.last().name@;
    assert(simple_type_name(cs[0].children@[0]) == Some(label));
    assert("Labeled"@[0] == 'L' && "Tainted"@[0] == 'T' && "Secret"@[0] == 'S');
    assert(seg.name@ != "Tainted"@ && seg.name@ != "Secret"@);
    assert(label_of_segment(seg) == Some(label));
    assert(segments(p) == p.children@);
    assert(recognized_label_construction(p) == Some(label));
}

/// A call `Tainted::new(..)` or `Secret::new(..)` classifies at `Tainted`
/// or `Secret`, with the same rule.
pub proof fn lemma_named_new_classifies(
    n: Node,
    f: Seq<char>,
    relabel: Option<(Seq<char>, Seq<char>)>,
    params: Seq<(Seq<char>, Seq<char>)>,
)
    requires
        n.kind == Kind::Call,
        n.children@.len() > 0,
        n.children@[0].kind == Kind::PathNode,
        n.children@[0].children@.len() >= 2,
        n.children@[0].children@[0].kind != Kind::QSelf,
        n.children@[0].children@.last().name@ == "new"@,
        n.children@[0].children@[n.children@[0].children@.len() - 2].name@ == "Tainted"@
            || n.children@[0].children@[n.children@[0].children@.len() - 2].name@ == "Secret"@,
    ensures
        ({
            let label = n.children@[0].children@[n.children@[0].children@.len() - 2].name@;
            &&& recognized_label_construction(n.children@[0]) == Some(label)
            &&& ifc_at(n, f, relabel, params) == if declares_to(relabel, label) {
                None
            } else {
                Some(error_at(classify_message(f, label), n.span, "illegal classification"@))
            }
        }),
{
    assert(segments(n.children@[0]) == n.children@[0].children@);
}

proof fn lemma_param_label_unique(ps: Seq<(Seq<char>, Seq<char>)>, k: int)
    requires
        0 <= k < ps.len(),
        forall|j: int| 0 <= j < ps.len() && j != k ==> (#[trigger] ps[j]).0 != ps[k].0,
    ensures
        param_label(ps, ps[k].0) == Some(ps[k].1),
    decreases ps.len(),
{
    if k < ps.len() - 1 {
        let p2 = ps.drop_last();
        assert(ps[ps.len() - 1].0 != ps[k].0);
        assert forall|j: int| 0 <= j < p2.len() && j != k implies (#[trigger] p2[j]).0 != p2[k].0 by {
            assert(p2[j] == ps[j]);
        }
        lemma_param_label_unique(p2, k);
        assert(p2[k] == ps[k]);
    }
}

/// `x.into_inner()` on a parameter `x` declared with label `L` declassifies
/// `L`: it is an illegal declassification inside a function exactly when
/// the function's `relabel` does not declare `from = L`; the report points
/// at the method name.
pub proof fn lemma_into_inner_declassifies(
    n: Node,
    f: Seq<char>,
    relabel: Option<(Seq<char>, Seq<char>)>,
    params: Seq<(Seq<char>, Seq<char>)>,
    k: int,
)
    requires
        n.kind == Kind::MethodCall,
        n.name@ == "into_inner"@,
        n.children@.len() > 0,
        n.children@[0].kind == Kind::PathNode,
        !n.children@[0].flag,
        n.children@[0].children@.len() == 1,
        n.children@[0].children@[0].kind == Kind::Segment,
        n.children@[0].children@[0].text@.len() == 0,
        0 <= k < params.len(),
        params[k].0 == n.children@[0].children@[0].name@,
        forall|j: int| 0 <= j < params.len() && j != k ==> (#[trigger] params[j]).0 != params[k].0,
    ensures
        ifc_at(n, f, relabel, params) == if relabel matches Some((from, _)) && from == params[k].1 {
            None
        } else {
            Some(error_at(declassify_message(f, params[k].1), n.aux, "illegal declassification"@))
        },
{
    lemma_param_label_unique(params, k);
}

} // verus!
