//! Effect propagation: a caller must declare every effect its same-file
//! callees declare. A function's effects are those of its first
//! `#[mvl::effect(..)]` attribute; without one (or with an empty one) it is
//! pure.
//!
//! Callers are the file's top-level free functions and the methods of its
//! `impl` blocks (named `"Type::method"`). A call resolves when its callee
//! is a bare identifier naming one of them; any other call, and every
//! method call, is unresolvable and is not flagged either way. A function
//! that claims purity explicitly (`#[mvl::effect()]`) while making
//! unresolvable calls gets a note: the claim is trusted, not checked.

use vstd::prelude::*;

use crate::attrs::{spec_attr, MvlAttr, MvlAttrV};
use crate::diagnostics::{error, error_at, Diagnostic, DiagnosticV, Level};
use crate::from_syn::{parse_rust_file, rust_file_syntax};
use crate::impl_methods::{impl_methods, items_of, methods_of};
use crate::limits::{views, CheckError};
use crate::order::{sorted_names, lemma_sorted_unique};
use crate::sat::{insert_sorted, names};
use crate::syntax::{Kind, Loc, Node};
use crate::text::{int_text_into, push_str, same_text, spec_int_text};

verus! {

// ── Declared effects ───────────────────────────────────────────────────────

/// The effect names of the first well-formed `effect` attribute among
/// `cs`.
pub open spec fn first_effect(cs: Seq<Node>) -> Option<Seq<Seq<char>>>
    decreases cs.len(),
{
    if cs.len() == 0 {
        None
    } else {
        match first_effect(cs.drop_last()) {
            Some(x) => Some(x),
            None => match spec_attr(cs.last()) {
                Some(Ok(MvlAttrV::Effect(names))) => Some(names),
                _ => None,
            },
        }
    }
}

/// The names of a finite set, sorted.
pub open spec fn sorted_set(s: Set<Seq<char>>) -> Seq<Seq<char>> {
    choose|v: Seq<Seq<char>>| sorted_names(v) && forall|x: Seq<char>| v.contains(x) <==> s.contains(x)
}

/// The effects a `fn` node declares, sorted and without repeats.
pub open spec fn declared_effects(f: Node) -> Seq<Seq<char>> {
    match first_effect(f.children@) {
        Some(names) => sorted_set(names.to_set()),
        None => Seq::empty(),
    }
}

/// Whether a `fn` node carries a well-formed `effect` attribute at all.
pub open spec fn explicit_effect(f: Node) -> bool {
    first_effect(f.children@) is Some
}

/// The top-level free functions among `items`, by name.
pub open spec fn free_fns(items: Seq<Node>) -> Seq<(Seq<char>, Node)>
    decreases items.len(),
{
    if items.len() == 0 {
        Seq::empty()
    } else {
        free_fns(items.drop_last()) + if items.last().kind == Kind::FnItem {
            seq![(items.last().name@, items.last())]
        } else {
            Seq::empty()
        }
    }
}

/// Every function whose calls are checked, in order: the free functions,
/// then the methods.
pub open spec fn callers(file: Node) -> Seq<(Seq<char>, Node)> {
    free_fns(file.children@) + methods_of(items_of(file.children@))
}

/// The effects of the last function named `id` (a later definition of a
/// name replaces an earlier one).
pub open spec fn lookup(entries: Seq<(Seq<char>, Node)>, id: Seq<char>) -> Option<Seq<Seq<char>>>
    decreases entries.len(),
{
    if entries.len() == 0 {
        None
    } else if entries.last().0 == id {
        Some(declared_effects(entries.last().1))
    } else {
        lookup(entries.drop_last(), id)
    }
}

/// The callee of a call, when it is a bare identifier.
pub open spec fn callee_ident(call: Node) -> Option<Seq<char>> {
    if call.children@.len() > 0 {
        let c = call.children@[0];
        if c.kind == Kind::PathNode && !c.flag && c.children@.len() == 1 && c.children@[0].kind == Kind::Segment
            && c.children@[0].text@.len() == 0 {
            Some(c.children@[0].name@)
        } else {
            None
        }
    } else {
        None
    }
}

/// The names of `t` that `s` does not hold, in order.
pub open spec fn missing_names(t: Seq<Seq<char>>, s: Seq<Seq<char>>) -> Seq<Seq<char>>
    decreases t.len(),
{
    if t.len() == 0 {
        Seq::empty()
    } else {
        let m = missing_names(t.drop_last(), s);
        if s.contains(t.last()) {
            m
        } else {
            m.push(t.last())
        }
    }
}

/// Names joined with `, `.
pub open spec fn join_names(s: Seq<Seq<char>>) -> Seq<char>
    decreases s.len(),
{
    if s.len() == 0 {
        Seq::empty()
    } else if s.len() == 1 {
        s[0]
    } else {
        join_names(s.drop_last()) + ", "@ + s.last()
    }
}

/// What a node reports when it is a resolved call missing some of its
/// callee's effects.
pub open spec fn call_diag(n: Node, entries: Seq<(Seq<char>, Node)>, caller: Seq<char>, declared: Seq<Seq<char>>) -> Option<DiagnosticV> {
    if n.kind == Kind::Call {
        match callee_ident(n) {
            Some(id) => match lookup(entries, id) {
                Some(t) => if missing_names(t, declared).len() > 0 {
                    Some(error_at(
                        "`"@ + caller + "` calls effectful `"@ + id + "` without declaring: "@ + join_names(
                            missing_names(t, declared),
                        ),
                        n.span,
                        "undeclared effect propagation"@,
                    ))
                } else {
                    None
                },
                None => None,
            },
            None => None,
        }
    } else {
        None
    }
}

/// Whether a node is a call this check cannot resolve.
pub open spec fn unresolved_here(n: Node, entries: Seq<(Seq<char>, Node)>) -> bool {
    n.kind == Kind::MethodCall || (n.kind == Kind::Call && !(callee_ident(n) matches Some(id) && lookup(
        entries,
        id,
    ) is Some))
}

pub open spec fn opt_seq(o: Option<DiagnosticV>) -> Seq<DiagnosticV> {
    match o {
        Some(d) => seq![d],
        None => Seq::empty(),
    }
}

/// What a body reports, node by node in walk order.
pub open spec fn diags_tree(n: Node, entries: Seq<(Seq<char>, Node)>, caller: Seq<char>, declared: Seq<Seq<char>>) -> Seq<DiagnosticV>
    decreases n, 1nat,
{
    opt_seq(call_diag(n, entries, caller, declared)) + diags_list(n.children@, entries, caller, declared)
}

pub open spec fn diags_list(ns: Seq<Node>, entries: Seq<(Seq<char>, Node)>, caller: Seq<char>, declared: Seq<Seq<char>>) -> Seq<DiagnosticV>
    decreases ns, 0nat,
{
    if ns.len() == 0 {
        Seq::empty()
    } else {
        diags_list(ns.drop_last(), entries, caller, declared) + diags_tree(ns.last(), entries, caller, declared)
    }
}

/// How many unresolvable calls a body makes.
pub open spec fn unresolved_tree(n: Node, entries: Seq<(Seq<char>, Node)>) -> nat
    decreases n, 1nat,
{
    (if unresolved_here(n, entries) { 1nat } else { 0nat }) + unresolved_list(n.children@, entries)
}

pub open spec fn unresolved_list(ns: Seq<Node>, entries: Seq<(Seq<char>, Node)>) -> nat
    decreases ns, 0nat,
{
    if ns.len() == 0 {
        0
    } else {
        unresolved_list(ns.drop_last(), entries) + unresolved_tree(ns.last(), entries)
    }
}

/// The body of a `fn` node: its last child, when that is a block.
pub open spec fn body_of(f: Node) -> Option<Node> {
    if f.children@.len() > 0 && f.children@.last().kind == Kind::BlockNode {
        Some(f.children@.last())
    } else {
        None
    }
}

/// The first signature among a `fn` node's children.
pub open spec fn first_sig(cs: Seq<Node>) -> Option<Node>
    decreases cs.len(),
{
    if cs.len() == 0 {
        None
    } else {
        match first_sig(cs.drop_last()) {
            Some(x) => Some(x),
            None => if cs.last().kind == Kind::FnSig {
                Some(cs.last())
            } else {
                None
            },
        }
    }
}

/// Where a `fn` node's signature is.
pub open spec fn sig_span(f: Node) -> Loc {
    match first_sig(f.children@) {
        Some(sig) => sig.span,
        None => f.span,
    }
}

/// The unverified purity claim note, as the count is shown.
pub open spec fn purity_note(caller: Seq<char>, count: int, at: Loc) -> DiagnosticV {
    DiagnosticV {
        level: Level::Note,
        message: "`"@ + caller + "` claims purity via `#[mvl::effect()]`, but this is not verified: "@ + spec_int_text(
            count,
        ) + " unresolvable call(s)"@,
        span: at,
        label: Some("purity claim not verified"@),
        suggestion: None,
    }
}

/// What checking one caller reports.
pub open spec fn caller_report(entries: Seq<(Seq<char>, Node)>, caller: Seq<char>, f: Node) -> Seq<DiagnosticV> {
    let declared = match lookup(entries, caller) {
        Some(s) => s,
        None => Seq::empty(),
    };
    match body_of(f) {
        Some(body) => diags_tree(body, entries, caller, declared) + if unresolved_tree(body, entries) > 0
            && declared.len() == 0 && explicit_effect(f) {
            seq![purity_note(caller, min_count(unresolved_tree(body, entries)), sig_span(f))]
        } else {
            Seq::empty()
        },
        None => Seq::empty(),
    }
}

/// A count as shown: capped at `u64::MAX`.
pub open spec fn min_count(n: nat) -> int {
    if n <= u64::MAX {
        n as int
    } else {
        u64::MAX as int
    }
}

/// What the effect check reports over the callers from position `k` on.
pub open spec fn report_from(entries: Seq<(Seq<char>, Node)>, k: int) -> Seq<DiagnosticV>
    decreases entries.len() - k,
{
    if 0 <= k < entries.len() {
        caller_report(entries, entries[k].0, entries[k].1) + report_from(entries, k + 1)
    } else {
        Seq::empty()
    }
}

/// What the effect check reports over a file's tree.
pub open spec fn effect_report(file: Node) -> Seq<DiagnosticV> {
    report_from(callers(file), 0)
}

// ── Checking ───────────────────────────────────────────────────────────────

proof fn lemma_first_effect_prefix(cs: Seq<Node>, k: int)
    requires
        0 <= k <= cs.len(),
        first_effect(cs.take(k)) is Some,
    ensures
        first_effect(cs) == first_effect(cs.take(k)),
    decreases cs.len() - k,
{
    if k < cs.len() {
        assert(cs.take(k + 1).drop_last() =~= cs.take(k));
        lemma_first_effect_prefix(cs, k + 1);
    } else {
        assert(cs.take(k) =~= cs);
    }
}

/// The names of the first well-formed `effect` attribute among a `fn`
/// node's children.
fn first_effect_of(f: &Node) -> (r: Option<Vec<String>>)
    ensures
        match r {
            Some(v) => first_effect(f.children@) == Some(names(v@)),
            None => first_effect(f.children@) is None,
        },
{
    let mut i: usize = 0;
    while i < f.children.len()
        invariant
            i <= f.children@.len(),
            first_effect(f.children@.take(i as int)) is None,
        decreases f.children@.len() - i,
    {
        assert(f.children@.take(i + 1).drop_last() =~= f.children@.take(i as int));
        assert(f.children@.take(i + 1).last() == f.children@[i as int]);
        match MvlAttr::try_from_attribute(&f.children[i]) {
            Some(Ok(MvlAttr::Effect(e))) => {
                proof {
                    assert(names(e.effects@) =~= e.effects@.map_values(|s: String| s@));
                    lemma_first_effect_prefix(f.children@, i + 1);
                }
                return Some(e.effects);
            },
            _ => {},
        }
        i = i + 1;
    }
    assert(f.children@.take(f.children@.len() as int) =~= f.children@);
    None
}

/// The names sorted and without repeats.
fn sorted_names_of(v: &Vec<String>) -> (r: Vec<String>)
    ensures
        names(r@) == sorted_set(names(v@).to_set()),
{
    let mut out: Vec<String> = Vec::new();
    let mut i: usize = 0;
    while i < v.len()
        invariant
            i <= v@.len(),
            sorted_names(names(out@)),
            forall|x: Seq<char>| names(out@).contains(x) <==> names(v@.take(i as int)).contains(x),
        decreases v@.len() - i,
    {
        insert_sorted(&mut out, &v[i]);
        proof {
            let a = names(v@.take(i as int));
            let b = names(v@.take(i + 1));
            assert(b =~= a.push(v@[i as int]@));
            assert forall|x: Seq<char>| names(out@).contains(x) <==> b.contains(x) by {
                if x == v@[i as int]@ {
                    assert(b[i as int] == x);
                }
                if a.contains(x) {
                    let k = choose|k: int| 0 <= k < a.len() && #[trigger] a[k] == x;
                    assert(b[k] == x);
                }
                if b.contains(x) {
                    let k = choose|k: int| 0 <= k < b.len() && #[trigger] b[k] == x;
                    if k < i {
                        assert(a[k] == x);
                    }
                }
            }
        }
        i = i + 1;
    }
    proof {
        assert(v@.take(v@.len() as int) =~= v@);
        let s = names(v@).to_set();
        assert forall|x: Seq<char>| names(out@).contains(x) <==> s.contains(x) by {}
        let w = sorted_set(s);
        assert(sorted_names(w) && forall|x: Seq<char>| w.contains(x) <==> s.contains(x));
        lemma_sorted_unique(names(out@), w);
    }
    out
}

/// Whether the list holds the name.
fn holds(s: &Vec<String>, x: &String) -> (r: bool)
    ensures
        r == names(s@).contains(x@),
{
    let mut i: usize = 0;
    while i < s.len()
        invariant
            i <= s@.len(),
            forall|j: int| 0 <= j < i ==> s@[j]@ != x@,
        decreases s@.len() - i,
    {
        if same_text(s[i].as_str(), x.as_str()) {
            assert(names(s@)[i as int] == x@);
            return true;
        }
        i = i + 1;
    }
    proof {
        if names(s@).contains(x@) {
            let k = choose|k: int| 0 <= k < names(s@).len() && #[trigger] names(s@)[k] == x@;
            assert(s@[k]@ == x@);
        }
    }
    false
}

/// The names of `t` that `s` does not hold, in order.
fn missing(t: &Vec<String>, s: &Vec<String>) -> (r: Vec<String>)
    ensures
        names(r@) == missing_names(names(t@), names(s@)),
{
    let mut out: Vec<String> = Vec::new();
    let mut i: usize = 0;
    while i < t.len()
        invariant
            i <= t@.len(),
            names(out@) == missing_names(names(t@.take(i as int)), names(s@)),
        decreases t@.len() - i,
    {
        assert(names(t@.take(i + 1)).drop_last() =~= names(t@.take(i as int)));
        assert(names(t@.take(i + 1)).last() == t@[i as int]@);
        if !holds(s, &t[i]) {
            out.push(t[i].clone());
            assert(names(out@) =~= missing_names(names(t@.take(i as int)), names(s@)).push(t@[i as int]@));
        }
        i = i + 1;
    }
    assert(t@.take(t@.len() as int) =~= t@);
    out
}

/// Names joined with `, `.
fn join(v: &Vec<String>) -> (r: String)
    ensures
        r@ == join_names(names(v@)),
{
    let mut out = String::new();
    let mut i: usize = 0;
    while i < v.len()
        invariant
            i <= v@.len(),
            out@ == join_names(names(v@.take(i as int))),
        decreases v@.len() - i,
    {
        assert(names(v@.take(i + 1)).drop_last() =~= names(v@.take(i as int)));
        assert(names(v@.take(i + 1)).last() == v@[i as int]@);
        if i > 0 {
            push_str(&mut out, ", ");
        } else {
            assert(names(v@.take(1))[0] == v@[0]@);
        }
        push_str(&mut out, v[i].as_str());
        i = i + 1;
    }
    assert(v@.take(v@.len() as int) =~= v@);
    out
}

pub open spec fn entry_views(e: Seq<(String, &Node)>) -> Seq<(Seq<char>, Node)> {
    e.map_values(|p: (String, &Node)| (p.0@, *p.1))
}

/// The table entry `k` holds the declared effects of entry `k`.
pub open spec fn table_ok(e: Seq<(Seq<char>, Node)>, table: Seq<Vec<String>>) -> bool {
    &&& table.len() == e.len()
    &&& forall|k: int| 0 <= k < e.len() ==> names((#[trigger] table[k])@) == declared_effects(e[k].1)
}

/// The declared effects of the last entry named `id`.
fn lookup_exec<'a>(entries: &Vec<(String, &Node)>, table: &'a Vec<Vec<String>>, id: &str) -> (r: Option<&'a Vec<String>>)
    requires
        table_ok(entry_views(entries@), table@),
    ensures
        match r {
            Some(t) => lookup(entry_views(entries@), id@) == Some(names(t@)),
            None => lookup(entry_views(entries@), id@) is None,
        },
{
    let ghost e = entry_views(entries@);
    let mut k: usize = entries.len();
    assert(e.take(k as int) =~= e);
    while k > 0
        invariant
            k <= entries@.len(),
            e == entry_views(entries@),
            table_ok(e, table@),
            lookup(e, id@) == lookup(e.take(k as int), id@),
        decreases k,
    {
        assert(e.take(k as int).drop_last() =~= e.take(k - 1));
        assert(e.take(k as int).last() == e[k - 1]);
        if same_text(entries[k - 1].0.as_str(), id) {
            assert(names(table@[k - 1]@) == declared_effects(e[k - 1].1));
            return Some(&table[k - 1]);
        }
        k = k - 1;
    }
    None
}

/// The callee of a call, when it is a bare identifier.
fn callee_ident_exec(call: &Node) -> (r: Option<&str>)
    ensures
        match r {
            Some(id) => callee_ident(*call) == Some(id@),
            None => callee_ident(*call) is None,
        },
{
    if call.children.len() > 0 {
        let c = &call.children[0];
        if c.kind == Kind::PathNode && !c.flag && c.children.len() == 1 && c.children[0].kind == Kind::Segment
            && c.children[0].text.unicode_len() == 0 {
            return Some(c.children[0].name.as_str());
        }
    }
    None
}

pub open spec fn cap(x: int) -> int {
    if x <= u64::MAX {
        x
    } else {
        u64::MAX as int
    }
}

fn walk(
    n: &Node,
    entries: &Vec<(String, &Node)>,
    table: &Vec<Vec<String>>,
    caller: &str,
    declared: &Vec<String>,
    out: &mut Vec<Diagnostic>,
    count: &mut u64,
)
    requires
        table_ok(entry_views(entries@), table@),
    ensures
        views(final(out)@) == views(old(out)@) + diags_tree(*n, entry_views(entries@), caller@, names(declared@)),
        *final(count) as int == cap(*old(count) + unresolved_tree(*n, entry_views(entries@))),
    decreases n,
{
    let ghost e = entry_views(entries@);
    let ghost start = views(out@);
    let ghost c0 = *count as int;
    let mut resolved = false;
    if n.kind == Kind::Call {
        match callee_ident_exec(n) {
            Some(id) => match lookup_exec(entries, table, id) {
                Some(t) => {
                    resolved = true;
                    let m = missing(t, declared);
                    if m.len() > 0 {
                        let mut msg = String::from_str("`");
                        push_str(&mut msg, caller);
                        push_str(&mut msg, "` calls effectful `");
                        push_str(&mut msg, id);
                        push_str(&mut msg, "` without declaring: ");
                        let j = join(&m);
                        push_str(&mut msg, j.as_str());
                        out.push(error(msg, n.span, "undeclared effect propagation"));
                    }
                },
                None => {},
            },
            None => {},
        }
    }
    assert(views(out@) =~= start + opt_seq(call_diag(*n, e, caller@, names(declared@))));
    if n.kind == Kind::MethodCall || (n.kind == Kind::Call && !resolved) {
        *count = count.saturating_add(1);
    }
    assert(*count as int == cap(c0 + (if unresolved_here(*n, e) { 1nat } else { 0nat })));
    let ghost mid = views(out@);
    let mut i: usize = 0;
    while i < n.children.len()
        invariant
            i <= n.children@.len(),
            e == entry_views(entries@),
            table_ok(e, table@),
            views(out@) == mid + diags_list(n.children@.take(i as int), e, caller@, names(declared@)),
            *count as int == cap(c0 + (if unresolved_here(*n, e) { 1nat } else { 0nat }) + unresolved_list(
                n.children@.take(i as int),
                e,
            )),
        decreases n.children@.len() - i,
    {
        assert(n.children@.take(i + 1).drop_last() =~= n.children@.take(i as int));
        walk(&n.children[i], entries, table, caller, declared, out, count);
        assert(views(out@) =~= mid + diags_list(n.children@.take(i + 1), e, caller@, names(declared@)));
        i = i + 1;
    }
    assert(n.children@.take(n.children@.len() as int) =~= n.children@);
}

/// The span of a `fn` node's signature (its own span when it has none).
fn sig_span_exec(f: &Node) -> (r: crate::syntax::Loc)
    ensures
        r == sig_span(*f),
{
    let mut i: usize = 0;
    while i < f.children.len()
        invariant
            i <= f.children@.len(),
            first_sig(f.children@.take(i as int)) is None,
        decreases f.children@.len() - i,
    {
        assert(f.children@.take(i + 1).drop_last() =~= f.children@.take(i as int));
        assert(f.children@.take(i + 1).last() == f.children@[i as int]);
        if f.children[i].kind == Kind::FnSig {
            proof {
                lemma_first_sig_prefix(f.children@, i + 1);
            }
            return f.children[i].span;
        }
        i = i + 1;
    }
    assert(f.children@.take(f.children@.len() as int) =~= f.children@);
    f.span
}

pub proof fn lemma_first_sig_prefix(cs: Seq<Node>, k: int)
    requires
        0 <= k <= cs.len(),
        first_sig(cs.take(k)) is Some,
    ensures
        first_sig(cs) == first_sig(cs.take(k)),
    decreases cs.len() - k,
{
    if k < cs.len() {
        assert(cs.take(k + 1).drop_last() =~= cs.take(k));
        lemma_first_sig_prefix(cs, k + 1);
    } else {
        assert(cs.take(k) =~= cs);
    }
}

/// The first signature among a `fn` node's children.
pub fn first_sig_of(f: &Node) -> (r: Option<&Node>)
    ensures
        match r {
            Some(s) => first_sig(f.children@) == Some(*s),
            None => first_sig(f.children@) is None,
        },
{
    let mut i: usize = 0;
    while i < f.children.len()
        invariant
            i <= f.children@.len(),
            first_sig(f.children@.take(i as int)) is None,
        decreases f.children@.len() - i,
    {
        assert(f.children@.take(i + 1).drop_last() =~= f.children@.take(i as int));
        assert(f.children@.take(i + 1).last() == f.children@[i as int]);
        if f.children[i].kind == Kind::FnSig {
            proof {
                lemma_first_sig_prefix(f.children@, i + 1);
            }
            return Some(&f.children[i]);
        }
        i = i + 1;
    }
    assert(f.children@.take(f.children@.len() as int) =~= f.children@);
    None
}

/// What checking one caller reports.
fn check_caller(
    entries: &Vec<(String, &Node)>,
    table: &Vec<Vec<String>>,
    caller: &String,
    f: &Node,
    out: &mut Vec<Diagnostic>,
)
    requires
        table_ok(entry_views(entries@), table@),
    ensures
        views(final(out)@) == views(old(out)@) + caller_report(entry_views(entries@), caller@, *f),
{
    let ghost e = entry_views(entries@);
    let empty: Vec<String> = Vec::new();
    let declared: &Vec<String> = match lookup_exec(entries, table, caller.as_str()) {
        Some(t) => t,
        None => &empty,
    };
    let ghost spec_declared = match lookup(e, caller@) {
        Some(s) => s,
        None => Seq::<Seq<char>>::empty(),
    };
    assert(names(declared@) =~= spec_declared);
    let n = f.children.len();
    if n == 0 || f.children[n - 1].kind != Kind::BlockNode {
        assert(views(out@) =~= views(old(out)@) + caller_report(e, caller@, *f));
        return;
    }
    let body = &f.children[n - 1];
    let mut count: u64 = 0;
    walk(body, entries, table, caller.as_str(), declared, out, &mut count);
    let ghost after = views(out@);
    if count > 0 && declared.len() == 0 && first_effect_of(f).is_some() {
        let mut msg = String::from_str("`");
        push_str(&mut msg, caller.as_str());
        push_str(&mut msg, "` claims purity via `#[mvl::effect()]`, but this is not verified: ");
        int_text_into(count as i128, &mut msg);
        push_str(&mut msg, " unresolvable call(s)");
        let d = Diagnostic::new(Level::Note, msg, sig_span_exec(f)).with_label(
            String::from_str("purity claim not verified"),
        );
        out.push(d);
        assert(views(out@) =~= after.push(d@));
    }
    assert(views(out@) =~= views(old(out)@) + caller_report(e, caller@, *f));
}

/// The functions whose calls are checked, in order: the top-level free
/// functions, then the methods of the `impl` blocks.
pub fn callers_of(file: &Node) -> (r: Vec<(String, &Node)>)
    ensures
        entry_views(r@) == callers(*file),
{
    let mut out: Vec<(String, &Node)> = Vec::new();
    let mut i: usize = 0;
    while i < file.children.len()
        invariant
            i <= file.children@.len(),
            entry_views(out@) == free_fns(file.children@.take(i as int)),
        decreases file.children@.len() - i,
    {
        assert(file.children@.take(i + 1).drop_last() =~= file.children@.take(i as int));
        assert(file.children@.take(i + 1).last() == file.children@[i as int]);
        let c = &file.children[i];
        if c.kind == Kind::FnItem {
            let ghost before = entry_views(out@);
            out.push((c.name.clone(), c));
            assert(entry_views(out@) =~= before.push((c.name@, *c)));
        }
        assert(entry_views(out@) =~= free_fns(file.children@.take(i + 1)));
        i = i + 1;
    }
    assert(file.children@.take(file.children@.len() as int) =~= file.children@);
    let methods = impl_methods(file);
    let ghost frees = entry_views(out@);
    let mut k: usize = 0;
    while k < methods.len()
        invariant
            k <= methods@.len(),
            frees == free_fns(file.children@),
            methods@.map_values(|p: (String, &Node)| (p.0@, *p.1)) == methods_of(items_of(file.children@)),
            entry_views(out@) == frees + entry_views(methods@.take(k as int)),
        decreases methods@.len() - k,
    {
        let ghost before = entry_views(out@);
        let name = methods[k].0.clone();
        out.push((name, methods[k].1));
        assert(entry_views(out@) =~= before.push((methods@[k as int].0@, *methods@[k as int].1)));
        assert(entry_views(methods@.take(k + 1)) =~= entry_views(methods@.take(k as int)).push(
            (methods@[k as int].0@, *methods@[k as int].1),
        ));
        assert(entry_views(out@) =~= frees + entry_views(methods@.take(k + 1)));
        k = k + 1;
    }
    assert(methods@.take(methods@.len() as int) =~= methods@);
    assert(entry_views(methods@) =~= methods@.map_values(|p: (String, &Node)| (p.0@, *p.1)));
    out
}

/// What the effect check reports over a file's tree: for each caller in
/// order, a diagnostic per resolved call missing effects, then the note on
/// an unverified purity claim.
pub fn check_effects(file: &Node) -> (r: Vec<Diagnostic>)
    ensures
        views(r@) == effect_report(*file),
{
    let entries = callers_of(file);
    let ghost e = entry_views(entries@);
    let mut table: Vec<Vec<String>> = Vec::new();
    let mut k: usize = 0;
    while k < entries.len()
        invariant
            k <= entries@.len(),
            e == entry_views(entries@),
            table@.len() == k,
            forall|j: int| 0 <= j < k ==> names((#[trigger] table@[j])@) == declared_effects(e[j].1),
        decreases entries@.len() - k,
    {
        let sorted = match first_effect_of(entries[k].1) {
            Some(v) => sorted_names_of(&v),
            None => Vec::new(),
        };
        assert(names(sorted@) == declared_effects(e[k as int].1));
        table.push(sorted);
        k = k + 1;
    }
    let mut out: Vec<Diagnostic> = Vec::new();
    let mut q: usize = 0;
    while q < entries.len()
        invariant
            q <= entries@.len(),
            e == entry_views(entries@),
            e == callers(*file),
            table_ok(e, table@),
            views(out@) + report_from(e, q as int) == report_from(e, 0),
        decreases entries@.len() - q,
    {
        let ghost before = views(out@);
        check_caller(&entries, &table, &entries[q].0, entries[q].1, &mut out);
        assert(views(out@) + report_from(e, q + 1) =~= before + report_from(e, q as int));
        q = q + 1;
    }
    assert(views(out@) =~= report_from(e, 0));
    out
}

/// Checks source text for undeclared effect propagation: every
/// diagnostic, or the parse error.
pub fn check_source(source: &str) -> (r: Result<Vec<Diagnostic>, CheckError>)
    ensures
        match rust_file_syntax(source@) {
            Ok(file) => r matches Ok(ds) && views(ds@) == effect_report(file),
            Err(m) => r matches Err(CheckError::Parse(e)) && e == m,
        },
{
    match parse_rust_file(source) {
        Ok(file) => Ok(check_effects(&file)),
        Err(m) => Err(CheckError::Parse(m)),
    }
}


// ── The propagation law ────────────────────────────────────────────────────

/// The effects a caller declares, as the check reads them.
pub open spec fn declared_of(entries: Seq<(Seq<char>, Node)>, caller: Seq<char>) -> Seq<Seq<char>> {
    match lookup(entries, caller) {
        Some(s) => s,
        None => Seq::empty(),
    }
}

/// Whether every resolved call under `n` has each of its callee's effects
/// among `declared`.
pub open spec fn calls_declared_tree(n: Node, entries: Seq<(Seq<char>, Node)>, declared: Seq<Seq<char>>) -> bool
    decreases n, 1nat,
{
    &&& (n.kind == Kind::Call ==> match callee_ident(n) {
        Some(id) => match lookup(entries, id) {
            Some(t) => forall|x: Seq<char>| #[trigger] t.contains(x) ==> declared.contains(x),
            None => true,
        },
        None => true,
    })
    &&& calls_declared_list(n.children@, entries, declared)
}

pub open spec fn calls_declared_list(ns: Seq<Node>, entries: Seq<(Seq<char>, Node)>, declared: Seq<Seq<char>>) -> bool
    decreases ns, 0nat,
{
    if ns.len() == 0 {
        true
    } else {
        calls_declared_list(ns.drop_last(), entries, declared) && calls_declared_tree(ns.last(), entries, declared)
    }
}

proof fn lemma_none_missing(t: Seq<Seq<char>>, s: Seq<Seq<char>>)
    requires
        missing_names(t, s).len() == 0,
    ensures
        forall|x: Seq<char>| #[trigger] t.contains(x) ==> s.contains(x),
    decreases t.len(),
{
    if t.len() > 0 {
        assert(s.contains(t.last())) by {
            if !s.contains(t.last()) {
                assert(missing_names(t, s).len() > 0);
            }
        }
        lemma_none_missing(t.drop_last(), s);
        assert forall|x: Seq<char>| #[trigger] t.contains(x) implies s.contains(x) by {
            let i = choose|i: int| 0 <= i < t.len() && t[i] == x;
            if i < t.len() - 1 {
                assert(t.drop_last()[i] == x);
                assert(t.drop_last().contains(x));
            } else {
                assert(x == t.last());
            }
        }
    }
}

proof fn lemma_quiet_tree(n: Node, e: Seq<(Seq<char>, Node)>, c: Seq<char>, d: Seq<Seq<char>>)
    requires
        diags_tree(n, e, c, d).len() == 0,
    ensures
        calls_declared_tree(n, e, d),
    decreases n, 1nat,
{
    assert(opt_seq(call_diag(n, e, c, d)).len() == 0);
    if n.kind == Kind::Call {
        if let Some(id) = callee_ident(n) {
            if let Some(t) = lookup(e, id) {
                lemma_none_missing(t, d);
            }
        }
    }
    lemma_quiet_list(n.children@, e, c, d);
}

proof fn lemma_quiet_list(ns: Seq<Node>, e: Seq<(Seq<char>, Node)>, c: Seq<char>, d: Seq<Seq<char>>)
    requires
        diags_list(ns, e, c, d).len() == 0,
    ensures
        calls_declared_list(ns, e, d),
    decreases ns, 0nat,
{
    if ns.len() > 0 {
        lemma_quiet_list(ns.drop_last(), e, c, d);
        lemma_quiet_tree(ns.last(), e, c, d);
    }
}

proof fn lemma_errors_tree(n: Node, e: Seq<(Seq<char>, Node)>, c: Seq<char>, d: Seq<Seq<char>>)
    ensures
        forall|i: int| 0 <= i < diags_tree(n, e, c, d).len() ==> (#[trigger] diags_tree(n, e, c, d)[i]).level
            == Level::Error,
    decreases n, 1nat,
{
    lemma_errors_list(n.children@, e, c, d);
    let a = opt_seq(call_diag(n, e, c, d));
    let b = diags_list(n.children@, e, c, d);
    assert forall|i: int| 0 <= i < (a + b).len() implies #[trigger] (a + b)[i].level == Level::Error by {
        if i >= a.len() {
            assert((a + b)[i] == b[i - a.len()]);
        }
    }
}

proof fn lemma_errors_list(ns: Seq<Node>, e: Seq<(Seq<char>, Node)>, c: Seq<char>, d: Seq<Seq<char>>)
    ensures
        forall|i: int| 0 <= i < diags_list(ns, e, c, d).len() ==> (#[trigger] diags_list(ns, e, c, d)[i]).level
            == Level::Error,
    decreases ns, 0nat,
{
    if ns.len() > 0 {
        lemma_errors_list(ns.drop_last(), e, c, d);
        lemma_errors_tree(ns.last(), e, c, d);
        let a = diags_list(ns.drop_last(), e, c, d);
        let b = diags_tree(ns.last(), e, c, d);
        assert forall|i: int| 0 <= i < (a + b).len() implies #[trigger] (a + b)[i].level == Level::Error by {
            if i >= a.len() {
                assert((a + b)[i] == b[i - a.len()]);
            }
        }
    }
}

proof fn lemma_quiet_from(e: Seq<(Seq<char>, Node)>, k: int)
    requires
        0 <= k,
        forall|i: int| 0 <= i < report_from(e, k).len() ==> (#[trigger] report_from(e, k)[i]).level != Level::Error,
    ensures
        forall|j: int|
            k <= j < e.len() ==> (body_of(#[trigger] e[j].1) matches Some(b) ==> calls_declared_tree(
                b,
                e,
                declared_of(e, e[j].0),
            )),
    decreases e.len() - k,
{
    if k < e.len() {
        let r = caller_report(e, e[k].0, e[k].1);
        let rest = report_from(e, k + 1);
        assert(report_from(e, k) == r + rest);
        assert forall|i: int| 0 <= i < rest.len() implies (#[trigger] rest[i]).level != Level::Error by {
            assert((r + rest)[r.len() + i] == rest[i]);
        }
        lemma_quiet_from(e, k + 1);
        if let Some(b) = body_of(e[k].1) {
            let d = declared_of(e, e[k].0);
            let t = diags_tree(b, e, e[k].0, d);
            lemma_errors_tree(b, e, e[k].0, d);
            if t.len() > 0 {
                assert((r + rest)[0] == t[0]);
                assert(false);
            }
            lemma_quiet_tree(b, e, e[k].0, d);
        }
    }
}

/// A caller declares every effect its callees declare: when the effect
/// check reports no error on a file, every call in every checked
/// function's body that resolves to a same-file function has each of that
/// callee's declared effects among the caller's own.
pub proof fn lemma_quiet_report_means_declared(file: Node)
    requires
        forall|i: int|
            0 <= i < effect_report(file).len() ==> (#[trigger] effect_report(file)[i]).level != Level::Error,
    ensures
        forall|j: int|
            0 <= j < callers(file).len() ==> (body_of(#[trigger] callers(file)[j].1) matches Some(b)
                ==> calls_declared_tree(b, callers(file), declared_of(callers(file), callers(file)[j].0))),
{
    let e = callers(file);
    assert forall|i: int| 0 <= i < report_from(e, 0).len() implies (#[trigger] report_from(e, 0)[i]).level
        != Level::Error by {
        assert(effect_report(file)[i] == report_from(e, 0)[i]);
    }
    lemma_quiet_from(e, 0);
}


proof fn lemma_missing_from_itself(t: Seq<Seq<char>>, s: Seq<Seq<char>>)
    requires
        forall|x: Seq<char>| #[trigger] t.contains(x) ==> s.contains(x),
    ensures
        missing_names(t, s).len() == 0,
    decreases t.len(),
{
    if t.len() > 0 {
        assert(t.contains(t.last()));
        assert forall|x: Seq<char>| #[trigger] t.drop_last().contains(x) implies s.contains(x) by {
            let i = choose|i: int| 0 <= i < t.drop_last().len() && t.drop_last()[i] == x;
            assert(t[i] == x);
            assert(t.contains(x));
        }
        lemma_missing_from_itself(t.drop_last(), s);
    }
}

/// A function calling itself is never flagged: a call whose callee is the
/// caller's own name reports nothing.
pub proof fn lemma_self_call_quiet(n: Node, entries: Seq<(Seq<char>, Node)>, caller: Seq<char>)
    requires
        callee_ident(n) == Some(caller),
    ensures
        call_diag(n, entries, caller, declared_of(entries, caller)) is None,
{
    if let Some(t) = lookup(entries, caller) {
        lemma_missing_from_itself(t, t);
    }
}

// ── Call resolution ────────────────────────────────────────────────────────

/// A call is resolved by its callee expression alone: two calls with the
/// same callee resolve alike, whatever their arguments; and a callee that
/// is a bare identifier `g` resolves to `g`.
pub proof fn lemma_callee_by_callee_alone(call1: Node, call2: Node)
    requires
        call1.children@.len() > 0,
        call2.children@.len() > 0,
        call1.children@[0] == call2.children@[0],
    ensures
        callee_ident(call1) == callee_ident(call2),
        ({
            let c = call1.children@[0];
            c.kind == Kind::PathNode && !c.flag && c.children@.len() == 1 && c.children@[0].kind == Kind::Segment
                && c.children@[0].text@.len() == 0 ==> callee_ident(call1) == Some(c.children@[0].name@)
        }),
{
}

proof fn lemma_missing_names(t: Seq<Seq<char>>, d: Seq<Seq<char>>)
    ensures
        forall|e: Seq<char>| #[trigger] missing_names(t, d).contains(e) <==> t.contains(e) && !d.contains(e),
    decreases t.len(),
{
    if t.len() > 0 {
        let t2 = t.drop_last();
        lemma_missing_names(t2, d);
        let m = missing_names(t, d);
        let m2 = missing_names(t2, d);
        let x = t.last();
        if d.contains(x) {
            assert(m == m2);
        } else {
            assert(m == m2.push(x));
        }
        assert forall|e: Seq<char>| #[trigger] m.contains(e) <==> t.contains(e) && !d.contains(e) by {
            if t.contains(e) && !d.contains(e) {
                let i = choose|i: int| 0 <= i < t.len() && t[i] == e;
                if i < t.len() - 1 {
                    assert(t2[i] == e);
                    assert(t2.contains(e));
                    assert(missing_names(t2, d).contains(e));
                    let j = choose|j: int| 0 <= j < m2.len() && m2[j] == e;
                    assert(m[j] == m2[j]);
                } else {
                    assert(m[m.len() - 1] == e);
                }
            }
            if m.contains(e) {
                let j = choose|j: int| 0 <= j < m.len() && m[j] == e;
                if j < m2.len() {
                    assert(m[j] == m2[j]);
                    assert(m2.contains(e));
                    assert(missing_names(t2, d).contains(e));
                    let i = choose|i: int| 0 <= i < t2.len() && t2[i] == e;
                    assert(t[i] == t2[i]);
                } else {
                    assert(t[t.len() - 1] == e);
                }
            }
        }
    }
}

/// A call of a same-file function `g` (a bare identifier, whatever the
/// arguments) is reported exactly when `g` declares an effect the caller
/// does not, as an error at the call; the effects it names are exactly
/// those missing.
pub proof fn lemma_undeclared_effect_reported(
    n: Node,
    entries: Seq<(Seq<char>, Node)>,
    caller: Seq<char>,
    declared: Seq<Seq<char>>,
)
    requires
        n.kind == Kind::Call,
        n.children@.len() > 0,
        n.children@[0].kind == Kind::PathNode,
        !n.children@[0].flag,
        n.children@[0].children@.len() == 1,
        n.children@[0].children@[0].kind == Kind::Segment,
        n.children@[0].children@[0].text@.len() == 0,
        lookup(entries, n.children@[0].children@[0].name@) is Some,
    ensures
        ({
            let g = n.children@[0].children@[0].name@;
            let t = lookup(entries, g)->Some_0;
            &&& call_diag(n, entries, caller, declared) is Some <==> exists|e: Seq<char>| t.contains(e) && !declared.contains(e)
            &&& call_diag(n, entries, caller, declared) matches Some(d) ==> d.level == crate::diagnostics::Level::Error
                && d.span == n.span
            &&& forall|e: Seq<char>| #[trigger] missing_names(t, declared).contains(e) <==> t.contains(e) && !declared.contains(e)
        }),
{
    let g = n.children@[0].children@[0].name@;
    let t = lookup(entries, g)->Some_0;
    lemma_missing_names(t, declared);
    let m = missing_names(t, declared);
    if m.len() > 0 {
        assert(m.contains(m[0]));
    }
    if exists|e: Seq<char>| t.contains(e) && !declared.contains(e) {
        let e = choose|e: Seq<char>| t.contains(e) && !declared.contains(e);
        assert(m.contains(e));
    }
}

} // verus!
