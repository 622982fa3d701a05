//! The qualified-subset lints: code stays inside the Rust subset the other
//! checks can verify. Each lint reports every node of one forbidden shape,
//! in the order a syntax walk meets them:
//!
//! - `unsafe` in every form: blocks, `unsafe fn`, `unsafe impl`,
//!   `unsafe trait`;
//! - trait objects (`dyn Trait`, with a friendlier message for `dyn Any`);
//! - written-out lifetimes other than `'static` and `'_`;
//! - macro invocations outside a curated allowlist (`macro_rules!`
//!   definitions are not invocations);
//! - calls whose callee path ends in `transmute`;
//! - raw address-of (`&raw const` / `&raw mut`).

use vstd::prelude::*;

use crate::diagnostics::{error, error_at, Diagnostic, DiagnosticV};
use crate::from_syn::{parse_rust_file, rust_file_syntax};
use crate::syntax::{Kind, Node};
use crate::text::{push_str, same_text};

verus! {

/// One qualified-subset lint.
#[derive(Debug, Clone, Copy, PartialEq, Eq, Structural)]
pub enum Lint {
    Unsafe,
    DynTrait,
    Lifetime,
    Macro,
    Transmute,
    RawAddr,
}

/// The lints, in the order a full check runs them.
pub open spec fn lint_order() -> Seq<Lint> {
    seq![Lint::Unsafe, Lint::DynTrait, Lint::Lifetime, Lint::Macro, Lint::Transmute, Lint::RawAddr]
}

/// The macros invocations may name.
pub open spec fn allowed_macro(name: Seq<char>) -> bool {
    name == "println"@ || name == "print"@ || name == "format"@ || name == "write"@ || name == "writeln"@
        || name == "vec"@ || name == "assert"@ || name == "assert_eq"@ || name == "assert_ne"@ || name
        == "matches"@ || name == "panic"@ || name == "todo"@ || name == "unimplemented"@
}

/// Whether some bound among `bounds` is a trait bound on a path ending in
/// `Any`.
pub open spec fn names_any(bounds: Seq<Node>) -> bool {
    exists|i: int| 0 <= i < bounds.len() && (#[trigger] bounds[i]).kind == Kind::Bound && bounds[i].name@ == "Any"@
}

/// Whether a callee is a path whose last segment is `transmute`.
pub open spec fn is_transmute_path(callee: Node) -> bool {
    &&& callee.kind == Kind::PathNode
    &&& callee.children@.len() > 0
    &&& callee.children@.last().kind == Kind::Segment
    &&& callee.children@.last().name@ == "transmute"@
}

/// The name a macro diagnostic shows: the last path segment, or
/// `<unknown>`.
pub open spec fn macro_shown(n: Node) -> Seq<char> {
    if n.flag {
        n.name@
    } else {
        "<unknown>"@
    }
}

/// What one lint reports at one node.
pub open spec fn lint_at(lint: Lint, n: Node) -> Option<DiagnosticV> {
    match lint {
        Lint::Unsafe => if n.kind == Kind::UnsafeBlock {
            Some(error_at("`unsafe` block is outside the qualified subset"@, n.aux, "unsafe block"@))
        } else if n.kind == Kind::FnSig && n.flag {
            Some(error_at("`unsafe fn "@ + n.name@ + "` is outside the qualified subset"@, n.aux, "unsafe function"@))
        } else if n.kind == Kind::ImplBlock && n.flag {
            Some(error_at("`unsafe impl` is outside the qualified subset"@, n.aux, "unsafe impl"@))
        } else if n.kind == Kind::TraitDef && n.flag {
            Some(error_at("`unsafe trait "@ + n.name@ + "` is outside the qualified subset"@, n.aux, "unsafe trait"@))
        } else {
            None
        },
        Lint::DynTrait => if n.kind == Kind::TraitObject {
            if names_any(n.children@) {
                Some(error_at("`dyn Any` is outside the qualified subset (type erasure via dynamic dispatch)"@, n.span, "trait object"@))
            } else {
                Some(error_at("`dyn Trait` is outside the qualified subset (no dynamic dispatch)"@, n.span, "trait object"@))
            }
        } else {
            None
        },
        Lint::Lifetime => if n.kind == Kind::LifetimeNode && n.name@ != "static"@ && n.name@ != "_"@ {
            Some(error_at(
                "explicit lifetime `'"@ + n.name@ + "` is outside the qualified subset (beyond function-scoped elision)"@,
                n.span,
                "explicit lifetime"@,
            ))
        } else {
            None
        },
        Lint::Macro => if n.kind == Kind::MacroCall && !(n.flag && (n.name@ == "macro_rules"@ || allowed_macro(n.name@))) {
            Some(error_at("macro `"@ + macro_shown(n) + "!` is outside the qualified subset's curated allowlist"@, n.span, "macro invocation"@))
        } else {
            None
        },
        Lint::Transmute => if n.kind == Kind::Call && n.children@.len() > 0 && is_transmute_path(n.children@[0]) {
            Some(error_at("`transmute` is outside the qualified subset"@, n.span, "transmute call"@))
        } else {
            None
        },
        Lint::RawAddr => if n.kind == Kind::RawAddr {
            Some(error_at("raw address-of (`&raw ...`) is outside the qualified subset"@, n.span, "raw pointer operation"@))
        } else {
            None
        },
    }
}

pub open spec fn opt_seq(o: Option<DiagnosticV>) -> Seq<DiagnosticV> {
    match o {
        Some(d) => seq![d],
        None => Seq::empty(),
    }
}

/// What one lint reports over a tree: at the node, then over its children
/// in order.
pub open spec fn lint_tree(lint: Lint, n: Node) -> Seq<DiagnosticV>
    decreases n, 1nat,
{
    opt_seq(lint_at(lint, n)) + lint_list(lint, n.children@)
}

pub open spec fn lint_list(lint: Lint, ns: Seq<Node>) -> Seq<DiagnosticV>
    decreases ns, 0nat,
{
    if ns.len() == 0 {
        Seq::empty()
    } else {
        lint_list(lint, ns.drop_last()) + lint_tree(lint, ns.last())
    }
}

/// Every lint's report over a file's tree, lint by lint.
pub open spec fn lints_from(k: int, file: Node) -> Seq<DiagnosticV>
    decreases lint_order().len() - k,
{
    if 0 <= k < lint_order().len() {
        lint_tree(lint_order()[k], file) + lints_from(k + 1, file)
    } else {
        Seq::empty()
    }
}

pub open spec fn views(ds: Seq<Diagnostic>) -> Seq<DiagnosticV> {
    ds.map_values(|d: Diagnostic| d@)
}

fn names_any_exec(bounds: &Vec<Node>) -> (r: bool)
    ensures
        r == names_any(bounds@),
{
    let mut i: usize = 0;
    while i < bounds.len()
        invariant
            i <= bounds.len(),
            forall|j: int| 0 <= j < i ==> !((#[trigger] bounds@[j]).kind == Kind::Bound && bounds@[j].name@ == "Any"@),
        decreases bounds.len() - i,
    {
        if bounds[i].kind == Kind::Bound && same_text(bounds[i].name.as_str(), "Any") {
            return true;
        }
        i = i + 1;
    }
    false
}

fn allowed_macro_exec(name: &str) -> (r: bool)
    ensures
        r == allowed_macro(name@),
{
    same_text(name, "println") || same_text(name, "print") || same_text(name, "format") || same_text(name, "write")
        || same_text(name, "writeln") || same_text(name, "vec") || same_text(name, "assert") || same_text(
        name,
        "assert_eq",
    ) || same_text(name, "assert_ne") || same_text(name, "matches") || same_text(name, "panic") || same_text(
        name,
        "todo",
    ) || same_text(name, "unimplemented")
}

fn is_transmute_exec(callee: &Node) -> (r: bool)
    ensures
        r == is_transmute_path(*callee),
{
    let n = callee.children.len();
    callee.kind == Kind::PathNode && n > 0 && callee.children[n - 1].kind == Kind::Segment && same_text(
        callee.children[n - 1].name.as_str(),
        "transmute",
    )
}

/// Joins `a`, `b` and `c`.
fn text3(a: &str, b: &str, c: &str) -> (r: String)
    ensures
        r@ == a@ + b@ + c@,
{
    let mut out = String::from_str(a);
    push_str(&mut out, b);
    push_str(&mut out, c);
    out
}

fn unsafe_at(n: &Node) -> (r: Option<Diagnostic>)
    ensures
        match r {
            Some(d) => lint_at(Lint::Unsafe, *n) == Some(d@),
            None => lint_at(Lint::Unsafe, *n) is None,
        },
{
    if n.kind == Kind::UnsafeBlock {
        Some(error(String::from_str("`unsafe` block is outside the qualified subset"), n.aux, "unsafe block"))
    } else if n.kind == Kind::FnSig && n.flag {
        let m = text3("`unsafe fn ", n.name.as_str(), "` is outside the qualified subset");
        Some(error(m, n.aux, "unsafe function"))
    } else if n.kind == Kind::ImplBlock && n.flag {
        Some(error(String::from_str("`unsafe impl` is outside the qualified subset"), n.aux, "unsafe impl"))
    } else if n.kind == Kind::TraitDef && n.flag {
        let m = text3("`unsafe trait ", n.name.as_str(), "` is outside the qualified subset");
        Some(error(m, n.aux, "unsafe trait"))
    } else {
        None
    }
}

fn shape_at(lint: Lint, n: &Node) -> (r: Option<Diagnostic>)
    requires
        lint != Lint::Unsafe,
    ensures
        match r {
            Some(d) => lint_at(lint, *n) == Some(d@),
            None => lint_at(lint, *n) is None,
        },
{
    match lint {
        Lint::DynTrait => if n.kind == Kind::TraitObject {
            if names_any_exec(&n.children) {
                let m = String::from_str("`dyn Any` is outside the qualified subset (type erasure via dynamic dispatch)");
                Some(error(m, n.span, "trait object"))
            } else {
                let m = String::from_str("`dyn Trait` is outside the qualified subset (no dynamic dispatch)");
                Some(error(m, n.span, "trait object"))
            }
        } else {
            None
        },
        Lint::Lifetime => if n.kind == Kind::LifetimeNode && !same_text(n.name.as_str(), "static") && !same_text(
            n.name.as_str(),
            "_",
        ) {
            let m = text3(
                "explicit lifetime `'",
                n.name.as_str(),
                "` is outside the qualified subset (beyond function-scoped elision)",
            );
            Some(error(m, n.span, "explicit lifetime"))
        } else {
            None
        },
        Lint::Macro => if n.kind == Kind::MacroCall && !(n.flag && (same_text(n.name.as_str(), "macro_rules")
            || allowed_macro_exec(n.name.as_str()))) {
            let shown = if n.flag {
                n.name.as_str()
            } else {
                "<unknown>"
            };
            let m = text3("macro `", shown, "!` is outside the qualified subset's curated allowlist");
            Some(error(m, n.span, "macro invocation"))
        } else {
            None
        },
        Lint::Transmute => if n.kind == Kind::Call && n.children.len() > 0 && is_transmute_exec(&n.children[0]) {
            Some(error(String::from_str("`transmute` is outside the qualified subset"), n.span, "transmute call"))
        } else {
            None
        },
        _ => if n.kind == Kind::RawAddr {
            let m = String::from_str("raw address-of (`&raw ...`) is outside the qualified subset");
            Some(error(m, n.span, "raw pointer operation"))
        } else {
            None
        },
    }
}

fn lint_walk(lint: Lint, n: &Node, out: &mut Vec<Diagnostic>)
    ensures
        views(final(out)@) == views(old(out)@) + lint_tree(lint, *n),
    decreases n,
{
    let here = if lint == Lint::Unsafe {
        unsafe_at(n)
    } else {
        shape_at(lint, n)
    };
    let ghost start = views(out@);
    match here {
        Some(d) => {
            out.push(d);
        },
        None => {},
    }
    assert(views(out@) =~= start + opt_seq(lint_at(lint, *n)));
    let ghost mid = views(out@);
    let mut i: usize = 0;
    while i < n.children.len()
        invariant
            i <= n.children@.len(),
            views(out@) == mid + lint_list(lint, n.children@.take(i as int)),
        decreases n.children@.len() - i,
    {
        assert(n.children@.take(i + 1).drop_last() =~= n.children@.take(i as int));
        lint_walk(lint, &n.children[i], out);
        assert(views(out@) =~= mid + lint_list(lint, n.children@.take(i + 1)));
        i = i + 1;
    }
    assert(n.children@.take(n.children@.len() as int) =~= n.children@);
}

/// What one lint reports over a file's tree, in walk order.
pub fn check_lint(lint: Lint, file: &Node) -> (r: Vec<Diagnostic>)
    ensures
        views(r@) == lint_tree(lint, *file),
{
    let mut out: Vec<Diagnostic> = Vec::new();
    lint_walk(lint, file, &mut out);
    assert(views(out@) =~= lint_tree(lint, *file));
    out
}

/// What the lints report over a file's tree, lint by lint in the order
/// unsafe, trait objects, lifetimes, macros, transmute, raw address-of.
pub fn lint_file(file: &Node) -> (r: Vec<Diagnostic>)
    ensures
        views(r@) == lints_from(0, *file),
{
    let order = [Lint::Unsafe, Lint::DynTrait, Lint::Lifetime, Lint::Macro, Lint::Transmute, Lint::RawAddr];
    let mut out: Vec<Diagnostic> = Vec::new();
    let mut k: usize = 0;
    while k < 6
        invariant
            k <= 6,
            order@ == lint_order(),
            views(out@) + lints_from(k as int, *file) == lints_from(0, *file),
        decreases 6 - k,
    {
        let ghost before = views(out@);
        lint_walk(order[k], file, &mut out);
        assert(views(out@) + lints_from(k + 1, *file) =~= before + lints_from(k as int, *file));
        k = k + 1;
    }
    assert(views(out@) =~= lints_from(0, *file));
    out
}

/// Why a source text could not be checked.
#[derive(Debug, Clone)]
pub enum CheckError {
    /// The text does not parse as Rust; the parser's message.
    Parse(String),
}

/// The message of a parse failure.
pub open spec fn parse_failure_text(m: Seq<char>) -> Seq<char> {
    "failed to parse source as Rust: "@ + m
}

impl CheckError {
    /// The error as a one-line message.
    pub fn message(&self) -> (r: String)
        ensures
            match self {
                CheckError::Parse(m) => r@ == parse_failure_text(m@),
            },
    {
        match self {
            CheckError::Parse(m) => {
                let mut out = String::from_str("failed to parse source as Rust: ");
                push_str(&mut out, m.as_str());
                out
            },
        }
    }
}

/// Checks source text against every qualified-subset rule: every
/// violation found (none when compliant), or the parse error.
pub fn check_source(source: &str) -> (r: Result<Vec<Diagnostic>, CheckError>)
    ensures
        match rust_file_syntax(source@) {
            Ok(file) => r matches Ok(ds) && views(ds@) == lints_from(0, file),
            Err(m) => r matches Err(CheckError::Parse(e)) && e == m,
        },
{
    match parse_rust_file(source) {
        Ok(file) => Ok(lint_file(&file)),
        Err(m) => Err(CheckError::Parse(m)),
    }
}


// ── The subset law ─────────────────────────────────────────────────────────

/// Whether a node is a construct outside the qualified subset: an `unsafe`
/// block, `fn`, `impl` or `trait`; a trait object; a named lifetime other
/// than `'static`; an invocation of a macro off the allowlist; a call of a
/// path ending in `transmute`; a raw address-of.
pub open spec fn forbidden(n: Node) -> bool {
    ||| n.kind == Kind::UnsafeBlock
    ||| (n.kind == Kind::FnSig || n.kind == Kind::ImplBlock || n.kind == Kind::TraitDef) && n.flag
    ||| n.kind == Kind::TraitObject
    ||| n.kind == Kind::LifetimeNode && n.name@ != "static"@ && n.name@ != "_"@
    ||| n.kind == Kind::MacroCall && !(n.flag && (n.name@ == "macro_rules"@ || allowed_macro(n.name@)))
    ||| n.kind == Kind::Call && n.children@.len() > 0 && is_transmute_path(n.children@[0])
    ||| n.kind == Kind::RawAddr
}

/// Whether no node of a tree is outside the qualified subset.
pub open spec fn subset_tree(n: Node) -> bool
    decreases n, 1nat,
{
    !forbidden(n) && subset_list(n.children@)
}

pub open spec fn subset_list(ns: Seq<Node>) -> bool
    decreases ns, 0nat,
{
    if ns.len() == 0 {
        true
    } else {
        subset_list(ns.drop_last()) && subset_tree(ns.last())
    }
}

/// Whether no lint reports anything over a tree.
pub open spec fn quiet_tree(n: Node) -> bool {
    &&& lint_tree(Lint::Unsafe, n).len() == 0
    &&& lint_tree(Lint::DynTrait, n).len() == 0
    &&& lint_tree(Lint::Lifetime, n).len() == 0
    &&& lint_tree(Lint::Macro, n).len() == 0
    &&& lint_tree(Lint::Transmute, n).len() == 0
    &&& lint_tree(Lint::RawAddr, n).len() == 0
}

pub open spec fn quiet_list(ns: Seq<Node>) -> bool {
    &&& lint_list(Lint::Unsafe, ns).len() == 0
    &&& lint_list(Lint::DynTrait, ns).len() == 0
    &&& lint_list(Lint::Lifetime, ns).len() == 0
    &&& lint_list(Lint::Macro, ns).len() == 0
    &&& lint_list(Lint::Transmute, ns).len() == 0
    &&& lint_list(Lint::RawAddr, ns).len() == 0
}

proof fn lemma_subset_tree(n: Node)
    ensures
        subset_tree(n) <==> quiet_tree(n),
    decreases n, 1nat,
{
    lemma_subset_list(n.children@);
}

proof fn lemma_subset_list(ns: Seq<Node>)
    ensures
        subset_list(ns) <==> quiet_list(ns),
    decreases ns, 0nat,
{
    if ns.len() > 0 {
        lemma_subset_list(ns.drop_last());
        lemma_subset_tree(ns.last());
    }
}

proof fn lemma_lints_quiet(file: Node)
    ensures
        lints_from(0, file).len() == 0 <==> quiet_tree(file),
{
    let o = lint_order();
    assert(o[0] == Lint::Unsafe && o[1] == Lint::DynTrait && o[2] == Lint::Lifetime);
    assert(o[3] == Lint::Macro && o[4] == Lint::Transmute && o[5] == Lint::RawAddr);
    assert(lints_from(6, file).len() == 0);
    assert(lints_from(5, file) == lint_tree(Lint::RawAddr, file) + lints_from(6, file));
    assert(lints_from(4, file) == lint_tree(Lint::Transmute, file) + lints_from(5, file));
    assert(lints_from(3, file) == lint_tree(Lint::Macro, file) + lints_from(4, file));
    assert(lints_from(2, file) == lint_tree(Lint::Lifetime, file) + lints_from(3, file));
    assert(lints_from(1, file) == lint_tree(Lint::DynTrait, file) + lints_from(2, file));
    assert(lints_from(0, file) == lint_tree(Lint::Unsafe, file) + lints_from(1, file));
}

/// The qualified-subset check reports nothing on a file exactly when no
/// node of its tree is outside the subset.
pub proof fn lemma_quiet_exactly_on_subset(file: Node)
    ensures
        lints_from(0, file).len() == 0 <==> subset_tree(file),
{
    lemma_lints_quiet(file);
    lemma_subset_tree(file);
}

// ── The macro allowlist ────────────────────────────────────────────────────

/// The curated allowlist of macros, as a list of names.
pub open spec fn curated_macros() -> Seq<Seq<char>> {
    seq![
        "println"@,
        "print"@,
        "format"@,
        "write"@,
        "writeln"@,
        "vec"@,
        "assert"@,
        "assert_eq"@,
        "assert_ne"@,
        "matches"@,
        "panic"@,
        "todo"@,
        "unimplemented"@,
    ]
}

proof fn lemma_allowed_is_curated(name: Seq<char>)
    ensures
        allowed_macro(name) <==> curated_macros().contains(name),
{
    let l = curated_macros();
    assert(l[0] == "println"@);
    assert(l[1] == "print"@);
    assert(l[2] == "format"@);
    assert(l[3] == "write"@);
    assert(l[4] == "writeln"@);
    assert(l[5] == "vec"@);
    assert(l[6] == "assert"@);
    assert(l[7] == "assert_eq"@);
    assert(l[8] == "assert_ne"@);
    assert(l[9] == "matches"@);
    assert(l[10] == "panic"@);
    assert(l[11] == "todo"@);
    assert(l[12] == "unimplemented"@);
    if l.contains(name) {
        let i = choose|i: int| 0 <= i < l.len() && l[i] == name;
    }
    if allowed_macro(name) {
        if name == "println"@ { assert(l[0] == name); }
        if name == "print"@ { assert(l[1] == name); }
        if name == "format"@ { assert(l[2] == name); }
        if name == "write"@ { assert(l[3] == name); }
        if name == "writeln"@ { assert(l[4] == name); }
        if name == "vec"@ { assert(l[5] == name); }
        if name == "assert"@ { assert(l[6] == name); }
        if name == "assert_eq"@ { assert(l[7] == name); }
        if name == "assert_ne"@ { assert(l[8] == name); }
        if name == "matches"@ { assert(l[9] == name); }
        if name == "panic"@ { assert(l[10] == name); }
        if name == "todo"@ { assert(l[11] == name); }
        if name == "unimplemented"@ { assert(l[12] == name); }
    }
}

/// An invocation of a macro on the curated list is never reported by the
/// macro lint; an invocation of any other macro (bar `macro_rules!`) is,
/// with the lint's message, at the invocation.
pub proof fn lemma_macro_lint_follows_allowlist(n: Node)
    requires
        n.kind == Kind::MacroCall,
        n.flag,
    ensures
        curated_macros().contains(n.name@) ==> lint_at(Lint::Macro, n) is None,
        !curated_macros().contains(n.name@) && n.name@ != "macro_rules"@ ==> lint_at(Lint::Macro, n) == Some(
            error_at(
                "macro `"@ + macro_shown(n) + "!` is outside the qualified subset's curated allowlist"@,
                n.span,
                "macro invocation"@,
            ),
        ),
{
    lemma_allowed_is_curated(n.name@);
}

/// The shape of node each lint forbids.
pub open spec fn flagged_by(lint: Lint, n: Node) -> bool {
    match lint {
        Lint::Unsafe => n.kind == Kind::UnsafeBlock || (n.flag && (n.kind == Kind::FnSig || n.kind == Kind::ImplBlock
            || n.kind == Kind::TraitDef)),
        Lint::DynTrait => n.kind == Kind::TraitObject,
        Lint::Lifetime => n.kind == Kind::LifetimeNode && !(n.name@ == "static"@ || n.name@ == "_"@),
        Lint::Macro => n.kind == Kind::MacroCall && !(n.flag && (n.name@ == "macro_rules"@ || curated_macros().contains(
            n.name@,
        ))),
        Lint::Transmute => n.kind == Kind::Call && n.children@.len() > 0 && n.children@[0].kind == Kind::PathNode
            && n.children@[0].children@.len() > 0 && n.children@[0].children@.last().kind == Kind::Segment
            && n.children@[0].children@.last().name@ == "transmute"@,
        Lint::RawAddr => n.kind == Kind::RawAddr,
    }
}

/// Each lint reports a node exactly when the node has the shape it
/// forbids, and then as an error.
pub proof fn lemma_lint_reports_its_shape(lint: Lint, n: Node)
    ensures
        lint_at(lint, n) is Some <==> flagged_by(lint, n),
        lint_at(lint, n) matches Some(d) ==> d.level == crate::diagnostics::Level::Error,
{
    lemma_allowed_is_curated(n.name@);
}

} // verus!
