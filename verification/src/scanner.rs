//! Finding the decisions of a source file: every `if`/`while` condition
//! and `match` guard, flattened into its leaf conditions and the `&&`/`||`
//! operators joining them, and every `match` itself as a compiler-void
//! decision (exhaustive by construction: bookkeeping only).
//!
//! A `let` pattern (`if let`, one leaf of a `let` chain) is not decomposed:
//! it is one opaque leaf like any other. Parentheses and invisible groups
//! around a condition or an operand are looked through.

use vstd::prelude::*;

use crate::decision::{Decision, DecisionOp};
use crate::from_syn::{parse_rust_file, rust_file_syntax};
use crate::mutate::{boundary_index, char_index, is_boundary};
use crate::predicate::text_chars;
use crate::syntax::{Kind, Node};
use crate::text::same_text;

verus! {

/// A decision site before its text is read from the source: the line it
/// starts on, the enclosing `fn`, the byte range of its text, its leaves'
/// and operators' byte ranges, and its `match` bookkeeping.
pub struct SiteV {
    pub line: usize,
    pub enclosing_fn: Option<Seq<char>>,
    pub start: usize,
    pub end: usize,
    pub leaves: Seq<(usize, usize)>,
    pub ops: Seq<(usize, usize, bool)>,
    pub compiler_void: bool,
    pub wildcard_risk: bool,
}

pub open spec fn is_and_or(n: Node) -> bool {
    n.kind == Kind::Binary && (n.name@ == "&&"@ || n.name@ == "||"@) && n.children@.len() == 2
}

pub open spec fn is_grouping(n: Node) -> bool {
    (n.kind == Kind::Paren || n.kind == Kind::Group) && n.children@.len() > 0
}

/// The leaves of a condition, left to right: through parentheses and
/// groups, split at every `&&` and `||`.
pub open spec fn flat_leaves(e: Node) -> Seq<(usize, usize)>
    decreases e,
{
    if is_grouping(e) {
        flat_leaves(e.children@[0])
    } else if is_and_or(e) {
        flat_leaves(e.children@[0]) + flat_leaves(e.children@[1])
    } else {
        seq![(e.span.start, e.span.end)]
    }
}

/// The `&&`/`||` operators of a condition, left to right, with whether
/// each is `&&`.
pub open spec fn flat_ops(e: Node) -> Seq<(usize, usize, bool)>
    decreases e,
{
    if is_grouping(e) {
        flat_ops(e.children@[0])
    } else if is_and_or(e) {
        flat_ops(e.children@[0]) + seq![(e.aux.start, e.aux.end, e.name@ == "&&"@)] + flat_ops(e.children@[1])
    } else {
        Seq::empty()
    }
}

/// The decision of a boolean condition.
pub open spec fn bool_site(c: Node, f: Option<Seq<char>>) -> SiteV {
    SiteV {
        line: c.span.line,
        enclosing_fn: f,
        start: c.span.start,
        end: c.span.end,
        leaves: flat_leaves(c),
        ops: flat_ops(c),
        compiler_void: false,
        wildcard_risk: false,
    }
}

/// An unguarded `_` arm makes a `match` exhaustive without naming every
/// variant.
pub open spec fn is_wildcard_arm(a: Node) -> bool {
    a.kind == Kind::ArmNode && !a.flag && a.children@.len() > 0 && a.children@[0].kind == Kind::PatWild
}

pub open spec fn has_wildcard_arm(arms: Seq<Node>) -> bool {
    exists|i: int| 0 <= i < arms.len() && is_wildcard_arm(#[trigger] arms[i])
}

/// The arms of a `match` (its children after the scrutinee).
pub open spec fn arms_of(m: Node) -> Seq<Node> {
    if m.children@.len() > 0 {
        m.children@.skip(1)
    } else {
        Seq::empty()
    }
}

/// The compiler-void decision of a `match`: it starts at the `match`
/// keyword and its text is the whole expression.
pub open spec fn match_site(m: Node, f: Option<Seq<char>>) -> SiteV {
    SiteV {
        line: m.aux.line,
        enclosing_fn: f,
        start: m.span.start,
        end: m.span.end,
        leaves: Seq::empty(),
        ops: Seq::empty(),
        compiler_void: true,
        wildcard_risk: has_wildcard_arm(arms_of(m)),
    }
}

pub open spec fn has_guard(a: Node) -> bool {
    a.kind == Kind::ArmNode && a.flag && a.children@.len() > 1
}

/// The guard decisions of a `match`'s arms, in order.
pub open spec fn guard_sites(arms: Seq<Node>, f: Option<Seq<char>>) -> Seq<SiteV>
    decreases arms.len(),
{
    if arms.len() == 0 {
        Seq::empty()
    } else {
        guard_sites(arms.drop_last(), f) + if has_guard(arms.last()) {
            seq![bool_site(arms.last().children@[1], f)]
        } else {
            Seq::empty()
        }
    }
}

/// Where a `while`'s condition is among its children (after the label).
pub open spec fn while_cond(n: Node) -> int {
    if n.flag {
        1
    } else {
        0
    }
}

/// The decisions a node itself makes.
pub open spec fn sites_here(n: Node, f: Option<Seq<char>>) -> Seq<SiteV> {
    if n.kind == Kind::IfExpr && n.children@.len() > 0 {
        seq![bool_site(n.children@[0], f)]
    } else if n.kind == Kind::WhileExpr && n.children@.len() > while_cond(n) {
        seq![bool_site(n.children@[while_cond(n)], f)]
    } else if n.kind == Kind::MatchExpr {
        seq![match_site(n, f)] + guard_sites(arms_of(n), f)
    } else {
        Seq::empty()
    }
}

/// The `fn` that encloses what lies under `n`.
pub open spec fn inner_fn(n: Node, f: Option<Seq<char>>) -> Option<Seq<char>> {
    if n.kind == Kind::FnItem {
        Some(n.name@)
    } else {
        f
    }
}

/// The decisions of a tree, in the order a syntax walk meets them: a
/// node's own, then its children's.
pub open spec fn sites_tree(n: Node, f: Option<Seq<char>>) -> Seq<SiteV>
    decreases n, 1nat,
{
    sites_here(n, f) + sites_list(n.children@, inner_fn(n, f))
}

pub open spec fn sites_list(ns: Seq<Node>, f: Option<Seq<char>>) -> Seq<SiteV>
    decreases ns, 0nat,
{
    if ns.len() == 0 {
        Seq::empty()
    } else {
        sites_list(ns.drop_last(), f) + sites_tree(ns.last(), f)
    }
}

/// A site's byte range falls between characters of the source, in order.
pub open spec fn site_fits(cs: Seq<char>, s: SiteV) -> bool {
    is_boundary(cs, s.start as int) && is_boundary(cs, s.end as int) && char_index(cs, s.start as int)
        <= char_index(cs, s.end as int)
}

pub open spec fn fn_text(f: Option<String>) -> Option<Seq<char>> {
    match f {
        Some(s) => Some(s@),
        None => None,
    }
}

/// A decision is the site read from the source.
pub open spec fn decision_matches(d: Decision, cs: Seq<char>, s: SiteV) -> bool {
    &&& d.site_line == s.line
    &&& fn_text(d.enclosing_fn) == s.enclosing_fn
    &&& d.text@ == cs.subrange(char_index(cs, s.start as int), char_index(cs, s.end as int))
    &&& d.leaves@ == s.leaves
    &&& d.ops@.map_values(|o: DecisionOp| (o.start, o.end, o.is_and)) == s.ops
    &&& d.compiler_void == s.compiler_void
    &&& d.wildcard_risk == s.wildcard_risk
}

// ── Walking the tree ───────────────────────────────────────────────────────

/// A site as exec values.
struct Site {
    line: usize,
    enclosing_fn: Option<String>,
    start: usize,
    end: usize,
    leaves: Vec<(usize, usize)>,
    ops: Vec<DecisionOp>,
    compiler_void: bool,
    wildcard_risk: bool,
}

spec fn site_view(s: Site) -> SiteV {
    SiteV {
        line: s.line,
        enclosing_fn: fn_text(s.enclosing_fn),
        start: s.start,
        end: s.end,
        leaves: s.leaves@,
        ops: s.ops@.map_values(|o: DecisionOp| (o.start, o.end, o.is_and)),
        compiler_void: s.compiler_void,
        wildcard_risk: s.wildcard_risk,
    }
}

spec fn site_views(ss: Seq<Site>) -> Seq<SiteV> {
    ss.map_values(|s: Site| site_view(s))
}

fn is_and_or_exec(n: &Node) -> (r: bool)
    ensures
        r == is_and_or(*n),
{
    n.kind == Kind::Binary && (same_text(n.name.as_str(), "&&") || same_text(n.name.as_str(), "||"))
        && n.children.len() == 2
}

fn flatten(e: &Node, leaves: &mut Vec<(usize, usize)>, ops: &mut Vec<DecisionOp>)
    ensures
        final(leaves)@ == old(leaves)@ + flat_leaves(*e),
        final(ops)@.map_values(|o: DecisionOp| (o.start, o.end, o.is_and)) == old(ops)@.map_values(
            |o: DecisionOp| (o.start, o.end, o.is_and),
        ) + flat_ops(*e),
    decreases e,
{
    if (e.kind == Kind::Paren || e.kind == Kind::Group) && e.children.len() > 0 {
        flatten(&e.children[0], leaves, ops);
    } else if is_and_or_exec(e) {
        let ghost l0 = leaves@;
        let ghost o0 = ops@.map_values(|o: DecisionOp| (o.start, o.end, o.is_and));
        flatten(&e.children[0], leaves, ops);
        let ghost o1 = ops@.map_values(|o: DecisionOp| (o.start, o.end, o.is_and));
        ops.push(DecisionOp { start: e.aux.start, end: e.aux.end, is_and: same_text(e.name.as_str(), "&&") });
        assert(ops@.map_values(|o: DecisionOp| (o.start, o.end, o.is_and)) =~= o1.push(
            (e.aux.start, e.aux.end, e.name@ == "&&"@),
        ));
        flatten(&e.children[1], leaves, ops);
        assert(leaves@ =~= l0 + flat_leaves(*e));
        assert(ops@.map_values(|o: DecisionOp| (o.start, o.end, o.is_and)) =~= o0 + flat_ops(*e));
    } else {
        leaves.push((e.span.start, e.span.end));
        assert(ops@.map_values(|o: DecisionOp| (o.start, o.end, o.is_and)) =~= old(ops)@.map_values(
            |o: DecisionOp| (o.start, o.end, o.is_and),
        ) + flat_ops(*e));
    }
}

fn copy_fn(f: &Option<String>) -> (r: Option<String>)
    ensures
        fn_text(r) == fn_text(*f),
{
    match f {
        Some(s) => Some(s.clone()),
        None => None,
    }
}

fn boolean_site(c: &Node, f: &Option<String>) -> (r: Site)
    ensures
        site_view(r) == bool_site(*c, fn_text(*f)),
{
    let mut leaves: Vec<(usize, usize)> = Vec::new();
    let mut ops: Vec<DecisionOp> = Vec::new();
    flatten(c, &mut leaves, &mut ops);
    assert(leaves@ =~= flat_leaves(*c));
    assert(ops@.map_values(|o: DecisionOp| (o.start, o.end, o.is_and)) =~= flat_ops(*c));
    Site {
        line: c.span.line,
        enclosing_fn: copy_fn(f),
        start: c.span.start,
        end: c.span.end,
        leaves,
        ops,
        compiler_void: false,
        wildcard_risk: false,
    }
}

fn push_site(out: &mut Vec<Site>, s: Site)
    ensures
        site_views(final(out)@) == site_views(old(out)@).push(site_view(s)),
{
    out.push(s);
    assert(site_views(out@) =~= site_views(old(out)@).push(site_view(s)));
}

fn match_sites(m: &Node, f: &Option<String>, out: &mut Vec<Site>)
    requires
        m.kind == Kind::MatchExpr,
    ensures
        site_views(final(out)@) == site_views(old(out)@) + seq![match_site(*m, fn_text(*f))] + guard_sites(
            arms_of(*m),
            fn_text(*f),
        ),
{
    let ghost arms = arms_of(*m);
    let n = m.children.len();
    let mut wildcard = false;
    let mut i: usize = 1;
    while i < n
        invariant
            n == m.children@.len(),
            1 <= i,
            n > 0 ==> i <= n,
            arms == arms_of(*m),
            n > 0 ==> arms.len() == n - 1,
            wildcard == exists|j: int| 0 <= j < i - 1 && j < arms.len() && is_wildcard_arm(#[trigger] arms[j]),
        decreases n - i,
    {
        let a = &m.children[i];
        assert(arms[i - 1] == *a);
        if a.kind == Kind::ArmNode && !a.flag && a.children.len() > 0 && a.children[0].kind == Kind::PatWild {
            assert(is_wildcard_arm(arms[i - 1]));
            wildcard = true;
        } else {
            assert(!is_wildcard_arm(arms[i - 1]));
        }
        i = i + 1;
    }
    assert(wildcard == has_wildcard_arm(arms));
    push_site(
        out,
        Site {
            line: m.aux.line,
            enclosing_fn: copy_fn(f),
            start: m.span.start,
            end: m.span.end,
            leaves: Vec::new(),
            ops: Vec::new(),
            compiler_void: true,
            wildcard_risk: wildcard,
        },
    );
    proof {
        assert(Seq::<DecisionOp>::empty().map_values(|o: DecisionOp| (o.start, o.end, o.is_and)) =~= Seq::empty());
    }
    let ghost base = site_views(out@);
    assert(base == site_views(old(out)@) + seq![match_site(*m, fn_text(*f))]);
    assert(arms.take(0) =~= Seq::<Node>::empty());
    assert(base + guard_sites(arms.take(0), fn_text(*f)) =~= base);
    let mut k: usize = 1;
    while k < n
        invariant
            n == m.children@.len(),
            1 <= k,
            n > 0 ==> k <= n,
            n == 0 ==> k == 1,
            arms == arms_of(*m),
            n > 0 ==> arms.len() == n - 1,
            site_views(out@) == base + guard_sites(arms.take(k - 1), fn_text(*f)),
        decreases n - k,
    {
        let a = &m.children[k];
        assert(arms.take(k as int).drop_last() =~= arms.take(k - 1));
        assert(arms.take(k as int).last() == *a);
        let ghost before = site_views(out@);
        if a.kind == Kind::ArmNode && a.flag && a.children.len() > 1 {
            let s = boolean_site(&a.children[1], f);
            push_site(out, s);
            assert(site_views(out@) =~= base + guard_sites(arms.take(k as int), fn_text(*f)));
        } else {
            assert(guard_sites(arms.take(k as int), fn_text(*f)) =~= guard_sites(arms.take(k - 1), fn_text(*f)));
        }
        k = k + 1;
    }
    assert(site_views(out@) == base + guard_sites(arms.take(k - 1), fn_text(*f)));
    if n > 0 {
        assert(k == n);
        assert(arms.take(k - 1) =~= arms);
    } else {
        assert(k == 1);
        assert(arms.take(k - 1) =~= arms);
    }
    assert(site_views(out@) == base + guard_sites(arms, fn_text(*f)));
}

fn sites_at(n: &Node, f: &Option<String>, out: &mut Vec<Site>)
    ensures
        site_views(final(out)@) == site_views(old(out)@) + sites_here(*n, fn_text(*f)),
{
    if n.kind == Kind::IfExpr && n.children.len() > 0 {
        let s = boolean_site(&n.children[0], f);
        push_site(out, s);
    } else if n.kind == Kind::WhileExpr && n.children.len() > (if n.flag {
        1usize
    } else {
        0usize
    }) {
        let c: usize = if n.flag {
            1
        } else {
            0
        };
        let s = boolean_site(&n.children[c], f);
        push_site(out, s);
    } else if n.kind == Kind::MatchExpr {
        match_sites(n, f, out);
    } else {
        assert(site_views(out@) =~= site_views(old(out)@) + sites_here(*n, fn_text(*f)));
    }
}

fn walk(n: &Node, f: &Option<String>, out: &mut Vec<Site>)
    ensures
        site_views(final(out)@) == site_views(old(out)@) + sites_tree(*n, fn_text(*f)),
    decreases n,
{
    sites_at(n, f, out);
    let inner: Option<String> = if n.kind == Kind::FnItem {
        Some(n.name.clone())
    } else {
        copy_fn(f)
    };
    assert(fn_text(inner) == inner_fn(*n, fn_text(*f)));
    let ghost mid = site_views(out@);
    let mut i: usize = 0;
    while i < n.children.len()
        invariant
            i <= n.children@.len(),
            fn_text(inner) == inner_fn(*n, fn_text(*f)),
            site_views(out@) == mid + sites_list(n.children@.take(i as int), fn_text(inner)),
        decreases n.children@.len() - i,
    {
        assert(n.children@.take(i + 1).drop_last() =~= n.children@.take(i as int));
        walk(&n.children[i], &inner, out);
        assert(site_views(out@) =~= mid + sites_list(n.children@.take(i + 1), fn_text(inner)));
        i = i + 1;
    }
    assert(n.children@.take(n.children@.len() as int) =~= n.children@);
    assert(site_views(out@) =~= site_views(old(out)@) + sites_tree(*n, fn_text(*f)));
}

/// Reads the decisions of a file's tree from its source text, in the order
/// a syntax walk meets them; `None` when some decision's byte range does
/// not fall between characters of the source.
pub fn decisions_in(source: &str, file: &Node) -> (r: Option<Vec<Decision>>)
    ensures
        match r {
            Some(ds) => {
                &&& ds@.len() == sites_tree(*file, None).len()
                &&& forall|i: int| 0 <= i < ds@.len() ==> site_fits(source@, #[trigger] sites_tree(*file, None)[i])
                &&& forall|i: int|
                    0 <= i < ds@.len() ==> decision_matches(#[trigger] ds@[i], source@, sites_tree(*file, None)[i])
            },
            None => exists|i: int|
                0 <= i < sites_tree(*file, None).len() && !site_fits(source@, #[trigger] sites_tree(*file, None)[i]),
        },
{
    let mut sites: Vec<Site> = Vec::new();
    walk(file, &None, &mut sites);
    assert(site_views(sites@) =~= sites_tree(*file, None));
    let ghost ss = sites_tree(*file, None);
    assert(ss.len() == sites@.len());
    let cs = text_chars(source);
    let mut out: Vec<Decision> = Vec::new();
    let mut i: usize = 0;
    while i < sites.len()
        invariant
            i <= sites@.len(),
            site_views(sites@) == ss,
            ss == sites_tree(*file, None),
            ss.len() == sites@.len(),
            cs@ == source@,
            out@.len() == i,
            forall|j: int| 0 <= j < i ==> site_fits(source@, #[trigger] ss[j]),
            forall|j: int| 0 <= j < i ==> decision_matches(#[trigger] out@[j], source@, ss[j]),
        decreases sites@.len() - i,
    {
        let s = &sites[i];
        assert(site_view(*s) == ss[i as int]);
        let a = match boundary_index(&cs, s.start) {
            Some(a) => a,
            None => {
                assert(!site_fits(source@, sites_tree(*file, None)[i as int]));
                return None;
            },
        };
        let b = match boundary_index(&cs, s.end) {
            Some(b) => b,
            None => {
                assert(!site_fits(source@, sites_tree(*file, None)[i as int]));
                return None;
            },
        };
        if a > b {
            assert(!site_fits(source@, sites_tree(*file, None)[i as int]));
            return None;
        }
        let text = source.substring_char(a, b).to_owned();
        let mut leaves: Vec<(usize, usize)> = Vec::new();
        let mut k: usize = 0;
        while k < s.leaves.len()
            invariant
                k <= s.leaves@.len(),
                leaves@ == s.leaves@.take(k as int),
            decreases s.leaves@.len() - k,
        {
            leaves.push(s.leaves[k]);
            assert(leaves@ =~= s.leaves@.take(k + 1));
            k = k + 1;
        }
        assert(leaves@ =~= s.leaves@);
        let mut ops: Vec<DecisionOp> = Vec::new();
        let mut q: usize = 0;
        while q < s.ops.len()
            invariant
                q <= s.ops@.len(),
                ops@.map_values(|o: DecisionOp| (o.start, o.end, o.is_and)) == s.ops@.take(q as int).map_values(
                    |o: DecisionOp| (o.start, o.end, o.is_and),
                ),
            decreases s.ops@.len() - q,
        {
            let o = &s.ops[q];
            let ghost before = ops@.map_values(|o: DecisionOp| (o.start, o.end, o.is_and));
            ops.push(DecisionOp { start: o.start, end: o.end, is_and: o.is_and });
            assert(s.ops@.take(q + 1) =~= s.ops@.take(q as int).push(s.ops@[q as int]));
            assert(ops@.map_values(|o: DecisionOp| (o.start, o.end, o.is_and)) =~= before.push(
                (o.start, o.end, o.is_and),
            ));
            assert(ops@.map_values(|o: DecisionOp| (o.start, o.end, o.is_and)) =~= s.ops@.take(q + 1).map_values(
                |o: DecisionOp| (o.start, o.end, o.is_and),
            ));
            q = q + 1;
        }
        assert(s.ops@.take(s.ops@.len() as int) =~= s.ops@);
        let d = Decision {
            site_line: s.line,
            enclosing_fn: copy_fn(&s.enclosing_fn),
            text,
            leaves,
            ops,
            compiler_void: s.compiler_void,
            wildcard_risk: s.wildcard_risk,
        };
        assert(site_fits(source@, ss[i as int]));
        assert(decision_matches(d, source@, ss[i as int]));
        out.push(d);
        assert(out@[i as int] == d);
        i = i + 1;
    }
    assert(out@.len() == ss.len());
    assert forall|j: int| 0 <= j < out@.len() implies site_fits(source@, #[trigger] sites_tree(*file, None)[j]) by {
        assert(site_fits(source@, ss[j]));
    }
    Some(out)
}

/// The text of `source` between two byte offsets, both between characters
/// and in order.
pub fn slice(source: &str, start: usize, end: usize) -> (r: String)
    requires
        is_boundary(source@, start as int),
        is_boundary(source@, end as int),
        char_index(source@, start as int) <= char_index(source@, end as int),
    ensures
        r@ == source@.subrange(char_index(source@, start as int), char_index(source@, end as int)),
{
    let cs = text_chars(source);
    let a = match boundary_index(&cs, start) {
        Some(a) => a,
        None => {
            return String::new();
        },
    };
    let b = match boundary_index(&cs, end) {
        Some(b) => b,
        None => {
            return String::new();
        },
    };
    source.substring_char(a, b).to_owned()
}

impl Decision {
    /// The source text of each leaf condition, in order.
    pub fn leaf_texts(&self, source: &str) -> (r: Vec<String>)
        requires
            forall|i: int|
                0 <= i < self.leaves@.len() ==> {
                    &&& is_boundary(source@, (#[trigger] self.leaves@[i]).0 as int)
                    &&& is_boundary(source@, self.leaves@[i].1 as int)
                    &&& char_index(source@, self.leaves@[i].0 as int) <= char_index(source@, self.leaves@[i].1 as int)
                },
        ensures
            r@.len() == self.leaves@.len(),
            forall|i: int|
                0 <= i < r@.len() ==> (#[trigger] r@[i])@ == source@.subrange(
                    char_index(source@, self.leaves@[i].0 as int),
                    char_index(source@, self.leaves@[i].1 as int),
                ),
    {
        let mut out: Vec<String> = Vec::new();
        let mut i: usize = 0;
        while i < self.leaves.len()
            invariant
                i <= self.leaves@.len(),
                out@.len() == i,
                forall|j: int|
                    0 <= j < self.leaves@.len() ==> {
                        &&& is_boundary(source@, (#[trigger] self.leaves@[j]).0 as int)
                        &&& is_boundary(source@, self.leaves@[j].1 as int)
                        &&& char_index(source@, self.leaves@[j].0 as int) <= char_index(
                            source@,
                            self.leaves@[j].1 as int,
                        )
                    },
                forall|j: int|
                    0 <= j < i ==> (#[trigger] out@[j])@ == source@.subrange(
                        char_index(source@, self.leaves@[j].0 as int),
                        char_index(source@, self.leaves@[j].1 as int),
                    ),
            decreases self.leaves@.len() - i,
        {
            let (a, b) = self.leaves[i];
            assert(self.leaves@[i as int] == (a, b));
            out.push(slice(source, a, b));
            i = i + 1;
        }
        out
    }
}

/// Why a source text could not be scanned.
#[derive(Debug, Clone)]
pub enum ScanError {
    /// The text does not parse as Rust; the parser's message.
    Parse(String),
    /// A decision's span does not fall between characters of the text.
    Span,
}

/// Scans source text for every decision site.
pub fn scan_source(source: &str) -> (r: Result<Vec<Decision>, ScanError>)
    ensures
        match rust_file_syntax(source@) {
            Ok(file) => match r {
                Ok(ds) => {
                    &&& ds@.len() == sites_tree(file, None).len()
                    &&& forall|i: int| 0 <= i < ds@.len() ==> site_fits(source@, #[trigger] sites_tree(file, None)[i])
                    &&& forall|i: int|
                        0 <= i < ds@.len() ==> decision_matches(#[trigger] ds@[i], source@, sites_tree(file, None)[i])
                },
                Err(ScanError::Span) => exists|i: int|
                    0 <= i < sites_tree(file, None).len() && !site_fits(source@, #[trigger] sites_tree(file, None)[i]),
                Err(ScanError::Parse(_)) => false,
            },
            Err(m) => r matches Err(ScanError::Parse(e)) && e == m,
        },
{
    match parse_rust_file(source) {
        Ok(file) => match decisions_in(source, &file) {
            Some(ds) => Ok(ds),
            None => Err(ScanError::Span),
        },
        Err(m) => Err(ScanError::Parse(m)),
    }
}

// ── Every loop condition is a decision ─────────────────────────────────────

/// Every `while` loop makes one decision before anything under it: its
/// condition, whatever its form, as a plain (not compiler-void) decision
/// over exactly the condition's text, inside the enclosing `fn`; a `let`
/// pattern condition is a single leaf. The loop's decisions are that one
/// followed by those of its children.
pub proof fn lemma_while_is_a_decision(w: Node, f: Option<Seq<char>>)
    requires
        w.kind == Kind::WhileExpr,
        w.children@.len() > (if w.flag { 1int } else { 0int }),
    ensures
        ({
            let c = w.children@[if w.flag { 1int } else { 0int }];
            let ss = sites_tree(w, f);
            &&& ss.len() == 1 + sites_list(w.children@, f).len()
            &&& !ss[0].compiler_void
            &&& ss[0].start == c.span.start
            &&& ss[0].end == c.span.end
            &&& ss[0].line == c.span.line
            &&& ss[0].enclosing_fn == f
            &&& ss.skip(1) == sites_list(w.children@, f)
            &&& c.kind == Kind::LetCond ==> ss[0].leaves == seq![(c.span.start, c.span.end)] && ss[0].ops.len() == 0
        }),
{
    let c = w.children@[if w.flag { 1int } else { 0int }];
    assert(sites_tree(w, f).skip(1) =~= sites_list(w.children@, f));
    if c.kind == Kind::LetCond {
        assert(!is_grouping(c) && !is_and_or(c));
    }
}

/// Every `if` makes one decision before anything under it: its
/// condition (a `let` pattern included), as a plain decision over exactly
/// the condition's text, inside the enclosing `fn`.
pub proof fn lemma_if_is_a_decision(n: Node, f: Option<Seq<char>>)
    requires
        n.kind == Kind::IfExpr,
        n.children@.len() > 0,
    ensures
        ({
            let c = n.children@[0];
            let ss = sites_tree(n, f);
            &&& ss.len() == 1 + sites_list(n.children@, f).len()
            &&& !ss[0].compiler_void
            &&& ss[0].start == c.span.start
            &&& ss[0].end == c.span.end
            &&& ss[0].enclosing_fn == f
            &&& ss.skip(1) == sites_list(n.children@, f)
        }),
{
    assert(sites_tree(n, f).skip(1) =~= sites_list(n.children@, f));
}

/// Every `match` makes a compiler-void decision spanning the whole
/// expression, starting at the `match` keyword's line, before anything
/// under it; it is at risk exactly when an unguarded `_` arm makes it
/// exhaustive.
pub proof fn lemma_match_is_a_decision(n: Node, f: Option<Seq<char>>)
    requires
        n.kind == Kind::MatchExpr,
    ensures
        ({
            let ss = sites_tree(n, f);
            &&& ss.len() >= 1
            &&& ss[0].compiler_void
            &&& ss[0].start == n.span.start
            &&& ss[0].end == n.span.end
            &&& ss[0].line == n.aux.line
            &&& ss[0].enclosing_fn == f
            &&& ss[0].leaves.len() == 0
            &&& ss[0].wildcard_risk == exists|i: int|
                1 <= i < n.children@.len() && (#[trigger] n.children@[i]).kind == Kind::ArmNode && !n.children@[i].flag
                    && n.children@[i].children@.len() > 0 && n.children@[i].children@[0].kind == Kind::PatWild
        }),
{
    let arms = arms_of(n);
    let ss = sites_tree(n, f);
    if exists|i: int|
        1 <= i < n.children@.len() && (#[trigger] n.children@[i]).kind == Kind::ArmNode && !n.children@[i].flag
            && n.children@[i].children@.len() > 0 && n.children@[i].children@[0].kind == Kind::PatWild {
        let i = choose|i: int|
            1 <= i < n.children@.len() && (#[trigger] n.children@[i]).kind == Kind::ArmNode && !n.children@[i].flag
                && n.children@[i].children@.len() > 0 && n.children@[i].children@[0].kind == Kind::PatWild;
        assert(arms[i - 1] == n.children@[i]);
        assert(is_wildcard_arm(arms[i - 1]));
    }
    if has_wildcard_arm(arms) {
        let i = choose|i: int| 0 <= i < arms.len() && is_wildcard_arm(#[trigger] arms[i]);
        assert(arms[i] == n.children@[i + 1]);
    }
}

/// A condition's `&&`/`||` operators separate its leaves: there is one
/// leaf more than there are operators.
pub proof fn lemma_leaves_around_operators(e: Node)
    ensures
        flat_leaves(e).len() == flat_ops(e).len() + 1,
    decreases e,
{
    if is_grouping(e) {
        lemma_leaves_around_operators(e.children@[0]);
    } else if is_and_or(e) {
        lemma_leaves_around_operators(e.children@[0]);
        lemma_leaves_around_operators(e.children@[1]);
    }
}

} // verus!
