//! The predicate mini-language of `requires`/`ensures` annotations: a plain
//! Rust boolean expression, or a bounded quantifier over a literal integer
//! range.
//!
//! ```text
//! predicate := expr
//!            | "forall" IDENT "in" "[" int_lit ".." int_lit "]" "." predicate
//!            | "exists" IDENT "in" "[" int_lit ".." int_lit "]" "." predicate
//! ```
//!
//! Each endpoint is an integer literal, optionally negated, that fits an
//! `i64` (`..=` and `...` are read as `..`). The quantifier head is read
//! here, character by character; the range endpoints and the trailing
//! expression are Rust expression syntax, read by [`parse_rust_expr`].

use vstd::prelude::*;

use crate::expr::{LiteralV, Tree, TreeV, UnaryOpV, parse_rust_expr, render_into, rust_expr_syntax, spec_render};
use crate::lines::{all_digits, is_digit, lemma_nat_text_digits};
use crate::text::{int_text_into, push_str, spec_int_text, spec_nat_text};

verus! {

/// A `requires`/`ensures` predicate.
#[derive(Debug)]
pub enum Predicate {
    Expr(Tree),
    Forall { var: String, lo: i64, hi: i64, body: Box<Predicate> },
    Exists { var: String, lo: i64, hi: i64, body: Box<Predicate> },
}

pub enum PredicateV {
    Expr(TreeV),
    Forall { var: Seq<char>, lo: i64, hi: i64, body: Box<PredicateV> },
    Exists { var: Seq<char>, lo: i64, hi: i64, body: Box<PredicateV> },
}

pub open spec fn predicate_view(p: Predicate) -> PredicateV
    decreases p,
{
    match p {
        Predicate::Expr(e) => PredicateV::Expr(e@),
        Predicate::Forall { var, lo, hi, body } => PredicateV::Forall {
            var: var@,
            lo,
            hi,
            body: Box::new(predicate_view(*body)),
        },
        Predicate::Exists { var, lo, hi, body } => PredicateV::Exists {
            var: var@,
            lo,
            hi,
            body: Box::new(predicate_view(*body)),
        },
    }
}

impl View for Predicate {
    type V = PredicateV;

    open spec fn view(&self) -> PredicateV {
        predicate_view(*self)
    }
}

// ── Rendering ──────────────────────────────────────────────────────────────

/// `word` (with its trailing space), the bound name and the range, as the
/// quantifier head is written.
pub open spec fn head_text(word: Seq<char>, var: Seq<char>, lo: i64, hi: i64) -> Seq<char> {
    word + var + " in ["@ + spec_int_text(lo as int) + ".."@ + spec_int_text(hi as int) + "] . "@
}

/// Source text of a predicate, in the form [`Predicate::parse`] reads back.
pub open spec fn spec_predicate_text(p: PredicateV) -> Seq<char>
    decreases p,
{
    match p {
        PredicateV::Expr(e) => spec_render(e),
        PredicateV::Forall { var, lo, hi, body } => head_text("forall "@, var, lo, hi)
            + spec_predicate_text(*body),
        PredicateV::Exists { var, lo, hi, body } => head_text("exists "@, var, lo, hi)
            + spec_predicate_text(*body),
    }
}

fn quantifier_text_into(word: &str, var: &String, lo: i64, hi: i64, out: &mut String)
    ensures
        final(out)@ == old(out)@ + head_text(word@, var@, lo, hi),
{
    push_str(out, word);
    push_str(out, var.as_str());
    push_str(out, " in [");
    int_text_into(lo as i128, out);
    push_str(out, "..");
    int_text_into(hi as i128, out);
    push_str(out, "] . ");
    proof {
        assert(out@ =~= old(out)@ + head_text(word@, var@, lo, hi));
    }
}

impl Predicate {
    fn render_into(&self, out: &mut String)
        ensures
            final(out)@ == old(out)@ + spec_predicate_text(self@),
        decreases self,
    {
        match self {
            Predicate::Expr(e) => render_into(e, out),
            Predicate::Forall { var, lo, hi, body } => {
                quantifier_text_into("forall ", var, *lo, *hi, out);
                body.render_into(out);
                proof {
                    assert(out@ =~= old(out)@ + spec_predicate_text(self@));
                }
            },
            Predicate::Exists { var, lo, hi, body } => {
                quantifier_text_into("exists ", var, *lo, *hi, out);
                body.render_into(out);
                proof {
                    assert(out@ =~= old(out)@ + spec_predicate_text(self@));
                }
            },
        }
    }

    /// Renders back to source text.
    pub fn render(&self) -> (r: String)
        ensures
            r@ == spec_predicate_text(self@),
    {
        let mut out = String::new();
        self.render_into(&mut out);
        out
    }
}

// ── Reading the quantifier head ────────────────────────────────────────────

pub open spec fn is_ws(c: char) -> bool {
    c == ' ' || c == '\t' || c == '\n' || c == '\r' || c == '\x0b' || c == '\x0c' || c
        == '\u{85}' || c == '\u{200e}' || c == '\u{200f}' || c == '\u{2028}' || c == '\u{2029}'
}

pub open spec fn is_ident_start(c: char) -> bool {
    ('a' <= c && c <= 'z') || ('A' <= c && c <= 'Z') || c == '_'
}

pub open spec fn is_ident_char(c: char) -> bool {
    is_ident_start(c) || ('0' <= c && c <= '9')
}

/// Where the run of whitespace starting at `i` ends.
pub open spec fn ws_end(s: Seq<char>, i: int) -> int
    decreases s.len() - i,
{
    if 0 <= i < s.len() && is_ws(s[i]) {
        ws_end(s, i + 1)
    } else {
        i
    }
}

/// Where the run of identifier characters starting at `i` ends.
pub open spec fn ident_end(s: Seq<char>, i: int) -> int
    decreases s.len() - i,
{
    if 0 <= i < s.len() && is_ident_char(s[i]) {
        ident_end(s, i + 1)
    } else {
        i
    }
}

/// Where the word (an identifier) starting at `i` ends; `i` when none starts there.
pub open spec fn word_end(s: Seq<char>, i: int) -> int {
    if 0 <= i < s.len() && is_ident_start(s[i]) {
        ident_end(s, i + 1)
    } else {
        i
    }
}

/// The first `c` at or after `i`; `s.len()` when there is none.
pub open spec fn find_char(s: Seq<char>, i: int, c: char) -> int
    decreases s.len() - i,
{
    if 0 <= i < s.len() {
        if s[i] == c {
            i
        } else {
            find_char(s, i + 1, c)
        }
    } else {
        s.len() as int
    }
}

/// The first `..` lying wholly in `[i, end)`; `end` when there is none.
pub open spec fn find_dots(s: Seq<char>, i: int, end: int) -> int
    decreases end - i,
{
    if 0 <= i && i + 1 < end && end <= s.len() {
        if s[i] == '.' && s[i + 1] == '.' {
            i
        } else {
            find_dots(s, i + 1, end)
        }
    } else {
        end
    }
}

/// An integer literal, possibly negated, that fits an `i64`.
pub open spec fn spec_literal_i64(e: TreeV) -> Option<i64>
    decreases e,
{
    match e {
        TreeV::Literal(LiteralV::Int { value: Some(v), text: _ }) => if i64::MIN <= v <= i64::MAX {
            Some(v as i64)
        } else {
            None
        },
        TreeV::Unary(UnaryOpV::Neg, x) => match spec_literal_i64(*x) {
            Some(v) => if v > i64::MIN {
                Some((-v) as i64)
            } else {
                None
            },
            None => None,
        },
        _ => None,
    }
}

/// A range endpoint: Rust expression text that is an `i64` literal.
pub open spec fn endpoint(t: Seq<char>) -> Option<i64> {
    match rust_expr_syntax(t) {
        Some(tree) => spec_literal_i64(tree@),
        None => None,
    }
}

/// A name a quantifier may bind: an identifier the expression grammar
/// reads as a bare variable (so no keyword), other than the path roots
/// `self`, `Self`, `super` and `crate`.
pub open spec fn is_binder_name(w: Seq<char>) -> bool {
    &&& w != "self"@
    &&& w != "Self"@
    &&& w != "super"@
    &&& w != "crate"@
    &&& match rust_expr_syntax(w) {
        Some(tree) => tree@ == TreeV::Ident(w),
        None => false,
    }
}

/// What follows a `forall`/`exists` keyword: the bound name, the range,
/// and where the body starts.
pub struct QuantHeadV {
    pub var: Seq<char>,
    pub lo: i64,
    pub hi: i64,
    pub body_at: int,
}

/// Where the upper endpoint's text starts after the `..` at `d`.
pub open spec fn upper_start(s: Seq<char>, d: int, c: int) -> int {
    if d + 2 < c && (s[d + 2] == '=' || s[d + 2] == '.') {
        d + 3
    } else {
        d + 2
    }
}

/// The head `IDENT in [lo..hi] .` starting at `at`.
pub open spec fn spec_quant_head(s: Seq<char>, at: int) -> Option<QuantHeadV> {
    let v0 = ws_end(s, at);
    let v1 = word_end(s, v0);
    let var = s.subrange(v0, v1);
    let k0 = ws_end(s, v1);
    let k1 = word_end(s, k0);
    let o = ws_end(s, k1);
    let c = find_char(s, o + 1, ']');
    let d = find_dots(s, o + 1, c);
    let h = upper_start(s, d, c);
    let p = ws_end(s, c + 1);
    if v1 > v0 && is_binder_name(var) && s.subrange(k0, k1) == "in"@ && o < s.len() && s[o]
        == '[' && c < s.len() && d < c && p < s.len() && s[p] == '.' {
        match (endpoint(s.subrange(o + 1, d)), endpoint(s.subrange(h, c))) {
            (Some(lo), Some(hi)) => Some(QuantHeadV { var, lo, hi, body_at: p + 1 }),
            _ => None,
        }
    } else {
        None
    }
}

pub proof fn lemma_ws_end(s: Seq<char>, i: int)
    requires
        0 <= i <= s.len(),
    ensures
        i <= ws_end(s, i) <= s.len(),
    decreases s.len() - i,
{
    if i < s.len() && is_ws(s[i]) {
        lemma_ws_end(s, i + 1);
    }
}

pub proof fn lemma_ident_end(s: Seq<char>, i: int)
    requires
        0 <= i <= s.len(),
    ensures
        i <= ident_end(s, i) <= s.len(),
    decreases s.len() - i,
{
    if i < s.len() && is_ident_char(s[i]) {
        lemma_ident_end(s, i + 1);
    }
}

pub proof fn lemma_word_end(s: Seq<char>, i: int)
    requires
        0 <= i <= s.len(),
    ensures
        i <= word_end(s, i) <= s.len(),
{
    if i < s.len() && is_ident_start(s[i]) {
        lemma_ident_end(s, i + 1);
    }
}

pub proof fn lemma_find_char(s: Seq<char>, i: int, c: char)
    requires
        0 <= i <= s.len(),
    ensures
        i <= find_char(s, i, c) <= s.len(),
        find_char(s, i, c) < s.len() ==> s[find_char(s, i, c)] == c,
    decreases s.len() - i,
{
    if i < s.len() && s[i] != c {
        lemma_find_char(s, i + 1, c);
    }
}

pub proof fn lemma_find_dots(s: Seq<char>, i: int, end: int)
    requires
        0 <= i <= end <= s.len(),
    ensures
        i <= find_dots(s, i, end) <= end,
        find_dots(s, i, end) < end ==> find_dots(s, i, end) + 1 < end,
    decreases end - i,
{
    if i + 1 < end && !(s[i] == '.' && s[i + 1] == '.') {
        lemma_find_dots(s, i + 1, end);
    }
}

pub proof fn lemma_quant_head_advances(s: Seq<char>, at: int)
    requires
        0 <= at <= s.len(),
    ensures
        spec_quant_head(s, at) matches Some(h) ==> at < h.body_at <= s.len(),
{
    let v0 = ws_end(s, at);
    lemma_ws_end(s, at);
    let v1 = word_end(s, v0);
    lemma_word_end(s, v0);
    let k0 = ws_end(s, v1);
    lemma_ws_end(s, v1);
    let k1 = word_end(s, k0);
    lemma_word_end(s, k0);
    let o = ws_end(s, k1);
    lemma_ws_end(s, k1);
    if o < s.len() {
        let c = find_char(s, o + 1, ']');
        lemma_find_char(s, o + 1, ']');
        if c < s.len() {
            lemma_ws_end(s, c + 1);
        }
    }
}

/// The predicate that the text from position `i` on denotes, if any.
pub open spec fn spec_parse_at(s: Seq<char>, i: int) -> Option<PredicateV>
    decreases s.len() - i,
{
    if 0 <= i <= s.len() {
        let a = ws_end(s, i);
        let b = word_end(s, a);
        let w = s.subrange(a, b);
        if w == "forall"@ || w == "exists"@ {
            proof {
                lemma_ws_end(s, i);
                lemma_word_end(s, a);
                lemma_quant_head_advances(s, b);
            }
            match spec_quant_head(s, b) {
                Some(h) => match spec_parse_at(s, h.body_at) {
                    Some(body) => Some(
                        if w == "forall"@ {
                            PredicateV::Forall { var: h.var, lo: h.lo, hi: h.hi, body: Box::new(body) }
                        } else {
                            PredicateV::Exists { var: h.var, lo: h.lo, hi: h.hi, body: Box::new(body) }
                        },
                    ),
                    None => None,
                },
                None => None,
            }
        } else {
            match rust_expr_syntax(s.subrange(i, s.len() as int)) {
                Some(t) => Some(PredicateV::Expr(t@)),
                None => None,
            }
        }
    } else {
        None
    }
}

/// The predicate `text` denotes, if any.
pub open spec fn spec_parse_predicate(text: Seq<char>) -> Option<PredicateV> {
    spec_parse_at(text, 0)
}

// ── Executable reader ──────────────────────────────────────────────────────

fn is_ws_char(c: char) -> (r: bool)
    ensures
        r == is_ws(c),
{
    c == ' ' || c == '\t' || c == '\n' || c == '\r' || c == '\x0b' || c == '\x0c' || c == '\u{85}'
        || c == '\u{200e}' || c == '\u{200f}' || c == '\u{2028}' || c == '\u{2029}'
}

fn is_start_char(c: char) -> (r: bool)
    ensures
        r == is_ident_start(c),
{
    ('a' <= c && c <= 'z') || ('A' <= c && c <= 'Z') || c == '_'
}

fn is_word_char(c: char) -> (r: bool)
    ensures
        r == is_ident_char(c),
{
    is_start_char(c) || ('0' <= c && c <= '9')
}

fn skip_ws(s: &Vec<char>, i: usize) -> (r: usize)
    requires
        i <= s.len(),
    ensures
        r as int == ws_end(s@, i as int),
{
    let mut j = i;
    while j < s.len() && is_ws_char(s[j])
        invariant
            i <= j <= s.len(),
            ws_end(s@, i as int) == ws_end(s@, j as int),
        decreases s.len() - j,
    {
        j = j + 1;
    }
    j
}

fn skip_word(s: &Vec<char>, i: usize) -> (r: usize)
    requires
        i <= s.len(),
    ensures
        r as int == word_end(s@, i as int),
{
    if i < s.len() && is_start_char(s[i]) {
        let mut j = i + 1;
        while j < s.len() && is_word_char(s[j])
            invariant
                i + 1 <= j <= s.len(),
                ident_end(s@, i + 1) == ident_end(s@, j as int),
            decreases s.len() - j,
        {
            j = j + 1;
        }
        j
    } else {
        i
    }
}

pub(crate) fn next_char(s: &Vec<char>, i: usize, c: char) -> (r: usize)
    requires
        i <= s.len(),
    ensures
        r as int == find_char(s@, i as int, c),
{
    let mut j = i;
    while j < s.len() && s[j] != c
        invariant
            i <= j <= s.len(),
            find_char(s@, i as int, c) == find_char(s@, j as int, c),
        decreases s.len() - j,
    {
        j = j + 1;
    }
    j
}

fn next_dots(s: &Vec<char>, i: usize, end: usize) -> (r: usize)
    requires
        i <= end <= s.len(),
    ensures
        r as int == find_dots(s@, i as int, end as int),
{
    let mut j = i;
    while j < end && j + 1 < end && !(s[j] == '.' && s[j + 1] == '.')
        invariant
            i <= j <= end,
            end <= s.len(),
            find_dots(s@, i as int, end as int) == find_dots(s@, j as int, end as int),
        decreases end - j,
    {
        j = j + 1;
    }
    if j < end && j + 1 < end {
        j
    } else {
        end
    }
}

/// Whether `s[a..b]` spells `word`.
pub(crate) fn spells(s: &Vec<char>, a: usize, b: usize, word: &str) -> (r: bool)
    requires
        a <= b <= s.len(),
    ensures
        r == (s@.subrange(a as int, b as int) == word@),
{
    let n = word.unicode_len();
    if b - a != n {
        return false;
    }
    let mut k: usize = 0;
    while k < n
        invariant
            k <= n,
            n == word@.len(),
            b - a == n,
            a <= b <= s.len(),
            forall|j: int| 0 <= j < k ==> s@[a + j] == word@[j],
        decreases n - k,
    {
        if s[a + k] != word.get_char(k) {
            assert(s@.subrange(a as int, b as int)[k as int] != word@[k as int]);
            return false;
        }
        k = k + 1;
    }
    assert(s@.subrange(a as int, b as int) =~= word@);
    true
}

fn literal_i64(e: &Tree) -> (r: Option<i64>)
    ensures
        match r {
            Some(v) => spec_literal_i64(e@) == Some(v),
            None => spec_literal_i64(e@) is None,
        },
    decreases e,
{
    match e {
        Tree::Literal(crate::expr::Literal::Int { value: Some(v), text: _ }) => {
            if i64::MIN as i128 <= *v && *v <= i64::MAX as i128 {
                Some(*v as i64)
            } else {
                None
            }
        },
        Tree::Unary(crate::expr::UnaryOp::Neg, x) => match literal_i64(&**x) {
            Some(v) => if v > i64::MIN {
                Some(-v)
            } else {
                None
            },
            None => None,
        },
        _ => None,
    }
}

fn read_endpoint(text: &str, from: usize, to: usize) -> (r: Option<i64>)
    requires
        from <= to <= text@.len(),
    ensures
        r == endpoint(text@.subrange(from as int, to as int)),
{
    let piece = text.substring_char(from, to);
    match parse_rust_expr(piece) {
        Some(tree) => literal_i64(&tree),
        None => None,
    }
}

fn binder_name(text: &str, s: &Vec<char>, a: usize, b: usize) -> (r: bool)
    requires
        s@ == text@,
        a <= b <= s.len(),
    ensures
        r == is_binder_name(s@.subrange(a as int, b as int)),
{
    if spells(s, a, b, "self") || spells(s, a, b, "Self") || spells(s, a, b, "super") || spells(
        s,
        a,
        b,
        "crate",
    ) {
        return false;
    }
    let piece = text.substring_char(a, b);
    match parse_rust_expr(piece) {
        Some(tree) => match tree {
            Tree::Ident(n) => spells(s, a, b, n.as_str()),
            _ => false,
        },
        None => false,
    }
}

/// A quantifier head's pieces, as read.
struct QuantHead {
    var: String,
    lo: i64,
    hi: i64,
    body_at: usize,
}

fn read_quant_head(text: &str, s: &Vec<char>, at: usize) -> (r: Option<QuantHead>)
    requires
        s@ == text@,
        at <= s.len(),
    ensures
        match r {
            Some(h) => spec_quant_head(s@, at as int) == Some(
                QuantHeadV { var: h.var@, lo: h.lo, hi: h.hi, body_at: h.body_at as int },
            ),
            None => spec_quant_head(s@, at as int) is None,
        },
{
    proof {
        lemma_ws_end(s@, at as int);
    }
    let v0 = skip_ws(s, at);
    proof {
        lemma_word_end(s@, v0 as int);
    }
    let v1 = skip_word(s, v0);
    proof {
        lemma_ws_end(s@, v1 as int);
    }
    let k0 = skip_ws(s, v1);
    proof {
        lemma_word_end(s@, k0 as int);
    }
    let k1 = skip_word(s, k0);
    proof {
        lemma_ws_end(s@, k1 as int);
    }
    let o = skip_ws(s, k1);
    if !(v1 > v0 && binder_name(text, s, v0, v1) && spells(s, k0, k1, "in") && o < s.len() && s[o]
        == '[') {
        return None;
    }
    proof {
        lemma_find_char(s@, o + 1, ']');
    }
    let c = next_char(s, o + 1, ']');
    if c >= s.len() {
        return None;
    }
    proof {
        lemma_find_dots(s@, o + 1, c as int);
        lemma_ws_end(s@, c + 1);
    }
    let d = next_dots(s, o + 1, c);
    let p = skip_ws(s, c + 1);
    if !(d < c && p < s.len() && s[p] == '.') {
        return None;
    }
    let h = if d + 2 < c && (s[d + 2] == '=' || s[d + 2] == '.') {
        d + 3
    } else {
        d + 2
    };
    let lo = read_endpoint(text, o + 1, d);
    let hi = read_endpoint(text, h, c);
    match (lo, hi) {
        (Some(lo), Some(hi)) => {
            let var = text.substring_char(v0, v1).to_owned();
            Some(QuantHead { var, lo, hi, body_at: p + 1 })
        },
        _ => None,
    }
}

pub(crate) fn text_chars(text: &str) -> (r: Vec<char>)
    ensures
        r@ == text@,
{
    let n = text.unicode_len();
    let mut out: Vec<char> = Vec::new();
    let mut i: usize = 0;
    while i < n
        invariant
            i <= n,
            n == text@.len(),
            out@ == text@.take(i as int),
        decreases n - i,
    {
        out.push(text.get_char(i));
        assert(out@ =~= text@.take(i + 1));
        i = i + 1;
    }
    assert(text@.take(n as int) =~= text@);
    out
}

fn parse_at(text: &str, s: &Vec<char>, i: usize) -> (r: Option<Predicate>)
    requires
        s@ == text@,
        i <= s.len(),
    ensures
        match r {
            Some(p) => spec_parse_at(s@, i as int) == Some(p@),
            None => spec_parse_at(s@, i as int) is None,
        },
    decreases s.len() - i,
{
    proof {
        lemma_ws_end(s@, i as int);
    }
    let a = skip_ws(s, i);
    proof {
        lemma_word_end(s@, a as int);
    }
    let b = skip_word(s, a);
    let is_forall = spells(s, a, b, "forall");
    let is_exists = spells(s, a, b, "exists");
    if is_forall || is_exists {
        proof {
            lemma_quant_head_advances(s@, b as int);
        }
        match read_quant_head(text, s, b) {
            Some(h) => match parse_at(text, s, h.body_at) {
                Some(body) => {
                    let QuantHead { var, lo, hi, body_at: _ } = h;
                    if is_forall {
                        Some(Predicate::Forall { var, lo, hi, body: Box::new(body) })
                    } else {
                        Some(Predicate::Exists { var, lo, hi, body: Box::new(body) })
                    }
                },
                None => None,
            },
            None => None,
        }
    } else {
        let rest = text.substring_char(i, s.len());
        match parse_rust_expr(rest) {
            Some(t) => Some(Predicate::Expr(t)),
            None => None,
        }
    }
}

impl Predicate {
    /// Reads a predicate from its source text; `None` when the text is not
    /// one (see [`spec_parse_predicate`]).
    pub fn parse(text: &str) -> (r: Option<Predicate>)
        ensures
            match r {
                Some(p) => spec_parse_predicate(text@) == Some(p@),
                None => spec_parse_predicate(text@) is None,
            },
    {
        let s = text_chars(text);
        parse_at(text, &s, 0)
    }
}


// ── Rendering reads back ───────────────────────────────────────────────────

/// An identifier as the quantifier head reads one: an ASCII letter or `_`,
/// then ASCII letters, digits or `_`.
pub open spec fn ident_shaped(t: Seq<char>) -> bool {
    &&& t.len() > 0
    &&& is_ident_start(t[0])
    &&& forall|k: int| 0 <= k < t.len() ==> is_ident_char(#[trigger] t[k])
}

/// Whether the first word of `t`, after leading whitespace, is `forall` or
/// `exists`.
pub open spec fn opens_quantifier(t: Seq<char>) -> bool {
    let a = ws_end(t, 0);
    let b = word_end(t, a);
    t.subrange(a, b) == "forall"@ || t.subrange(a, b) == "exists"@
}

/// Whether the expression reader gives back every part of `p` as it is
/// rendered after `lead`: each bound name as a bare variable, each range
/// endpoint as its integer, and the body expression as itself (an
/// expression whose text opens with `forall` or `exists` aside).
pub open spec fn reads_back(p: PredicateV, lead: Seq<char>) -> bool
    decreases p,
{
    match p {
        PredicateV::Expr(e) => {
            &&& !opens_quantifier(lead + spec_render(e))
            &&& rust_expr_syntax(lead + spec_render(e)) matches Some(t) && t@ == e
        },
        PredicateV::Forall { var, lo, hi, body } | PredicateV::Exists { var, lo, hi, body } => {
            &&& ident_shaped(var)
            &&& is_binder_name(var)
            &&& endpoint(spec_int_text(lo as int)) == Some(lo)
            &&& endpoint(spec_int_text(hi as int)) == Some(hi)
            &&& reads_back(*body, " "@)
        },
    }
}

proof fn lemma_ws_end_shift(s: Seq<char>, i: int, j: int)
    requires
        0 <= i <= j <= s.len(),
    ensures
        ws_end(s, j) == i + ws_end(s.subrange(i, s.len() as int), j - i),
    decreases s.len() - j,
{
    let t = s.subrange(i, s.len() as int);
    if j < s.len() {
        assert(t[j - i] == s[j]);
        if is_ws(s[j]) {
            lemma_ws_end_shift(s, i, j + 1);
        }
    }
}

proof fn lemma_ident_end_shift(s: Seq<char>, i: int, j: int)
    requires
        0 <= i <= j <= s.len(),
    ensures
        ident_end(s, j) == i + ident_end(s.subrange(i, s.len() as int), j - i),
    decreases s.len() - j,
{
    let t = s.subrange(i, s.len() as int);
    if j < s.len() {
        assert(t[j - i] == s[j]);
        if is_ident_char(s[j]) {
            lemma_ident_end_shift(s, i, j + 1);
        }
    }
}

proof fn lemma_word_end_shift(s: Seq<char>, i: int, j: int)
    requires
        0 <= i <= j <= s.len(),
    ensures
        word_end(s, j) == i + word_end(s.subrange(i, s.len() as int), j - i),
{
    let t = s.subrange(i, s.len() as int);
    if j < s.len() {
        assert(t[j - i] == s[j]);
        lemma_ident_end_shift(s, i, j + 1);
    }
}

/// Reading `piece` off the text at `j`: its characters, and the rest.
proof fn lemma_peel(s: Seq<char>, j: int, piece: Seq<char>, rest: Seq<char>)
    requires
        0 <= j <= s.len(),
        s.subrange(j, s.len() as int) == piece + rest,
    ensures
        j + piece.len() <= s.len(),
        forall|k: int| 0 <= k < piece.len() ==> s[j + k] == #[trigger] piece[k],
        s.subrange(j + piece.len(), s.len() as int) == rest,
{
    let t = s.subrange(j, s.len() as int);
    assert(t.len() == s.len() - j);
    assert(t.len() == piece.len() + rest.len());
    assert forall|k: int| 0 <= k < piece.len() implies s[j + k] == #[trigger] piece[k] by {
        assert(t[k] == s[j + k]);
        assert((piece + rest)[k] == piece[k]);
    }
    let u = s.subrange(j + piece.len(), s.len() as int);
    assert forall|k: int| 0 <= k < rest.len() implies u[k] == rest[k] by {
        assert(u[k] == s[j + piece.len() + k]);
        assert(t[piece.len() + k] == s[j + piece.len() + k]);
        assert((piece + rest)[piece.len() + k] == rest[k]);
    }
    assert(u =~= rest);
}

proof fn lemma_ident_run(s: Seq<char>, j: int, n: int)
    requires
        0 <= j,
        0 <= n,
        j + n < s.len(),
        forall|k: int| j <= k < j + n ==> is_ident_char(#[trigger] s[k]),
        !is_ident_char(s[j + n]),
    ensures
        ident_end(s, j) == j + n,
    decreases n,
{
    if n > 0 {
        lemma_ident_run(s, j + 1, n - 1);
    }
}

proof fn lemma_find_char_run(s: Seq<char>, j: int, n: int, c: char)
    requires
        0 <= j,
        0 <= n,
        j + n < s.len(),
        forall|k: int| j <= k < j + n ==> #[trigger] s[k] != c,
        s[j + n] == c,
    ensures
        find_char(s, j, c) == j + n,
    decreases n,
{
    if n > 0 {
        lemma_find_char_run(s, j + 1, n - 1, c);
    }
}

proof fn lemma_find_dots_run(s: Seq<char>, j: int, n: int, end: int)
    requires
        0 <= j,
        0 <= n,
        j + n + 1 < end <= s.len(),
        forall|k: int| j <= k < j + n ==> #[trigger] s[k] != '.',
        s[j + n] == '.',
        s[j + n + 1] == '.',
    ensures
        find_dots(s, j, end) == j + n,
    decreases n,
{
    if n > 0 {
        lemma_find_dots_run(s, j + 1, n - 1, end);
    }
}

proof fn lemma_int_text_shape(v: int)
    ensures
        spec_int_text(v).len() >= 1,
        forall|k: int|
            0 <= k < spec_int_text(v).len() ==> #[trigger] spec_int_text(v)[k] == '-' || is_digit(
                spec_int_text(v)[k],
            ),
{
    if v < 0 {
        lemma_nat_text_digits((-v) as nat);
        let t = spec_nat_text((-v) as nat);
        assert forall|k: int| 0 <= k < spec_int_text(v).len() implies #[trigger] spec_int_text(v)[k] == '-'
            || is_digit(spec_int_text(v)[k]) by {
            if k > 0 {
                assert(spec_int_text(v)[k] == t[k - 1]);
            }
        }
    } else {
        lemma_nat_text_digits(v as nat);
    }
}

proof fn lemma_keyword_chars(word: Seq<char>)
    requires
        word == "forall"@ || word == "exists"@,
    ensures
        word.len() == 6,
        is_ident_start(word[0]),
        !is_ws(word[0]),
        forall|k: int| 0 <= k < 6 ==> is_ident_char(#[trigger] word[k]),
{
    reveal_strlit("forall");
    reveal_strlit("exists");
    assert(is_ident_char(word[0]) && is_ident_char(word[1]) && is_ident_char(word[2]));
    assert(is_ident_char(word[3]) && is_ident_char(word[4]) && is_ident_char(word[5]));
}

/// After the lead, the keyword: where it ends and what follows.
proof fn lemma_head_keyword(s: Seq<char>, i: int, lead: Seq<char>, word: Seq<char>, t1: Seq<char>)
    requires
        0 <= i <= s.len(),
        lead == ""@ || lead == " "@,
        word == "forall"@ || word == "exists"@,
        t1.len() > 0,
        t1[0] == ' ',
        s.subrange(i, s.len() as int) == lead + (word + t1),
    ensures
        ws_end(s, i) == i + lead.len(),
        word_end(s, i + lead.len()) == i + lead.len() + 6,
        s.subrange(i + lead.len(), i + lead.len() + 6) == word,
        s.subrange(i + lead.len() + 6, s.len() as int) == t1,
{
    reveal_strlit("");
    reveal_strlit(" ");
    lemma_keyword_chars(word);
    let a = i + lead.len();
    lemma_peel(s, i, lead, word + t1);
    lemma_peel(s, a, word, t1);
    assert(t1 =~= t1.take(1) + t1.skip(1));
    lemma_peel(s, a + 6, t1.take(1), t1.skip(1));
    assert(s[a] == word[0]);
    if lead.len() == 1 {
        assert(s[i] == lead[0]);
        assert(ws_end(s, i + 1) == i + 1);
    }
    assert forall|k: int| a + 1 <= k < a + 6 implies is_ident_char(#[trigger] s[k]) by {
        assert(s[a + (k - a)] == word[k - a]);
    }
    assert(s[a + 6] == t1.take(1)[0]);
    lemma_ident_run(s, a + 1, 5);
    assert(s.subrange(a, a + 6) =~= word) by {
        assert forall|k: int| 0 <= k < 6 implies s.subrange(a, a + 6)[k] == word[k] by {
            assert(s[a + k] == word[k]);
        }
    }
}

/// After the keyword: a space, the bound name, and what follows.
proof fn lemma_head_name(s: Seq<char>, b: int, var: Seq<char>, t3: Seq<char>)
    requires
        0 <= b <= s.len(),
        ident_shaped(var),
        t3.len() > 0,
        t3[0] == ' ',
        s.subrange(b, s.len() as int) == " "@ + (var + t3),
    ensures
        ws_end(s, b) == b + 1,
        word_end(s, b + 1) == b + 1 + var.len(),
        s.subrange(b + 1, b + 1 + var.len()) == var,
        s.subrange(b + 1 + var.len(), s.len() as int) == t3,
{
    reveal_strlit(" ");
    let v0 = b + 1;
    let v1 = v0 + var.len();
    lemma_peel(s, b, " "@, var + t3);
    lemma_peel(s, v0, var, t3);
    assert(t3 =~= t3.take(1) + t3.skip(1));
    lemma_peel(s, v1, t3.take(1), t3.skip(1));
    assert(s[b] == " "@[0]);
    assert(s[v0] == var[0]);
    assert(ws_end(s, v0) == v0);
    assert forall|k: int| v0 + 1 <= k < v1 implies is_ident_char(#[trigger] s[k]) by {
        assert(s[v0 + (k - v0)] == var[k - v0]);
    }
    assert(s[v1] == t3.take(1)[0]);
    lemma_ident_run(s, v0 + 1, var.len() - 1);
    assert(s.subrange(v0, v1) =~= var) by {
        assert forall|k: int| 0 <= k < var.len() implies s.subrange(v0, v1)[k] == var[k] by {
            assert(s[v0 + k] == var[k]);
        }
    }
}

/// After the bound name: ` in [` and what follows.
proof fn lemma_head_in(s: Seq<char>, v1: int, t4: Seq<char>)
    requires
        0 <= v1 <= s.len(),
        s.subrange(v1, s.len() as int) == " in ["@ + t4,
    ensures
        ws_end(s, v1) == v1 + 1,
        word_end(s, v1 + 1) == v1 + 3,
        s.subrange(v1 + 1, v1 + 3) == "in"@,
        ws_end(s, v1 + 3) == v1 + 4,
        v1 + 4 < s.len(),
        s[v1 + 4] == '[',
        s.subrange(v1 + 5, s.len() as int) == t4,
{
    reveal_strlit(" in [");
    reveal_strlit("in");
    lemma_peel(s, v1, " in ["@, t4);
    assert(s[v1] == " in ["@[0]);
    assert(s[v1 + 1] == " in ["@[1]);
    assert(s[v1 + 2] == " in ["@[2]);
    assert(s[v1 + 3] == " in ["@[3]);
    assert(s[v1 + 4] == " in ["@[4]);
    assert(ws_end(s, v1 + 1) == v1 + 1);
    assert(ident_end(s, v1 + 3) == v1 + 3);
    assert(ident_end(s, v1 + 2) == v1 + 3);
    assert(ws_end(s, v1 + 4) == v1 + 4);
    assert(s.subrange(v1 + 1, v1 + 3) =~= "in"@);
}

/// After `[`: the two endpoints, `..` between them, `] .`, and the body.
proof fn lemma_head_range(s: Seq<char>, o: int, lo: i64, hi: i64, rest: Seq<char>)
    requires
        0 <= o < s.len(),
        s.subrange(o + 1, s.len() as int) == spec_int_text(lo as int) + (".."@ + (spec_int_text(hi as int) + (
        "] ."@ + (" "@ + rest)))),
    ensures
        ({
            let lo_t = spec_int_text(lo as int);
            let hi_t = spec_int_text(hi as int);
            let d = o + 1 + lo_t.len();
            let c = d + 2 + hi_t.len();
            &&& c + 2 < s.len()
            &&& find_char(s, o + 1, ']') == c
            &&& find_dots(s, o + 1, c) == d
            &&& upper_start(s, d, c) == d + 2
            &&& s.subrange(o + 1, d) == lo_t
            &&& s.subrange(d + 2, c) == hi_t
            &&& ws_end(s, c + 1) == c + 2
            &&& s[c + 2] == '.'
            &&& s.subrange(c + 3, s.len() as int) == " "@ + rest
        }),
{
    reveal_strlit("..");
    reveal_strlit("] .");
    let lo_t = spec_int_text(lo as int);
    let hi_t = spec_int_text(hi as int);
    lemma_int_text_shape(lo as int);
    lemma_int_text_shape(hi as int);
    let t8 = " "@ + rest;
    let t7 = "] ."@ + t8;
    let t6 = hi_t + t7;
    let t5 = ".."@ + t6;
    let d = o + 1 + lo_t.len();
    let c = d + 2 + hi_t.len();
    lemma_peel(s, o + 1, lo_t, t5);
    lemma_peel(s, d, ".."@, t6);
    lemma_peel(s, d + 2, hi_t, t7);
    lemma_peel(s, c, "] ."@, t8);
    assert(s[d] == ".."@[0]);
    assert(s[d + 1] == ".."@[1]);
    assert(s[c] == "] ."@[0]);
    assert(s[c + 1] == "] ."@[1]);
    assert(s[c + 2] == "] ."@[2]);
    assert(s[d + 2] == hi_t[0]);
    assert forall|k: int| o + 1 <= k < c implies #[trigger] s[k] != ']' by {
        if k < d {
            assert(s[o + 1 + (k - o - 1)] == lo_t[k - o - 1]);
        } else if k < d + 2 {
        } else {
            assert(s[d + 2 + (k - d - 2)] == hi_t[k - d - 2]);
        }
    }
    lemma_find_char_run(s, o + 1, c - o - 1, ']');
    assert forall|k: int| o + 1 <= k < d implies #[trigger] s[k] != '.' by {
        assert(s[o + 1 + (k - o - 1)] == lo_t[k - o - 1]);
    }
    lemma_find_dots_run(s, o + 1, lo_t.len() as int, c);
    assert(s.subrange(o + 1, d) =~= lo_t) by {
        assert forall|k: int| 0 <= k < lo_t.len() implies s.subrange(o + 1, d)[k] == lo_t[k] by {
            assert(s[o + 1 + k] == lo_t[k]);
        }
    }
    assert(s.subrange(d + 2, c) =~= hi_t) by {
        assert forall|k: int| 0 <= k < hi_t.len() implies s.subrange(d + 2, c)[k] == hi_t[k] by {
            assert(s[d + 2 + k] == hi_t[k]);
        }
    }
    assert(ws_end(s, c + 2) == c + 2);
}

/// The head of a rendered quantifier reads back: the keyword, the bound
/// name and both endpoints, with the body starting right after the `.`.
#[verifier::rlimit(40)]
proof fn lemma_head_reads_back(
    s: Seq<char>,
    i: int,
    lead: Seq<char>,
    word: Seq<char>,
    var: Seq<char>,
    lo: i64,
    hi: i64,
    rest: Seq<char>,
)
    requires
        0 <= i <= s.len(),
        lead == ""@ || lead == " "@,
        word == "forall"@ || word == "exists"@,
        s.subrange(i, s.len() as int) == lead + (word + " "@ + var + " in ["@ + spec_int_text(lo as int) + ".."@
            + spec_int_text(hi as int) + "] ."@) + (" "@ + rest),
        ident_shaped(var),
        is_binder_name(var),
        endpoint(spec_int_text(lo as int)) == Some(lo),
        endpoint(spec_int_text(hi as int)) == Some(hi),
    ensures
        ws_end(s, i) == i + lead.len(),
        s.subrange(ws_end(s, i), word_end(s, ws_end(s, i))) == word,
        spec_quant_head(s, word_end(s, ws_end(s, i))) matches Some(h) && h.var == var && h.lo == lo && h.hi
            == hi && s.subrange(h.body_at, s.len() as int) == " "@ + rest,
{
    reveal_strlit(" ");
    reveal_strlit(" in [");
    let lo_t = spec_int_text(lo as int);
    let hi_t = spec_int_text(hi as int);
    let t8 = " "@ + rest;
    let t7 = "] ."@ + t8;
    let t6 = hi_t + t7;
    let t5 = ".."@ + t6;
    let t4 = lo_t + t5;
    let t3 = " in ["@ + t4;
    let t2 = var + t3;
    let t1 = " "@ + t2;
    let head = word + " "@ + var + " in ["@ + lo_t + ".."@ + hi_t + "] ."@;
    assert(lead + head + t8 =~= lead + (word + t1));
    let a = i + lead.len();
    let b = a + 6;
    lemma_head_keyword(s, i, lead, word, t1);
    lemma_head_name(s, b, var, t3);
    let v1 = b + 1 + var.len();
    lemma_head_in(s, v1, t4);
    let o = v1 + 4;
    lemma_head_range(s, o, lo, hi, rest);
}

proof fn lemma_parse_at_rendered(s: Seq<char>, i: int, lead: Seq<char>, p: PredicateV)
    requires
        0 <= i <= s.len(),
        lead == ""@ || lead == " "@,
        s.subrange(i, s.len() as int) == lead + spec_predicate_text(p),
        reads_back(p, lead),
    ensures
        spec_parse_at(s, i) == Some(p),
    decreases p,
{
    match p {
        PredicateV::Expr(e) => {
            let t = s.subrange(i, s.len() as int);
            lemma_ws_end(s, i);
            lemma_ws_end_shift(s, i, i);
            lemma_ws_end(t, 0);
            let a = ws_end(s, i);
            lemma_word_end_shift(s, i, a);
            lemma_word_end(t, a - i);
            lemma_word_end(s, a);
            let b = word_end(s, a);
            assert(s.subrange(a, b) =~= t.subrange(a - i, b - i));
        },
        PredicateV::Forall { var, lo, hi, body } => {
            reveal_strlit("forall ");
            reveal_strlit("forall");
            reveal_strlit(" ");
            let rest = spec_predicate_text(*body);
            assert(lead + spec_predicate_text(p) =~= lead + ("forall"@ + " "@ + var + " in ["@ + spec_int_text(
                lo as int,
            ) + ".."@ + spec_int_text(hi as int) + "] ."@) + (" "@ + rest)) by {
                reveal_strlit("] . ");
                reveal_strlit("] .");
            }
            lemma_head_reads_back(s, i, lead, "forall"@, var, lo, hi, rest);
            let h = spec_quant_head(s, word_end(s, ws_end(s, i))).unwrap();
            lemma_quant_head_advances(s, word_end(s, ws_end(s, i)));
            lemma_parse_at_rendered(s, h.body_at, " "@, *body);
        },
        PredicateV::Exists { var, lo, hi, body } => {
            reveal_strlit("exists ");
            reveal_strlit("exists");
            reveal_strlit("forall");
            reveal_strlit(" ");
            let rest = spec_predicate_text(*body);
            assert(lead + spec_predicate_text(p) =~= lead + ("exists"@ + " "@ + var + " in ["@ + spec_int_text(
                lo as int,
            ) + ".."@ + spec_int_text(hi as int) + "] ."@) + (" "@ + rest)) by {
                reveal_strlit("] . ");
                reveal_strlit("] .");
            }
            lemma_head_reads_back(s, i, lead, "exists"@, var, lo, hi, rest);
            assert("exists"@[0] != "forall"@[0]);
            assert("exists"@ != "forall"@);
            let h = spec_quant_head(s, word_end(s, ws_end(s, i))).unwrap();
            lemma_quant_head_advances(s, word_end(s, ws_end(s, i)));
            lemma_parse_at_rendered(s, h.body_at, " "@, *body);
        },
    }
}

/// Rendering reads back: a predicate's rendered text parses to the same
/// predicate, whenever the expression reader reads its parts back as they
/// are written (each bound name an ASCII identifier read as a bare
/// variable, each endpoint read as its integer, the body expression read
/// as itself and not opening with `forall` or `exists`).
pub proof fn lemma_render_reads_back(p: PredicateV)
    requires
        reads_back(p, ""@),
    ensures
        spec_parse_predicate(spec_predicate_text(p)) == Some(p),
{
    let s = spec_predicate_text(p);
    assert(s.subrange(0, s.len() as int) =~= ""@ + s) by {
        reveal_strlit("");
    }
    lemma_parse_at_rendered(s, 0, ""@, p);
}

} // verus!
