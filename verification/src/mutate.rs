//! Mutants of a decision: one `→true` and one `→false` per leaf
//! condition, and one operator flip (`&&`↔`||`) per join; and applying
//! one to the source text.

use vstd::prelude::*;

use crate::decision::{Decision, DecisionOp};
use crate::obligation::utf8;
use crate::predicate::text_chars;
use crate::text::{int_text_into, push_str, spec_int_text};

verus! {

/// One source edit: replace the bytes at `range` (byte offsets into the
/// source) with `replacement`.
#[derive(Debug)]
pub struct Mutant {
    pub description: String,
    pub range: core::ops::Range<usize>,
    pub replacement: String,
}

/// A mutant as plain values: description, start, end, replacement.
pub open spec fn mutant_view(m: Mutant) -> (Seq<char>, usize, usize, Seq<char>) {
    (m.description@, m.range.start, m.range.end, m.replacement@)
}

pub open spec fn forced_text(truth: bool) -> Seq<char> {
    if truth {
        "true"@
    } else {
        "false"@
    }
}

pub open spec fn condition_description(k: int, truth: bool) -> Seq<char> {
    if truth {
        "condition "@ + spec_int_text(k) + " forced to `true`"@
    } else {
        "condition "@ + spec_int_text(k) + " forced to `false`"@
    }
}

pub open spec fn operator_description(k: int, is_and: bool) -> Seq<char> {
    if is_and {
        "operator "@ + spec_int_text(k) + " flipped from `&&` to `||`"@
    } else {
        "operator "@ + spec_int_text(k) + " flipped from `||` to `&&`"@
    }
}

pub open spec fn flipped_text(is_and: bool) -> Seq<char> {
    if is_and {
        "||"@
    } else {
        "&&"@
    }
}

/// How many mutants a decision has.
pub open spec fn mutant_count(d: Decision) -> nat {
    if d.compiler_void {
        0
    } else {
        2 * d.leaves@.len() + d.ops@.len()
    }
}

/// Mutant `m` of a decision: leaves first, each `→true` then `→false`,
/// then the operator flips, in order.
pub open spec fn spec_mutant(d: Decision, m: int) -> (Seq<char>, usize, usize, Seq<char>) {
    let nl = d.leaves@.len() as int;
    if m < 2 * nl {
        let k = m / 2;
        let truth = m % 2 == 0;
        (condition_description(k, truth), d.leaves@[k].0, d.leaves@[k].1, forced_text(truth))
    } else {
        let k = m - 2 * nl;
        let op = d.ops@[k];
        (operator_description(k, op.is_and), op.start, op.end, flipped_text(op.is_and))
    }
}

fn condition_mutant(k: usize, leaf: (usize, usize), truth: bool) -> (r: Mutant)
    ensures
        mutant_view(r) == (condition_description(k as int, truth), leaf.0, leaf.1, forced_text(truth)),
{
    let mut description = String::new();
    push_str(&mut description, "condition ");
    int_text_into(k as i128, &mut description);
    if truth {
        push_str(&mut description, " forced to `true`");
    } else {
        push_str(&mut description, " forced to `false`");
    }
    assert(description@ =~= condition_description(k as int, truth));
    let replacement = if truth {
        String::from_str("true")
    } else {
        String::from_str("false")
    };
    Mutant { description, range: leaf.0..leaf.1, replacement }
}

fn operator_flip(k: usize, op: &DecisionOp) -> (r: Mutant)
    ensures
        mutant_view(r) == (operator_description(k as int, op.is_and), op.start, op.end, flipped_text(
            op.is_and,
        )),
{
    let mut description = String::new();
    push_str(&mut description, "operator ");
    int_text_into(k as i128, &mut description);
    if op.is_and {
        push_str(&mut description, " flipped from `&&` to `||`");
    } else {
        push_str(&mut description, " flipped from `||` to `&&`");
    }
    assert(description@ =~= operator_description(k as int, op.is_and));
    let replacement = if op.is_and {
        String::from_str("||")
    } else {
        String::from_str("&&")
    };
    Mutant { description, range: op.start..op.end, replacement }
}

/// Every mutant of a decision (none for a compiler-void one): per leaf a
/// `→true` and a `→false` edit of its range, then per operator a flip.
pub fn mutants_for(decision: &Decision) -> (r: Vec<Mutant>)
    ensures
        r@.len() == mutant_count(*decision),
        forall|m: int| 0 <= m < r@.len() ==> mutant_view(#[trigger] r@[m]) == spec_mutant(*decision, m),
{
    let mut out: Vec<Mutant> = Vec::new();
    if decision.compiler_void {
        return out;
    }
    let nl = decision.leaves.len();
    let mut k: usize = 0;
    while k < nl
        invariant
            k <= nl,
            nl == decision.leaves@.len(),
            !decision.compiler_void,
            out@.len() == 2 * k,
            forall|m: int| 0 <= m < out@.len() ==> mutant_view(#[trigger] out@[m]) == spec_mutant(*decision, m),
        decreases nl - k,
    {
        let leaf = decision.leaves[k];
        out.push(condition_mutant(k, leaf, true));
        out.push(condition_mutant(k, leaf, false));
        proof {
            assert((2 * k) / 2 == k as int);
            assert((2 * k + 1) / 2 == k as int);
            assert((2 * k) % 2 == 0);
            assert((2 * k + 1) % 2 == 1);
        }
        k = k + 1;
    }
    let mut j: usize = 0;
    while j < decision.ops.len()
        invariant
            j <= decision.ops@.len(),
            nl == decision.leaves@.len(),
            !decision.compiler_void,
            out@.len() == 2 * nl + j,
            forall|m: int| 0 <= m < out@.len() ==> mutant_view(#[trigger] out@[m]) == spec_mutant(*decision, m),
        decreases decision.ops@.len() - j,
    {
        out.push(operator_flip(j, &decision.ops[j]));
        j = j + 1;
    }
    out
}

// ── Applying a mutant ──────────────────────────────────────────────────────

/// The number of UTF-8 bytes of `cs`.
pub open spec fn byte_len(cs: Seq<char>) -> nat
    decreases cs.len(),
{
    if cs.len() == 0 {
        0
    } else {
        byte_len(cs.drop_last()) + utf8(cs.last()).len()
    }
}

/// Byte offset `b` of the text `cs` falls between two characters.
pub open spec fn is_boundary(cs: Seq<char>, b: int) -> bool {
    exists|i: int| 0 <= i <= cs.len() && byte_len(cs.take(i)) == b
}

/// The number of characters before byte offset `b`.
pub open spec fn char_index(cs: Seq<char>, b: int) -> int {
    choose|i: int| 0 <= i <= cs.len() && byte_len(cs.take(i)) == b
}

proof fn lemma_byte_len_grows(cs: Seq<char>, i: int, j: int)
    requires
        0 <= i < j <= cs.len(),
    ensures
        byte_len(cs.take(i)) < byte_len(cs.take(j)),
    decreases j - i,
{
    assert(cs.take(j).drop_last() =~= cs.take(j - 1));
    assert(utf8(cs.take(j).last()).len() >= 1);
    if i < j - 1 {
        lemma_byte_len_grows(cs, i, j - 1);
    }
}

fn char_len(c: char) -> (r: usize)
    ensures
        r == utf8(c).len(),
{
    let v = c as u32;
    if v < 0x80 {
        1
    } else if v < 0x800 {
        2
    } else if v < 0x10000 {
        3
    } else {
        4
    }
}

/// The character index at byte offset `b` of `s`.
fn index_at_byte(s: &Vec<char>, b: usize) -> (r: usize)
    requires
        is_boundary(s@, b as int),
    ensures
        r <= s.len(),
        r as int == char_index(s@, b as int),
{
    let ghost w = choose|i: int| 0 <= i <= s@.len() && byte_len(s@.take(i)) == b;
    let mut i: usize = 0;
    let mut acc: usize = 0;
    assert(s@.take(0) =~= Seq::<char>::empty());
    while acc < b
        invariant
            0 <= w <= s@.len(),
            byte_len(s@.take(w)) == b,
            i <= w,
            acc as int == byte_len(s@.take(i as int)),
            acc <= b,
        decreases b - acc,
    {
        proof {
            if i == w {
                assert(false);
            }
            assert(s@.take(i + 1).drop_last() =~= s@.take(i as int));
            assert(s@.take(i + 1).last() == s@[i as int]);
            if i + 1 < w {
                lemma_byte_len_grows(s@, i + 1, w);
            }
        }
        assert(i < w);
        assert(w <= s.len());
        acc = acc + char_len(s[i]);
        i = i + 1;
    }
    proof {
        if i < w {
            lemma_byte_len_grows(s@, i as int, w);
        }
        let c = char_index(s@, b as int);
        if c < i {
            lemma_byte_len_grows(s@, c, i as int);
        } else if c > i {
            lemma_byte_len_grows(s@, i as int, c);
        }
    }
    i
}

/// The character index at byte offset `b` of `s`, when `b` falls between
/// two characters.
pub(crate) fn boundary_index(s: &Vec<char>, b: usize) -> (r: Option<usize>)
    ensures
        match r {
            Some(i) => is_boundary(s@, b as int) && i as int == char_index(s@, b as int) && i <= s.len(),
            None => !is_boundary(s@, b as int),
        },
{
    let mut i: usize = 0;
    let mut acc: usize = 0;
    assert(s@.take(0) =~= Seq::<char>::empty());
    while acc < b && i < s.len()
        invariant
            i <= s.len(),
            acc as int == byte_len(s@.take(i as int)),
            acc <= b,
        decreases s.len() - i,
    {
        assert(s@.take(i + 1).drop_last() =~= s@.take(i as int));
        assert(s@.take(i + 1).last() == s@[i as int]);
        let c = char_len(s[i]);
        if b - acc < c {
            proof {
                assert forall|j: int| 0 <= j <= s@.len() implies byte_len(#[trigger] s@.take(j)) != b by {
                    if j <= i {
                        if j < i {
                            lemma_byte_len_grows(s@, j, i as int);
                        }
                    } else {
                        if j > i + 1 {
                            lemma_byte_len_grows(s@, i + 1, j);
                        }
                    }
                }
            }
            return None;
        }
        acc = acc + c;
        i = i + 1;
    }
    if acc == b {
        proof {
            let c = char_index(s@, b as int);
            assert(byte_len(s@.take(i as int)) == b);
            if c < i {
                lemma_byte_len_grows(s@, c, i as int);
            } else if c > i {
                lemma_byte_len_grows(s@, i as int, c);
            }
        }
        Some(i)
    } else {
        proof {
            assert(i == s.len());
            assert forall|j: int| 0 <= j <= s@.len() implies byte_len(#[trigger] s@.take(j)) != b by {
                if j < i {
                    lemma_byte_len_grows(s@, j, i as int);
                }
            }
        }
        None
    }
}

/// The text `source` with the bytes of `mutant.range` replaced by its
/// replacement.
pub open spec fn spec_apply(source: Seq<char>, start: int, end: int, replacement: Seq<char>) -> Seq<
    char,
> {
    source.take(char_index(source, start)) + replacement + source.skip(char_index(source, end))
}

proof fn lemma_byte_len_concat(a: Seq<char>, b: Seq<char>)
    ensures
        byte_len(a + b) == byte_len(a) + byte_len(b),
    decreases b.len(),
{
    if b.len() > 0 {
        lemma_byte_len_concat(a, b.drop_last());
        assert((a + b).drop_last() =~= a + b.drop_last());
        assert((a + b).last() == b.last());
    } else {
        assert(a + b =~= a);
    }
}

/// Applying a mutant, counted in bytes: the kept head is exactly the
/// first `start` bytes of `source`, the kept tail exactly its bytes from
/// `end` on, so the result is `source[..start]`, the replacement and
/// `source[end..]`, and is `end - start` bytes shorter than `source` plus
/// the replacement's length.
pub proof fn lemma_apply_bytes(source: Seq<char>, start: int, end: int, replacement: Seq<char>)
    requires
        is_boundary(source, start),
        is_boundary(source, end),
    ensures
        byte_len(source.take(char_index(source, start))) == start,
        byte_len(source.skip(char_index(source, end))) == byte_len(source) - end,
        byte_len(spec_apply(source, start, end, replacement)) == byte_len(source) - (end - start)
            + byte_len(replacement),
{
    let i = char_index(source, start);
    let j = char_index(source, end);
    assert(byte_len(source.take(j)) == end);
    assert(source.take(j) + source.skip(j) =~= source);
    lemma_byte_len_concat(source.take(j), source.skip(j));
    lemma_byte_len_concat(source.take(i), replacement);
    lemma_byte_len_concat(source.take(i) + replacement, source.skip(j));
}

/// Applies `mutant` to `source`: the text before its range, its
/// replacement, and the text after its range. Both ends of the range must
/// fall between characters of `source`.
pub fn apply(source: &str, mutant: &Mutant) -> (r: String)
    requires
        is_boundary(source@, mutant.range.start as int),
        is_boundary(source@, mutant.range.end as int),
    ensures
        r@ == spec_apply(
            source@,
            mutant.range.start as int,
            mutant.range.end as int,
            mutant.replacement@,
        ),
{
    let s = text_chars(source);
    let i = index_at_byte(&s, mutant.range.start);
    let j = index_at_byte(&s, mutant.range.end);
    let mut out = String::from_str(source.substring_char(0, i));
    push_str(&mut out, mutant.replacement.as_str());
    push_str(&mut out, source.substring_char(j, s.len()));
    assert(source@.subrange(0, i as int) =~= source@.take(i as int));
    assert(source@.subrange(j as int, s@.len() as int) =~= source@.skip(j as int));
    out
}

} // verus!
