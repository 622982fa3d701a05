//! Reading line-oriented tool output: splitting into lines, trimming,
//! finding a marker, and reading unsigned decimal numbers, each over the
//! text's characters.

use vstd::prelude::*;

use crate::predicate::{find_char, lemma_find_char, next_char};
use crate::text::{spec_digit, spec_nat_text};

verus! {

/// Unicode `White_Space`, what `char::is_whitespace` tests.
pub open spec fn is_white(c: char) -> bool {
    ('\t' <= c && c <= '\r') || c == ' ' || c == '\u{85}' || c == '\u{a0}' || c == '\u{1680}'
        || ('\u{2000}' <= c && c <= '\u{200a}') || c == '\u{2028}' || c == '\u{2029}' || c
        == '\u{202f}' || c == '\u{205f}' || c == '\u{3000}'
}

pub fn is_white_char(c: char) -> (r: bool)
    ensures
        r == is_white(c),
{
    ('\t' <= c && c <= '\r') || c == ' ' || c == '\u{85}' || c == '\u{a0}' || c == '\u{1680}' || (
    '\u{2000}' <= c && c <= '\u{200a}') || c == '\u{2028}' || c == '\u{2029}' || c == '\u{202f}'
        || c == '\u{205f}' || c == '\u{3000}'
}

pub open spec fn is_digit(c: char) -> bool {
    '0' <= c && c <= '9'
}

// ── Lines ──────────────────────────────────────────────────────────────────

/// `x` without one trailing `\r`.
pub open spec fn strip_cr(x: Seq<char>) -> Seq<char> {
    if x.len() > 0 && x.last() == '\r' {
        x.drop_last()
    } else {
        x
    }
}

/// The lines of `s` from position `i` on: split at each `\n`, a `\r`
/// right before it dropped; a final line ending is optional.
pub open spec fn lines_from(s: Seq<char>, i: int) -> Seq<Seq<char>>
    decreases s.len() - i,
{
    if i < 0 || i >= s.len() {
        Seq::empty()
    } else {
        let j = find_char(s, i, '\n');
        if j < s.len() {
            proof {
                lemma_find_char(s, i, '\n');
            }
            seq![strip_cr(s.subrange(i, j))] + lines_from(s, j + 1)
        } else {
            seq![s.subrange(i, s.len() as int)]
        }
    }
}

/// The lines of `s`, as `str::lines` yields them.
pub open spec fn spec_lines(s: Seq<char>) -> Seq<Seq<char>> {
    lines_from(s, 0)
}

/// Where each line starts and ends in `s` (its end before any `\r\n`).
pub fn line_spans(s: &Vec<char>) -> (r: Vec<(usize, usize)>)
    ensures
        r@.len() == spec_lines(s@).len(),
        forall|k: int|
            0 <= k < r@.len() ==> {
                &&& (#[trigger] r@[k]).0 <= r@[k].1 <= s.len()
                &&& s@.subrange(r@[k].0 as int, r@[k].1 as int) == spec_lines(s@)[k]
            },
{
    let mut out: Vec<(usize, usize)> = Vec::new();
    let mut i: usize = 0;
    let ghost done: Seq<Seq<char>> = Seq::empty();
    while i < s.len()
        invariant
            i <= s.len(),
            done + lines_from(s@, i as int) == spec_lines(s@),
            out@.len() == done.len(),
            forall|k: int|
                0 <= k < out@.len() ==> {
                    &&& (#[trigger] out@[k]).0 <= out@[k].1 <= s.len()
                    &&& s@.subrange(out@[k].0 as int, out@[k].1 as int) == done[k]
                },
        decreases s.len() - i,
    {
        proof {
            lemma_find_char(s@, i as int, '\n');
        }
        let j = next_char(s, i, '\n');
        if j < s.len() {
            let end = if j > i && s[j - 1] == '\r' {
                j - 1
            } else {
                j
            };
            let ghost line = strip_cr(s@.subrange(i as int, j as int));
            assert(s@.subrange(i as int, end as int) =~= line);
            out.push((i, end));
            proof {
                assert(lines_from(s@, i as int) == seq![line] + lines_from(s@, j + 1));
                assert(done + lines_from(s@, i as int) =~= done.push(line) + lines_from(s@, j + 1));
                done = done.push(line);
            }
            i = j + 1;
        } else {
            let ghost line = s@.subrange(i as int, s.len() as int);
            out.push((i, s.len()));
            proof {
                assert(lines_from(s@, i as int) == seq![line]);
                assert(lines_from(s@, s.len() as int) == Seq::<Seq<char>>::empty());
                assert(done + lines_from(s@, i as int) =~= done.push(line) + lines_from(
                    s@,
                    s.len() as int,
                ));
                done = done.push(line);
            }
            i = s.len();
        }
    }
    proof {
        assert(lines_from(s@, i as int) == Seq::<Seq<char>>::empty());
        assert(done =~= spec_lines(s@));
    }
    out
}

// ── Trimming ───────────────────────────────────────────────────────────────

pub open spec fn white_end(s: Seq<char>, i: int) -> int
    decreases s.len() - i,
{
    if 0 <= i < s.len() && is_white(s[i]) {
        white_end(s, i + 1)
    } else {
        i
    }
}

pub open spec fn white_start(s: Seq<char>, j: int) -> int
    decreases j,
{
    if 0 < j <= s.len() && is_white(s[j - 1]) {
        white_start(s, j - 1)
    } else {
        j
    }
}

/// `s` without leading or trailing whitespace.
pub open spec fn spec_trim(s: Seq<char>) -> Seq<char> {
    let a = white_end(s, 0);
    let b = white_start(s, s.len() as int);
    if a < b {
        s.subrange(a, b)
    } else {
        Seq::empty()
    }
}

proof fn lemma_white_end(s: Seq<char>, i: int)
    requires
        0 <= i <= s.len(),
    ensures
        i <= white_end(s, i) <= s.len(),
    decreases s.len() - i,
{
    if i < s.len() && is_white(s[i]) {
        lemma_white_end(s, i + 1);
    }
}

proof fn lemma_white_start(s: Seq<char>, j: int)
    requires
        0 <= j <= s.len(),
    ensures
        0 <= white_start(s, j) <= j,
    decreases j,
{
    if 0 < j && is_white(s[j - 1]) {
        lemma_white_start(s, j - 1);
    }
}

/// The bounds of `s[a..b]` once trimmed (an empty range when nothing is left).
pub fn trim_span(s: &Vec<char>, a: usize, b: usize) -> (r: (usize, usize))
    requires
        a <= b <= s.len(),
    ensures
        r.0 <= r.1 <= s.len(),
        s@.subrange(r.0 as int, r.1 as int) == spec_trim(s@.subrange(a as int, b as int)),
{
    let ghost t = s@.subrange(a as int, b as int);
    let mut i = a;
    while i < b && is_white_char(s[i])
        invariant
            a <= i <= b <= s.len(),
            t == s@.subrange(a as int, b as int),
            white_end(t, 0) == white_end(t, i - a),
        decreases b - i,
    {
        assert(t[i - a] == s@[i as int]);
        i = i + 1;
    }
    let mut j = b;
    while j > i && is_white_char(s[j - 1])
        invariant
            a <= i <= j <= b <= s.len(),
            t == s@.subrange(a as int, b as int),
            white_start(t, t.len() as int) == white_start(t, j - a),
        decreases j,
    {
        assert(t[j - 1 - a] == s@[j - 1]);
        j = j - 1;
    }
    proof {
        let x = i - a;
        let y = j - a;
        if x < t.len() {
            assert(t[x] == s@[i as int]);
        }
        assert(white_end(t, x) == x);
        lemma_white_start(t, y);
        if j > i {
            assert(t[y - 1] == s@[j - 1]);
            assert(white_start(t, y) == y);
            assert(s@.subrange(i as int, j as int) =~= t.subrange(x, y));
        } else {
            assert(white_start(t, y) <= y);
        }
    }
    (i, j)
}

// ── Markers ────────────────────────────────────────────────────────────────

/// `pat` occurs in `s` at position `i`.
pub open spec fn occurs_at(s: Seq<char>, i: int, pat: Seq<char>) -> bool {
    0 <= i && i + pat.len() <= s.len() && s.subrange(i, i + pat.len()) == pat
}

/// The first occurrence of `pat` at or after `i`.
pub open spec fn find_from(s: Seq<char>, pat: Seq<char>, i: int) -> Option<int>
    decreases s.len() + 1 - i,
{
    if i < 0 || i + pat.len() > s.len() {
        None
    } else if occurs_at(s, i, pat) {
        Some(i)
    } else {
        find_from(s, pat, i + 1)
    }
}

/// The last occurrence of `pat` at or before `i`.
pub open spec fn rfind_from(s: Seq<char>, pat: Seq<char>, i: int) -> Option<int>
    decreases i + 1,
{
    if i < 0 {
        None
    } else if occurs_at(s, i, pat) {
        Some(i)
    } else {
        rfind_from(s, pat, i - 1)
    }
}

/// The last occurrence of `pat` in `s`.
pub open spec fn spec_rfind(s: Seq<char>, pat: Seq<char>) -> Option<int> {
    rfind_from(s, pat, s.len() - pat.len())
}

pub proof fn lemma_rfind_from(s: Seq<char>, pat: Seq<char>, i: int)
    ensures
        rfind_from(s, pat, i) matches Some(k) ==> occurs_at(s, k, pat) && k <= i,
    decreases i + 1,
{
    if i >= 0 && !occurs_at(s, i, pat) {
        lemma_rfind_from(s, pat, i - 1);
    }
}

pub proof fn lemma_find_from(s: Seq<char>, pat: Seq<char>, i: int)
    ensures
        find_from(s, pat, i) matches Some(k) ==> occurs_at(s, k, pat) && k >= i,
    decreases s.len() + 1 - i,
{
    if i >= 0 && i + pat.len() <= s.len() && !occurs_at(s, i, pat) {
        lemma_find_from(s, pat, i + 1);
    }
}

/// The last occurrence at or before `i` is `k` when `pat` occurs at `k`
/// and nowhere after it up to `i`.
pub proof fn lemma_rfind_at(s: Seq<char>, pat: Seq<char>, i: int, k: int)
    requires
        0 <= k <= i,
        occurs_at(s, k, pat),
        forall|m: int| k < m <= i ==> !occurs_at(s, m, pat),
    ensures
        rfind_from(s, pat, i) == Some(k),
    decreases i - k,
{
    if i > k {
        lemma_rfind_at(s, pat, i - 1, k);
    }
}

/// The first occurrence at or after `i` is `k` when `pat` occurs at `k`
/// and nowhere before it from `i` on.
pub proof fn lemma_find_at(s: Seq<char>, pat: Seq<char>, i: int, k: int)
    requires
        0 <= i <= k,
        occurs_at(s, k, pat),
        forall|m: int| i <= m < k ==> !occurs_at(s, m, pat),
    ensures
        find_from(s, pat, i) == Some(k),
    decreases k - i,
{
    if i < k {
        assert(!occurs_at(s, i, pat));
        lemma_find_at(s, pat, i + 1, k);
    }
}

/// A one-character pattern occurs exactly where that character stands.
pub proof fn lemma_occurs_char(s: Seq<char>, m: int, c: char)
    ensures
        occurs_at(s, m, seq![c]) <==> (0 <= m < s.len() && s[m] == c),
{
    if 0 <= m < s.len() && s[m] == c {
        assert(s.subrange(m, m + 1) =~= seq![c]);
    }
    if occurs_at(s, m, seq![c]) {
        assert(s.subrange(m, m + 1)[0] == s[m]);
    }
}

/// Whether `pat` occurs in `s[lo..hi]` at position `i`.
pub fn occurs_at_exec(s: &Vec<char>, i: usize, hi: usize, pat: &str) -> (r: bool)
    requires
        i <= hi <= s.len(),
    ensures
        r == occurs_at(s@.subrange(0, hi as int), i as int, pat@),
{
    let n = pat.unicode_len();
    if n > hi - i {
        return false;
    }
    let mut k: usize = 0;
    while k < n
        invariant
            k <= n,
            n == pat@.len(),
            i + n <= hi <= s.len(),
            forall|j: int| 0 <= j < k ==> s@[i + j] == pat@[j],
        decreases n - k,
    {
        if s[i + k] != pat.get_char(k) {
            assert(s@.subrange(0, hi as int).subrange(i as int, i + n)[k as int] != pat@[k as int]);
            return false;
        }
        k = k + 1;
    }
    assert(s@.subrange(0, hi as int).subrange(i as int, i + n) =~= pat@);
    true
}

/// The first occurrence of `pat` in `s[lo..hi]`, as a position in `s`.
pub fn find_in(s: &Vec<char>, lo: usize, hi: usize, pat: &str) -> (r: Option<usize>)
    requires
        lo <= hi <= s.len(),
    ensures
        match r {
            Some(i) => find_from(s@.subrange(lo as int, hi as int), pat@, 0) == Some(i - lo) && lo
                <= i,
            None => find_from(s@.subrange(lo as int, hi as int), pat@, 0) is None,
        },
{
    let ghost t = s@.subrange(lo as int, hi as int);
    let n = pat.unicode_len();
    let mut i = lo;
    loop
        invariant
            lo <= i <= hi,
            n == pat@.len(),
            hi <= s.len(),
            t == s@.subrange(lo as int, hi as int),
            find_from(t, pat@, 0) == find_from(t, pat@, i - lo),
        decreases hi - i,
    {
        if hi - i < n {
            return None;
        }
        let hit = occurs_at_exec(s, i, hi, pat);
        proof {
            assert(s@.subrange(0, hi as int).subrange(i as int, i + n) =~= t.subrange(
                i - lo,
                i - lo + n,
            ));
        }
        if hit {
            return Some(i);
        }
        if i == hi {
            assert(find_from(t, pat@, i - lo + 1) is None);
            return None;
        }
        i = i + 1;
    }
}

/// The last occurrence of `pat` in `s[lo..hi]`, as a position in `s`.
pub fn rfind_in(s: &Vec<char>, lo: usize, hi: usize, pat: &str) -> (r: Option<usize>)
    requires
        lo <= hi <= s.len(),
    ensures
        match r {
            Some(i) => spec_rfind(s@.subrange(lo as int, hi as int), pat@) == Some(i - lo) && lo
                <= i,
            None => spec_rfind(s@.subrange(lo as int, hi as int), pat@) is None,
        },
{
    let ghost t = s@.subrange(lo as int, hi as int);
    let n = pat.unicode_len();
    if n > hi - lo {
        assert(rfind_from(t, pat@, t.len() - pat@.len()) is None);
        return None;
    }
    let mut i = hi - n;
    loop
        invariant
            lo <= i <= hi - n,
            n == pat@.len(),
            n <= hi - lo,
            hi <= s.len(),
            t == s@.subrange(lo as int, hi as int),
            spec_rfind(t, pat@) == rfind_from(t, pat@, i - lo),
        decreases i,
    {
        let hit = occurs_at_exec(s, i, hi, pat);
        proof {
            assert(s@.subrange(0, hi as int).subrange(i as int, i + n) =~= t.subrange(
                i - lo,
                i - lo + n,
            ));
        }
        if hit {
            return Some(i);
        }
        if i == lo {
            assert(rfind_from(t, pat@, -1) is None);
            return None;
        }
        i = i - 1;
    }
}

// ── Unsigned decimal numbers ───────────────────────────────────────────────

/// The value of a run of decimal digits.
pub open spec fn digits_value(d: Seq<char>) -> nat
    decreases d.len(),
{
    if d.len() == 0 {
        0
    } else {
        10 * digits_value(d.drop_last()) + (d.last() as nat - '0' as nat) as nat
    }
}

pub open spec fn all_digits(d: Seq<char>) -> bool {
    forall|i: int| 0 <= i < d.len() ==> is_digit(#[trigger] d[i])
}

proof fn lemma_digit(d: int)
    requires
        0 <= d < 10,
    ensures
        is_digit(spec_digit(d)),
        spec_digit(d) as nat - '0' as nat == d,
{
}

/// The decimal text of `n` is a non-empty run of digits whose value is
/// `n`.
pub proof fn lemma_nat_text_digits(n: nat)
    ensures
        spec_nat_text(n).len() >= 1,
        all_digits(spec_nat_text(n)),
        digits_value(spec_nat_text(n)) == n,
    decreases n,
{
    let t = spec_nat_text(n);
    if n < 10 {
        lemma_digit(n as int);
        assert(t.drop_last() =~= Seq::<char>::empty());
        assert(digits_value(t) == 10 * digits_value(t.drop_last()) + (t.last() as nat - '0' as nat) as nat);
    } else {
        lemma_nat_text_digits(n / 10);
        lemma_digit((n % 10) as int);
        assert(t.drop_last() =~= spec_nat_text(n / 10));
        assert(t.last() == spec_digit((n % 10) as int));
        assert(n == 10 * (n / 10) + n % 10);
        assert(digits_value(t) == 10 * digits_value(t.drop_last()) + (t.last() as nat - '0' as nat) as nat);
        assert forall|i: int| 0 <= i < t.len() implies is_digit(#[trigger] t[i]) by {
            if i < t.len() - 1 {
                assert(t[i] == spec_nat_text(n / 10)[i]);
            }
        }
    }
}

/// Decimal texts of different numbers differ.
pub proof fn lemma_nat_text_injective(a: nat, b: nat)
    ensures
        spec_nat_text(a) == spec_nat_text(b) ==> a == b,
{
    lemma_nat_text_digits(a);
    lemma_nat_text_digits(b);
}

/// What `str::parse::<u64>` gives: an optional `+`, then one or more
/// decimal digits, the value within `u64`.
pub open spec fn spec_parse_u64(s: Seq<char>) -> Option<u64> {
    let d = if s.len() > 0 && s[0] == '+' {
        s.skip(1)
    } else {
        s
    };
    if d.len() > 0 && all_digits(d) && digits_value(d) <= u64::MAX {
        Some(digits_value(d) as u64)
    } else {
        None
    }
}

/// The value of the digits `s[a..b]`, `None` once it passes `limit`.
pub fn read_digits(s: &Vec<char>, a: usize, b: usize, limit: u64) -> (r: Option<u64>)
    requires
        a <= b <= s.len(),
        all_digits(s@.subrange(a as int, b as int)),
    ensures
        match r {
            Some(v) => v as nat == digits_value(s@.subrange(a as int, b as int)) && v <= limit,
            None => digits_value(s@.subrange(a as int, b as int)) > limit,
        },
{
    let ghost t = s@.subrange(a as int, b as int);
    let mut v: u128 = 0;
    let mut i = a;
    while i < b
        invariant
            a <= i <= b <= s.len(),
            t == s@.subrange(a as int, b as int),
            all_digits(t),
            v as nat == digits_value(t.subrange(0, i - a)),
            v <= limit,
        decreases b - i,
    {
        assert(t.subrange(0, i - a + 1).drop_last() =~= t.subrange(0, i - a));
        assert(t[i - a] == s@[i as int]);
        assert(is_digit(t[i - a]));
        let d = (s[i] as u32 - '0' as u32) as u128;
        v = v * 10 + d;
        if v > limit as u128 {
            proof {
                lemma_digits_prefix_grows(t, i - a + 1);
            }
            return None;
        }
        i = i + 1;
    }
    assert(t.subrange(0, b - a) =~= t);
    Some(v as u64)
}

/// The value of a digit run only grows as the run gets longer.
proof fn lemma_digits_prefix_grows(t: Seq<char>, n: int)
    requires
        0 <= n <= t.len(),
        all_digits(t),
    ensures
        digits_value(t) >= digits_value(t.subrange(0, n)),
    decreases t.len() - n,
{
    if n < t.len() {
        lemma_digits_prefix_grows(t, n + 1);
        assert(t.subrange(0, n + 1).drop_last() =~= t.subrange(0, n));
        assert(is_digit(t[n]));
        assert(t.subrange(0, n + 1).last() == t[n]);
    } else {
        assert(t.subrange(0, n) =~= t);
    }
}

/// Reads `s[a..b]` as `str::parse::<u64>` would.
pub fn parse_u64_span(s: &Vec<char>, a: usize, b: usize) -> (r: Option<u64>)
    requires
        a <= b <= s.len(),
    ensures
        r == spec_parse_u64(s@.subrange(a as int, b as int)),
{
    let ghost t = s@.subrange(a as int, b as int);
    let start = if a < b && s[a] == '+' {
        a + 1
    } else {
        a
    };
    let ghost d = s@.subrange(start as int, b as int);
    proof {
        if a < b && s@[a as int] == '+' {
            assert(t[0] == s@[a as int]);
            assert(t.skip(1) =~= d);
        } else {
            assert(t =~= d);
        }
    }
    let ghost answer = if d.len() > 0 && all_digits(d) && digits_value(d) <= u64::MAX {
        Some(digits_value(d) as u64)
    } else {
        None
    };
    assert(spec_parse_u64(t) == answer);
    if start == b {
        return None;
    }
    let mut k = start;
    while k < b
        invariant
            start <= k <= b <= s.len(),
            d == s@.subrange(start as int, b as int),
            t == s@.subrange(a as int, b as int),
            spec_parse_u64(t) == answer,
            answer == (if d.len() > 0 && all_digits(d) && digits_value(d) <= u64::MAX {
                Some(digits_value(d) as u64)
            } else {
                None
            }),
            forall|j: int| 0 <= j < k - start ==> is_digit(#[trigger] d[j]),
        decreases b - k,
    {
        if !('0' <= s[k] && s[k] <= '9') {
            assert(d[k - start] == s@[k as int]);
            return None;
        }
        assert(d[k - start] == s@[k as int]);
        k = k + 1;
    }
    read_digits(s, start, b, u64::MAX)
}

} // verus!
