//! Harvesting tagged test outcomes: a test whose name carries
//! `mcdc__<obligation-id>__v<N>` declares that it exercises vector `N` of
//! that obligation; an obligation is discharged once at least
//! `vectors_required` distinct vectors each have a passing tagged test.

use vstd::prelude::*;

use crate::lines::{
    all_digits, digits_value, find_from, find_in, is_digit, lemma_find_at, lemma_find_from,
    lemma_nat_text_digits, lemma_rfind_at, lemma_rfind_from, line_spans, occurs_at, read_digits,
    rfind_in, spec_lines, spec_rfind,
};
use crate::text::spec_nat_text;
use crate::obligation::ObligationRecord;
use crate::predicate::text_chars;
use crate::test_output::{read_test_line, test_line};

verus! {

/// One tagged test's outcome.
#[derive(Debug, Clone, PartialEq, Eq)]
pub struct TaggedTest {
    pub name: String,
    pub vector: u32,
    pub passed: bool,
}

/// A tagged test as plain values: name, vector, passed.
pub open spec fn tagged_view(t: TaggedTest) -> (Seq<char>, u32, bool) {
    (t.name@, t.vector, t.passed)
}

/// One obligation's harvest: how many distinct vectors have a passing
/// tagged test, whether that discharges it, and the tagged tests seen.
#[derive(Debug, Clone)]
pub struct DischargeRecord {
    pub id: String,
    pub file: String,
    pub line: usize,
    pub vectors_required: usize,
    pub compiler_void: bool,
    pub vectors_discharged: usize,
    pub discharged: bool,
    pub tagged_tests: Vec<TaggedTest>,
}

/// Running the test suite failed.
#[derive(Debug, Clone)]
pub enum HarvestError {
    /// The test runner could not be started; the message says why.
    Spawn(String),
}

// ── Tags ───────────────────────────────────────────────────────────────────

/// Where the run of digits starting at `i` ends.
pub open spec fn digits_end(s: Seq<char>, i: int) -> int
    decreases s.len() - i,
{
    if 0 <= i < s.len() && is_digit(s[i]) {
        digits_end(s, i + 1)
    } else {
        i
    }
}

/// The id and the vector digits of a tagged name: after the first
/// `mcdc__`, the id runs to the last `__v`, and the digits that follow are
/// the vector; `None` when there is no tag or either part is empty.
pub open spec fn tag_parts(name: Seq<char>) -> Option<(Seq<char>, Seq<char>)> {
    let head = "mcdc__"@;
    let marker = "__v"@;
    match find_from(name, head, 0) {
        Some(f) => {
            let rest = name.skip(f + head.len());
            match spec_rfind(rest, marker) {
                Some(m) => {
                    let id = rest.take(m);
                    let after = rest.skip(m + marker.len());
                    let digits = after.take(digits_end(after, 0));
                    if id.len() == 0 || digits.len() == 0 {
                        None
                    } else {
                        Some((id, digits))
                    }
                },
                None => None,
            }
        },
        None => None,
    }
}

/// The id and vector number of a tagged name; `None` when there is no tag,
/// or when the vector number does not fit a `u32`.
pub open spec fn spec_parse_tag(name: Seq<char>) -> Option<(Seq<char>, u32)> {
    match tag_parts(name) {
        Some((id, d)) => if digits_value(d) <= u32::MAX {
            Some((id, digits_value(d) as u32))
        } else {
            None
        },
        None => None,
    }
}

proof fn lemma_digits_end(s: Seq<char>, i: int)
    requires
        0 <= i <= s.len(),
    ensures
        i <= digits_end(s, i) <= s.len(),
        forall|k: int| i <= k < digits_end(s, i) ==> is_digit(#[trigger] s[k]),
    decreases s.len() - i,
{
    if i < s.len() && is_digit(s[i]) {
        lemma_digits_end(s, i + 1);
    }
}

/// A run of digits followed by text that does not start with a digit
/// ends where the digits do.
proof fn lemma_digits_end_at(t: Seq<char>, post: Seq<char>, i: int)
    requires
        0 <= i <= t.len(),
        all_digits(t),
        post.len() == 0 || !is_digit(post[0]),
    ensures
        digits_end(t + post, i) == t.len(),
    decreases t.len() - i,
{
    let x = t + post;
    if i < t.len() {
        assert(x[i] == t[i]);
        lemma_digits_end_at(t, post, i + 1);
    } else if post.len() > 0 {
        assert(x[i] == post[0]);
    }
}

/// A name tagged `mcdc__<id>__v<N>` reads back as `(id, N)`: whatever
/// comes before the tag (a module path, say) as long as it does not
/// itself start a tag, and whatever description follows the number as
/// long as it does not start with a digit or contain a `v`. The id may
/// itself contain `__v`.
pub proof fn lemma_tag_round_trip(pre: Seq<char>, id: Seq<char>, n: u32, post: Seq<char>)
    requires
        id.len() > 0,
        forall|m: int| 0 <= m < pre.len() ==> !occurs_at(pre + "mcdc__"@, m, "mcdc__"@),
        post.len() == 0 || !is_digit(post[0]),
        forall|k: int| 0 <= k < post.len() ==> post[k] != 'v',
    ensures
        spec_parse_tag(pre + "mcdc__"@ + id + "__v"@ + spec_nat_text(n as nat) + post) == Some((id, n)),
{
    reveal_strlit("mcdc__");
    reveal_strlit("__v");
    let head = "mcdc__"@;
    let marker = "__v"@;
    assert(head =~= seq!['m', 'c', 'd', 'c', '_', '_']);
    assert(marker =~= seq!['_', '_', 'v']);
    let t = spec_nat_text(n as nat);
    lemma_nat_text_digits(n as nat);
    let name = pre + head + id + marker + t + post;
    let pl = pre.len() as int;
    // the first tag starts right after `pre`
    assert(name.subrange(pl, pl + 6) =~= head);
    assert forall|m: int| 0 <= m < pl implies !occurs_at(name, m, head) by {
        assert(!occurs_at(pre + "mcdc__"@, m, "mcdc__"@));
        assert((pre + head).len() == pl + 6);
        assert(name.subrange(m, m + 6) =~= (pre + head).subrange(m, m + 6));
    }
    lemma_find_at(name, head, 0, pl);
    let rest = name.skip(pl + 6);
    assert(rest =~= id + marker + t + post);
    // the last marker is the one after `id`
    let il = id.len() as int;
    assert(rest.subrange(il, il + 3) =~= marker);
    assert forall|m: int| il < m <= rest.len() - 3 implies !occurs_at(rest, m, marker) by {
        if occurs_at(rest, m, marker) {
            assert(rest.subrange(m, m + 3)[2] == rest[m + 2]);
            if m + 2 < il + 3 + t.len() {
                assert(rest[m + 2] == t[m + 2 - il - 3]);
                assert(is_digit(t[m + 2 - il - 3]));
            } else {
                assert(rest[m + 2] == post[m + 2 - il - 3 - t.len()]);
            }
        }
    }
    lemma_rfind_at(rest, marker, rest.len() - 3, il);
    assert(rest.take(il) =~= id);
    let after = rest.skip(il + 3);
    assert(after =~= t + post);
    lemma_digits_end_at(t, post, 0);
    assert(after.take(t.len() as int) =~= t);
}

fn read_tag(s: &Vec<char>, a: usize, b: usize) -> (r: Option<(usize, usize, usize, usize)>)
    requires
        a <= b <= s.len(),
    ensures
        match r {
            Some((x, y, p, q)) => x <= y <= s.len() && p <= q <= s.len() && all_digits(
                s@.subrange(p as int, q as int),
            ) && tag_parts(
                s@.subrange(a as int, b as int),
            ) == Some((s@.subrange(x as int, y as int), s@.subrange(p as int, q as int))),
            None => tag_parts(s@.subrange(a as int, b as int)) is None,
        },
{
    let ghost name = s@.subrange(a as int, b as int);
    let head = "mcdc__";
    let marker = "__v";
    let nh = head.unicode_len();
    let nm = marker.unicode_len();
    let f = match find_in(s, a, b, head) {
        Some(f) => f,
        None => {
            return None;
        },
    };
    proof {
        lemma_find_from(name, head@, 0);
    }
    let start = f + nh;
    let ghost rest = name.skip(f - a + nh);
    assert(rest =~= s@.subrange(start as int, b as int));
    let m = match rfind_in(s, start, b, marker) {
        Some(m) => m,
        None => {
            return None;
        },
    };
    proof {
        lemma_rfind_from(rest, marker@, rest.len() - marker@.len());
    }
    let ghost id = rest.take(m - start);
    assert(id =~= s@.subrange(start as int, m as int));
    let after_start = m + nm;
    let ghost after = rest.skip(m - start + nm);
    assert(after =~= s@.subrange(after_start as int, b as int));
    let mut e = after_start;
    while e < b && '0' <= s[e] && s[e] <= '9'
        invariant
            after_start <= e <= b <= s.len(),
            after == s@.subrange(after_start as int, b as int),
            digits_end(after, 0) == digits_end(after, e - after_start),
            forall|k: int| after_start <= k < e ==> is_digit(#[trigger] s@[k]),
        decreases b - e,
    {
        assert(after[e - after_start] == s@[e as int]);
        e = e + 1;
    }
    proof {
        if e < b {
            assert(after[e - after_start] == s@[e as int]);
        }
        assert(digits_end(after, e - after_start) == e - after_start);
        assert(after.take(e - after_start) =~= s@.subrange(after_start as int, e as int));
        let dd = s@.subrange(after_start as int, e as int);
        assert forall|k: int| 0 <= k < dd.len() implies is_digit(#[trigger] dd[k]) by {
            assert(dd[k] == s@[after_start + k]);
        }
    }
    if m == start || e == after_start {
        return None;
    }
    Some((start, m, after_start, e))
}

/// Reads the tag of a test name: the obligation id and the vector number;
/// `None` when the name carries no tag, or one whose vector number does
/// not fit a `u32`.
pub fn parse_tag(name: &str) -> (r: Option<(String, u32)>)
    ensures
        match r {
            Some((id, v)) => spec_parse_tag(name@) == Some((id@, v)),
            None => spec_parse_tag(name@) is None,
        },
{
    let s = text_chars(name);
    assert(s@.subrange(0, s.len() as int) =~= name@);
    match read_tag(&s, 0, s.len()) {
        Some((x, y, p, q)) => {
            let v = match read_digits(&s, p, q, u32::MAX as u64) {
                Some(v) => v,
                None => {
                    return None;
                },
            };
            let id = name.substring_char(x, y).to_owned();
            Some((id, v as u32))
        },
        None => None,
    }
}

// ── Tagged test lines ──────────────────────────────────────────────────────

/// A test line's tagged outcome: `ok` and `FAILED` lines whose name has a
/// tag, as (id, name, vector, passed).
pub open spec fn tagged_line(line: Seq<char>) -> Option<(Seq<char>, (Seq<char>, u32, bool))> {
    match test_line(line) {
        Some((name, k)) => if k == 2 {
            None
        } else {
            match spec_parse_tag(name) {
                Some((id, v)) => Some((id, (name, v, k == 0))),
                None => None,
            }
        },
        None => None,
    }
}

pub open spec fn tagged_entries(ls: Seq<Seq<char>>) -> Seq<(Seq<char>, (Seq<char>, u32, bool))>
    decreases ls.len(),
{
    if ls.len() == 0 {
        Seq::empty()
    } else {
        let prev = tagged_entries(ls.drop_last());
        match tagged_line(ls.last()) {
            Some(e) => prev.push(e),
            None => prev,
        }
    }
}

/// Every tagged `ok`/`FAILED` test line of a test run's output, in order,
/// with the obligation id its tag names.
pub fn tagged_tests(stdout: &str) -> (r: Vec<(String, TaggedTest)>)
    ensures
        r@.len() == tagged_entries(spec_lines(stdout@)).len(),
        forall|i: int|
            0 <= i < r@.len() ==> (#[trigger] r@[i]).0@ == tagged_entries(spec_lines(stdout@))[i].0
                && tagged_view(r@[i].1) == tagged_entries(spec_lines(stdout@))[i].1,
        tagged_pairs(r@) == tagged_entries(spec_lines(stdout@)),
{
    let s = text_chars(stdout);
    let spans = line_spans(&s);
    let ghost ls = spec_lines(stdout@);
    let mut out: Vec<(String, TaggedTest)> = Vec::new();
    let mut i: usize = 0;
    while i < spans.len()
        invariant
            i <= spans.len(),
            s@ == stdout@,
            ls == spec_lines(s@),
            spans@.len() == ls.len(),
            forall|k: int|
                0 <= k < spans@.len() ==> {
                    &&& (#[trigger] spans@[k]).0 <= spans@[k].1 <= s.len()
                    &&& s@.subrange(spans@[k].0 as int, spans@[k].1 as int) == ls[k]
                },
            out@.len() == tagged_entries(ls.take(i as int)).len(),
            forall|j: int|
                0 <= j < out@.len() ==> (#[trigger] out@[j]).0@ == tagged_entries(
                    ls.take(i as int),
                )[j].0 && tagged_view(out@[j].1) == tagged_entries(ls.take(i as int))[j].1,
        decreases spans.len() - i,
    {
        let ghost before = tagged_entries(ls.take(i as int));
        proof {
            assert(ls.take(i + 1).drop_last() =~= ls.take(i as int));
            assert(ls.take(i + 1).last() == ls[i as int]);
        }
        let (a, b) = spans[i];
        match read_test_line(&s, a, b) {
            Some((x, y, code)) => {
                if code != 2 {
                    let name = stdout.substring_char(x, y).to_owned();
                    match parse_tag(name.as_str()) {
                        Some((id, vector)) => {
                            let ghost entry = (id@, (name@, vector, code == 0));
                            out.push((id, TaggedTest { name, vector, passed: code == 0 }));
                            proof {
                                let after = tagged_entries(ls.take(i + 1));
                                assert(after == before.push(entry));
                                assert forall|j: int| 0 <= j < out@.len() implies (#[trigger] out@[j]).0@
                                    == after[j].0 && tagged_view(out@[j].1) == after[j].1 by {
                                    if j < before.len() {
                                        assert(after[j] == before[j]);
                                    }
                                }
                            }
                        },
                        None => {},
                    }
                }
            },
            None => {},
        }
        i = i + 1;
    }
    proof {
        assert(ls.take(spans.len() as int) =~= ls);
        assert(tagged_pairs(out@) =~= tagged_entries(ls));
    }
    out
}

// ── The join ───────────────────────────────────────────────────────────────

/// The tagged tests naming `id`, in order.
pub open spec fn tests_for(
    tagged: Seq<(Seq<char>, (Seq<char>, u32, bool))>,
    id: Seq<char>,
) -> Seq<(Seq<char>, u32, bool)>
    decreases tagged.len(),
{
    if tagged.len() == 0 {
        Seq::empty()
    } else {
        let prev = tests_for(tagged.drop_last(), id);
        if tagged.last().0 == id {
            prev.push(tagged.last().1)
        } else {
            prev
        }
    }
}

/// The tagged outcomes, in line order, of the test lines whose name
/// carries a tag naming `id`: each `ok` or `FAILED` line `test N ...` with
/// `N` tagged `(id, v)` gives `(N, v, passed)`.
pub open spec fn lines_tagged(ls: Seq<Seq<char>>, id: Seq<char>) -> Seq<(Seq<char>, u32, bool)>
    decreases ls.len(),
{
    if ls.len() == 0 {
        Seq::empty()
    } else {
        let prev = lines_tagged(ls.drop_last(), id);
        match tagged_line(ls.last()) {
            Some(e) => if e.0 == id {
                prev.push(e.1)
            } else {
                prev
            },
            None => prev,
        }
    }
}

/// What an obligation gets from a test run's output is read straight off
/// its lines: the tagged test lines naming its id, in the order they come.
pub proof fn lemma_tests_read_from_lines(ls: Seq<Seq<char>>, id: Seq<char>)
    ensures
        tests_for(tagged_entries(ls), id) == lines_tagged(ls, id),
    decreases ls.len(),
{
    if ls.len() > 0 {
        lemma_tests_read_from_lines(ls.drop_last(), id);
        let prev = tagged_entries(ls.drop_last());
        match tagged_line(ls.last()) {
            Some(e) => {
                assert(tagged_entries(ls) == prev.push(e));
                assert(tagged_entries(ls).drop_last() =~= prev);
            },
            None => {},
        }
    }
}

/// The distinct vectors with a passing test, in first-seen order.
pub open spec fn distinct_passing(ts: Seq<(Seq<char>, u32, bool)>) -> Seq<u32>
    decreases ts.len(),
{
    if ts.len() == 0 {
        Seq::empty()
    } else {
        let prev = distinct_passing(ts.drop_last());
        let t = ts.last();
        if t.2 && !prev.contains(t.1) {
            prev.push(t.1)
        } else {
            prev
        }
    }
}

/// The vectors that have at least one passing test among `ts`.
pub open spec fn passing_vectors(ts: Seq<(Seq<char>, u32, bool)>) -> Set<u32> {
    Set::new(|v: u32| exists|i: int| 0 <= i < ts.len() && ts[i].2 && ts[i].1 == v)
}

proof fn lemma_distinct_passing_set(ts: Seq<(Seq<char>, u32, bool)>)
    ensures
        distinct_passing(ts).no_duplicates(),
        distinct_passing(ts).to_set() == passing_vectors(ts),
    decreases ts.len(),
{
    if ts.len() > 0 {
        let init = ts.drop_last();
        lemma_distinct_passing_set(init);
        let prev = distinct_passing(init);
        let t = ts.last();
        assert forall|v: u32| passing_vectors(ts).contains(v) <==> (passing_vectors(init).contains(v)
            || (t.2 && t.1 == v)) by {
            if passing_vectors(ts).contains(v) {
                let i = choose|i: int| 0 <= i < ts.len() && ts[i].2 && ts[i].1 == v;
                if i < ts.len() - 1 {
                    assert(init[i] == ts[i]);
                }
            }
            if passing_vectors(init).contains(v) {
                let i = choose|i: int| 0 <= i < init.len() && init[i].2 && init[i].1 == v;
                assert(ts[i] == init[i]);
            }
            if t.2 && t.1 == v {
                assert(ts[ts.len() - 1] == t);
            }
        }
        if t.2 && !prev.contains(t.1) {
            let cur = prev.push(t.1);
            assert forall|a: int, b: int| 0 <= a < b < cur.len() implies cur[a] != cur[b] by {
                assert(cur[a] == prev[a]);
                if b == cur.len() - 1 {
                    assert(prev[a] != t.1);
                } else {
                    assert(cur[b] == prev[b]);
                }
            }
            assert(cur.to_set() =~= passing_vectors(ts)) by {
                assert forall|v: u32| cur.to_set().contains(v) <==> prev.to_set().contains(v) || v == t.1 by {
                    if cur.contains(v) && v != t.1 {
                        let k = choose|k: int| 0 <= k < cur.len() && cur[k] == v;
                        assert(prev[k] == v);
                    }
                    if prev.contains(v) {
                        let k = choose|k: int| 0 <= k < prev.len() && prev[k] == v;
                        assert(cur[k] == v);
                    }
                    if v == t.1 {
                        assert(cur[cur.len() - 1] == v);
                    }
                }
            }
        } else {
            assert(prev.to_set() =~= passing_vectors(ts));
        }
    } else {
        assert(passing_vectors(ts) =~= Set::<u32>::empty());
        assert(distinct_passing(ts).to_set() =~= Set::<u32>::empty());
    }
}

/// What an obligation counts as discharged vectors is exactly how many
/// different vectors have a passing tagged test: the first-seen list of
/// passing vectors holds each of them once.
pub proof fn lemma_discharged_counts_passing_vectors(ts: Seq<(Seq<char>, u32, bool)>)
    ensures
        passing_vectors(ts).finite(),
        distinct_passing(ts).len() == passing_vectors(ts).len(),
{
    lemma_distinct_passing_set(ts);
    distinct_passing(ts).unique_seq_to_set();
    vstd::seq_lib::seq_to_set_is_finite(distinct_passing(ts));
}

/// An obligation is discharged when it is compiler-void, or when it needs
/// vectors and at least that many distinct ones have a passing test.
pub open spec fn spec_discharged(compiler_void: bool, required: int, discharged: int) -> bool {
    compiler_void || (required > 0 && discharged >= required)
}

/// Whether an earlier obligation already has the id `id` (the tests go to
/// the first obligation with that id).
pub open spec fn claimed_before(ids: Seq<Seq<char>>, i: int, id: Seq<char>) -> bool {
    exists|j: int| 0 <= j < i && ids[j] == id
}

pub open spec fn obligation_ids(obs: Seq<ObligationRecord>) -> Seq<Seq<char>> {
    obs.map_values(|o: ObligationRecord| o.id@)
}

/// The tests an obligation gets in the join.
pub open spec fn tests_of(
    obs: Seq<ObligationRecord>,
    i: int,
    tagged: Seq<(Seq<char>, (Seq<char>, u32, bool))>,
) -> Seq<(Seq<char>, u32, bool)> {
    if claimed_before(obligation_ids(obs), i, obs[i].id@) {
        Seq::empty()
    } else {
        tests_for(tagged, obs[i].id@)
    }
}

pub open spec fn tagged_pairs(t: Seq<(String, TaggedTest)>) -> Seq<(Seq<char>, (Seq<char>, u32, bool))> {
    t.map_values(|p: (String, TaggedTest)| (p.0@, tagged_view(p.1)))
}

fn duplicate_test(t: &TaggedTest) -> (r: TaggedTest)
    ensures
        tagged_view(r) == tagged_view(*t),
{
    TaggedTest { name: t.name.clone(), vector: t.vector, passed: t.passed }
}

fn collect_tests(tagged: &[(String, TaggedTest)], id: &String) -> (r: Vec<TaggedTest>)
    ensures
        r@.map_values(|t: TaggedTest| tagged_view(t)) == tests_for(tagged_pairs(tagged@), id@),
{
    let ghost tp = tagged_pairs(tagged@);
    let mut out: Vec<TaggedTest> = Vec::new();
    let mut i: usize = 0;
    while i < tagged.len()
        invariant
            i <= tagged.len(),
            tp == tagged_pairs(tagged@),
            out@.map_values(|t: TaggedTest| tagged_view(t)) == tests_for(tp.take(i as int), id@),
        decreases tagged.len() - i,
    {
        assert(tp.take(i + 1).drop_last() =~= tp.take(i as int));
        assert(tp.take(i + 1).last() == tp[i as int]);
        if tagged[i].0 == *id {
            let ghost before = out@.map_values(|t: TaggedTest| tagged_view(t));
            let t = duplicate_test(&tagged[i].1);
            out.push(t);
            assert(out@.map_values(|t: TaggedTest| tagged_view(t)) =~= before.push(tagged_view(t)));
        }
        i = i + 1;
    }
    assert(tp.take(tagged.len() as int) =~= tp);
    out
}

fn count_distinct_passing(ts: &Vec<TaggedTest>) -> (r: usize)
    ensures
        r == distinct_passing(ts@.map_values(|t: TaggedTest| tagged_view(t))).len(),
{
    let ghost v = ts@.map_values(|t: TaggedTest| tagged_view(t));
    let mut seen: Vec<u32> = Vec::new();
    let mut i: usize = 0;
    while i < ts.len()
        invariant
            i <= ts.len(),
            v == ts@.map_values(|t: TaggedTest| tagged_view(t)),
            seen@ == distinct_passing(v.take(i as int)),
            seen@.len() <= i,
        decreases ts.len() - i,
    {
        assert(v.take(i + 1).drop_last() =~= v.take(i as int));
        assert(v.take(i + 1).last() == v[i as int]);
        if ts[i].passed {
            let x = ts[i].vector;
            let mut k: usize = 0;
            let mut found = false;
            while k < seen.len() && !found
                invariant
                    k <= seen.len(),
                    found ==> seen@.contains(x),
                    !found ==> forall|j: int| 0 <= j < k ==> seen@[j] != x,
                decreases seen.len() - k + if found {
                    0int
                } else {
                    1int
                },
            {
                if seen[k] == x {
                    found = true;
                } else {
                    k = k + 1;
                }
            }
            if !found {
                seen.push(x);
            }
        }
        i = i + 1;
    }
    assert(v.take(ts.len() as int) =~= v);
    seen.len()
}

/// Joins the obligations with the tagged tests, one record per obligation:
/// the tests naming its id (all of them go to the first obligation with
/// that id), the number of distinct vectors with a passing test, and
/// whether that discharges it.
pub fn harvest(obligations: &[ObligationRecord], tagged: &[(String, TaggedTest)]) -> (r: Vec<
    DischargeRecord,
>)
    ensures
        r@.len() == obligations@.len(),
        forall|i: int|
            0 <= i < r@.len() ==> {
                let o = obligations@[i];
                let d = #[trigger] r@[i];
                let ts = tests_of(obligations@, i, tagged_pairs(tagged@));
                &&& d.id@ == o.id@
                &&& d.file@ == o.file@
                &&& d.line == o.line
                &&& d.vectors_required == o.vectors_required
                &&& d.compiler_void == o.compiler_void
                &&& d.tagged_tests@.map_values(|t: TaggedTest| tagged_view(t)) == ts
                &&& d.vectors_discharged == distinct_passing(ts).len()
                &&& d.discharged == spec_discharged(
                    o.compiler_void,
                    o.vectors_required as int,
                    d.vectors_discharged as int,
                )
            },
{
    let ghost ids = obligation_ids(obligations@);
    let mut out: Vec<DischargeRecord> = Vec::new();
    let mut i: usize = 0;
    while i < obligations.len()
        invariant
            i <= obligations.len(),
            ids == obligation_ids(obligations@),
            out@.len() == i,
            forall|k: int|
                0 <= k < i ==> {
                    let o = obligations@[k];
                    let d = #[trigger] out@[k];
                    let ts = tests_of(obligations@, k, tagged_pairs(tagged@));
                    &&& d.id@ == o.id@
                    &&& d.file@ == o.file@
                    &&& d.line == o.line
                    &&& d.vectors_required == o.vectors_required
                    &&& d.compiler_void == o.compiler_void
                    &&& d.tagged_tests@.map_values(|t: TaggedTest| tagged_view(t)) == ts
                    &&& d.vectors_discharged == distinct_passing(ts).len()
                    &&& d.discharged == spec_discharged(
                        o.compiler_void,
                        o.vectors_required as int,
                        d.vectors_discharged as int,
                    )
                },
        decreases obligations.len() - i,
    {
        let o = &obligations[i];
        let mut claimed = false;
        let mut j: usize = 0;
        while j < i && !claimed
            invariant
                j <= i < obligations.len(),
                ids == obligation_ids(obligations@),
                o == obligations@[i as int],
                claimed ==> claimed_before(ids, i as int, o.id@),
                !claimed ==> forall|q: int| 0 <= q < j ==> ids[q] != o.id@,
            decreases i - j + if claimed {
                0int
            } else {
                1int
            },
        {
            if obligations[j].id == o.id {
                assert(ids[j as int] == obligations@[j as int].id@);
                claimed = true;
            } else {
                j = j + 1;
            }
        }
        let tests = if claimed {
            let t: Vec<TaggedTest> = Vec::new();
            assert(t@.map_values(|t: TaggedTest| tagged_view(t)) =~= Seq::<(Seq<char>, u32, bool)>::empty());
            t
        } else {
            collect_tests(tagged, &o.id)
        };
        let discharged_count = count_distinct_passing(&tests);
        let discharged = o.compiler_void || (o.vectors_required > 0 && discharged_count
            >= o.vectors_required);
        out.push(
            DischargeRecord {
                id: o.id.clone(),
                file: o.file.clone(),
                line: o.line,
                vectors_required: o.vectors_required,
                compiler_void: o.compiler_void,
                vectors_discharged: discharged_count,
                discharged,
                tagged_tests: tests,
            },
        );
        i = i + 1;
    }
    out
}

/// Harvesting a test run: when no two obligations share an id, what
/// obligation `i` gets from the output `stdout` (as [`tagged_tests`] reads
/// it and [`harvest`] joins it) is exactly the tagged `ok`/`FAILED` test
/// lines of `stdout` naming its id, in line order.
pub proof fn lemma_harvest_reads_output(obs: Seq<ObligationRecord>, stdout: Seq<char>, i: int)
    requires
        0 <= i < obs.len(),
        forall|a: int, b: int| 0 <= a < b < obs.len() ==> (#[trigger] obs[a]).id@ != (#[trigger] obs[b]).id@,
    ensures
        tests_of(obs, i, tagged_entries(spec_lines(stdout))) == lines_tagged(spec_lines(stdout), obs[i].id@),
{
    let ids = obligation_ids(obs);
    if claimed_before(ids, i, obs[i].id@) {
        let j = choose|j: int| 0 <= j < i && ids[j] == obs[i].id@;
        assert(ids[j] == obs[j].id@);
        assert(obs[j].id@ != obs[i].id@);
    }
    lemma_tests_read_from_lines(spec_lines(stdout), obs[i].id@);
}

} // verus!
