//! Reading the plain-text output of a test run (`test <name> ... ok`) into
//! test records.

use vstd::prelude::*;

use crate::lines::{
    lemma_rfind_from, line_spans, occurs_at, occurs_at_exec, rfind_in, spec_lines, spec_rfind, spec_trim, trim_span,
};
use crate::predicate::{spells, text_chars};
use crate::schema::{TestRecord, TestSection, TestSummary};

verus! {

/// What a test line reports: `0` passed, `1` failed, `2` ignored.
pub open spec fn outcome_word(k: int) -> Seq<char> {
    if k == 0 {
        "passed"@
    } else if k == 1 {
        "failed"@
    } else {
        "ignored"@
    }
}

/// The test name and outcome a line reports: `test <name> ... <outcome>`,
/// the name up to the last ` ... `, the outcome (trimmed) one of `ok`,
/// `FAILED`, `ignored`; `None` for any other line.
pub open spec fn test_line(line: Seq<char>) -> Option<(Seq<char>, int)> {
    let head = "test "@;
    let sep = " ... "@;
    if occurs_at(line, 0, head) {
        let rest = line.skip(head.len() as int);
        match spec_rfind(rest, sep) {
            Some(k) => {
                let o = spec_trim(rest.skip(k + sep.len()));
                if o == "ok"@ {
                    Some((rest.take(k), 0))
                } else if o == "FAILED"@ {
                    Some((rest.take(k), 1))
                } else if o == "ignored"@ {
                    Some((rest.take(k), 2))
                } else {
                    None
                }
            },
            None => None,
        }
    } else {
        None
    }
}

/// The test lines among `ls`, in order.
pub open spec fn test_entries(ls: Seq<Seq<char>>) -> Seq<(Seq<char>, int)>
    decreases ls.len(),
{
    if ls.len() == 0 {
        Seq::empty()
    } else {
        let prev = test_entries(ls.drop_last());
        match test_line(ls.last()) {
            Some(e) => prev.push(e),
            None => prev,
        }
    }
}

/// How many entries report outcome `k`.
pub open spec fn count_outcome(es: Seq<(Seq<char>, int)>, k: int) -> nat
    decreases es.len(),
{
    if es.len() == 0 {
        0
    } else {
        count_outcome(es.drop_last(), k) + if es.last().1 == k {
            1nat
        } else {
            0nat
        }
    }
}

proof fn lemma_count_bound(es: Seq<(Seq<char>, int)>)
    ensures
        count_outcome(es, 0) + count_outcome(es, 1) + count_outcome(es, 2) <= es.len(),
    decreases es.len(),
{
    if es.len() > 0 {
        lemma_count_bound(es.drop_last());
    }
}

/// Every test line reports one of the three outcomes.
proof fn lemma_entry_outcomes(ls: Seq<Seq<char>>)
    ensures
        forall|i: int|
            0 <= i < test_entries(ls).len() ==> 0 <= (#[trigger] test_entries(ls)[i]).1 <= 2,
    decreases ls.len(),
{
    if ls.len() > 0 {
        lemma_entry_outcomes(ls.drop_last());
        let prev = test_entries(ls.drop_last());
        assert forall|i: int| 0 <= i < test_entries(ls).len() implies 0 <= (
        #[trigger] test_entries(ls)[i]).1 <= 2 by {
            if i < prev.len() {
                assert(test_entries(ls)[i] == prev[i]);
            }
        }
    }
}

/// The three outcome counts add up to the number of entries when every
/// entry has one of the three outcomes.
proof fn lemma_count_total(es: Seq<(Seq<char>, int)>)
    requires
        forall|i: int| 0 <= i < es.len() ==> 0 <= (#[trigger] es[i]).1 <= 2,
    ensures
        count_outcome(es, 0) + count_outcome(es, 1) + count_outcome(es, 2) == es.len(),
    decreases es.len(),
{
    if es.len() > 0 {
        assert forall|i: int| 0 <= i < es.drop_last().len() implies 0 <= (
        #[trigger] es.drop_last()[i]).1 <= 2 by {
            assert(es.drop_last()[i] == es[i]);
        }
        lemma_count_total(es.drop_last());
        assert(0 <= es[es.len() - 1].1 <= 2);
    }
}

proof fn lemma_entries_bound(ls: Seq<Seq<char>>)
    ensures
        test_entries(ls).len() <= ls.len(),
    decreases ls.len(),
{
    if ls.len() > 0 {
        lemma_entries_bound(ls.drop_last());
    }
}

/// Reads the line `s[a..b]`: the span of the test name and the outcome
/// code, when it is a test line.
pub fn read_test_line(s: &Vec<char>, a: usize, b: usize) -> (r: Option<(usize, usize, u8)>)
    requires
        a <= b <= s.len(),
    ensures
        match r {
            Some((x, y, k)) => x <= y <= s.len() && test_line(s@.subrange(a as int, b as int))
                == Some((s@.subrange(x as int, y as int), k as int)),
            None => test_line(s@.subrange(a as int, b as int)) is None,
        },
{
    let ghost line = s@.subrange(a as int, b as int);
    let head = "test ";
    let sep = " ... ";
    let nh = head.unicode_len();
    let ns = sep.unicode_len();
    let starts = occurs_at_exec(s, a, b, head);
    proof {
        if a + nh <= b {
            assert(s@.subrange(0, b as int).subrange(a as int, a + nh) =~= line.subrange(0, nh as int));
        }
    }
    if !starts {
        return None;
    }
    let rest_start = a + nh;
    assert(line.skip(nh as int) =~= s@.subrange(rest_start as int, b as int));
    let p = match rfind_in(s, rest_start, b, sep) {
        Some(p) => p,
        None => {
            return None;
        },
    };
    let ghost rest = s@.subrange(rest_start as int, b as int);
    let ghost k = p - rest_start;
    proof {
        lemma_rfind_from(rest, sep@, rest.len() - sep@.len());
        assert(rest.take(k) =~= s@.subrange(rest_start as int, p as int));
        assert(rest.skip(k + ns) =~= s@.subrange(p + ns, b as int));
    }
    let (x, y) = trim_span(s, p + ns, b);
    let code: u8 = if spells(s, x, y, "ok") {
        0
    } else if spells(s, x, y, "FAILED") {
        1
    } else if spells(s, x, y, "ignored") {
        2
    } else {
        return None;
    };
    Some((rest_start, p, code))
}

/// Parses a test run's plain-text output into one record per test line
/// (its outcome `passed`, `failed` or `ignored`, duration `0`) and the
/// counts of each outcome; other lines, the summary line included, are
/// skipped.
pub fn parse_test_output(stdout: &str) -> (r: TestSection)
    ensures
        r.tests@.len() == test_entries(spec_lines(stdout@)).len(),
        forall|i: int|
            0 <= i < r.tests@.len() ==> {
                &&& (#[trigger] r.tests@[i]).name@ == test_entries(spec_lines(stdout@))[i].0
                &&& r.tests@[i].outcome@ == outcome_word(test_entries(spec_lines(stdout@))[i].1)
                &&& r.tests@[i].duration_ms == 0
            },
        r.summary.passed == count_outcome(test_entries(spec_lines(stdout@)), 0),
        r.summary.failed == count_outcome(test_entries(spec_lines(stdout@)), 1),
        r.summary.ignored == count_outcome(test_entries(spec_lines(stdout@)), 2),
        r.summary.passed + r.summary.failed + r.summary.ignored == r.tests@.len(),
{
    let s = text_chars(stdout);
    let spans = line_spans(&s);
    let ghost ls = spec_lines(stdout@);
    let mut tests: Vec<TestRecord> = Vec::new();
    let mut summary = TestSummary::default();
    let mut i: usize = 0;
    while i < spans.len()
        invariant
            i <= spans.len(),
            s@ == stdout@,
            ls == spec_lines(s@),
            spans@.len() == ls.len(),
            forall|k: int|
                0 <= k < spans@.len() ==> {
                    &&& (#[trigger] spans@[k]).0 <= spans@[k].1 <= s.len()
                    &&& s@.subrange(spans@[k].0 as int, spans@[k].1 as int) == ls[k]
                },
            tests@.len() == test_entries(ls.take(i as int)).len(),
            forall|j: int|
                0 <= j < tests@.len() ==> {
                    &&& (#[trigger] tests@[j]).name@ == test_entries(ls.take(i as int))[j].0
                    &&& tests@[j].outcome@ == outcome_word(test_entries(ls.take(i as int))[j].1)
                    &&& tests@[j].duration_ms == 0
                },
            summary.passed == count_outcome(test_entries(ls.take(i as int)), 0),
            summary.failed == count_outcome(test_entries(ls.take(i as int)), 1),
            summary.ignored == count_outcome(test_entries(ls.take(i as int)), 2),
        decreases spans.len() - i,
    {
        let ghost before = test_entries(ls.take(i as int));
        proof {
            assert(ls.take(i + 1).drop_last() =~= ls.take(i as int));
            assert(ls.take(i + 1).last() == ls[i as int]);
            lemma_count_bound(before);
            lemma_entries_bound(ls.take(i as int));
        }
        let (a, b) = spans[i];
        match read_test_line(&s, a, b) {
            Some((x, y, code)) => {
                let name = stdout.substring_char(x, y).to_owned();
                let outcome = if code == 0 {
                    summary.passed = summary.passed + 1;
                    String::from_str("passed")
                } else if code == 1 {
                    summary.failed = summary.failed + 1;
                    String::from_str("failed")
                } else {
                    summary.ignored = summary.ignored + 1;
                    String::from_str("ignored")
                };
                tests.push(TestRecord { name, outcome, duration_ms: 0 });
                proof {
                    let after = test_entries(ls.take(i + 1));
                    assert(after == before.push((s@.subrange(x as int, y as int), code as int)));
                    assert forall|j: int| 0 <= j < tests@.len() implies {
                        &&& (#[trigger] tests@[j]).name@ == after[j].0
                        &&& tests@[j].outcome@ == outcome_word(after[j].1)
                        &&& tests@[j].duration_ms == 0
                    } by {
                        if j < before.len() {
                            assert(after[j] == before[j]);
                        }
                    }
                    assert(after.drop_last() =~= before);
                }
            },
            None => {},
        }
        i = i + 1;
    }
    proof {
        assert(ls.take(spans.len() as int) =~= ls);
        lemma_entry_outcomes(ls);
        lemma_count_total(test_entries(ls));
    }
    TestSection { tests, summary }
}

} // verus!
