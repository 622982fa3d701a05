//! Diagnostic records as a SARIF 2.1.0 log: one run per log, one generic
//! rule, one result per diagnostic with exactly one physical location.
//!
//! A record's `provenance` is read back from its `file:line:col` form; one
//! that does not read that way is located at line 1, column 1 of a file
//! named by the whole provenance.

use vstd::prelude::*;

use crate::lines::{
    all_digits, is_digit, lemma_nat_text_digits, lemma_occurs_char, lemma_rfind_at, occurs_at, parse_u64_span, rfind_in, spec_parse_u64, spec_rfind,
};
use crate::predicate::text_chars;
use crate::schema::DiagnosticRecord;
use crate::text::{int_text_into, push_str, spec_nat_text};

verus! {

/// A SARIF log with its runs.
#[derive(Debug, Clone)]
pub struct SarifLog {
    pub schema: String,
    pub version: String,
    pub runs: Vec<SarifRun>,
}

#[derive(Debug, Clone)]
pub struct SarifRun {
    pub tool: SarifTool,
    pub results: Vec<SarifResult>,
}

#[derive(Debug, Clone)]
pub struct SarifTool {
    pub driver: SarifDriver,
}

#[derive(Debug, Clone)]
pub struct SarifDriver {
    pub name: String,
    pub information_uri: String,
    pub rules: Vec<SarifRule>,
}

#[derive(Debug, Clone)]
pub struct SarifRule {
    pub id: String,
}

#[derive(Debug, Clone)]
pub struct SarifResult {
    pub rule_id: String,
    pub level: String,
    pub message: SarifMessage,
    pub locations: Vec<SarifLocation>,
}

#[derive(Debug, Clone)]
pub struct SarifMessage {
    pub text: String,
}

#[derive(Debug, Clone)]
pub struct SarifLocation {
    pub physical_location: SarifPhysicalLocation,
}

#[derive(Debug, Clone)]
pub struct SarifPhysicalLocation {
    pub artifact_location: SarifArtifactLocation,
    pub region: SarifRegion,
}

#[derive(Debug, Clone)]
pub struct SarifArtifactLocation {
    pub uri: String,
}

#[derive(Debug, Clone)]
pub struct SarifRegion {
    pub start_line: u64,
    pub start_column: u64,
}

/// The one rule every diagnostic reports against.
pub const GENERIC_RULE_ID: &'static str = "mvl-diagnostic";

pub const SARIF_SCHEMA: &'static str = "https://raw.githubusercontent.com/oasis-tcs/sarif-spec/master/Schemata/sarif-schema-2.1.0.json";

pub const SARIF_VERSION: &'static str = "2.1.0";

pub const INFORMATION_URI: &'static str = "https://github.com/mvl-lang/mvl-rust";

// ── Provenance ─────────────────────────────────────────────────────────────

/// `file:line:col` read back into its parts: split at the last two `:`,
/// both numbers read as `u64`; `(provenance, 1, 1)` otherwise.
pub open spec fn spec_parse_provenance(p: Seq<char>) -> (Seq<char>, u64, u64) {
    match spec_rfind(p, ":"@) {
        Some(c2) => {
            let head = p.take(c2);
            let col = p.skip(c2 + 1);
            match spec_rfind(head, ":"@) {
                Some(c1) => match (spec_parse_u64(head.skip(c1 + 1)), spec_parse_u64(col)) {
                    (Some(line), Some(column)) => (head.take(c1), line, column),
                    _ => (p, 1, 1),
                },
                None => (p, 1, 1),
            }
        },
        None => (p, 1, 1),
    }
}

/// The `file:line:col` form of a location.
pub open spec fn provenance_text(file: Seq<char>, line: u64, column: u64) -> Seq<char> {
    file + ":"@ + spec_nat_text(line as nat) + ":"@ + spec_nat_text(column as nat)
}

/// Renders a location as `file:line:col`.
pub fn format_provenance(file: &str, line: u64, column: u64) -> (r: String)
    ensures
        r@ == provenance_text(file@, line, column),
{
    let mut out = String::from_str(file);
    push_str(&mut out, ":");
    int_text_into(line as i128, &mut out);
    push_str(&mut out, ":");
    int_text_into(column as i128, &mut out);
    proof {
        assert(out@ =~= provenance_text(file@, line, column));
    }
    out
}

/// Reads a provenance back into file, line and column (see
/// [`spec_parse_provenance`]).
pub fn parse_provenance(provenance: &str) -> (r: (String, u64, u64))
    ensures
        (r.0@, r.1, r.2) == spec_parse_provenance(provenance@),
{
    proof {
        reveal_strlit(":");
    }
    let s = text_chars(provenance);
    let ghost p = provenance@;
    assert(s@.subrange(0, s.len() as int) =~= p);
    let c2 = match rfind_in(&s, 0, s.len(), ":") {
        Some(c2) => c2,
        None => {
            return (provenance.to_owned(), 1, 1);
        },
    };
    proof {
        crate::lines::lemma_rfind_from(p, ":"@, p.len() - 1);
        assert(p.take(c2 as int) =~= s@.subrange(0, c2 as int));
    }
    let c1 = match rfind_in(&s, 0, c2, ":") {
        Some(c1) => c1,
        None => {
            return (provenance.to_owned(), 1, 1);
        },
    };
    proof {
        let head = p.take(c2 as int);
        crate::lines::lemma_rfind_from(head, ":"@, head.len() - 1);
        assert(head.skip(c1 + 1) =~= s@.subrange(c1 + 1, c2 as int));
        assert(p.skip(c2 + 1) =~= s@.subrange(c2 + 1, s.len() as int));
        assert(head.take(c1 as int) =~= s@.subrange(0, c1 as int));
    }
    let line = parse_u64_span(&s, c1 + 1, c2);
    let column = parse_u64_span(&s, c2 + 1, s.len());
    match (line, column) {
        (Some(line), Some(column)) => (provenance.substring_char(0, c1).to_owned(), line, column),
        _ => (provenance.to_owned(), 1, 1),
    }
}

/// A number's decimal text reads back as that number.
proof fn lemma_parse_nat_text(n: u64)
    ensures
        spec_parse_u64(spec_nat_text(n as nat)) == Some(n),
{
    let t = spec_nat_text(n as nat);
    lemma_nat_text_digits(n as nat);
    assert(is_digit(t[0]));
}

/// The last `:` of `a + ":" + t` is the one before `t`, when `t` is a run
/// of digits.
proof fn lemma_last_colon(a: Seq<char>, t: Seq<char>)
    requires
        all_digits(t),
    ensures
        spec_rfind(a + ":"@ + t, ":"@) == Some(a.len() as int),
        (a + ":"@ + t).take(a.len() as int) == a,
        (a + ":"@ + t).skip(a.len() as int + 1) == t,
{
    reveal_strlit(":");
    assert(":"@ =~= seq![':']);
    let p = a + ":"@ + t;
    let k = a.len() as int;
    lemma_occurs_char(p, k, ':');
    assert(p[k] == ':');
    assert forall|m: int| k < m <= p.len() - 1 implies !occurs_at(p, m, ":"@) by {
        lemma_occurs_char(p, m, ':');
        assert(p[m] == t[m - k - 1]);
        assert(is_digit(t[m - k - 1]));
    }
    lemma_rfind_at(p, ":"@, p.len() - 1, k);
    assert(p.take(k) =~= a);
    assert(p.skip(k + 1) =~= t);
}

/// Reading a formatted provenance gives back the file, line and column it
/// was formatted from, whatever the file name holds (`:` included).
pub proof fn lemma_provenance_round_trip(file: Seq<char>, line: u64, column: u64)
    ensures
        spec_parse_provenance(provenance_text(file, line, column)) == (file, line, column),
{
    let tl = spec_nat_text(line as nat);
    let tc = spec_nat_text(column as nat);
    lemma_nat_text_digits(line as nat);
    lemma_nat_text_digits(column as nat);
    let head = file + ":"@ + tl;
    assert(provenance_text(file, line, column) == head + ":"@ + tc);
    lemma_last_colon(head, tc);
    lemma_last_colon(file, tl);
    lemma_parse_nat_text(line);
    lemma_parse_nat_text(column);
}

// ── Levels ─────────────────────────────────────────────────────────────────

/// `error`, `warning` and `note` map to themselves; anything else to
/// `warning`.
pub open spec fn spec_sarif_level(level: Seq<char>) -> Seq<char> {
    if level == "error"@ {
        "error"@
    } else if level == "warning"@ {
        "warning"@
    } else if level == "note"@ {
        "note"@
    } else {
        "warning"@
    }
}

pub fn sarif_level(level: &str) -> (r: String)
    ensures
        r@ == spec_sarif_level(level@),
{
    let s = text_chars(level);
    assert(s@.subrange(0, s.len() as int) =~= level@);
    if crate::predicate::spells(&s, 0, s.len(), "error") {
        String::from_str("error")
    } else if crate::predicate::spells(&s, 0, s.len(), "warning") {
        String::from_str("warning")
    } else if crate::predicate::spells(&s, 0, s.len(), "note") {
        String::from_str("note")
    } else {
        String::from_str("warning")
    }
}

// ── The log ────────────────────────────────────────────────────────────────

/// The result a diagnostic record becomes.
pub open spec fn result_matches(r: SarifResult, d: DiagnosticRecord) -> bool {
    let (file, line, column) = spec_parse_provenance(d.provenance@);
    &&& r.rule_id@ == GENERIC_RULE_ID@
    &&& r.level@ == spec_sarif_level(d.level@)
    &&& r.message.text@ == d.message@
    &&& r.locations@.len() == 1
    &&& r.locations@[0].physical_location.artifact_location.uri@ == file
    &&& r.locations@[0].physical_location.region.start_line == line
    &&& r.locations@[0].physical_location.region.start_column == column
}

fn result_for(record: &DiagnosticRecord) -> (r: SarifResult)
    ensures
        result_matches(r, *record),
{
    let (file, line, column) = parse_provenance(record.provenance.as_str());
    let mut locations: Vec<SarifLocation> = Vec::new();
    locations.push(
        SarifLocation {
            physical_location: SarifPhysicalLocation {
                artifact_location: SarifArtifactLocation { uri: file },
                region: SarifRegion { start_line: line, start_column: column },
            },
        },
    );
    SarifResult {
        rule_id: String::from_str(GENERIC_RULE_ID),
        level: sarif_level(record.level.as_str()),
        message: SarifMessage { text: record.message.clone() },
        locations,
    }
}

/// A one-run SARIF log for `tool_name`'s diagnostics: one result per
/// record, in order.
pub fn build_sarif_log(tool_name: &str, records: &[DiagnosticRecord]) -> (r: SarifLog)
    ensures
        r.schema@ == SARIF_SCHEMA@,
        r.version@ == SARIF_VERSION@,
        r.runs@.len() == 1,
        r.runs@[0].tool.driver.name@ == tool_name@,
        r.runs@[0].tool.driver.information_uri@ == INFORMATION_URI@,
        r.runs@[0].tool.driver.rules@.len() == 1,
        r.runs@[0].tool.driver.rules@[0].id@ == GENERIC_RULE_ID@,
        r.runs@[0].results@.len() == records@.len(),
        forall|i: int|
            0 <= i < records@.len() ==> result_matches(#[trigger] r.runs@[0].results@[i], records@[i]),
{
    let mut results: Vec<SarifResult> = Vec::new();
    let mut i: usize = 0;
    while i < records.len()
        invariant
            i <= records@.len(),
            results@.len() == i,
            forall|k: int| 0 <= k < i ==> result_matches(#[trigger] results@[k], records@[k]),
        decreases records@.len() - i,
    {
        results.push(result_for(&records[i]));
        i = i + 1;
    }
    let mut rules: Vec<SarifRule> = Vec::new();
    rules.push(SarifRule { id: String::from_str(GENERIC_RULE_ID) });
    let mut runs: Vec<SarifRun> = Vec::new();
    runs.push(
        SarifRun {
            tool: SarifTool {
                driver: SarifDriver {
                    name: String::from_str(tool_name),
                    information_uri: String::from_str(INFORMATION_URI),
                    rules,
                },
            },
            results,
        },
    );
    SarifLog {
        schema: String::from_str(SARIF_SCHEMA),
        version: String::from_str(SARIF_VERSION),
        runs,
    }
}

} // verus!
