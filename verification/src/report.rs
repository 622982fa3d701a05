//! Turning a diagnostic into its assurance-report record.

use vstd::prelude::*;

use crate::diagnostics::{level_str, level_text, opt_text, Diagnostic, DiagnosticV};
use crate::sarif::{format_provenance, provenance_text};
use crate::schema::{
    ASSURANCE_SCHEMA_VERSION, AssuranceReport, CheckSection, DiagnosticRecord, ObligationRecord, ProveSection,
    Target, record_of_outcome,
};
use crate::solver::{DischargeResult, Obligation};
use crate::text::{int_to_text, spec_int_text};

use std::time::{SystemTime, UNIX_EPOCH};

verus! {

/// A report record as plain values.
pub struct RecordV {
    pub level: Seq<char>,
    pub message: Seq<char>,
    pub provenance: Seq<char>,
    pub label: Option<Seq<char>>,
    pub suggestion: Option<Seq<char>>,
}

pub open spec fn record_view(r: DiagnosticRecord) -> RecordV {
    RecordV {
        level: r.level@,
        message: r.message@,
        provenance: r.provenance@,
        label: opt_text(r.label),
        suggestion: opt_text(r.suggestion),
    }
}

/// The record of a diagnostic found in `origin`.
pub open spec fn record_of(d: DiagnosticV, origin: Seq<char>) -> RecordV {
    RecordV {
        level: level_text(d.level),
        message: d.message,
        provenance: provenance_text(origin, d.span.line as u64, (d.span.column + 1) as u64),
        label: d.label,
        suggestion: d.suggestion,
    }
}

/// The record of a failure without a span.
pub open spec fn error_record_of(origin: Seq<char>, message: Seq<char>) -> RecordV {
    RecordV { level: "error"@, message, provenance: origin, label: None, suggestion: None }
}

/// Converts one diagnostic into its wire form. `origin` is the file the
/// diagnostic's span belongs to; the provenance is `origin:line:col` with
/// the column counted from 1 (the span's own column counts from 0).
pub fn diagnostic_to_record(diagnostic: &Diagnostic, origin: &str) -> (r: DiagnosticRecord)
    requires
        diagnostic.span.column < usize::MAX,
    ensures
        r.level@ == level_text(diagnostic.level),
        r.message@ == diagnostic.message@,
        r.provenance@ == provenance_text(
            origin@,
            diagnostic.span.line as u64,
            (diagnostic.span.column + 1) as u64,
        ),
        opt_text(r.label) == opt_text(diagnostic.label),
        opt_text(r.suggestion) == opt_text(diagnostic.suggestion),
        record_view(r) == record_of(diagnostic@, origin@),
{
    let line = diagnostic.span.line as u64;
    let column = (diagnostic.span.column + 1) as u64;
    DiagnosticRecord {
        level: String::from_str(level_str(diagnostic.level)),
        message: diagnostic.message.clone(),
        provenance: format_provenance(origin, line, column),
        label: copy_text(&diagnostic.label),
        suggestion: copy_text(&diagnostic.suggestion),
    }
}

/// A record for a failure that has no span: a file that could not be
/// read or parsed. Its provenance is the file alone.
pub fn error_record(origin: &str, message: &str) -> (r: DiagnosticRecord)
    ensures
        r.level@ == "error"@,
        r.message@ == message@,
        r.provenance@ == origin@,
        r.label is None,
        r.suggestion is None,
        record_view(r) == error_record_of(origin@, message@),
{
    DiagnosticRecord {
        level: String::from_str("error"),
        message: String::from_str(message),
        provenance: String::from_str(origin),
        label: None,
        suggestion: None,
    }
}

/// Whole seconds since the Unix epoch by the system clock
/// (`SystemTime::now().duration_since(UNIX_EPOCH)`), or 0 when the clock
/// reads earlier than the epoch. The clock is outside the library, so
/// nothing is claimed of the value.
#[verifier::external_body]
fn unix_seconds() -> (r: u64) {
    match SystemTime::now().duration_since(UNIX_EPOCH) {
        Ok(d) => d.as_secs(),
        Err(_) => 0,
    }
}

/// The time of a report: epoch seconds in decimal.
pub fn current_timestamp() -> (r: String)
    ensures
        exists|n: u64| r@ == spec_int_text(n as int),
{
    let seconds = unix_seconds();
    int_to_text(seconds as i128)
}

/// Whether `r` is an empty report for `crate_name` at `timestamp`, but for
/// the sections named by the flags.
pub open spec fn report_base(r: AssuranceReport, crate_name: Seq<char>, timestamp: Seq<char>) -> bool {
    &&& r.version@ == ASSURANCE_SCHEMA_VERSION@
    &&& r.target.crate_name@ == crate_name
    &&& r.target.commit is None
    &&& r.target.timestamp@ == timestamp
    &&& r.test is None
    &&& r.coverage is None
}

impl AssuranceReport {
    /// An empty report for `crate_name` at `timestamp`: every section
    /// absent.
    pub fn new(crate_name: &str, timestamp: &str) -> (r: AssuranceReport)
        ensures
            report_base(r, crate_name@, timestamp@),
            r.check is None,
            r.prove is None,
    {
        AssuranceReport {
            version: String::from_str(ASSURANCE_SCHEMA_VERSION),
            target: Target {
                crate_name: String::from_str(crate_name),
                commit: None,
                timestamp: String::from_str(timestamp),
            },
            check: None,
            prove: None,
            test: None,
            coverage: None,
        }
    }
}

/// A report with only the `check` section: `diagnostics`, and no
/// obligations. `tool_name` stands for the checked crate.
pub fn build_check_report(tool_name: &str, timestamp: &str, diagnostics: Vec<DiagnosticRecord>) -> (r:
    AssuranceReport)
    ensures
        report_base(r, tool_name@, timestamp@),
        r.prove is None,
        r.check matches Some(c) && c.obligations@.len() == 0 && c.diagnostics@ == diagnostics@,
{
    let mut report = AssuranceReport::new(tool_name, timestamp);
    report.check = Some(CheckSection { obligations: Vec::new(), diagnostics });
    report
}

/// A report with only the `prove` section: the record of every obligation
/// with its outcome, in order. `tool_name` stands for the checked crate.
pub fn build_prove_report(tool_name: &str, timestamp: &str, obligations: &[(Obligation, DischargeResult)]) -> (r:
    AssuranceReport)
    ensures
        report_base(r, tool_name@, timestamp@),
        r.check is None,
        r.prove matches Some(p) && p.obligations@.len() == obligations@.len() && forall|i: int|
            0 <= i < obligations@.len() ==> record_of_outcome(
                #[trigger] p.obligations@[i],
                obligations@[i].0,
                obligations@[i].1,
            ),
{
    let mut records: Vec<ObligationRecord> = Vec::new();
    let mut i: usize = 0;
    while i < obligations.len()
        invariant
            i <= obligations@.len(),
            records@.len() == i,
            forall|k: int|
                0 <= k < i ==> record_of_outcome(#[trigger] records@[k], obligations@[k].0, obligations@[k].1),
        decreases obligations@.len() - i,
    {
        let (o, d) = &obligations[i];
        records.push(ObligationRecord::new(o, d));
        i = i + 1;
    }
    let mut report = AssuranceReport::new(tool_name, timestamp);
    report.prove = Some(ProveSection { obligations: records });
    report
}

/// A copy of an optional text.
fn copy_text(o: &Option<String>) -> (r: Option<String>)
    ensures
        opt_text(r) == opt_text(*o),
{
    match o {
        Some(s) => Some(s.clone()),
        None => None,
    }
}

} // verus!
