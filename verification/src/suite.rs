//! The tool suite: every analysis run against one source text, in
//! dependency order (limit, total, refine, effect, ifc), each tool's
//! diagnostics kept under its own name.
//!
//! The qualified-subset check (`limit`) runs here. The totality check
//! (`total`) is a separate analysis whose verdict the caller hands in.
//! `refine`, `effect` and `ifc` are reported as not implemented in the
//! suite, with their tracking issue.

use vstd::prelude::*;

use crate::diagnostics::{Diagnostic, DiagnosticV};
use crate::from_syn::rust_file_syntax;
use crate::limits::{check_source as limit_check, lints_from, parse_failure_text, views};
use crate::report::{diagnostic_to_record, error_record, error_record_of, record_of, record_view, RecordV};
use crate::schema::DiagnosticRecord;
use crate::text::{push_str, same_text};

verus! {

/// What running one tool against a file came to.
#[derive(Debug)]
pub enum ToolOutcome {
    /// The tool ran and produced these diagnostics (possibly none).
    Ran(Vec<Diagnostic>),
    /// The suite has no implementation of this tool; see the tracking issue.
    NotYetImplemented { tracking_issue: &'static str },
    /// The tool ran but the source failed to parse.
    Error(String),
}

/// A tool outcome as plain values.
pub enum OutcomeV {
    Ran(Seq<DiagnosticV>),
    NotYetImplemented(Seq<char>),
    Error(Seq<char>),
}

impl View for ToolOutcome {
    type V = OutcomeV;

    open spec fn view(&self) -> OutcomeV {
        match self {
            ToolOutcome::Ran(ds) => OutcomeV::Ran(views(ds@)),
            ToolOutcome::NotYetImplemented { tracking_issue } => OutcomeV::NotYetImplemented(
                tracking_issue@,
            ),
            ToolOutcome::Error(m) => OutcomeV::Error(m@),
        }
    }
}

/// One tool's name and outcome.
#[derive(Debug)]
pub struct ToolResult {
    pub tool: &'static str,
    pub outcome: ToolOutcome,
}

/// The name of the `i`-th tool in suite order.
pub open spec fn tool_name(i: int) -> Seq<char> {
    if i == 0 {
        "limit"@
    } else if i == 1 {
        "total"@
    } else if i == 2 {
        "refine"@
    } else if i == 3 {
        "effect"@
    } else {
        "ifc"@
    }
}

/// The position in suite order of the tool named `t`, if it is one.
pub open spec fn tool_index(t: Seq<char>) -> Option<int> {
    if t == "limit"@ {
        Some(0)
    } else if t == "total"@ {
        Some(1)
    } else if t == "refine"@ {
        Some(2)
    } else if t == "effect"@ {
        Some(3)
    } else if t == "ifc"@ {
        Some(4)
    } else {
        None
    }
}

/// The totality verdict handed in by the caller, as plain values.
pub open spec fn verdict_view(total: Result<Vec<Diagnostic>, String>) -> Result<
    Seq<DiagnosticV>,
    Seq<char>,
> {
    match total {
        Ok(ds) => Ok(views(ds@)),
        Err(m) => Err(m@),
    }
}

/// The outcome of the `i`-th tool on `source`, given the totality verdict.
pub open spec fn outcome_of(
    i: int,
    source: Seq<char>,
    total: Result<Seq<DiagnosticV>, Seq<char>>,
) -> OutcomeV {
    if i == 0 {
        match rust_file_syntax(source) {
            Ok(file) => OutcomeV::Ran(lints_from(0, file)),
            Err(m) => OutcomeV::Error(parse_failure_text(m@)),
        }
    } else if i == 1 {
        match total {
            Ok(ds) => OutcomeV::Ran(ds),
            Err(m) => OutcomeV::Error(m),
        }
    } else if i == 2 {
        OutcomeV::NotYetImplemented("#8"@)
    } else if i == 3 {
        OutcomeV::NotYetImplemented("#9"@)
    } else {
        OutcomeV::NotYetImplemented("#10"@)
    }
}

/// Runs the `i`-th tool.
fn run_tool(i: usize, source: &str, total: Result<Vec<Diagnostic>, String>) -> (r: ToolResult)
    requires
        i < 5,
    ensures
        r.tool@ == tool_name(i as int),
        r.outcome@ == outcome_of(i as int, source@, verdict_view(total)),
{
    if i == 0 {
        let outcome = match limit_check(source) {
            Ok(ds) => ToolOutcome::Ran(ds),
            Err(e) => ToolOutcome::Error(e.message()),
        };
        ToolResult { tool: "limit", outcome }
    } else if i == 1 {
        let outcome = match total {
            Ok(ds) => ToolOutcome::Ran(ds),
            Err(m) => ToolOutcome::Error(m),
        };
        ToolResult { tool: "total", outcome }
    } else if i == 2 {
        ToolResult { tool: "refine", outcome: ToolOutcome::NotYetImplemented { tracking_issue: "#8" } }
    } else if i == 3 {
        ToolResult { tool: "effect", outcome: ToolOutcome::NotYetImplemented { tracking_issue: "#9" } }
    } else {
        ToolResult { tool: "ifc", outcome: ToolOutcome::NotYetImplemented { tracking_issue: "#10" } }
    }
}

/// Runs every tool, in suite order, against already-loaded source text;
/// `total` is the totality analysis's verdict on the same text (its
/// diagnostics, or the message of its failure).
pub fn check_source(source: &str, total: Result<Vec<Diagnostic>, String>) -> (r: Vec<ToolResult>)
    ensures
        r.len() == 5,
        forall|i: int| 0 <= i < 5 ==> (#[trigger] r@[i]).tool@ == tool_name(i),
        forall|i: int|
            0 <= i < 5 ==> (#[trigger] r@[i]).outcome@ == outcome_of(
                i,
                source@,
                verdict_view(total),
            ),
{
    let mut out: Vec<ToolResult> = Vec::new();
    out.push(run_tool(0, source, Ok(Vec::new())));
    out.push(run_tool(1, source, total));
    out.push(run_tool(2, source, Ok(Vec::new())));
    out.push(run_tool(3, source, Ok(Vec::new())));
    out.push(run_tool(4, source, Ok(Vec::new())));
    out
}

/// Runs just the named tool; `None` when `tool` names none of the five.
pub fn check_single(tool: &str, source: &str, total: Result<Vec<Diagnostic>, String>) -> (r: Option<
    ToolResult,
>)
    ensures
        match tool_index(tool@) {
            None => r is None,
            Some(i) => r matches Some(res) && res.tool@ == tool_name(i) && res.outcome@
                == outcome_of(i, source@, verdict_view(total)),
        },
{
    let i: usize = if same_text(tool, "limit") {
        0
    } else if same_text(tool, "total") {
        1
    } else if same_text(tool, "refine") {
        2
    } else if same_text(tool, "effect") {
        3
    } else if same_text(tool, "ifc") {
        4
    } else {
        return None;
    };
    Some(run_tool(i, source, total))
}


// ── Report records ─────────────────────────────────────────────────────────

/// The records one tool's outcome adds to a report on `origin`: a record
/// per diagnostic of a tool that ran, one error record `"<tool>: <message>"`
/// for a tool that failed, none for a tool with no implementation.
pub open spec fn outcome_records(tool: Seq<char>, o: OutcomeV, origin: Seq<char>) -> Seq<RecordV> {
    match o {
        OutcomeV::Ran(ds) => ds.map_values(|d: DiagnosticV| record_of(d, origin)),
        OutcomeV::NotYetImplemented(_) => Seq::empty(),
        OutcomeV::Error(m) => seq![error_record_of(origin, tool + ": "@ + m)],
    }
}

/// The records of several tools' outcomes, tool by tool.
pub open spec fn results_records(rs: Seq<ToolResult>, origin: Seq<char>) -> Seq<RecordV>
    decreases rs.len(),
{
    if rs.len() == 0 {
        Seq::empty()
    } else {
        results_records(rs.drop_last(), origin) + outcome_records(rs.last().tool@, rs.last().outcome@, origin)
    }
}

/// Whether every diagnostic of an outcome has a column that can be counted
/// from 1.
pub open spec fn columns_fit(o: OutcomeV) -> bool {
    o matches OutcomeV::Ran(ds) ==> forall|j: int| 0 <= j < ds.len() ==> (#[trigger] ds[j]).span.column < usize::MAX
}

pub open spec fn record_views(rs: Seq<DiagnosticRecord>) -> Seq<RecordV> {
    rs.map_values(|r: DiagnosticRecord| record_view(r))
}

/// Appends the records of one tool's outcome.
fn push_outcome_records(result: &ToolResult, origin: &str, out: &mut Vec<DiagnosticRecord>)
    requires
        columns_fit(result.outcome@),
    ensures
        record_views(final(out)@) == record_views(old(out)@) + outcome_records(
            result.tool@,
            result.outcome@,
            origin@,
        ),
{
    match &result.outcome {
        ToolOutcome::Ran(ds) => {
            let ghost start = record_views(out@);
            let ghost dv = views(ds@);
            let mut j: usize = 0;
            while j < ds.len()
                invariant
                    j <= ds@.len(),
                    dv == views(ds@),
                    columns_fit(OutcomeV::Ran(dv)),
                    record_views(out@) == start + dv.take(j as int).map_values(
                        |d: DiagnosticV| record_of(d, origin@),
                    ),
                decreases ds@.len() - j,
            {
                assert(dv[j as int] == ds@[j as int]@);
                let r = diagnostic_to_record(&ds[j], origin);
                let ghost before = record_views(out@);
                out.push(r);
                assert(record_views(out@) =~= before.push(record_view(r)));
                assert(dv.take(j + 1).map_values(|d: DiagnosticV| record_of(d, origin@)) =~= dv.take(
                    j as int,
                ).map_values(|d: DiagnosticV| record_of(d, origin@)).push(record_of(dv[j as int], origin@)));
                j = j + 1;
            }
            assert(dv.take(ds@.len() as int) =~= dv);
        },
        ToolOutcome::NotYetImplemented { .. } => {
            assert(record_views(out@) =~= record_views(out@) + Seq::<RecordV>::empty());
        },
        ToolOutcome::Error(m) => {
            let mut message = String::from_str(result.tool);
            push_str(&mut message, ": ");
            push_str(&mut message, m.as_str());
            let ghost before = record_views(out@);
            let r = error_record(origin, message.as_str());
            out.push(r);
            assert(record_views(out@) =~= before.push(record_view(r)));
            assert(seq![error_record_of(origin@, result.tool@ + ": "@ + m@)] =~= seq![record_view(r)]);
        },
    }
}

/// The report records of one file's tool results, tool by tool: every
/// diagnostic of a tool that ran, located in `origin`; for a tool that
/// failed, an error record naming the tool; nothing for a tool with no
/// implementation.
pub fn results_to_records(results: &[ToolResult], origin: &str) -> (r: Vec<DiagnosticRecord>)
    requires
        forall|i: int| 0 <= i < results@.len() ==> columns_fit((#[trigger] results@[i]).outcome@),
    ensures
        record_views(r@) == results_records(results@, origin@),
{
    let mut out: Vec<DiagnosticRecord> = Vec::new();
    let mut i: usize = 0;
    while i < results.len()
        invariant
            i <= results@.len(),
            forall|k: int| 0 <= k < results@.len() ==> columns_fit((#[trigger] results@[k]).outcome@),
            record_views(out@) == results_records(results@.take(i as int), origin@),
        decreases results@.len() - i,
    {
        assert(results@.take(i + 1).drop_last() =~= results@.take(i as int));
        assert(results@.take(i + 1).last() == results@[i as int]);
        push_outcome_records(&results[i], origin, &mut out);
        i = i + 1;
    }
    assert(results@.take(results@.len() as int) =~= results@);
    out
}

} // verus!
