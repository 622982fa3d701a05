//! Assurance-report records: test-run parsing, SARIF output, obligation
//! records, the tool order and information-flow labels.

use mvl_rust::diagnostics::{level_str, Level, TOOL_ORDER};
use mvl_rust::labels::{trust, Labeled, Secret, Tainted};
use mvl_rust::sarif::{build_sarif_log, format_provenance, parse_provenance, sarif_level};
use mvl_rust::schema::{DiagnosticRecord, ObligationRecord, TestSummary};
use mvl_rust::solver::{DischargeResult, Layer, Obligation, ObligationClass, ShellOutSolver};
use mvl_rust::test_output::parse_test_output;

// ── Test-run output ────────────────────────────────────────────────────────

#[test]
fn parses_passed_failed_and_ignored_lines() {
    let stdout = "running 3 tests\n\
                   test foo::bar ... ok\n\
                   test foo::baz ... FAILED\n\
                   test foo::qux ... ignored\n\
                   \n\
                   test result: FAILED. 1 passed; 1 failed; 1 ignored; 0 measured; 0 filtered out; finished in 0.01s\n";
    let section = parse_test_output(stdout);
    assert_eq!(section.tests.len(), 3);
    assert_eq!(section.summary.passed, 1);
    assert_eq!(section.summary.failed, 1);
    assert_eq!(section.summary.ignored, 1);
    assert_eq!(section.tests[0].name, "foo::bar");
    assert_eq!(section.tests[0].outcome, "passed");
    assert_eq!(section.tests[1].outcome, "failed");
    assert_eq!(section.tests[2].outcome, "ignored");
}

#[test]
fn ignores_the_summary_line_itself() {
    let stdout = "test result: ok. 0 passed; 0 failed; 0 ignored; 0 measured; 0 filtered out; finished in 0.00s\n";
    let section = parse_test_output(stdout);
    assert!(section.tests.is_empty());
}

#[test]
fn empty_output_yields_an_empty_section() {
    let section = parse_test_output("");
    assert!(section.tests.is_empty());
    assert_eq!(section.summary.passed, 0);
    assert_eq!(section.summary.failed, 0);
    assert_eq!(section.summary.ignored, 0);
}

#[test]
fn windows_line_endings_and_unknown_outcomes() {
    let stdout = "test a ... ok\r\ntest b ... bench\r\ntest c ... FAILED\r\n";
    let section = parse_test_output(stdout);
    assert_eq!(section.tests.len(), 2);
    assert_eq!(section.tests[0].name, "a");
    assert_eq!(section.tests[1].name, "c");
    assert_eq!(section.tests[1].outcome, "failed");
    assert_eq!(section.tests[1].duration_ms, 0);
    assert_eq!(section.summary, TestSummary { passed: 1, failed: 1, ignored: 0 });
}

#[test]
fn a_default_summary_counts_nothing() {
    assert_eq!(TestSummary::default(), TestSummary { passed: 0, failed: 0, ignored: 0 });
}

// ── SARIF ──────────────────────────────────────────────────────────────────

fn record(level: &str, message: &str, provenance: &str) -> DiagnosticRecord {
    DiagnosticRecord {
        level: level.to_string(),
        message: message.to_string(),
        provenance: provenance.to_string(),
        label: None,
        suggestion: None,
    }
}

#[test]
fn builds_one_run_with_the_tool_name() {
    let log = build_sarif_log("rust-total", &[]);
    assert_eq!(log.runs.len(), 1);
    assert_eq!(log.runs[0].tool.driver.name, "rust-total");
    assert!(log.runs[0].results.is_empty());
}

#[test]
fn parses_file_line_col_provenance() {
    let log = build_sarif_log("rust-total", &[record("error", "boom", "src/lib.rs:12:5")]);
    let loc = &log.runs[0].results[0].locations[0].physical_location;
    assert_eq!(loc.artifact_location.uri, "src/lib.rs");
    assert_eq!(loc.region.start_line, 12);
    assert_eq!(loc.region.start_column, 5);
}

#[test]
fn falls_back_to_line_one_column_one_on_unparseable_provenance() {
    let log = build_sarif_log("rust-total", &[record("error", "boom", "some read error")]);
    let loc = &log.runs[0].results[0].locations[0].physical_location;
    assert_eq!(loc.artifact_location.uri, "some read error");
    assert_eq!(loc.region.start_line, 1);
    assert_eq!(loc.region.start_column, 1);
}

#[test]
fn maps_levels_through_unchanged() {
    let log = build_sarif_log(
        "rust-total",
        &[
            record("error", "e", "f:1:1"),
            record("warning", "w", "f:1:1"),
            record("note", "n", "f:1:1"),
        ],
    );
    let levels: Vec<_> = log.runs[0]
        .results
        .iter()
        .map(|r| r.level.as_str())
        .collect();
    assert_eq!(levels, ["error", "warning", "note"]);
}

#[test]
fn the_log_carries_the_schema_version_and_rule() {
    let log = build_sarif_log("rust-total", &[record("help", "boom", "f.rs:1:1")]);
    assert_eq!(log.version, "2.1.0");
    assert!(log.schema.ends_with("sarif-schema-2.1.0.json"));
    assert_eq!(log.runs[0].results[0].rule_id, "mvl-diagnostic");
    assert_eq!(log.runs[0].results[0].level, "warning");
    assert_eq!(log.runs[0].results[0].message.text, "boom");
    assert_eq!(log.runs[0].tool.driver.rules.len(), 1);
    assert_eq!(log.runs[0].tool.driver.rules[0].id, "mvl-diagnostic");
}

#[test]
fn unknown_levels_become_warnings() {
    assert_eq!(sarif_level("fatal"), "warning");
    assert_eq!(sarif_level("Error"), "warning");
    assert_eq!(sarif_level(""), "warning");
    assert_eq!(sarif_level("note"), "note");
}

#[test]
fn provenance_round_trips_through_its_text_form() {
    let text = format_provenance("src/a:b.rs", 40, 7);
    assert_eq!(text, "src/a:b.rs:40:7");
    assert_eq!(parse_provenance(&text), ("src/a:b.rs".to_string(), 40, 7));
}

#[test]
fn provenance_with_a_bad_number_falls_back() {
    assert_eq!(parse_provenance("f.rs:x:3"), ("f.rs:x:3".to_string(), 1, 1));
    assert_eq!(parse_provenance("f.rs:3"), ("f.rs:3".to_string(), 1, 1));
    assert_eq!(parse_provenance("f.rs::3"), ("f.rs::3".to_string(), 1, 1));
    assert_eq!(parse_provenance(":+4:5"), ("".to_string(), 4, 5));
    assert_eq!(
        parse_provenance("f.rs:1:99999999999999999999"),
        ("f.rs:1:99999999999999999999".to_string(), 1, 1)
    );
}

// ── Obligation records ─────────────────────────────────────────────────────

fn obligation(kind: ObligationClass) -> Obligation {
    Obligation {
        id: "ob-1".to_string(),
        predicate: "x > 0".to_string(),
        provenance: "src/lib.rs:3:9".to_string(),
        kind,
    }
}

#[test]
fn an_obligation_record_flattens_the_outcome() {
    let proven = ObligationRecord::new(
        &obligation(ObligationClass::CallSite),
        &DischargeResult::Proven { layer: Layer::L2 },
    );
    assert_eq!(proven.id, "ob-1");
    assert_eq!(proven.layer, Some(Layer::L2));
    assert_eq!(proven.counterexample, None);
    assert!(proven.is_proof());

    let runtime = ObligationRecord::new(
        &obligation(ObligationClass::ReturnSite),
        &DischargeResult::Runtime,
    );
    assert_eq!(runtime.layer, Some(Layer::Runtime));
    assert!(!runtime.is_proof());

    let violated = ObligationRecord::new(
        &obligation(ObligationClass::CallSite),
        &DischargeResult::Violated { counterexample: "x = 0".to_string() },
    );
    assert_eq!(violated.layer, None);
    assert_eq!(violated.counterexample, Some("x = 0".to_string()));
    assert!(!violated.is_proof());

    let coherent = ObligationRecord::new(
        &obligation(ObligationClass::Declaration),
        &DischargeResult::Proven { layer: Layer::L1 },
    );
    assert!(!coherent.is_proof());
}

#[test]
fn obligation_classes_have_wire_names() {
    assert_eq!(ObligationClass::Declaration.as_str(), "declaration");
    assert_eq!(ObligationClass::CallSite.as_str(), "call-site");
    assert_eq!(ObligationClass::ReturnSite.as_str(), "return-site");
    assert!(!ObligationClass::Declaration.is_entailment());
    assert!(ObligationClass::CallSite.is_entailment());
}

#[test]
fn the_shell_out_solver_defaults_to_mvl_on_the_path() {
    assert_eq!(ShellOutSolver::new().binary(), "mvl");
    assert_eq!(
        ShellOutSolver::with_binary("/opt/mvl/bin/mvl".to_string()).binary(),
        "/opt/mvl/bin/mvl"
    );
}

// ── Tools and levels ───────────────────────────────────────────────────────

#[test]
fn tool_order_is_limit_total_refine_effect_ifc() {
    assert_eq!(TOOL_ORDER, ["limit", "total", "refine", "effect", "ifc"]);
}

#[test]
fn levels_have_lowercase_wire_names() {
    assert_eq!(level_str(Level::Error), "error");
    assert_eq!(level_str(Level::Warning), "warning");
    assert_eq!(level_str(Level::Note), "note");
}

// ── Labels ─────────────────────────────────────────────────────────────────

#[test]
fn tainted_string_requires_explicit_trust_to_declassify() {
    let raw: Tainted<String> = Tainted("from the environment".to_string());
    let trusted: String = trust(raw, "LOG-PATH-001");
    assert_eq!(trusted, "from the environment");
}

#[test]
fn secret_string_requires_explicit_trust_to_declassify() {
    let secret: Secret<String> = Secret("hunter2".to_string());
    let revealed: String = trust(secret, "AUDIT-042");
    assert_eq!(revealed, "hunter2");
}

#[test]
fn a_labeled_value_unwraps_to_what_was_wrapped() {
    let labeled: Labeled<u8, Vec<i32>> = Labeled::new(vec![1, 2, 3]);
    assert_eq!(labeled.into_inner(), vec![1, 2, 3]);
}

// ── Error records and timestamps ───────────────────────────────────────────

use mvl_rust::report::{current_timestamp, error_record};

#[test]
fn an_error_record_is_located_at_the_file_alone() {
    let record = error_record("src/lib.rs", "failed to read: gone");
    assert_eq!(record.level, "error");
    assert_eq!(record.message, "failed to read: gone");
    assert_eq!(record.provenance, "src/lib.rs");
    assert_eq!(record.label, None);
    assert_eq!(record.suggestion, None);
}

#[test]
fn a_timestamp_is_decimal_epoch_seconds() {
    let stamp = current_timestamp();
    assert!(!stamp.is_empty());
    assert!(stamp.chars().all(|c| c.is_ascii_digit()));
    assert!(stamp.parse::<u64>().unwrap() > 1_600_000_000);
}

// ── Reports ────────────────────────────────────────────────────────────────

use mvl_rust::diagnostics::Diagnostic;
use mvl_rust::from_syn::parse_rust_file;
use mvl_rust::report::{build_check_report, build_prove_report, diagnostic_to_record};
use mvl_rust::syntax::{Kind, Loc};

/// The span of the body of the first function.
fn sample_span() -> Loc {
    let file = parse_rust_file("fn f() { unsafe {} }").unwrap();
    file.children[0].children.iter().find(|n| n.kind == Kind::BlockNode).unwrap().span
}

#[test]
fn build_check_report_populates_check_section_only() {
    let diagnostic = Diagnostic::new(Level::Warning, "warn message".to_string(), sample_span());
    let record = diagnostic_to_record(&diagnostic, "src/lib.rs");

    let report = build_check_report("rust-limit", "2026-07-27T00:00:00Z", vec![record]);

    assert_eq!(report.target.crate_name, "rust-limit");
    let check = report.check.expect("check section should be populated");
    assert_eq!(check.diagnostics.len(), 1);
    assert_eq!(check.diagnostics[0].level, "warning");
    assert!(check.obligations.is_empty());
    assert!(report.prove.is_none());
    assert!(report.test.is_none());
}

#[test]
fn build_prove_report_populates_prove_section_only() {
    let obligation = Obligation {
        id: "f::requires#0".to_string(),
        predicate: "x >= 0".to_string(),
        provenance: "src/lib.rs:1:1".to_string(),
        kind: ObligationClass::Declaration,
    };
    let result = DischargeResult::Proven { layer: Layer::L2 };

    let report = build_prove_report("rust-refine", "2026-07-27T00:00:00Z", &[(obligation, result)]);

    assert_eq!(report.target.crate_name, "rust-refine");
    let prove = report.prove.expect("prove section should be populated");
    assert_eq!(prove.obligations.len(), 1);
    assert_eq!(prove.obligations[0].id, "f::requires#0");
    assert!(report.check.is_none());
    assert!(report.test.is_none());
}

#[test]
fn a_report_names_the_schema_version_and_time() {
    let report = build_check_report("t", "12", Vec::new());
    assert_eq!(report.version, "1.2");
    assert_eq!(report.target.timestamp, "12");
    assert_eq!(report.target.commit, None);
    assert!(report.coverage.is_none());
}
