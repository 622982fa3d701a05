//! The source checks: the qualified-subset lints, effect propagation and
//! label enforcement, run on source text.

use mvl_rust::diagnostics::Level;
use mvl_rust::effects;
use mvl_rust::ifc;
use mvl_rust::from_syn::parse_rust_file;
use mvl_rust::limits::{check_lint, check_source, Lint};

// ── Qualified subset ───────────────────────────────────────────────────────

#[test]
fn forbidden_construct_rejected() {
    let source = "fn f() { unsafe { std::ptr::null::<i32>(); } }";
    let diagnostics = check_source(source).unwrap();
    assert_eq!(diagnostics.len(), 1);
    assert!(diagnostics[0].message.contains("unsafe"));
    assert!(diagnostics[0].message.contains("outside the qualified subset"));
}

#[test]
fn whitelisted_construct_accepted() {
    let source = r#"
        fn f(x: &i32) -> Option<i32> {
            let y: Result<i32, ()> = Ok(*x);
            println!("{:?}", y);
            match y {
                Ok(v) => Some(v),
                Err(_) => None,
            }
        }
    "#;
    let diagnostics = check_source(source).unwrap();
    assert!(diagnostics.is_empty(), "expected no diagnostics, got {diagnostics:?}");
}

#[test]
fn unsafe_fn_rejected() {
    let diagnostics = check_source("unsafe fn f() {}").unwrap();
    assert_eq!(diagnostics.len(), 1);
    assert!(diagnostics[0].message.contains("unsafe fn"));
}

#[test]
fn unsafe_impl_rejected() {
    let source = "struct S; unsafe impl Send for S {}";
    let diagnostics = check_source(source).unwrap();
    assert_eq!(diagnostics.len(), 1);
    assert!(diagnostics[0].message.contains("unsafe impl"));
}

#[test]
fn unsafe_trait_rejected() {
    let diagnostics = check_source("unsafe trait Marker {}").unwrap();
    assert_eq!(diagnostics.len(), 1);
    assert!(diagnostics[0].message.contains("unsafe trait"));
}

#[test]
fn dyn_trait_rejected() {
    let source = "fn f(x: &dyn std::fmt::Debug) {}";
    let diagnostics = check_source(source).unwrap();
    assert_eq!(diagnostics.len(), 1);
    assert!(diagnostics[0].message.contains("dyn Trait"));
}

#[test]
fn box_dyn_any_gets_a_friendlier_message() {
    let source = "fn f(x: Box<dyn std::any::Any>) {}";
    let diagnostics = check_source(source).unwrap();
    assert_eq!(diagnostics.len(), 1);
    assert!(diagnostics[0].message.contains("dyn Any"));
    assert!(diagnostics[0].message.contains("type erasure"));
}

#[test]
fn explicit_lifetime_rejected() {
    let source = "fn f<'a>(x: &'a i32) -> &'a i32 { x }";
    let diagnostics = check_source(source).unwrap();
    assert_eq!(diagnostics.len(), 3);
    assert!(diagnostics.iter().all(|d| d.message.contains("explicit lifetime")));
}

#[test]
fn static_and_placeholder_lifetimes_are_allowed() {
    let source = r#"
        fn f(x: &'static str) -> &'_ str {
            x
        }
    "#;
    let diagnostics = check_source(source).unwrap();
    assert!(diagnostics.is_empty(), "expected no diagnostics, got {diagnostics:?}");
}

#[test]
fn macro_outside_allowlist_rejected() {
    let source = "fn f() { my_custom_macro!(); }";
    let diagnostics = check_source(source).unwrap();
    assert_eq!(diagnostics.len(), 1);
    assert!(diagnostics[0].message.contains("my_custom_macro"));
    assert!(diagnostics[0].message.contains("curated allowlist"));
}

#[test]
fn macro_rules_definition_itself_is_not_flagged() {
    let source = r#"
        macro_rules! my_macro {
            () => {
                println!("hi")
            };
        }
        fn f() {
            my_macro!();
        }
    "#;
    let diagnostics = check_source(source).unwrap();
    assert_eq!(diagnostics.len(), 1);
    assert!(diagnostics[0].message.contains("my_macro"));
}

#[test]
fn allowlisted_macros_are_accepted() {
    let source = r#"fn f() { println!("hi"); let v = vec![1, 2, 3]; assert_eq!(v.len(), 3); }"#;
    let diagnostics = check_source(source).unwrap();
    assert!(diagnostics.is_empty(), "expected no diagnostics, got {diagnostics:?}");
}

#[test]
fn transmute_call_rejected() {
    let source = "fn f(x: u32) -> i32 { unsafe { std::mem::transmute(x) } }";
    let diagnostics = check_source(source).unwrap();
    assert_eq!(diagnostics.len(), 2);
    assert!(diagnostics.iter().any(|d| d.message.contains("transmute")));
}

#[test]
fn raw_address_of_rejected() {
    let source = "fn f(x: &i32) -> *const i32 { &raw const *x }";
    let diagnostics = check_source(source).unwrap();
    assert_eq!(diagnostics.len(), 1);
    assert!(diagnostics[0].message.contains("raw address-of"));
}

#[test]
fn qualified_subset_malformed_source_returns_parse_error() {
    let result = check_source("fn f( {{{");
    assert!(result.is_err());
}

#[test]
fn lint_diagnostics_point_at_the_offending_syntax() {
    let source = "fn f() {\n    unsafe { }\n}";
    let diagnostics = check_source(source).unwrap();
    assert_eq!(diagnostics.len(), 1);
    let d = &diagnostics[0];
    assert_eq!(d.level, Level::Error);
    assert_eq!(d.label.as_deref(), Some("unsafe block"));
    assert_eq!(d.span.line, 2);
    assert_eq!(d.span.column, 4);
    assert_eq!(&source[d.span.start..d.span.end], "unsafe");
}

#[test]
fn lints_report_in_rule_order() {
    let source = "fn f<'a>(x: &'a dyn Fn()) { unsafe {} }";
    let diagnostics = check_source(source).unwrap();
    let labels: Vec<&str> = diagnostics.iter().map(|d| d.label.as_deref().unwrap()).collect();
    assert_eq!(
        labels,
        ["unsafe block", "trait object", "explicit lifetime", "explicit lifetime"]
    );
}

// ── Effects ────────────────────────────────────────────────────────────────

#[test]
fn pure_calling_pure_is_fine() {
    let diagnostics = effects::check_source("fn a() {} fn b() { a(); }").unwrap();
    assert!(diagnostics.is_empty());
}

#[test]
fn pure_calling_effectful_is_an_error() {
    let diagnostics =
        effects::check_source("#[mvl::effect(Console)] fn log() {} fn f() { log(); }").unwrap();
    assert_eq!(diagnostics.len(), 1);
    assert!(diagnostics[0].message.contains("Console"));
}

#[test]
fn effectful_calling_effectful_with_full_declaration_is_fine() {
    let diagnostics = effects::check_source(
        "#[mvl::effect(Console)] fn log() {} \
         #[mvl::effect(Console)] fn f() { log(); }",
    )
    .unwrap();
    assert!(diagnostics.is_empty());
}

#[test]
fn effectful_calling_effectful_with_missing_declaration_is_an_error() {
    let diagnostics = effects::check_source(
        "#[mvl::effect(Console, Net)] fn fetch_and_log() {} \
         #[mvl::effect(Console)] fn f() { fetch_and_log(); }",
    )
    .unwrap();
    assert_eq!(diagnostics.len(), 1);
    assert!(diagnostics[0].message.contains("Net"));
    assert!(!diagnostics[0].message.contains("Console,"));
}

#[test]
fn explicit_empty_effect_attr_is_pure() {
    let diagnostics = effects::check_source(
        "#[mvl::effect(Console)] fn log() {} \
         #[mvl::effect()] fn f() { log(); }",
    )
    .unwrap();
    assert_eq!(diagnostics.len(), 1);
}

#[test]
fn call_to_unresolvable_function_is_silently_skipped() {
    let diagnostics = effects::check_source("fn f() { external_crate_fn(); }").unwrap();
    assert!(diagnostics.is_empty());
}

#[test]
fn an_explicit_purity_claim_is_not_verified_against_unresolvable_calls() {
    let diagnostics = effects::check_source(
        "#[mvl::effect()] fn wall_clock() -> i64 { \
             std::time::SystemTime::now().elapsed().unwrap().as_secs() as i64 \
         } \
         #[mvl::effect()] fn counter(c: &std::cell::Cell<i64>) -> i64 { \
             c.set(c.get() + 1); c.get() \
         }",
    )
    .unwrap();
    assert_eq!(diagnostics.len(), 2);
    for diagnostic in &diagnostics {
        assert_eq!(diagnostic.level, Level::Note);
        assert!(diagnostic.message.contains("not verified"));
    }
    assert!(diagnostics[0].message.contains("wall_clock"));
    assert!(diagnostics[1].message.contains("counter"));
}

#[test]
fn implicit_pure_function_with_unresolvable_calls_stays_silent() {
    let diagnostics = effects::check_source(
        "fn f(c: &std::cell::Cell<i64>) -> i64 { c.set(c.get() + 1); c.get() }",
    )
    .unwrap();
    assert!(diagnostics.is_empty());
}

#[test]
fn explicit_non_empty_effect_with_unresolvable_calls_stays_silent() {
    let diagnostics = effects::check_source(
        "#[mvl::effect(Console)] fn f(c: &std::cell::Cell<i64>) -> i64 { \
             c.set(c.get() + 1); c.get() \
         }",
    )
    .unwrap();
    assert!(diagnostics.is_empty());
}

#[test]
fn self_recursive_call_is_always_fine() {
    let diagnostics = effects::check_source(
        "#[mvl::effect(Console)] fn f(n: i32) { if n > 0 { f(n - 1); } }",
    )
    .unwrap();
    assert!(diagnostics.is_empty());
}

#[test]
fn checks_malformed_source_returns_parse_error() {
    assert!(effects::check_source("fn f( {{{").is_err());
    assert!(ifc::check_source("fn f( {{{").is_err());
}

#[test]
fn an_impl_method_declaring_the_same_effect_as_its_callee_is_fine() {
    let diagnostics = effects::check_source(
        "#[mvl::effect(Console)] fn log() {} \
         struct T; \
         impl T { \
             #[mvl::effect(Console)] \
             fn f(&self) { log(); } \
         }",
    )
    .unwrap();
    assert!(diagnostics.is_empty());
}

#[test]
fn an_impl_method_missing_a_declared_effect_is_an_error() {
    let diagnostics = effects::check_source(
        "#[mvl::effect(Console)] fn log() {} \
         struct T; \
         impl T { \
             fn f(&self) { log(); } \
         }",
    )
    .unwrap();
    assert_eq!(diagnostics.len(), 1);
    assert!(diagnostics[0].message.contains("Console"));
}

#[test]
fn a_method_and_a_free_function_with_the_same_name_have_independent_effects() {
    let diagnostics = effects::check_source(
        "#[mvl::effect(Console)] fn f() {} \
         struct T; \
         impl T { \
             #[mvl::effect(Console)] \
             fn f(&self) {} \
         }",
    )
    .unwrap();
    assert!(diagnostics.is_empty());
}

#[test]
fn missing_effects_are_listed_sorted_and_once() {
    let diagnostics = effects::check_source(
        "#[mvl::effect(Time, Net, Console, Net)] fn fetch() {} \
         #[mvl::effect(Console)] fn f() { fetch(); }",
    )
    .unwrap();
    assert_eq!(diagnostics.len(), 1);
    assert_eq!(
        diagnostics[0].message,
        "`f` calls effectful `fetch` without declaring: Net, Time"
    );
    assert_eq!(diagnostics[0].label.as_deref(), Some("undeclared effect propagation"));
}

#[test]
fn the_purity_note_counts_the_unresolvable_calls() {
    let diagnostics =
        effects::check_source("#[mvl::effect()] fn f(v: Vec<i32>) { v.len(); g(); h::i(); }").unwrap();
    assert_eq!(diagnostics.len(), 1);
    assert_eq!(
        diagnostics[0].message,
        "`f` claims purity via `#[mvl::effect()]`, but this is not verified: 3 unresolvable call(s)"
    );
}

// ── Labels ─────────────────────────────────────────────────────────────────

#[test]
fn matching_relabel_declassify_is_fine() {
    let diagnostics = ifc::check_source(
        r#"#[mvl::relabel(from = "Tainted", to = "_", audit)]
           fn trust<T>(value: Tainted<T>, tag: &'static str) -> T { value.into_inner() }"#,
    )
    .unwrap();
    assert!(diagnostics.is_empty());
}

#[test]
fn declassify_without_relabel_is_an_error() {
    let diagnostics =
        ifc::check_source("fn leak<T>(value: Tainted<T>) -> T { value.into_inner() }").unwrap();
    assert_eq!(diagnostics.len(), 1);
    assert!(diagnostics[0].message.contains("Tainted"));
}

#[test]
fn declassify_with_mismatched_relabel_is_an_error() {
    let diagnostics = ifc::check_source(
        r#"#[mvl::relabel(from = "Secret", to = "_", audit)]
           fn leak<T>(value: Tainted<T>) -> T { value.into_inner() }"#,
    )
    .unwrap();
    assert_eq!(diagnostics.len(), 1);
}

#[test]
fn matching_relabel_classify_is_fine() {
    let diagnostics = ifc::check_source(
        r#"#[mvl::relabel(from = "_", to = "Tainted", audit)]
           fn taint(value: String) -> Tainted<String> { Tainted::new(value) }"#,
    )
    .unwrap();
    assert!(diagnostics.is_empty());
}

#[test]
fn classify_without_relabel_is_an_error() {
    let diagnostics =
        ifc::check_source("fn taint(value: String) -> Tainted<String> { Tainted::new(value) }")
            .unwrap();
    assert_eq!(diagnostics.len(), 1);
    assert!(diagnostics[0].message.contains("Tainted"));
}

#[test]
fn direct_labeled_form_is_recognized() {
    let diagnostics =
        ifc::check_source("fn leak<T>(value: Labeled<PhiLabel, T>) -> T { value.into_inner() }")
            .unwrap();
    assert_eq!(diagnostics.len(), 1);
    assert!(diagnostics[0].message.contains("PhiLabel"));
}

#[test]
fn multi_hop_chain_is_fine_as_two_independent_hops() {
    let diagnostics = ifc::check_source(
        r#"#[mvl::relabel(from = "Tainted", to = "Reviewed", audit)]
           fn step1(value: Tainted<String>) -> String { value.into_inner() }
           #[mvl::relabel(from = "_", to = "Reviewed", audit)]
           fn wrap_reviewed(value: String) -> Labeled<Reviewed, String> { Labeled::<Reviewed, _>::new(value) }"#,
    )
    .unwrap();
    assert!(diagnostics.is_empty());
}

#[test]
fn unrelated_into_inner_on_refcell_is_not_flagged() {
    let diagnostics =
        ifc::check_source("fn f(cell: std::cell::RefCell<i32>) -> i32 { cell.into_inner() }")
            .unwrap();
    assert!(diagnostics.is_empty());
}

#[test]
fn bare_labeled_new_without_turbofish_is_a_known_gap_not_flagged() {
    let diagnostics = ifc::check_source(
        "fn taint(value: String) -> Labeled<TaintedLabel, String> { Labeled::new(value) }",
    )
    .unwrap();
    assert!(diagnostics.is_empty());
}

#[test]
fn label_diagnostics_spell_out_the_missing_relabel() {
    let source = "fn leak(value: Secret<u8>) -> u8 { value.into_inner() }";
    let diagnostics = ifc::check_source(source).unwrap();
    assert_eq!(
        diagnostics[0].message,
        "`leak` strips label `Secret` via `.into_inner()` without a matching `#[mvl::relabel(from = \"Secret\", ..)]`"
    );
    assert_eq!(&source[diagnostics[0].span.start..diagnostics[0].span.end], "into_inner");
    let diagnostics = ifc::check_source("fn wrap(v: u8) -> Secret<u8> { mvl::Secret::new(v) }").unwrap();
    assert_eq!(
        diagnostics[0].message,
        "`wrap` constructs label `Secret` without a matching `#[mvl::relabel(.., to = \"Secret\")]`"
    );
    assert_eq!(diagnostics[0].label.as_deref(), Some("illegal classification"));
}

// ── The tool suite ─────────────────────────────────────────────────────────

use mvl_rust::diagnostics::TOOL_ORDER;
use mvl_rust::suite::{check_single, check_source as suite_check, results_to_records, ToolOutcome};

/// The totality verdict on a text with nothing to report.
fn no_totality_findings() -> Result<Vec<mvl_rust::diagnostics::Diagnostic>, String> {
    Ok(Vec::new())
}

#[test]
fn check_source_runs_all_five_tools_in_order() {
    let results = suite_check("fn f() {}", no_totality_findings());
    let names: Vec<&str> = results.iter().map(|r| r.tool).collect();
    assert_eq!(names, TOOL_ORDER);
}

#[test]
fn limit_runs_for_real_and_finds_a_violation() {
    let results = suite_check("fn f() { unsafe {} }", no_totality_findings());
    let limit = results.iter().find(|r| r.tool == "limit").unwrap();
    match &limit.outcome {
        ToolOutcome::Ran(diagnostics) => assert_eq!(diagnostics.len(), 1),
        other => panic!("expected Ran(_), got {other:?}"),
    }
}

#[test]
fn clean_source_has_no_diagnostics_from_implemented_tools() {
    let results = suite_check("fn f() -> i32 { 1 }", no_totality_findings());
    for tool in ["limit", "total"] {
        let result = results.iter().find(|r| r.tool == tool).unwrap();
        match &result.outcome {
            ToolOutcome::Ran(diagnostics) => {
                assert!(diagnostics.is_empty(), "{tool}: expected no diagnostics")
            }
            other => panic!("expected Ran(_) for {tool}, got {other:?}"),
        }
    }
}

#[test]
fn refine_effect_ifc_are_reported_not_yet_implemented() {
    let results = suite_check("fn f() {}", no_totality_findings());
    for tool in ["refine", "effect", "ifc"] {
        let result = results.iter().find(|r| r.tool == tool).unwrap();
        assert!(
            matches!(result.outcome, ToolOutcome::NotYetImplemented { .. }),
            "{tool}: expected NotYetImplemented, got {:?}",
            result.outcome
        );
    }
}

#[test]
fn check_single_runs_only_the_named_tool() {
    let result = check_single("limit", "fn f() { unsafe {} }", no_totality_findings()).unwrap();
    assert_eq!(result.tool, "limit");
    assert!(matches!(result.outcome, ToolOutcome::Ran(_)));
}

#[test]
fn check_single_returns_none_for_an_unknown_tool() {
    assert!(check_single("nonexistent", "fn f() {}", no_totality_findings()).is_none());
}

#[test]
fn check_single_reports_not_yet_implemented_for_refine() {
    let result = check_single("refine", "fn f() {}", no_totality_findings()).unwrap();
    match result.outcome {
        ToolOutcome::NotYetImplemented { tracking_issue } => assert_eq!(tracking_issue, "#8"),
        other => panic!("expected NotYetImplemented, got {other:?}"),
    }
}

#[test]
fn malformed_source_yields_a_parse_error_for_implemented_tools() {
    let results = suite_check("fn f( {{{", Err("failed to parse source as Rust".to_string()));
    for tool in ["limit", "total"] {
        let result = results.iter().find(|r| r.tool == tool).unwrap();
        assert!(
            matches!(result.outcome, ToolOutcome::Error(_)),
            "{tool}: expected Error(_), got {:?}",
            result.outcome
        );
    }
}

#[test]
fn the_limit_parse_error_names_the_parse_failure() {
    let result = check_single("limit", "fn f( {{{", no_totality_findings()).unwrap();
    match result.outcome {
        ToolOutcome::Error(message) => {
            assert!(message.starts_with("failed to parse source as Rust: "))
        }
        other => panic!("expected Error(_), got {other:?}"),
    }
}

#[test]
fn the_totality_verdict_is_reported_under_total() {
    let result = check_single("total", "fn f() {}", Err("boom".to_string())).unwrap();
    assert_eq!(result.tool, "total");
    match result.outcome {
        ToolOutcome::Error(message) => assert_eq!(message, "boom"),
        other => panic!("expected Error(_), got {other:?}"),
    }
}

#[test]
fn one_lint_reports_only_its_own_constructs() {
    let file = parse_rust_file("fn f<'a>(x: &'a dyn Fn()) { unsafe {} }").unwrap();
    assert_eq!(check_lint(Lint::Unsafe, &file).len(), 1);
    assert_eq!(check_lint(Lint::DynTrait, &file).len(), 1);
    assert_eq!(check_lint(Lint::Lifetime, &file).len(), 2);
    assert_eq!(check_lint(Lint::Macro, &file).len(), 0);
    assert_eq!(check_lint(Lint::RawAddr, &file).len(), 0);
}

#[test]
fn the_records_of_a_run_follow_the_tool_order() {
    let results = suite_check("fn f() { unsafe {} }", Err("boom".to_string()));
    let records = results_to_records(&results, "a.rs");
    assert_eq!(records.len(), 2);
    assert_eq!(records[0].level, "error");
    assert!(records[0].message.contains("unsafe"));
    assert!(records[0].provenance.starts_with("a.rs:1:"));
    assert_eq!(records[1].message, "total: boom");
    assert_eq!(records[1].provenance, "a.rs");
}
