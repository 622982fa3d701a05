//! MC/DC bookkeeping: obligation ids, test tags, the harvest join,
//! mutants and their application, and per-decision discharge.

use mvl_rust::decision::{to_records, Decision, DecisionOp};
use mvl_rust::discharge::{outcome_of, MutationRun};
use mvl_rust::harvest::{harvest, parse_tag, tagged_tests, TaggedTest};
use mvl_rust::mutate::{apply, mutants_for, Mutant};
use mvl_rust::obligation::{decision_hash, module_slug, obligation_id, ObligationRecord};
use mvl_rust::scanner::scan_source;

// ── Obligation ids ─────────────────────────────────────────────────────────

#[test]
fn module_slugs_tell_nested_modules_from_underscored_names() {
    assert_eq!(module_slug("src/a/b.rs"), "a_b");
    assert_eq!(module_slug("src/a_b.rs"), "a_0b");
    assert_ne!(module_slug("src/a/b.rs"), module_slug("src/a_b.rs"));
    assert_eq!(module_slug("src/a_/b.rs"), "a_0_b");
    assert_eq!(module_slug("src/a/_b.rs"), "a__0b");
    assert_eq!(module_slug("src/type_check/mod.rs"), "type_0check");
}

#[test]
fn module_slug_uses_the_module_path() {
    assert_eq!(module_slug("src/btree/delete.rs"), "btree_delete");
    assert_eq!(module_slug("src/vm/batch.rs"), "vm_batch");
    assert_eq!(module_slug("src/codegen/batch.rs"), "codegen_batch");
    assert_eq!(
        module_slug("src/codegen/row/select/aggregate.rs"),
        "codegen_row_select_aggregate"
    );
}

#[test]
fn module_slug_keeps_top_level_files_unqualified() {
    assert_eq!(module_slug("src/types.rs"), "types");
    assert_eq!(module_slug("src/lib.rs"), "lib");
    assert_eq!(module_slug("src/main.rs"), "main");
}

#[test]
fn module_slug_collapses_mod_rs_to_its_directory() {
    assert_eq!(module_slug("src/storage/row/vfs/mod.rs"), "storage_row_vfs");
    assert_eq!(module_slug("src/mod.rs"), "mod");
}

#[test]
fn module_slug_uses_the_last_src_component() {
    assert_eq!(module_slug("crates/db-core/src/vm/batch.rs"), "vm_batch");
    assert_eq!(module_slug("/abs/src/a/src/b/c.rs"), "b_c");
}

#[test]
fn module_slug_uses_the_whole_path_without_a_src_component() {
    assert_eq!(module_slug("tests/it.rs"), "tests_it");
    assert_eq!(module_slug("examples/demo/run.rs"), "examples_demo_run");
    assert_eq!(module_slug("./benches/bench.rs"), "benches_bench");
}

#[test]
fn module_slug_slugifies_non_alphanumeric_components() {
    assert_eq!(module_slug("src/my-mod.name.rs"), "my_mod_name");
    assert_eq!(module_slug("src/my-dir/x.rs"), "my_dir_x");
}

#[test]
fn decision_hash_is_eight_hex_chars_and_deterministic() {
    let h = decision_hash("a && b");
    assert_eq!(h.len(), 8);
    assert!(h.chars().all(|c| c.is_ascii_hexdigit()));
    assert_eq!(h, decision_hash("a && b"));
    assert_ne!(h, decision_hash("a || b"));
}

#[test]
fn decision_hash_ignores_whitespace_differences() {
    assert_eq!(decision_hash("a &&\n    b"), decision_hash("a && b"));
    assert_eq!(decision_hash("  a && b "), decision_hash("a && b"));
}

#[test]
fn decision_hash_of_the_fixture_decision() {
    assert_eq!(decision_hash("a || b"), "503cd493");
    assert_eq!(decision_hash("a ||   b"), "503cd493");
}

#[test]
fn obligation_id_is_module_slug_fn_and_decision_hash() {
    assert_eq!(
        obligation_id("src/btree/delete.rs", Some("remove"), "a && b"),
        format!("btree_delete_remove_{}", decision_hash("a && b"))
    );
    assert_eq!(
        obligation_id("src/btree/delete.rs", None, "a && b"),
        format!("btree_delete_{}", decision_hash("a && b"))
    );
    assert_eq!(
        obligation_id("src/x.rs", Some("r#match"), "a"),
        format!("x_r_match_{}", decision_hash("a"))
    );
    assert_ne!(
        obligation_id("src/vm/batch.rs", Some("f"), "x > 0"),
        obligation_id("src/codegen/batch.rs", Some("f"), "x > 0")
    );
    assert_ne!(
        obligation_id("src/vm/batch.rs", Some("f"), "x > 0"),
        obligation_id("src/vm/batch.rs", Some("g"), "x > 0")
    );
}

#[test]
fn fixture_ids_match_the_id_scheme() {
    assert_eq!(
        obligation_id("src/lib.rs", Some("decide"), "a || b"),
        "lib_decide_503cd493"
    );
    assert_eq!(
        obligation_id("src/vm/batch.rs", Some("decide"), "a || b"),
        "vm_batch_decide_503cd493"
    );
    assert_eq!(
        obligation_id("src/codegen/batch.rs", Some("decide"), "a || b"),
        "codegen_batch_decide_503cd493"
    );
}

// ── Tags ───────────────────────────────────────────────────────────────────

#[test]
fn parse_tag_extracts_id_and_vector_ignoring_trailing_description() {
    assert_eq!(
        parse_tag("mcdc__delete_60__v1_leaf_a_true"),
        Some(("delete_60".to_string(), 1))
    );
}

#[test]
fn parse_tag_handles_module_qualified_names() {
    assert_eq!(
        parse_tag("btree::tests::mcdc__delete_60__v2"),
        Some(("delete_60".to_string(), 2))
    );
}

#[test]
fn parse_tag_rejects_untagged_names() {
    assert_eq!(parse_tag("delete_a_single_row"), None);
}

#[test]
fn parse_tag_takes_the_last_vector_marker() {
    assert_eq!(
        parse_tag("mcdc__a__vb__v12"),
        Some(("a__vb".to_string(), 12))
    );
    assert_eq!(parse_tag("mcdc____v3"), None);
    assert_eq!(parse_tag("mcdc__x__v"), None);
    assert_eq!(parse_tag("mcdc__x__vq"), None);
}

const RUN: &str = "running 4 tests\n\
test tests::mcdc__lib_decide_503cd493__v1 ... ok\n\
test tests::mcdc__lib_decide_503cd493__v2 ... FAILED\n\
test tests::mcdc__lib_decide_503cd493__v3 ... ignored\n\
test tests::plain ... ok\n\
test tests::mcdc__other__v1 ... ok\n\
\n\
test result: FAILED. 3 passed; 1 failed; 1 ignored; 0 measured; 0 filtered out; finished in 0.01s\n";

#[test]
fn tagged_tests_reads_ok_and_failed_tagged_lines() {
    let tagged = tagged_tests(RUN);
    assert_eq!(tagged.len(), 3);
    assert_eq!(tagged[0].0, "lib_decide_503cd493");
    assert_eq!(
        tagged[0].1,
        TaggedTest {
            name: "tests::mcdc__lib_decide_503cd493__v1".to_string(),
            vector: 1,
            passed: true
        }
    );
    assert_eq!(tagged[1].1.vector, 2);
    assert!(!tagged[1].1.passed);
    assert_eq!(tagged[2].0, "other");
}

#[test]
fn an_oversized_vector_number_reads_as_untagged() {
    assert_eq!(parse_tag("mcdc__x__v4294967296"), None);
    assert_eq!(parse_tag("mcdc__x__v4294967295"), Some(("x".to_string(), u32::MAX)));
    let tagged = tagged_tests("test mcdc__x__v99999999999 ... ok\ntest mcdc__y__v2 ... ok\n");
    assert_eq!(tagged.len(), 1);
    assert_eq!(tagged[0].0, "y");
}

// ── The harvest join ───────────────────────────────────────────────────────

fn record(id: &str, file: &str, vectors_required: usize, compiler_void: bool) -> ObligationRecord {
    ObligationRecord {
        id: id.to_string(),
        file: file.to_string(),
        line: 2,
        decision: "a || b".to_string(),
        conditions: 2,
        vectors_required,
        compiler_void,
        wildcard_risk: false,
    }
}

fn tagged(id: &str, vector: u32, passed: bool) -> (String, TaggedTest) {
    (
        id.to_string(),
        TaggedTest {
            name: format!("mcdc__{id}__v{vector}"),
            vector,
            passed,
        },
    )
}

#[test]
fn all_vectors_passing_discharge_the_obligation() {
    let obligations = vec![record("lib_decide_503cd493", "src/lib.rs", 3, false)];
    let tests = vec![
        tagged("lib_decide_503cd493", 1, true),
        tagged("lib_decide_503cd493", 2, true),
        tagged("lib_decide_503cd493", 3, true),
    ];
    let out = harvest(&obligations, &tests);
    assert_eq!(out.len(), 1);
    assert!(out[0].discharged);
    assert_eq!(out[0].vectors_discharged, 3);
    assert_eq!(out[0].tagged_tests.len(), 3);
}

#[test]
fn a_missing_or_failing_vector_leaves_the_obligation_open() {
    let obligations = vec![record("lib_decide_503cd493", "src/lib.rs", 3, false)];
    let tests = vec![
        tagged("lib_decide_503cd493", 1, true),
        tagged("lib_decide_503cd493", 1, true),
        tagged("lib_decide_503cd493", 2, false),
        tagged("lib_decide_503cd493", 3, true),
    ];
    let out = harvest(&obligations, &tests);
    assert!(!out[0].discharged);
    assert_eq!(out[0].vectors_discharged, 2);
    assert_eq!(out[0].tagged_tests.len(), 4);
}

#[test]
fn tests_attribute_only_to_the_obligation_they_name() {
    let obligations = vec![
        record("vm_batch_decide_503cd493", "src/vm/batch.rs", 3, false),
        record("codegen_batch_decide_503cd493", "src/codegen/batch.rs", 3, false),
    ];
    let tests = vec![
        tagged("vm_batch_decide_503cd493", 1, true),
        tagged("vm_batch_decide_503cd493", 2, true),
        tagged("vm_batch_decide_503cd493", 3, true),
        tagged("codegen_batch_decide_503cd493", 1, true),
        tagged("unrelated", 2, true),
    ];
    let out = harvest(&obligations, &tests);
    assert!(out[0].discharged);
    assert!(!out[1].discharged);
    assert_eq!(out[1].vectors_discharged, 1);
    assert_eq!(out[1].file, "src/codegen/batch.rs");
}

#[test]
fn a_compiler_void_obligation_is_discharged_without_tests() {
    let obligations = vec![record("lib_f_00000000", "src/lib.rs", 0, true)];
    let out = harvest(&obligations, &[]);
    assert!(out[0].discharged);
    assert_eq!(out[0].vectors_discharged, 0);
}

// ── Decisions, records and mutants ─────────────────────────────────────────

fn span(source: &str, needle: &str, from: usize) -> (usize, usize) {
    let start = source[from..].find(needle).unwrap() + from;
    (start, start + needle.len())
}

/// The decision of `if a || b` (or `&&`) inside `fn f`.
fn two_leaf_decision(source: &str, op: &str) -> Decision {
    let if_at = source.find("if ").unwrap() + 3;
    let a = span(source, "a", if_at);
    let o = span(source, op, a.1);
    let b = span(source, "b", o.1);
    Decision {
        site_line: 1,
        enclosing_fn: Some("f".to_string()),
        text: source[a.0..b.1].to_string(),
        leaves: vec![a, b],
        ops: vec![DecisionOp {
            start: o.0,
            end: o.1,
            is_and: op == "&&",
        }],
        compiler_void: false,
        wildcard_risk: false,
    }
}

#[test]
fn compiler_void_decision_has_no_mutants() {
    let source = "fn f(x: Option<i32>) -> i32 { match x { Some(n) => n, None => 0 } }";
    let decisions = scan_source(source).unwrap();
    let match_decision = decisions.iter().find(|d| d.compiler_void).unwrap();
    assert!(mutants_for(match_decision).is_empty());
}

#[test]
fn two_leaf_or_decision_yields_five_mutants() {
    let source = "fn f(a: bool, b: bool) { if a || b { } }";
    let decisions = scan_source(source).unwrap();
    let decision = &decisions[0];
    let mutants = mutants_for(decision);
    assert_eq!(mutants.len(), 5);
}

#[test]
fn apply_replaces_only_the_targeted_range() {
    let source = "fn f(a: bool, b: bool) { if a || b { } }";
    let decisions = scan_source(source).unwrap();
    let mutant = &mutants_for(&decisions[0])[0];
    let mutated = apply(source, mutant);
    assert_ne!(mutated, source);
    assert_eq!(mutated.len(), source.len() - "a".len() + "true".len());
}

#[test]
fn scanned_decisions_match_their_hand_written_spans() {
    let source = "fn f(a: bool, b: bool) { if a || b { } }";
    let scanned = &scan_source(source).unwrap()[0];
    let expected = two_leaf_decision(source, "||");
    assert_eq!(scanned.text, expected.text);
    assert_eq!(scanned.leaves, expected.leaves);
    assert_eq!(scanned.ops[0].start, expected.ops[0].start);
    assert_eq!(scanned.ops[0].end, expected.ops[0].end);
    assert_eq!(scanned.enclosing_fn.as_deref(), Some("f"));
    assert_eq!(scanned.line(), 1);
}

#[test]
fn mutants_force_each_leaf_then_flip_each_operator() {
    let source = "fn f(a: bool, b: bool) { if a || b { } }";
    let decision = two_leaf_decision(source, "||");
    let mutants = mutants_for(&decision);
    let described: Vec<&str> = mutants.iter().map(|m| m.description.as_str()).collect();
    assert_eq!(
        described,
        [
            "condition 0 forced to `true`",
            "condition 0 forced to `false`",
            "condition 1 forced to `true`",
            "condition 1 forced to `false`",
            "operator 0 flipped from `||` to `&&`",
        ]
    );
    assert_eq!(
        apply(source, &mutants[3]),
        "fn f(a: bool, b: bool) { if a || false { } }"
    );
    assert_eq!(
        apply(source, &mutants[4]),
        "fn f(a: bool, b: bool) { if a && b { } }"
    );
}

#[test]
fn apply_keeps_multibyte_text_around_the_range() {
    let source = "é || ü";
    let mutant = Mutant {
        description: "operator 0 flipped from `||` to `&&`".to_string(),
        range: 3..5,
        replacement: "&&".to_string(),
    };
    assert_eq!(apply(source, &mutant), "é && ü");
}

#[test]
fn to_records_ids_survive_line_shifts_and_reformatting() {
    let before = "fn f(a: bool, b: bool) { if a && b { } }";
    let after = "// new comment\n\nuse std::fmt;\n\nfn f(a: bool, b: bool) {\n    if a\n        && b\n    {\n    }\n}";
    let id_before = to_records("src/x.rs", &scan_source(before).unwrap())[0]
        .id
        .clone();
    let shifted = to_records("src/x.rs", &scan_source(after).unwrap());
    assert_eq!(shifted[0].id, id_before);
    assert_ne!(shifted[0].line, 1, "the decision really did move");
    let edited = to_records(
        "src/x.rs",
        &scan_source("fn f(a: bool, b: bool) { if a || b { } }").unwrap(),
    );
    assert_ne!(edited[0].id, id_before);
}

#[test]
fn a_decision_is_discharged_only_when_every_mutant_is_killed() {
    let source = "fn f(a: bool, b: bool) { if a || b { } }";
    let decision = two_leaf_decision(source, "||");
    let all = outcome_of(&decision, &[true, true, true, true, true]);
    assert!(all.discharged());
    assert_eq!(all.mutants_killed, 5);
    assert!(all.survived_descriptions.is_empty());
    let some = outcome_of(&decision, &[true, false, true, true, false]);
    assert!(!some.discharged());
    assert_eq!(some.mutants_total, 5);
    assert_eq!(some.mutants_killed, 3);
    assert_eq!(
        some.survived_descriptions,
        [
            "condition 0 forced to `false`".to_string(),
            "operator 0 flipped from `||` to `&&`".to_string(),
        ]
    );
}

#[test]
fn a_compiler_void_decision_is_discharged_with_no_mutants() {
    let decision = Decision {
        site_line: 3,
        enclosing_fn: None,
        text: "match x { _ => 0 }".to_string(),
        leaves: vec![],
        ops: vec![],
        compiler_void: true,
        wildcard_risk: true,
    };
    let outcome = outcome_of(&decision, &[]);
    assert!(outcome.discharged());
    assert_eq!(outcome.mutants_total, 0);
    assert_eq!(outcome.line, 3);
}

// ── Scanning ───────────────────────────────────────────────────────────────

#[test]
fn single_condition_if_requires_two_vectors() {
    let source = "fn f(a: bool) { if a { } }";
    let decisions = scan_source(source).unwrap();
    assert_eq!(decisions.len(), 1);
    assert_eq!(decisions[0].leaves.len(), 1);
    assert_eq!(decisions[0].vectors_required(), 2);
    assert!(!decisions[0].compiler_void);
}

#[test]
fn two_condition_or_requires_three_vectors() {
    let source = "fn f(a: bool, b: bool) { if a || b { } }";
    let decisions = scan_source(source).unwrap();
    assert_eq!(decisions[0].leaves.len(), 2);
    assert_eq!(decisions[0].vectors_required(), 3);
    assert_eq!(decisions[0].ops.len(), 1);
    assert!(!decisions[0].ops[0].is_and);
}

#[test]
fn worked_example_delete_rs_decision() {
    let source =
        "fn f(remaining: &[u8], ancestors: &[u8]) { if !remaining.is_empty() || ancestors.is_empty() { } }";
    let decisions = scan_source(source).unwrap();
    assert_eq!(decisions[0].leaves.len(), 2);
    assert_eq!(decisions[0].vectors_required(), 3);
}

#[test]
fn while_condition_is_a_decision() {
    let source = "fn f(a: bool, b: bool) { while a && b { } }";
    let decisions = scan_source(source).unwrap();
    assert_eq!(decisions.len(), 1);
    assert_eq!(decisions[0].leaves.len(), 2);
    assert!(decisions[0].ops[0].is_and);
}

#[test]
fn match_is_compiler_void_and_guard_is_its_own_decision() {
    let source = "fn f(x: i32, a: bool) { match x { n if a => n, _ => 0 } }";
    let decisions = scan_source(source).unwrap();
    assert_eq!(decisions.len(), 2);
    let match_decision = decisions.iter().find(|d| d.compiler_void).unwrap();
    assert_eq!(match_decision.vectors_required(), 0);
    assert!(match_decision.wildcard_risk);
    let guard_decision = decisions.iter().find(|d| !d.compiler_void).unwrap();
    assert_eq!(guard_decision.leaves.len(), 1);
}

#[test]
fn fully_named_exhaustive_match_has_no_wildcard_risk() {
    let source = "fn f(x: Option<i32>) { match x { Some(n) => n, None => 0 } }";
    let decisions = scan_source(source).unwrap();
    assert_eq!(decisions.len(), 1);
    assert!(decisions[0].compiler_void);
    assert!(!decisions[0].wildcard_risk);
}

#[test]
fn wildcard_arm_flags_totality_risk() {
    let source = "fn f(x: i32) { match x { 0 => 1, _ => 0 } }";
    let decisions = scan_source(source).unwrap();
    assert_eq!(decisions.len(), 1);
    assert!(decisions[0].compiler_void);
    assert!(decisions[0].wildcard_risk);
}

#[test]
fn unguarded_catch_all_binding_is_not_detected_as_wildcard_risk() {
    let source = "fn f(x: i32) { match x { 0 => 1, other => other } }";
    let decisions = scan_source(source).unwrap();
    assert!(!decisions[0].wildcard_risk);
}

#[test]
fn guarded_wildcard_arm_is_not_wildcard_risk_on_its_own() {
    let source = "fn f(x: i32, a: bool) { match x { 0 => 1, _ if a => 0, _ => 1 } }";
    let decisions = scan_source(source).unwrap();
    let match_decision = decisions.iter().find(|d| d.compiler_void).unwrap();
    assert!(match_decision.wildcard_risk);
}

#[test]
fn if_let_is_an_opaque_single_leaf_decision() {
    let source = "fn f(x: Option<i32>) { if let Some(n) = x { let _ = n; } }";
    let decisions = scan_source(source).unwrap();
    assert_eq!(decisions.len(), 1);
    assert_eq!(decisions[0].leaves.len(), 1);
    assert_eq!(decisions[0].vectors_required(), 2);
    assert!(!decisions[0].compiler_void);
}

#[test]
fn let_chain_leaf_is_opaque_but_counted() {
    let source = "fn f(a: bool, x: Option<i32>) { if a && let Some(n) = x { let _ = n; } }";
    let decisions = scan_source(source).unwrap();
    assert_eq!(decisions.len(), 1);
    assert_eq!(decisions[0].leaves.len(), 2);
    assert_eq!(decisions[0].vectors_required(), 3);
    assert!(decisions[0].ops[0].is_and);
}

#[test]
fn three_leaf_chain_flattens_left_to_right() {
    let source = "fn f(a: bool, b: bool, c: bool) { if a && b || c { } }";
    let decisions = scan_source(source).unwrap();
    assert_eq!(decisions[0].leaves.len(), 3);
    assert_eq!(decisions[0].vectors_required(), 4);
    assert_eq!(decisions[0].leaf_texts(source), vec!["a", "b", "c"]);
    assert!(decisions[0].ops[0].is_and);
    assert!(!decisions[0].ops[1].is_and);
}

#[test]
fn parentheses_are_looked_through_when_flattening() {
    let source = "fn f(a: bool, b: bool, c: bool) { if (a || (b)) && !c { } }";
    let decisions = scan_source(source).unwrap();
    assert_eq!(decisions[0].leaf_texts(source), vec!["a", "b", "!c"]);
    assert_eq!(decisions[0].text, "(a || (b)) && !c");
}

#[test]
fn decisions_outside_a_fn_and_in_nested_fns_name_the_right_fn() {
    let source = "const C: bool = if true { true } else { false };
fn outer(a: bool) { fn inner(b: bool) { if b {} } if a {} }";
    let decisions = scan_source(source).unwrap();
    let fns: Vec<Option<&str>> = decisions.iter().map(|d| d.enclosing_fn.as_deref()).collect();
    assert_eq!(fns, [None, Some("inner"), Some("outer")]);
    assert_eq!(decisions[1].line(), 2);
}

#[test]
fn scanning_malformed_source_is_a_parse_error() {
    assert!(scan_source("fn f( {{{").is_err());
}

#[test]
fn to_records_ids_follow_the_scanned_enclosing_fn() {
    let source = "fn f(a: bool) { if a { } if a { } if !a { } }";
    let records = to_records("src/x.rs", &scan_source(source).unwrap());
    let ids: Vec<&str> = records.iter().map(|r| r.id.as_str()).collect();
    assert_eq!(ids[0], format!("x_f_{}", decision_hash("a")));
    assert_eq!(ids[1], format!("{}_2", ids[0]));
    assert_ne!(ids[2], ids[0]);
    assert!(!ids[2].ends_with("_2"));
    let fixture = "pub fn decide(a: bool, b: bool) -> bool {
    if a || b { true } else { false }
}
";
    let fixture_records = to_records("src/lib.rs", &scan_source(fixture).unwrap());
    assert_eq!(fixture_records[0].id, "lib_decide_503cd493");
}

// ── A mutation run over a file ─────────────────────────────────────────────

#[test]
fn a_mutation_run_hands_out_every_mutant_in_order() {
    let source = "fn f(a: bool, b: bool) { if a || b { } }";
    let mut run = MutationRun::start(source).unwrap();
    let mut texts = Vec::new();
    while let Some(text) = run.next_text() {
        texts.push(text);
        run.record(true);
    }
    assert_eq!(
        texts,
        [
            "fn f(a: bool, b: bool) { if true || b { } }",
            "fn f(a: bool, b: bool) { if false || b { } }",
            "fn f(a: bool, b: bool) { if a || true { } }",
            "fn f(a: bool, b: bool) { if a || false { } }",
            "fn f(a: bool, b: bool) { if a && b { } }",
        ]
    );
    assert!(run.is_finished());
    let outcomes = run.finish();
    assert_eq!(outcomes.len(), 1);
    assert_eq!(outcomes[0].mutants_total, 5);
    assert_eq!(outcomes[0].mutants_killed, 5);
    assert!(outcomes[0].discharged());
}

#[test]
fn a_survivor_leaves_its_decision_undischarged() {
    let source = "fn f(a: bool, b: bool) { if a || b { } while a { } }";
    let mut run = MutationRun::start(source).unwrap();
    let mut n = 0;
    while run.next_text().is_some() {
        // The third mutant (condition 1 forced to `true`) survives.
        run.record(n != 2);
        n += 1;
    }
    assert_eq!(n, 7);
    let outcomes = run.finish();
    assert_eq!(outcomes.len(), 2);
    assert!(!outcomes[0].discharged());
    assert_eq!(outcomes[0].mutants_killed, 4);
    assert_eq!(outcomes[0].survived_descriptions, ["condition 1 forced to `true`"]);
    assert!(outcomes[1].discharged());
    assert_eq!(outcomes[1].decision, "a");
}

#[test]
fn a_file_of_compiler_void_decisions_needs_no_test_run() {
    let source = "fn f(x: Option<i32>) -> i32 { match x { Some(v) => v, None => 0 } }";
    let run = MutationRun::start(source).unwrap();
    assert!(run.is_finished());
    assert!(run.next_text().is_none());
    let outcomes = run.finish();
    assert_eq!(outcomes.len(), 1);
    assert!(outcomes[0].compiler_void);
    assert!(outcomes[0].discharged());
}

#[test]
fn a_mutation_run_rejects_unparseable_source() {
    assert!(MutationRun::start("fn f( {{{").is_err());
}
