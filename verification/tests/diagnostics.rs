//! Rendering diagnostics in rustc's source-caret style, and their report
//! records.

use mvl_rust::diagnostics::{Diagnostic, Level};
use mvl_rust::from_syn::parse_rust_file;
use mvl_rust::report::diagnostic_to_record;
use mvl_rust::syntax::{Kind, Loc};

/// The span of the first attribute of the first item.
fn attr_span(source: &str) -> Loc {
    let file = parse_rust_file(source).unwrap();
    let item = &file.children[0];
    assert_eq!(item.kind, Kind::FnItem);
    assert_eq!(item.children[0].kind, Kind::Attr);
    item.children[0].span
}

/// The span of the body of the first function.
fn sample_span() -> Loc {
    let file = parse_rust_file("fn f() { unsafe {} }").unwrap();
    let item = &file.children[0];
    let body = item.children.iter().find(|n| n.kind == Kind::BlockNode).unwrap();
    body.span
}

#[test]
fn total_violation_includes_span_message_and_suggestion() {
    let source = "#[total] fn f(x: Option<i32>) -> i32 { match x { Some(n) => n } }";
    let diagnostic = Diagnostic::new(
        Level::Error,
        "non-exhaustive match under `#[total]`: variant `None` not handled".to_string(),
        attr_span(source),
    )
    .with_label("this function is marked #[total]".to_string())
    .with_suggestion("add a `None => ...` arm to the match".to_string());

    let rendered = diagnostic.render(source, "src/lib.rs");

    assert!(rendered.contains("non-exhaustive match under `#[total]`"));
    assert!(rendered.contains("this function is marked #[total]"));
    assert!(rendered.contains("src/lib.rs"));
    assert!(rendered.contains("#[total]"));
    assert!(rendered.contains("help: add a `None => ...` arm to the match"));
}

#[test]
fn renders_with_rustc_style_source_caret_formatting() {
    let source = "#[total] fn f(x: Option<i32>) -> i32 { match x { Some(n) => n } }";
    let diagnostic = Diagnostic::new(
        Level::Error,
        "non-exhaustive match under `#[total]`: variant `None` not handled".to_string(),
        attr_span(source),
    )
    .with_label("this function is marked #[total]".to_string());

    let rendered = diagnostic.render(source, "src/lib.rs");

    let expected = "\
error: non-exhaustive match under `#[total]`: variant `None` not handled
 --> src/lib.rs:1:1
  |
1 | #[total] fn f(x: Option<i32>) -> i32 { match x { Some(n) => n } }
  | ^^^^^^^^ this function is marked #[total]
  |";
    assert_eq!(rendered, expected);
}

#[test]
fn an_unlabelled_warning_points_with_here() {
    let source = "fn f() {\n    unsafe {}\n}\n";
    let span = Loc { start: 13, end: 22, line: 2, column: 4 };
    let rendered = Diagnostic::new(Level::Warning, "w".to_string(), span).render(source, "a.rs");
    assert!(rendered.starts_with("warning: w\n"));
    assert!(rendered.contains(" --> a.rs:2:5"));
    assert!(rendered.contains("--------- here"), "{rendered}");
    assert!(!rendered.contains("help:"));
}

#[test]
fn diagnostic_to_record_formats_provenance_as_file_line_col() {
    let diagnostic = Diagnostic::new(Level::Error, "test message".to_string(), sample_span())
        .with_label("test label".to_string())
        .with_suggestion("test suggestion".to_string());

    let record = diagnostic_to_record(&diagnostic, "src/lib.rs");

    assert_eq!(record.level, "error");
    assert_eq!(record.message, "test message");
    assert_eq!(record.provenance, "src/lib.rs:1:8");
    assert_eq!(record.label.as_deref(), Some("test label"));
    assert_eq!(record.suggestion.as_deref(), Some("test suggestion"));
}

#[test]
fn a_record_keeps_an_absent_label_absent() {
    let span = Loc { start: 0, end: 1, line: 3, column: 0 };
    let record = diagnostic_to_record(&Diagnostic::new(Level::Note, "n".to_string(), span), "x.rs");
    assert_eq!(record.level, "note");
    assert_eq!(record.provenance, "x.rs:3:1");
    assert_eq!(record.label, None);
    assert_eq!(record.suggestion, None);
}
