//! Recognizing the owned attributes and reading their arguments, and
//! finding `impl` methods.

use mvl_rust::attrs::MvlAttr;
use mvl_rust::expr::parse_rust_expr;
use mvl_rust::from_syn::parse_rust_file;
use mvl_rust::impl_methods::{flatten_items, impl_methods, impl_self_type_name};
use mvl_rust::predicate::Predicate;
use mvl_rust::syntax::{Kind, Node};

fn parse(src: &str) -> Node {
    parse_rust_file(src).expect("valid rust source")
}

fn attr_of_first_item(src: &str) -> Node {
    let file = parse(src);
    let item = file.children.into_iter().next().expect("an item");
    let attr = item.children.into_iter().next().expect("an attribute");
    assert_eq!(attr.kind, Kind::Attr);
    attr
}

#[test]
fn refine_is_no_longer_recognised() {
    for src in [
        "#[refine(x >= 0)] fn f(x: i32) -> i32 { x }",
        "#[mvl::refine(x >= 0)] fn f(x: i32) -> i32 { x }",
    ] {
        let attr = attr_of_first_item(src);
        assert!(MvlAttr::try_from_attribute(&attr).is_none(), "`{src}` must not be recognised");
    }
}

#[test]
fn parses_partial_attr_with_no_arguments() {
    for src in ["#[partial] fn f() {}", "#[mvl::partial] fn f() {}"] {
        let attr = attr_of_first_item(src);
        assert!(matches!(
            MvlAttr::try_from_attribute(&attr),
            Some(Ok(MvlAttr::Partial(_)))
        ));
    }
}

#[test]
fn parses_total_attr_with_no_arguments() {
    let attr = attr_of_first_item("#[total] fn f() {}");
    assert!(matches!(
        MvlAttr::try_from_attribute(&attr),
        Some(Ok(MvlAttr::Total(_)))
    ));
}

#[test]
fn parses_unchecked_attr_with_no_arguments() {
    let attr = attr_of_first_item("#[unchecked] fn f() {}");
    assert!(matches!(
        MvlAttr::try_from_attribute(&attr),
        Some(Ok(MvlAttr::Unchecked(_)))
    ));
}

#[test]
fn parses_decreases_attr() {
    let attr = attr_of_first_item("#[decreases(len - i)] fn f() {}");
    match MvlAttr::try_from_attribute(&attr) {
        Some(Ok(MvlAttr::Decreases(d))) => {
            let expected = parse_rust_expr("len - i").unwrap();
            assert_eq!(d.measure, expected);
        }
        other => panic!("expected Ok(Decreases(_)), got {other:?}"),
    }
}

#[test]
fn parses_effect_attr_with_multiple_effects() {
    let attr = attr_of_first_item("#[effect(Console, Time)] fn f() {}");
    match MvlAttr::try_from_attribute(&attr) {
        Some(Ok(MvlAttr::Effect(e))) => {
            assert_eq!(e.effects, vec!["Console", "Time"]);
        }
        other => panic!("expected Ok(Effect(_)), got {other:?}"),
    }
}

#[test]
fn parses_empty_effect_attr() {
    let attr = attr_of_first_item("#[effect()] fn f() {}");
    match MvlAttr::try_from_attribute(&attr) {
        Some(Ok(MvlAttr::Effect(e))) => assert!(e.effects.is_empty()),
        other => panic!("expected Ok(Effect(_)), got {other:?}"),
    }
}

#[test]
fn effect_lists_allow_a_trailing_comma_and_reject_junk() {
    let attr = attr_of_first_item("#[effect(Console,)] fn f() {}");
    assert!(matches!(MvlAttr::try_from_attribute(&attr), Some(Ok(MvlAttr::Effect(_)))));
    for src in [
        "#[effect(Console Time)] fn f() {}",
        "#[effect(, Console)] fn f() {}",
        "#[effect(fn)] fn f() {}",
        "#[effect = \"Console\"] fn f() {}",
    ] {
        let attr = attr_of_first_item(src);
        assert!(
            matches!(MvlAttr::try_from_attribute(&attr), Some(Err(_))),
            "`{src}` must be a parse error"
        );
    }
}

#[test]
fn parses_requires_attr() {
    let attr = attr_of_first_item("#[requires(x > 0)] fn f(x: i32) {}");
    match MvlAttr::try_from_attribute(&attr) {
        Some(Ok(MvlAttr::Requires(r))) => {
            let expected = parse_rust_expr("x > 0").unwrap();
            match r.predicate {
                Predicate::Expr(e) => assert_eq!(e, expected),
                other => panic!("expected Predicate::Expr, got {other:?}"),
            }
        }
        other => panic!("expected Ok(Requires(_)), got {other:?}"),
    }
}

#[test]
fn parses_ensures_attr() {
    let attr = attr_of_first_item("#[ensures(result > 0)] fn f() -> i32 { 1 }");
    match MvlAttr::try_from_attribute(&attr) {
        Some(Ok(MvlAttr::Ensures(e))) => {
            let expected = parse_rust_expr("result > 0").unwrap();
            match e.predicate {
                Predicate::Expr(expr) => assert_eq!(expr, expected),
                other => panic!("expected Predicate::Expr, got {other:?}"),
            }
        }
        other => panic!("expected Ok(Ensures(_)), got {other:?}"),
    }
}

#[test]
fn parses_requires_attr_with_a_bounded_quantifier() {
    let attr = attr_of_first_item(
        "#[requires(forall i in [1..50] . sections.get(i) != None)] fn f(sections: i32) {}",
    );
    match MvlAttr::try_from_attribute(&attr) {
        Some(Ok(MvlAttr::Requires(r))) => {
            assert!(matches!(r.predicate, Predicate::Forall { .. }));
        }
        other => panic!("expected Ok(Requires(_)), got {other:?}"),
    }
}

#[test]
fn parses_label_attr_with_no_arguments() {
    let attr = attr_of_first_item("#[label] struct Phi;");
    assert!(matches!(
        MvlAttr::try_from_attribute(&attr),
        Some(Ok(MvlAttr::Label(_)))
    ));
}

#[test]
fn parses_relabel_attr_with_from_to_and_audit() {
    let attr = attr_of_first_item(
        r#"#[relabel(from = "Tainted", to = "_", audit)] fn f(x: i32) -> i32 { x }"#,
    );
    match MvlAttr::try_from_attribute(&attr) {
        Some(Ok(MvlAttr::Relabel(r))) => {
            assert_eq!(r.from, "Tainted");
            assert_eq!(r.to, "_");
            assert!(r.audit);
        }
        other => panic!("expected Ok(Relabel(_)), got {other:?}"),
    }
}

#[test]
fn parses_relabel_attr_without_audit() {
    let attr = attr_of_first_item(r#"#[relabel(from = "_", to = "Phi")] fn f(x: i32) -> i32 { x }"#);
    match MvlAttr::try_from_attribute(&attr) {
        Some(Ok(MvlAttr::Relabel(r))) => assert!(!r.audit),
        other => panic!("expected Ok(Relabel(_)), got {other:?}"),
    }
}

#[test]
fn relabel_needs_both_ends_and_known_keys() {
    for src in [
        r#"#[relabel(to = "Phi")] fn f() {}"#,
        r#"#[relabel(from = "Phi")] fn f() {}"#,
        r#"#[relabel(from = "_", to = "Phi", reason = "x")] fn f() {}"#,
        r#"#[relabel(from = Phi, to = "_")] fn f() {}"#,
        r#"#[relabel(from "_", to = "Phi")] fn f() {}"#,
    ] {
        let attr = attr_of_first_item(src);
        assert!(
            matches!(MvlAttr::try_from_attribute(&attr), Some(Err(_))),
            "`{src}` must be a parse error"
        );
    }
    let attr = attr_of_first_item(r#"#[relabel(to = "A\u{42}", audit, from = "x", from = r"y")] fn f() {}"#);
    match MvlAttr::try_from_attribute(&attr) {
        Some(Ok(MvlAttr::Relabel(r))) => {
            assert_eq!((r.from.as_str(), r.to.as_str(), r.audit), ("y", "AB", true));
        }
        other => panic!("expected Ok(Relabel(_)), got {other:?}"),
    }
}

#[test]
fn unrecognized_attribute_returns_none() {
    let attr = attr_of_first_item("#[allow(dead_code)] fn f() {}");
    assert!(MvlAttr::try_from_attribute(&attr).is_none());
}

#[test]
fn malformed_predicate_returns_parse_error() {
    let attr = attr_of_first_item("#[requires(x >=)] fn f() {}");
    match MvlAttr::try_from_attribute(&attr) {
        Some(Err(_)) => {}
        other => panic!("expected Some(Err(_)), got {other:?}"),
    }
}

#[test]
fn recognizes_fully_qualified_mvl_paths() {
    let cases = [
        ("#[mvl::total] fn f() {}", "total"),
        ("#[mvl::decreases(n)] fn f() {}", "decreases"),
        ("#[mvl::effect(Console)] fn f() {}", "effect"),
        ("#[mvl::requires(x > 0)] fn f(x: i32) {}", "requires"),
        ("#[mvl::ensures(result > 0)] fn f() -> i32 { 1 }", "ensures"),
    ];
    for (src, name) in cases {
        let attr = attr_of_first_item(src);
        assert!(
            MvlAttr::try_from_attribute(&attr).is_some(),
            "expected #[mvl::{name}] to be recognized"
        );
    }
}

// ── impl methods ───────────────────────────────────────────────────────────

fn method_names(src: &str) -> Vec<String> {
    let file = parse(src);
    impl_methods(&file).into_iter().map(|(name, _)| name).collect()
}

#[test]
fn collects_a_method_qualified_by_its_impl_type() {
    let names = method_names("struct Foo;\nimpl Foo {\n    fn bar(&self) -> i32 { 0 }\n}");
    assert_eq!(names, ["Foo::bar"]);
}

#[test]
fn a_free_function_is_not_a_method() {
    assert!(method_names("fn bar() -> i32 { 0 }").is_empty());
}

#[test]
fn a_generic_impl_still_resolves_to_the_bare_type_name() {
    let names = method_names("struct Wrapper<T>(T);\nimpl<T> Wrapper<T> {\n    fn get(&self) {}\n}");
    assert_eq!(names[0], "Wrapper::get");
}

#[test]
fn an_impl_block_nested_in_a_mod_is_collected() {
    let names = method_names(
        "mod foo {\n    struct Bar;\n    impl Bar {\n        fn baz(&self) -> i32 { 0 }\n    }\n}",
    );
    assert_eq!(names, ["Bar::baz"]);
}

#[test]
fn a_doubly_nested_mod_is_collected_too() {
    let names = method_names(
        "mod a {\n    mod b {\n        struct C;\n        impl C {\n            fn d(&self) {}\n        }\n    }\n}",
    );
    assert_eq!(names, ["C::d"]);
}

#[test]
fn a_mod_with_no_inline_body_contributes_nothing() {
    assert!(method_names("mod foo;").is_empty());
    let file = parse("mod foo;");
    assert_eq!(flatten_items(&file).len(), 1);
}

#[test]
fn a_trait_impl_method_is_collected_too() {
    let names = method_names(
        "struct Foo;\ntrait T { fn bar(&self) -> i32; }\nimpl T for Foo {\n    fn bar(&self) -> i32 { 0 }\n}",
    );
    assert_eq!(names, ["Foo::bar"]);
}

#[test]
fn an_impl_for_a_non_path_type_has_no_name() {
    let file = parse("impl T for &u8 {}\nimpl<'a> T for [u8] {}\nimpl X for Y {}");
    let names: Vec<Option<String>> =
        file.children.iter().map(impl_self_type_name).collect();
    assert_eq!(names, [None, None, Some("Y".to_string())]);
}
