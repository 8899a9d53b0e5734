use nexus::metrics::{
    classify_dependency, count_control_flow, count_lines, detect_test_file, estimate_nesting,
    estimate_token_variety, DependencyKind,
};
use nexus::types::Language;

#[test]
fn test_count_lines_empty() {
    let (total, code) = count_lines("");
    assert_eq!(total, 0);
    assert_eq!(code, 0);
}

#[test]
fn test_count_lines_code_only() {
    let (total, code) = count_lines("fn foo() {\n    let x = 1;\n    x + 1\n}");
    assert_eq!(total, 4);
    assert_eq!(code, 4);
}

#[test]
fn test_count_lines_with_comments() {
    let content = "// comment\nfn foo() {\n    # python comment\n    let x = 1;\n}\n";
    let (total, code) = count_lines(content);
    assert_eq!(total, 5);
    assert_eq!(code, 3);
}

#[test]
fn test_nesting_depth() {
    let lines = vec![
        "fn foo() {",
        "    if a {",
        "        for b in c {",
        "            let x = 1;",
        "        }",
        "    }",
        "}",
    ];
    let depth = estimate_nesting(&lines);
    assert_eq!(depth, 3);
}

#[test]
fn test_control_flow_count() {
    let lines = vec![
        "fn foo() {",
        "    if a {",
        "        for b in c {",
        "            return 1;",
        "        }",
        "    }",
        "}",
    ];
    let count = count_control_flow(&lines);
    assert!(count >= 3);
}

#[test]
fn test_detect_test_file() {
    assert!(detect_test_file("src/test/mod.rs"));
    assert!(detect_test_file("src/lib/test.rs"));
    assert!(detect_test_file("src/foo_spec.ts"));
    assert!(!detect_test_file("src/main.rs"));
}

#[test]
fn test_classify_dependency() {
    let rust = Language::Rust;
    assert!(matches!(
        classify_dependency("crate::foo::bar", &rust),
        DependencyKind::ModuleLocal(_)
    ));
    assert!(matches!(
        classify_dependency("serde::Serialize", &rust),
        DependencyKind::External(_)
    ));
}

#[test]
fn test_token_variety() {
    let content = "fn foo(a: i32, b: i32) -> i32 { a + b }";
    let variety = estimate_token_variety(content);
    assert!(variety > 0);
    assert!(variety <= 500);
}

#[test]
fn test_count_code_lines_multiline_comments() {
    let content = "fn foo() {\n/* block comment */\nlet x = 1;\n}\n";
    let (total, code) = count_lines(content);
    assert_eq!(total, 4);
    assert_eq!(code, 3);
}

#[test]
fn test_estimate_complexity_simple() {
    let c = nexus::metrics::complexity_tenths("fn foo() { let x = 1; x + 1 }");
    assert!(c > 0);
}

#[test]
fn test_estimate_complexity_nested() {
    let code = "fn foo() {\n    if a {\n        for b in c {\n            while d {\n                // deep\n            }\n        }\n    }\n}";
    let c = nexus::metrics::complexity_tenths(code);
    let simple = nexus::metrics::complexity_tenths("fn foo() { let x = 1; }");
    assert!(c > simple, "nested should be more complex than simple");
}

#[test]
fn complexity_is_the_weighted_sum_in_tenths() {
    // one code line, no control flow, no nesting; of the tokens only "let"
    // is longer than one byte once punctuation is stripped
    let c = nexus::metrics::complexity_tenths("let x = 1;");
    assert_eq!(c, 3 * 1 + 5 * 1);
}

#[test]
fn code_lines_never_exceed_lines() {
    for text in ["", "// a\n# b\n", "x\n\ny\n", "/* c */\nlet a = 1;\n"] {
        let (total, code) = count_lines(text);
        assert!(code <= total);
    }
}

#[test]
fn token_variety_is_capped() {
    let mut text = String::new();
    for i in 0..700 {
        text.push_str(&format!("tok{} ", i));
    }
    assert_eq!(estimate_token_variety(&text), 500);
}

#[test]
fn detect_test_file_ignores_case() {
    assert!(detect_test_file("src/TEST/a.rs"));
    assert!(detect_test_file("Spec.ts"));
    assert!(!detect_test_file("src/lib.rs"));
}

#[test]
fn control_lines_never_exceed_lines() {
    let lines = vec!["if a {", "while b {", "} else {", "match c {", "x"];
    let n = count_control_flow(&lines);
    assert!(n <= lines.len());
    assert_eq!(n, 4);
}
