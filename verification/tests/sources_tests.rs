use nexus::sources::{graph_from_resolved, graph_from_sources, SourceFile};
use nexus::types::Language;

fn src(path: &str, content: &str) -> SourceFile {
    SourceFile { path: path.to_string(), content: content.to_string() }
}

#[test]
fn nodes_are_measured_from_their_text() {
    let srcs = vec![
        src("/nonexistent-dir/main.rs", "use crate::util;\n// note\nfn main() {\n    if x { y(); }\n}\n"),
        src("/nonexistent-dir/tool_test.py", "import os\n"),
    ];
    let g = graph_from_sources(&srcs);
    assert_eq!(g.file_count(), 2);
    let a = g.node(0).unwrap();
    assert_eq!(a.path, "/nonexistent-dir/main.rs");
    assert_eq!(a.language, Language::Rust);
    assert_eq!(a.lines, 5);
    assert_eq!(a.code_lines, 4);
    assert_eq!(a.imports, vec!["crate::util".to_string()]);
    assert!(!a.has_test_file);
    assert_eq!(a.complexity_tenths, nexus::metrics::complexity_tenths(&srcs[0].content));
    let b = g.node(1).unwrap();
    assert_eq!(b.language, Language::Python);
    assert_eq!(b.imports, vec!["os".to_string()]);
    assert!(b.has_test_file);
}

#[test]
fn imports_that_name_no_file_on_disk_give_no_edges() {
    let srcs = vec![
        src("/nonexistent-dir/a.js", "import { f } from './b';\n"),
        src("/nonexistent-dir/b.js", "export const f = 1;\n"),
    ];
    let g = graph_from_sources(&srcs);
    assert_eq!(g.edge_count(), 0);
}

#[test]
fn no_sources_no_graph() {
    let g = graph_from_sources(&vec![]);
    assert_eq!(g.file_count(), 0);
    assert_eq!(g.edge_count(), 0);
}

#[test]
fn resolved_imports_give_edges_in_order_once_each() {
    let srcs = vec![
        src("a.js", "import x from './b';\nimport y from './c';\nimport z from './b';\n"),
        src("b.js", "import q from './c';\n"),
        src("c.js", ""),
    ];
    let resolved = vec![
        vec![Some("b.js".to_string()), Some("c.js".to_string()), Some("b.js".to_string())],
        vec![Some("c.js".to_string())],
        vec![],
    ];
    let g = graph_from_resolved(&srcs, &resolved);
    assert_eq!(g.edges, vec![(0, 1), (0, 2), (1, 2)]);
}

#[test]
fn a_path_stands_for_its_last_file() {
    let srcs = vec![src("a.js", "x"), src("b.js", "y"), src("a.js", "z")];
    let resolved = vec![
        vec![Some("b.js".to_string())],
        vec![Some("a.js".to_string()), None, Some("missing.js".to_string())],
        vec![Some("b.js".to_string())],
    ];
    let g = graph_from_resolved(&srcs, &resolved);
    // the first a.js is shadowed by the second: its imports give no edge
    assert_eq!(g.edges, vec![(1, 2), (2, 1)]);
    assert_eq!(g.file_count(), 3);
}
