use nexus::analysis::{impact_sets, analyze, ImpactReport};
use nexus::graph::DependencyGraph;
use nexus::json::{format_impact_json, format_json};
use nexus::report::{format_impact, format_mermaid, format_report, safe_id};
use nexus::types::{FileId, FileNode, Language};

fn node(id: FileId, path: &str) -> FileNode {
    FileNode {
        id,
        path: path.to_string(),
        language: Language::from_extension(path),
        lines: 10,
        code_lines: 8,
        imports: vec![],
        has_test_file: false,
        complexity_tenths: 25,
    }
}

/// `src/a.rs` depends on `src/b.rs`.
fn pair() -> DependencyGraph {
    let mut g = DependencyGraph::new();
    g.add_node(node(0, "src/a.rs"));
    g.add_node(node(1, "src/b.rs"));
    g.add_dependency(0, 1);
    g
}

fn impact_of(g: &DependencyGraph, targets: &[FileId], risk: u8) -> ImpactReport {
    let s = impact_sets(g, targets);
    ImpactReport {
        target_files: targets.to_vec(),
        directly_affected: s.directly_affected,
        transitively_affected: s.transitively_affected,
        total_dependencies: s.total_dependencies,
        total_files_touched: s.total_files_touched,
        risk_score: risk,
    }
}

#[test]
fn safe_id_replaces_separators() {
    assert_eq!(safe_id("src/a-b.c:d e\\f"), "nsrc_a_b_c_d_e_f");
    assert_eq!(safe_id(""), "n");
}

#[test]
fn mermaid_of_a_pair() {
    let expected = "graph TD\n  %% Auto-generated dependency graph by nexus\n\n  nsrc_a_rs[\"🦀a.rs\"]\n  nsrc_b_rs[\"🦀b.rs\"]\n\n  nsrc_a_rs --> nsrc_b_rs\n";
    assert_eq!(format_mermaid(&pair()), expected);
}

#[test]
fn mermaid_marks_languages() {
    let mut g = DependencyGraph::new();
    g.add_node(node(0, "x.py"));
    g.add_node(node(1, "y.md"));
    let out = format_mermaid(&g);
    assert!(out.contains("  nx_py[\"🐍x.py\"]\n"));
    assert!(out.contains("  ny_md[\"📄y.md\"]\n"));
}

#[test]
fn report_of_a_pair() {
    let g = pair();
    let s = analyze(&g);
    let names = vec![("Rust".to_string(), 2usize)];
    let rule = "━".repeat(40);
    let expected = format!(
        "\n  ═══ nexus — Dependency Analysis\n  {rule}\n\n  📊 Summary\n    Files:     2\n    Deps:      1 (avg 0.5)\n    Lines:     20 (16 code)\n    Complexity: 2.5 avg\n    Tests:     0\n\n  🔤 Languages\n      Rust         2\n\n  🔗 Top Dependers (files with most deps)\n         1 deps  a.rs\n         0 deps  b.rs\n\n  🎯 Top Depended (most imported files)\n         1 imports  b.rs\n         0 imports  a.rs\n\n"
    );
    assert_eq!(format_report(&s, &g, "0.5", "2.5", &names), expected);
}

#[test]
fn report_lists_languages_by_count_and_isolated_files() {
    let mut g = DependencyGraph::new();
    g.add_node(node(0, "a.py"));
    g.add_node(node(1, "b.rs"));
    g.add_node(node(2, "c.rs"));
    let s = analyze(&g);
    assert_eq!(s.isolated_count, 3);
    let names = vec![("Python".to_string(), 1usize), ("Rust".to_string(), 2usize)];
    let out = format_report(&s, &g, "0.0", "2.5", &names);
    assert!(out.contains("  🔤 Languages\n      Rust         2\n      Python       1\n\n"));
    assert!(out.ends_with("  📭 Isolated Files (no deps, no dependents)\n      3 files\n"));
}

#[test]
fn report_shows_at_most_three_cycles() {
    let mut g = DependencyGraph::new();
    for i in 0..4 {
        g.add_node(node(i, &format!("m{i}.rs")));
        g.add_dependency(i, i);
    }
    let s = analyze(&g);
    assert_eq!(s.cycle_count, 4);
    let out = format_report(&s, &g, "1.0", "2.5", &[]);
    assert!(out.contains("  🔄 Circular Dependencies\n      Found 4 cycle(s)\n"));
    assert!(out.contains("      ... and 1 more\n"));
    assert_eq!(out.matches(" → ... → ").count(), 3);
}

#[test]
fn impact_of_changing_the_dependency() {
    let g = pair();
    let r = impact_of(&g, &[1], 3);
    assert_eq!(r.total_files_touched, 2);
    let rule = "━".repeat(40);
    let expected = format!(
        "\n  ═══  nexus — Impact Analysis\n  {rule}\n\n  ⚠️ Risk Score: 3/10\n\n  🎯 Target Files:\n      src/b.rs\n\n  📌 Directly Affected: 1 files\n      src/a.rs\n\n  🔀 Transitively Affected: 1 files\n\n  📦 Total Files Touched: 2\n  📥 Dependencies Needed: 0\n"
    );
    assert_eq!(format_impact(&r, &g), expected);
}

#[test]
fn impact_counts_files_beyond_direct() {
    // a -> b -> c; changing c affects b directly and a beyond it
    let mut g = pair();
    g.add_node(node(2, "src/c.rs"));
    g.add_dependency(1, 2);
    let r = impact_of(&g, &[2], 5);
    let out = format_impact(&r, &g);
    assert!(out.contains("  🔀 Transitively Affected: 2 files\n      (1 beyond direct)\n"));
}

#[test]
fn json_of_a_pair() {
    let g = pair();
    let s = analyze(&g);
    let names = vec![("Rust".to_string(), 2usize)];
    let langs = vec!["Rust".to_string(), "Rust".to_string()];
    let expected = "{\n\"summary\": {\n\"total_files\": 2,\n\"total_dependencies\": 1,\n\"average_deps\": 0.50,\n\"total_lines\": 20,\n\"total_code_lines\": 16,\n\"average_complexity\": 2.50,\n\"cycle_count\": 0,\n\"isolated_files\": 0,\n\"test_files\": 0\n},\n\"languages\": {\n\"Rust\": 2\n},\n\"files\": [\n{ \"path\": \"src/a.rs\", \"language\": \"Rust\", \"lines\": 10, \"code_lines\": 8, \"complexity\": 2.5, \"imports\": 0, \"has_test\": false, \"dependencies\": [\"src/b.rs\"] },\n{ \"path\": \"src/b.rs\", \"language\": \"Rust\", \"lines\": 10, \"code_lines\": 8, \"complexity\": 2.5, \"imports\": 0, \"has_test\": false, \"dependencies\": [] }\n]\n}";
    assert_eq!(format_json(&s, &g, "0.50", "2.50", &names, &langs), expected);
}

#[test]
fn json_orders_files_by_path_escapes_them_and_lists_cycles() {
    let mut g = DependencyGraph::new();
    g.add_node(node(0, "z.rs"));
    g.add_node(node(1, "a\"b.rs"));
    g.add_dependency(0, 1);
    g.add_dependency(1, 0);
    let s = analyze(&g);
    let langs = vec!["Rust".to_string(), "Rust".to_string()];
    let out = format_json(&s, &g, "1.00", "2.50", &[], &langs);
    let a = out.find("\"path\": \"a\\\"b.rs\"").unwrap();
    let z = out.find("\"path\": \"z.rs\"").unwrap();
    assert!(a < z);
    assert!(!out.contains("\"languages\""));
    assert!(out.contains("\"cycles\": [\n["));
    assert!(out.ends_with("]\n]\n}"));
}

#[test]
fn impact_json_of_a_pair() {
    let g = pair();
    let r = impact_of(&g, &[1], 3);
    let expected = "{\n\"risk_score\": 3,\n\"total_files_touched\": 2,\n\"target_files\": [\n\"src/b.rs\"\n],\n\"directly_affected\": 1 ,\n\"transitively_affected\": 1,\n\"dependencies_needed\": 0\n}";
    assert_eq!(format_impact_json(&r, &g), expected);
}

#[test]
fn report_cycle_section_follows_the_cycle_count() {
    let g = pair();
    let mut s = analyze(&g);
    assert!(!format_report(&s, &g, "0.5", "2.5", &[]).contains("Circular"));
    s.cycle_count = 1;
    let out = format_report(&s, &g, "0.5", "2.5", &[]);
    assert!(out.contains("  🔄 Circular Dependencies\n      Found 1 cycle(s)\n\n"));
}

#[test]
fn json_without_cycles_ends_with_the_files() {
    let g = pair();
    let s = analyze(&g);
    let langs = vec!["Rust".to_string(), "Rust".to_string()];
    let out = format_json(&s, &g, "0.50", "2.50", &[], &langs);
    assert!(out.ends_with("] }\n]\n}"));
    assert!(!out.contains("],\n}"));
}
