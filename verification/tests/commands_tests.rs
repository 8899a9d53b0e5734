use nexus::analysis::analyze;
use nexus::commands::{
    cycles_output, extension_included, help_message, impact_target_names, is_excluded,
    isolated_output, match_targets, stats_output, analysis_output, within_depth, Command,
};
use nexus::graph::DependencyGraph;
use nexus::types::{FileId, FileNode, Language};

fn node(id: FileId, path: &str) -> FileNode {
    FileNode {
        id,
        path: path.to_string(),
        language: Language::from_extension(path),
        lines: 3,
        code_lines: 2,
        imports: vec![],
        has_test_file: false,
        complexity_tenths: 5,
    }
}

fn strings(v: &[&str]) -> Vec<String> {
    v.iter().map(|s| s.to_string()).collect()
}

#[test]
fn commands_by_long_and_short_name() {
    assert_eq!(Command::parse("analyze"), Command::Analyze);
    assert_eq!(Command::parse("a"), Command::Analyze);
    assert_eq!(Command::parse("i"), Command::Impact);
    assert_eq!(Command::parse("cycles"), Command::Cycles);
    assert_eq!(Command::parse("s"), Command::Stats);
    assert_eq!(Command::parse("isolated"), Command::Isolated);
    assert_eq!(Command::parse("mmd"), Command::Mermaid);
    assert_eq!(Command::parse("j"), Command::Json);
    assert_eq!(Command::parse("--help"), Command::Help);
    assert_eq!(Command::parse("-V"), Command::Version);
    assert_eq!(Command::parse("foobar"), Command::Unknown);
    assert_eq!(Command::parse("Analyze"), Command::Unknown);
}

#[test]
fn help_names_the_program_and_the_commands() {
    let h = help_message("nexus");
    assert!(h.starts_with("nexus — Codebase Dependency Analyzer\n\nUSAGE:\n  nexus <command> [options] [path]\n"));
    assert!(h.contains("analyze"));
    assert!(h.contains("impact"));
    assert!(h.contains("cycles"));
    assert!(h.ends_with("  nexus json src/ > analysis.json\n"));
    assert!(help_message("./nx").contains("  ./nx mermaid src/ > graph.mmd\n"));
}

#[test]
fn exclusion_looks_at_name_and_path() {
    let pats = strings(&["node_modules", ".git"]);
    assert!(is_excluded("node_modules", "./node_modules", &pats));
    assert!(is_excluded("config", "./.git/config", &pats));
    assert!(!is_excluded("main.rs", "./src/main.rs", &pats));
    assert!(!is_excluded("main.rs", "./src/main.rs", &[]));
}

#[test]
fn extensions_kept() {
    let exts = strings(&["rs", "py"]);
    assert!(extension_included("rs", &exts));
    assert!(!extension_included("md", &exts));
    assert!(!extension_included("", &exts));
    assert!(extension_included("md", &[]));
}

#[test]
fn impact_names_stop_at_the_first_option() {
    let args = strings(&["a.rs", "b.rs", "--exclude", "x"]);
    assert_eq!(impact_target_names(&args), Ok(strings(&["a.rs", "b.rs"])));
    let usage = Err("Usage: nexus impact <file1> [file2 ...]".to_string());
    assert_eq!(impact_target_names(&[]), usage);
    assert_eq!(impact_target_names(&strings(&["--depth", "2"])), usage);
}

#[test]
fn targets_match_by_substring() {
    let mut g = DependencyGraph::new();
    g.add_node(node(0, "src/main.rs"));
    g.add_node(node(1, "src/lib.rs"));
    g.add_node(node(2, "tests/main_test.rs"));
    assert_eq!(match_targets(&g, &strings(&["main"])), Ok(vec![0, 2]));
    assert_eq!(match_targets(&g, &strings(&["lib.rs", "src/main.rs"])), Ok(vec![1, 0]));
    assert_eq!(
        match_targets(&g, &strings(&["lib", "nope", "zip"])),
        Err("No file found matching: nope".to_string())
    );
    assert_eq!(match_targets(&g, &[]), Ok(vec![]));
}

#[test]
fn cycles_listing() {
    let mut g = DependencyGraph::new();
    g.add_node(node(0, "a.rs"));
    g.add_node(node(1, "b.rs"));
    assert_eq!(cycles_output(&g, &vec![]), "  No circular dependencies found.");
    let out = cycles_output(&g, &vec![vec![0, 1], vec![1, 7]]);
    assert_eq!(
        out,
        "  Found 2 circular dependenc(ies):\n\n  Cycle #1:\n    → a.rs\n    → b.rs\n\n  Cycle #2:\n    → b.rs\n\n"
    );
}

#[test]
fn isolated_listing() {
    let mut g = DependencyGraph::new();
    g.add_node(node(0, "a.rs"));
    g.add_node(node(1, "b.rs"));
    assert_eq!(isolated_output(&g, &vec![]), "  No isolated files found.");
    assert_eq!(
        isolated_output(&g, &g.isolated_nodes()),
        "  2 isolated file(s):\n\n    📄 a.rs\n    📄 b.rs\n"
    );
}

#[test]
fn stats_listing() {
    let mut g = DependencyGraph::new();
    assert_eq!(stats_output(&analyze(&g), "0.00", "0.00"), "  No source files found.");
    g.add_node(node(0, "a.rs"));
    g.add_node(node(1, "b.rs"));
    g.add_dependency(0, 1);
    let out = stats_output(&analyze(&g), "0.50", "0.50");
    assert_eq!(
        out,
        "  Total files:    2\n  Total deps:     1\n  Avg deps/file:  0.50\n  Total lines:    6 (4 code)\n  Avg complexity: 0.50\n  Cycles:         0\n  Isolated files:  0\n  Test files:     0"
    );
}

#[test]
fn analysis_of_nothing() {
    let g = DependencyGraph::new();
    assert_eq!(
        analysis_output(&analyze(&g), &g, "0.0", "0.0", &[]),
        "  No source files found to analyze."
    );
}

#[test]
fn depth_limit_is_inclusive() {
    assert!(within_depth(0, 0));
    assert!(within_depth(3, 3));
    assert!(!within_depth(4, 3));
    assert!(within_depth(100, usize::MAX));
}
