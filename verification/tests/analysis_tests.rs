use nexus::analysis::{impact_sets, rank_by_count, analyze};
use nexus::graph::DependencyGraph;
use nexus::types::{FileId, FileNode, Language};

fn node(id: FileId, path: &str, lines: usize, test: bool) -> FileNode {
    FileNode {
        id,
        path: path.to_string(),
        language: Language::from_extension(path),
        lines,
        code_lines: lines / 2,
        imports: vec![],
        has_test_file: test,
        complexity_tenths: 10,
    }
}

/// a -> b -> c, a -> c, d.py alone, e_test.rs alone
fn sample() -> DependencyGraph {
    let mut g = DependencyGraph::new();
    g.add_node(node(0, "a.rs", 10, false));
    g.add_node(node(1, "b.rs", 20, false));
    g.add_node(node(2, "c.rs", 30, false));
    g.add_node(node(3, "d.py", 40, false));
    g.add_node(node(4, "e_test.rs", 50, true));
    g.add_dependency(0, 1);
    g.add_dependency(1, 2);
    g.add_dependency(0, 2);
    g
}

fn sorted(v: impl IntoIterator<Item = FileId>) -> Vec<FileId> {
    let mut v: Vec<FileId> = v.into_iter().collect();
    v.sort();
    v
}

#[test]
fn rank_by_count_is_stable_and_descending() {
    let v = vec![(0, 1), (1, 3), (2, 1), (3, 3), (4, 0)];
    assert_eq!(rank_by_count(&v), vec![(1, 3), (3, 3), (0, 1), (2, 1), (4, 0)]);
    assert!(rank_by_count(&vec![]).is_empty());
}

#[test]
fn summary_totals() {
    let s = analyze(&sample());
    assert_eq!(s.total_files, 5);
    assert_eq!(s.total_dependencies, 3);
    assert_eq!(s.total_lines, 150);
    assert_eq!(s.total_code_lines, 75);
    assert_eq!(s.test_file_count, 1);
    assert_eq!(s.isolated_count, 2);
    assert_eq!(s.cycle_count, 0);
    assert!(s.cycles.is_empty());
    assert_eq!(s.max_deps, 2);
    assert_eq!(s.max_dependents, 2);
}

#[test]
fn summary_rankings() {
    let s = analyze(&sample());
    assert_eq!(s.top_deps, vec![(0, 2), (1, 1), (2, 0), (3, 0), (4, 0)]);
    assert_eq!(s.top_dependents, vec![(2, 2), (1, 1), (0, 0), (3, 0), (4, 0)]);
}

#[test]
fn summary_keeps_ten_at_most() {
    let mut g = DependencyGraph::new();
    for i in 0..12 {
        g.add_node(node(i, &format!("f{i}.rs"), 1, false));
    }
    let s = analyze(&g);
    assert_eq!(s.top_deps.len(), 10);
    assert_eq!(s.top_dependents.len(), 10);
    assert_eq!(s.isolated_count, 12);
}

#[test]
fn summary_counts_languages_in_first_seen_order() {
    let s = analyze(&sample());
    assert_eq!(s.languages.len(), 2);
    assert_eq!(s.languages[0], (Language::Rust, 4));
    assert_eq!(s.languages[1], (Language::Python, 1));
}

#[test]
fn summary_of_an_empty_graph() {
    let s = analyze(&DependencyGraph::new());
    assert_eq!(s.total_files, 0);
    assert_eq!(s.max_deps, 0);
    assert!(s.top_deps.is_empty());
    assert!(s.languages.is_empty());
}

#[test]
fn summary_counts_cycles() {
    let mut g = sample();
    g.add_dependency(2, 0);
    let s = analyze(&g);
    assert!(s.cycle_count > 0);
    assert_eq!(s.cycle_count, s.cycles.len());
}

#[test]
fn impact_of_a_leaf() {
    let g = sample();
    let r = impact_sets(&g, &[2]);
    assert_eq!(sorted(r.transitively_affected.iter().copied()), vec![0, 1]);
    assert_eq!(sorted(r.directly_affected.iter().copied()), vec![0, 1]);
    assert!(r.total_dependencies.is_empty());
    assert_eq!(r.total_files_touched, 3);
}

#[test]
fn impact_of_a_root() {
    let g = sample();
    let r = impact_sets(&g, &[0]);
    assert!(r.transitively_affected.is_empty());
    assert!(r.directly_affected.is_empty());
    assert_eq!(sorted(r.total_dependencies.iter().copied()), vec![1, 2]);
    assert_eq!(r.total_files_touched, 3);
}

#[test]
fn impact_direct_is_within_transitive() {
    let mut g = sample();
    g.add_node(node(5, "f.rs", 1, false));
    g.add_dependency(5, 0);
    let r = impact_sets(&g, &[1]);
    assert_eq!(sorted(r.transitively_affected.iter().copied()), vec![0, 5]);
    assert_eq!(sorted(r.directly_affected.iter().copied()), vec![0]);
    for v in r.directly_affected.iter() {
        assert!(r.transitively_affected.contains(v));
    }
}

#[test]
fn impact_of_several_targets_counts_each_target() {
    let g = sample();
    let r = impact_sets(&g, &[1, 1]);
    assert_eq!(r.total_files_touched, 1 + 1 + 2);
}

#[test]
fn language_counts_add_up_to_the_files() {
    let s = analyze(&sample());
    let total: usize = s.languages.iter().map(|(_, c)| *c).sum();
    assert_eq!(total, s.total_files);
}
