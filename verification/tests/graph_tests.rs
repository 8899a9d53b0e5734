use nexus::graph::DependencyGraph;
use nexus::types::{FileId, FileNode, Language};

fn node(id: FileId, path: &str) -> FileNode {
    FileNode {
        id,
        path: path.to_string(),
        language: Language::from_extension(path),
        lines: 10,
        code_lines: 8,
        imports: vec![],
        has_test_file: false,
        complexity_tenths: 25,
    }
}

fn chain() -> DependencyGraph {
    // a -> b -> c, d alone
    let mut g = DependencyGraph::new();
    g.add_node(node(0, "src/a.rs"));
    g.add_node(node(1, "src/b.rs"));
    g.add_node(node(2, "src/c.rs"));
    g.add_node(node(3, "src/d.rs"));
    g.add_dependency(0, 1);
    g.add_dependency(1, 2);
    g
}

fn sorted(v: impl IntoIterator<Item = FileId>) -> Vec<FileId> {
    let mut v: Vec<FileId> = v.into_iter().collect();
    v.sort();
    v
}

#[test]
fn new_graph_is_empty() {
    let g = DependencyGraph::new();
    assert_eq!(g.file_count(), 0);
    assert_eq!(g.edge_count(), 0);
    assert!(g.find_cycles().is_empty());
}

#[test]
fn add_node_returns_its_id_and_node_reads_it_back() {
    let mut g = DependencyGraph::new();
    assert_eq!(g.add_node(node(7, "x.py")), 7);
    assert_eq!(g.node(7).map(|n| n.path.clone()), Some("x.py".to_string()));
    assert!(g.node(8).is_none());
    // a second node with the same id replaces the first
    g.add_node(node(7, "y.py"));
    assert_eq!(g.file_count(), 1);
    assert_eq!(g.node(7).unwrap().path, "y.py");
}

#[test]
fn add_dependency_twice_keeps_one_edge() {
    let mut g = chain();
    g.add_dependency(0, 1);
    assert_eq!(g.edge_count(), 2);
}

#[test]
fn direct_dependencies_and_dependents() {
    let g = chain();
    let deps: Vec<FileId> = g.dependencies(1).iter().map(|n| n.id).collect();
    assert_eq!(deps, vec![2]);
    let users: Vec<FileId> = g.dependents(1).iter().map(|n| n.id).collect();
    assert_eq!(users, vec![0]);
    assert!(g.dependencies(3).is_empty());
    // an edge to an id with no file is not listed
    let mut h = chain();
    h.add_dependency(3, 99);
    assert!(h.dependencies(3).is_empty());
}

#[test]
fn transitive_closures_mirror() {
    let g = chain();
    assert_eq!(sorted(g.transitive_dependencies(0)), vec![1, 2]);
    assert_eq!(sorted(g.transitive_dependents(2)), vec![0, 1]);
    assert!(g.transitive_dependencies(2).is_empty());
    assert!(g.transitive_dependents(3).is_empty());
    for a in 0..4 {
        for b in 0..4 {
            assert_eq!(
                g.transitive_dependencies(a).contains(&b),
                g.transitive_dependents(b).contains(&a)
            );
        }
    }
}

#[test]
fn closure_leaves_out_the_start_even_on_a_cycle() {
    let mut g = chain();
    g.add_dependency(2, 0);
    assert_eq!(sorted(g.transitive_dependencies(0)), vec![1, 2]);
    assert_eq!(sorted(g.transitive_dependents(0)), vec![1, 2]);
}

#[test]
fn acyclic_graph_has_no_cycles() {
    assert!(chain().find_cycles().is_empty());
}

#[test]
fn a_cycle_is_found_and_closes() {
    let mut g = chain();
    g.add_dependency(2, 0);
    let cycles = g.find_cycles();
    assert!(!cycles.is_empty());
    for c in &cycles {
        assert!(!c.is_empty());
        for w in c.windows(2) {
            assert!(g.dependencies(w[0]).iter().any(|n| n.id == w[1]));
        }
        let last = *c.last().unwrap();
        assert!(g.dependencies(last).iter().any(|n| n.id == c[0]));
    }
}

#[test]
fn a_self_loop_is_a_cycle() {
    let mut g = chain();
    g.add_dependency(3, 3);
    let cycles = g.find_cycles();
    assert!(cycles.iter().any(|c| c == &vec![3]));
}

#[test]
fn isolated_files_have_no_edges_test_files_included() {
    let mut g = chain();
    let mut t = node(4, "tests/e_test.rs");
    t.has_test_file = true;
    g.add_node(t);
    assert_eq!(g.isolated_nodes(), vec![3, 4]);
}

#[test]
fn every_cycle_has_a_closing_edge_reported() {
    // two separate cycles: a <-> b and c <-> d
    let mut g = DependencyGraph::new();
    g.add_node(node(0, "a.rs"));
    g.add_node(node(1, "b.rs"));
    g.add_node(node(2, "c.rs"));
    g.add_node(node(3, "d.rs"));
    g.add_dependency(0, 1);
    g.add_dependency(1, 0);
    g.add_dependency(2, 3);
    g.add_dependency(3, 2);
    let cycles = g.find_cycles();
    assert_eq!(cycles.len(), 2);
    let closes = |u: FileId, v: FileId| cycles.iter().any(|c| c[0] == v && *c.last().unwrap() == u);
    assert!(closes(1, 0) || closes(0, 1));
    assert!(closes(3, 2) || closes(2, 3));
}
