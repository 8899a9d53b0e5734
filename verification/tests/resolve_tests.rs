use nexus::resolve::{choose_resolution, resolve_import};

#[test]
fn test_resolve_import_nonexistent() {
    let resolved = resolve_import("/tmp/main.rs", "./nonexistent");
    assert!(resolved.is_none());
}

#[test]
fn non_relative_imports_resolve_to_nothing() {
    assert!(resolve_import("/tmp/main.rs", "std::collections").is_none());
    assert!(resolve_import("/tmp/main.rs", "fmt").is_none());
}

#[test]
fn a_path_with_no_parent_resolves_to_nothing() {
    assert!(resolve_import("/", "./x").is_none());
}

#[test]
fn the_first_existing_extension_wins() {
    let mut found = vec![false; 10];
    found[1] = true;
    found[3] = true;
    found[7] = true;
    assert_eq!(choose_resolution("/a/b", &found, true), Some("/a/b.py".to_string()));
    found[1] = false;
    assert_eq!(choose_resolution("/a/b", &found, true), Some("/a/b.ts".to_string()));
}

#[test]
fn module_files_count_only_for_a_directory() {
    let mut found = vec![false; 10];
    found[8] = true;
    found[9] = true;
    assert_eq!(choose_resolution("/a/pkg", &found, true), Some("/a/pkg/__init__.py".to_string()));
    assert_eq!(choose_resolution("/a/pkg", &found, false), None);
}

#[test]
fn nothing_existing_resolves_to_nothing() {
    assert_eq!(choose_resolution("/a/b", &[false; 10], true), None);
    assert_eq!(choose_resolution("/a/b", &[], true), None);
}

#[test]
fn the_extension_replaces_the_last_one() {
    assert_eq!(choose_resolution("/a/b.x", &[true], false), Some("/a/b.rs".to_string()));
}
