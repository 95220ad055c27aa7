use reclaim::targets::{match_dir, targets};

#[test]
fn known_dirs_match() {
    assert!(match_dir("node_modules").is_some());
    assert!(match_dir("__pycache__").is_some());
    assert_eq!(match_dir("node_modules").unwrap().kind, "node");
}

#[test]
fn unknown_dirs_do_not_match() {
    assert!(match_dir("src").is_none());
    assert!(match_dir("").is_none());
}

#[test]
fn node_modules_requires_a_marker() {
    let t = match_dir("node_modules").unwrap();
    assert_eq!(t.marker, Some("package.json"));
}

#[test]
fn target_table_is_non_empty() {
    assert!(!targets().is_empty());
}

#[test]
fn every_table_entry_is_found_by_its_name() {
    for t in targets() {
        let found = match_dir(t.dir).unwrap();
        assert_eq!(found.dir, t.dir);
        assert_eq!(found.kind, t.kind);
        assert_eq!(found.marker, t.marker);
    }
}

#[test]
fn markers_follow_the_readme_table() {
    assert_eq!(match_dir("target").unwrap().marker, Some("Cargo.toml"));
    assert_eq!(match_dir("vendor").unwrap().marker, Some("composer.json"));
    assert_eq!(match_dir("vendor").unwrap().kind, "php/go");
    assert_eq!(match_dir(".venv").unwrap().marker, None);
    assert_eq!(match_dir(".terraform").unwrap().kind, "infra");
    assert!(match_dir("Node_modules").is_none());
    assert!(match_dir("node_modules ").is_none());
}
