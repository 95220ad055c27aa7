use std::path::PathBuf;

use reclaim::scanner::{marker_ok, sizes_fit, sort_largest_first, total_size_of, Hit, Walk};
use reclaim::targets::match_dir;

fn hit(name: &str, kind: &'static str, size: u64) -> Hit {
    Hit { path: PathBuf::from(name), kind, size, picked: true }
}

#[test]
fn results_are_sorted_largest_first_and_stable() {
    let hits = vec![
        hit("a", "node", 10),
        hit("b", "rust", 30),
        hit("c", "python", 10),
        hit("d", "node", 30),
        hit("e", "java", 5),
    ];
    let sorted = sort_largest_first(hits);
    let names: Vec<String> = sorted.iter().map(|h| h.path.display().to_string()).collect();
    assert_eq!(names, vec!["b", "d", "a", "c", "e"]);
    for pair in sorted.windows(2) {
        assert!(pair[0].size >= pair[1].size);
    }
}

#[test]
fn sorting_nothing_gives_nothing() {
    assert!(sort_largest_first(Vec::new()).is_empty());
}

#[test]
fn marker_rules() {
    let node = match_dir("node_modules").unwrap();
    let py = match_dir("__pycache__").unwrap();
    assert!(marker_ok(&node, Some(true)));
    assert!(!marker_ok(&node, Some(false)));
    assert!(!marker_ok(&node, None));
    assert!(marker_ok(&py, None));
    assert!(marker_ok(&py, Some(false)));
}

#[test]
fn walk_counts_dirs_and_keeps_only_valid_matches() {
    let mut walk = Walk::new();
    // the root, a project, its node_modules (package.json beside it)
    assert!(walk.visit(true, "root", 0).is_none());
    assert!(walk.visit(true, "app", 1).is_none());
    assert!(walk.visit(true, "node_modules", 2).is_some());
    assert!(walk.settle(PathBuf::from("root/app/node_modules"), Some(true)));
    // a file is not counted
    assert!(walk.visit(false, "package.json", 2).is_none());
    // a python cache needs no marker
    assert!(walk.visit(true, "__pycache__", 2).is_some());
    assert!(walk.settle(PathBuf::from("root/py/__pycache__"), None));
    // an orphan node_modules is left alone
    assert!(walk.visit(true, "node_modules", 2).is_some());
    assert!(!walk.settle(PathBuf::from("root/orphan/node_modules"), Some(false)));
    assert_eq!(walk.dirs_scanned(), 5);
    assert_eq!(walk.found().len(), 2);

    let scan = walk.finish(vec![4096, 8192]);
    assert_eq!(scan.dirs_scanned, 5);
    let kinds: Vec<&str> = scan.hits.iter().map(|h| h.kind).collect();
    assert_eq!(kinds, vec!["python", "node"]);
    assert!(scan.hits.iter().all(|h| h.picked));
    assert_eq!(scan.total_size(), 12288);
}

#[test]
fn totals_and_overflow_check() {
    let hits = vec![hit("a", "node", 7), hit("b", "node", 8)];
    assert_eq!(total_size_of(&hits), 15);
    assert!(sizes_fit(&hits));
    let big = vec![hit("a", "node", u64::MAX), hit("b", "node", 1)];
    assert!(!sizes_fit(&big));
    assert!(sizes_fit(&[hit("a", "node", u64::MAX)]));
    assert_eq!(total_size_of(&[]), 0);
}

/// The tree of the end-to-end scan: a node project, a python cache, an orphan node_modules.
fn walk_fixture() -> Walk {
    let mut walk = Walk::new();
    for (name, depth) in [("reclaim-test", 0), ("app", 1)] {
        assert!(walk.visit(true, name, depth).is_none());
    }
    assert!(walk.visit(true, "node_modules", 2).is_some());
    assert!(walk.settle(PathBuf::from("reclaim-test/app/node_modules"), Some(true)));
    assert!(walk.visit(false, "package.json", 2).is_none());
    assert!(walk.visit(true, "py", 1).is_none());
    assert!(walk.visit(true, "__pycache__", 2).is_some());
    assert!(walk.settle(PathBuf::from("reclaim-test/py/__pycache__"), None));
    assert!(walk.visit(true, "orphan", 1).is_none());
    assert!(walk.visit(true, "node_modules", 2).is_some());
    assert!(!walk.settle(PathBuf::from("reclaim-test/orphan/node_modules"), Some(false)));
    assert!(walk.visit(false, "y.bin", 3).is_none());
    walk
}

#[test]
fn finds_valid_targets_and_skips_orphans() {
    let scan = walk_fixture().finish(vec![4096, 2048]);
    let hits = &scan.hits;

    let kinds: Vec<&str> = hits.iter().map(|h| h.kind).collect();
    assert!(kinds.contains(&"node"), "should find node_modules");
    assert!(kinds.contains(&"python"), "should find __pycache__");
    assert_eq!(hits.len(), 2, "orphan node_modules must be skipped");
    assert_eq!(scan.dirs_scanned, 7);
}

#[test]
fn results_are_sorted_largest_first() {
    let scan = walk_fixture().finish(vec![2048, 4096]);
    let hits = &scan.hits;

    for pair in hits.windows(2) {
        assert!(pair[0].size >= pair[1].size, "hits must be size-descending");
    }
    assert_eq!(hits[0].kind, "python");
}

#[test]
fn settling_needs_a_matched_visit() {
    let mut walk = Walk::new();
    // nothing visited yet: nothing to record
    assert!(!walk.settle(PathBuf::from("x"), Some(true)));
    // a directory whose name is not a known one
    assert!(walk.visit(true, "src", 1).is_none());
    assert!(!walk.settle(PathBuf::from("src"), Some(true)));
    // a matched directory is recorded once; settling again records nothing
    assert!(walk.visit(true, ".venv", 1).is_some());
    assert!(walk.settle(PathBuf::from(".venv"), None));
    assert!(!walk.settle(PathBuf::from(".venv"), None));
    // a file between a match and its settling drops the match
    assert!(walk.visit(true, "__pycache__", 1).is_some());
    assert!(walk.visit(false, "a.pyc", 2).is_none());
    assert!(!walk.settle(PathBuf::from("__pycache__"), None));
    assert_eq!(walk.found().len(), 1);
    assert_eq!(walk.dirs_scanned(), 3);
    assert!(walk.found().len() <= walk.dirs_scanned());
}

#[test]
fn entries_inside_a_recorded_directory_are_passed_over() {
    let mut walk = Walk::new();
    assert!(walk.visit(true, "root", 0).is_none());
    assert!(walk.visit(true, "node_modules", 1).is_some());
    assert!(walk.settle(PathBuf::from("root/node_modules"), Some(true)));
    // the walker did not skip: what lies inside is neither counted nor matched
    assert!(walk.visit(true, "node_modules", 2).is_none());
    assert!(walk.visit(true, "dist", 3).is_none());
    assert!(walk.visit(false, "a.js", 2).is_none());
    assert_eq!(walk.dirs_scanned(), 2);
    // back at the recorded directory's level, the walk goes on
    assert!(walk.visit(true, "__pycache__", 1).is_some());
    assert!(walk.settle(PathBuf::from("root/__pycache__"), None));
    assert_eq!(walk.dirs_scanned(), 3);
    assert_eq!(walk.found().len(), 2);
}
