use std::path::PathBuf;

use reclaim::cleaner::{clean, should_remove, Removal};
use reclaim::scanner::Hit;

fn hit(name: &str, size: u64, picked: bool) -> Hit {
    Hit { path: PathBuf::from(name), kind: "node", size, picked }
}

#[test]
fn report_counts_removed_and_collects_failures() {
    let hits = vec![hit("a", 100, true), hit("b", 50, false), hit("c", 25, true), hit("d", 5, true)];
    let outcomes: Vec<Removal> = vec![
        Ok(()),
        Err(("b".to_string(), "should be ignored".to_string())),
        Err(("c".to_string(), "permission denied".to_string())),
        Ok(()),
    ];
    let r = clean(&hits, &outcomes);
    assert_eq!(r.removed, 2);
    assert_eq!(r.freed, 105);
    assert_eq!(r.failed, vec![("c".to_string(), "permission denied".to_string())]);
    assert!(!r.succeeded());
}

#[test]
fn nothing_picked_removes_nothing() {
    let hits = vec![hit("a", 100, false)];
    let r = clean(&hits, &[Ok(())]);
    assert_eq!(r.removed, 0);
    assert_eq!(r.freed, 0);
    assert!(r.failed.is_empty());
    assert!(!should_remove(&hits[0]));
}

#[test]
fn all_removals_succeeding_free_every_picked_size() {
    let hits = vec![hit("a", 100, true), hit("b", 50, false), hit("c", 25, true)];
    let r = clean(&hits, &[Ok(()), Ok(()), Ok(())]);
    assert_eq!(r.removed, 2);
    assert_eq!(r.freed, 125);
    assert!(r.failed.is_empty());
    assert!(r.succeeded());
}
