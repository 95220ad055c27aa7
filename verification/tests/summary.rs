use std::path::PathBuf;

use reclaim::scanner::Hit;
use reclaim::summary::{str_less, summarize};

fn hit(kind: &'static str, size: u64) -> Hit {
    Hit { path: PathBuf::from(kind), kind, size, picked: true }
}

#[test]
fn groups_by_ecosystem_in_name_order() {
    let hits = vec![hit("rust", 10), hit("node", 5), hit("rust", 20), hit("build", 1), hit("node", 2)];
    let s = summarize(&hits);
    let rows: Vec<(&str, usize, u64)> = s.iter().map(|k| (k.kind, k.dirs, k.size)).collect();
    assert_eq!(rows, vec![("build", 1, 1), ("node", 2, 7), ("rust", 2, 30)]);
}

#[test]
fn empty_summary() {
    assert!(summarize(&[]).is_empty());
}

#[test]
fn string_order_is_byte_order() {
    assert!(str_less("build", "node"));
    assert!(!str_less("node", "build"));
    assert!(str_less("php", "php/go"));
    assert!(str_less("Zebra", "apple"));
    assert!(!str_less("node", "node"));
    assert!(str_less("", "a"));
}

#[test]
fn rows_add_up_to_the_totals() {
    let hits = vec![hit("rust", 10), hit("node", 5), hit("rust", 20), hit("build", 1), hit("node", 2)];
    let s = summarize(&hits);
    let dirs: usize = s.iter().map(|k| k.dirs).sum();
    let size: u64 = s.iter().map(|k| k.size).sum();
    assert_eq!(dirs, hits.len());
    assert_eq!(size, 38);
}
