use std::path::PathBuf;

use reclaim::cli::{plan, resolve_path, Cli, Plan, Source};
use reclaim::paths::home_from;

#[test]
fn an_explicit_path_wins() {
    let cli = Cli { path: Some(PathBuf::from("/work")), list: true, yes: false };
    assert!(matches!(resolve_path(&cli), Source::Given(p) if p == PathBuf::from("/work")));
}

#[test]
fn flags_without_a_path_scan_here() {
    let cli = Cli { path: None, list: false, yes: true };
    assert!(matches!(resolve_path(&cli), Source::Current));
    let cli = Cli { path: None, list: true, yes: false };
    assert!(matches!(resolve_path(&cli), Source::Current));
}

#[test]
fn nothing_given_opens_the_menu() {
    let cli = Cli { path: None, list: false, yes: false };
    assert!(matches!(resolve_path(&cli), Source::Menu));
}

#[test]
fn plans_follow_the_flags() {
    assert_eq!(plan(0, true, true), Plan::NothingFound);
    assert_eq!(plan(3, true, true), Plan::List);
    assert_eq!(plan(3, false, true), Plan::CleanAll);
    assert_eq!(plan(3, false, false), Plan::Interactive);
}

#[test]
fn home_follows_the_platform() {
    let a = PathBuf::from("/a");
    let b = PathBuf::from("/b");
    let dot = PathBuf::from(".");
    // Windows reads USERPROFILE
    assert_eq!(home_from(true, Some(a.clone()), Some(b.clone()), dot.clone()), a);
    assert_eq!(home_from(true, None, Some(b.clone()), dot.clone()), dot);
    // elsewhere HOME, and USERPROFILE is ignored
    assert_eq!(home_from(false, Some(a.clone()), Some(b.clone()), dot.clone()), b);
    assert_eq!(home_from(false, Some(a.clone()), None, dot.clone()), dot);
    assert_eq!(home_from(false, None, None, dot.clone()), dot);
}
