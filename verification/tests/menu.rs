use std::path::PathBuf;

use reclaim::menu::{answer, path_answer, pick, Choice, Pick, Reply};

#[test]
fn answers_pick_the_menu_entries() {
    assert_eq!(pick("1\n"), Pick::Home);
    assert_eq!(pick("  2  "), Pick::Current);
    assert_eq!(pick("3\r\n"), Pick::AskPath);
    assert_eq!(pick("q"), Pick::Quit);
    assert_eq!(pick("Q\n"), Pick::Quit);
    assert_eq!(pick("4"), Pick::Again);
    assert_eq!(pick("12"), Pick::Again);
    assert_eq!(pick(""), Pick::Again);
    assert_eq!(pick("\u{3000}1\u{a0}"), Pick::Home);
}

#[test]
fn typed_paths_are_trimmed() {
    assert_eq!(path_answer("  ~/work \n"), Some("~/work".to_string()));
    assert_eq!(path_answer("my dir\n"), Some("my dir".to_string()));
    assert_eq!(path_answer("   \n"), None);
    assert_eq!(path_answer(""), None);
}

#[test]
fn choices_give_a_path_or_none() {
    assert_eq!(Choice::Scan(PathBuf::from("/tmp")).into_path(), Some(PathBuf::from("/tmp")));
    assert_eq!(Choice::Quit.into_path(), None);
}

#[test]
fn picks_lead_to_the_next_step() {
    let home = PathBuf::from("/home/me");
    let here = PathBuf::from(".");
    assert!(matches!(answer(Pick::Home, home.clone(), here.clone()), Reply::Choose(Choice::Scan(p)) if p == home));
    assert!(matches!(answer(Pick::Current, home.clone(), here.clone()), Reply::Choose(Choice::Scan(p)) if p == here));
    assert!(matches!(answer(Pick::AskPath, home.clone(), here.clone()), Reply::AskPath));
    assert!(matches!(answer(Pick::Quit, home.clone(), here.clone()), Reply::Choose(Choice::Quit)));
    assert!(matches!(answer(Pick::Again, home, here), Reply::Again));
}
