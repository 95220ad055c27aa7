use std::path::PathBuf;

use reclaim::scanner::Hit;
use reclaim::tui::{command, take_picked, App, Command, Exit, Key, Step};

fn hits() -> Vec<Hit> {
    vec![
        Hit { path: PathBuf::from("a"), kind: "node", size: 100, picked: true },
        Hit { path: PathBuf::from("b"), kind: "rust", size: 50, picked: true },
        Hit { path: PathBuf::from("c"), kind: "python", size: 7, picked: true },
    ]
}

fn stay(step: Step) -> App {
    match step {
        Step::Stay(app) => app,
        Step::Leave(_) => panic!("left the UI"),
    }
}

#[test]
fn keys_map_to_commands() {
    assert_eq!(command(Key::Char('q')), Command::Quit);
    assert_eq!(command(Key::Esc), Command::Quit);
    assert_eq!(command(Key::Char('j')), Command::Down);
    assert_eq!(command(Key::Down), Command::Down);
    assert_eq!(command(Key::Char('k')), Command::Up);
    assert_eq!(command(Key::Up), Command::Up);
    assert_eq!(command(Key::Char(' ')), Command::Toggle);
    assert_eq!(command(Key::Char('a')), Command::ToggleAll);
    assert_eq!(command(Key::Enter), Command::Clean);
    assert_eq!(command(Key::Char('x')), Command::Ignore);
    assert_eq!(command(Key::Other), Command::Ignore);
}

#[test]
fn cursor_wraps_around() {
    let app = App::new(hits());
    assert_eq!(app.cursor(), 0);
    let app = stay(app.on_key(Key::Up));
    assert_eq!(app.cursor(), 2);
    let app = stay(app.on_key(Key::Down));
    assert_eq!(app.cursor(), 0);
    let app = stay(app.on_key(Key::Char('j')));
    assert_eq!(app.selected, Some(1));
}

#[test]
fn moving_far_wraps_euclidean() {
    let mut app = App::new(hits());
    app.move_by(-7);
    assert_eq!(app.cursor(), 2);
    app.move_by(5);
    assert_eq!(app.cursor(), 1);
}

#[test]
fn an_empty_list_has_no_cursor() {
    let mut app = App::new(Vec::new());
    assert_eq!(app.selected, None);
    app.move_by(1);
    assert_eq!(app.selected, None);
    app.toggle();
    assert_eq!(app.picked_count(), 0);
}

#[test]
fn toggling_and_all_or_none() {
    let app = App::new(hits());
    assert_eq!(app.picked_size(), 157);
    assert_eq!(app.total_size(), 157);
    let app = stay(app.on_key(Key::Char(' ')));
    assert!(!app.hits[0].picked);
    assert_eq!(app.picked_size(), 57);
    assert_eq!(app.picked_count(), 2);
    // some are unticked: `a` ticks all
    let app = stay(app.on_key(Key::Char('a')));
    assert!(app.hits.iter().all(|h| h.picked));
    // all ticked: `a` unticks all
    let app = stay(app.on_key(Key::Char('a')));
    assert!(app.hits.iter().all(|h| !h.picked));
    assert_eq!(app.picked_size(), 0);
    assert_eq!(app.total_size(), 157);
    // space twice restores
    let app = stay(app.on_key(Key::Char(' ')));
    let app = stay(app.on_key(Key::Char(' ')));
    assert!(app.hits.iter().all(|h| !h.picked));
}

#[test]
fn enter_cleans_only_the_ticked_in_order() {
    let app = App::new(hits());
    let app = stay(app.on_key(Key::Down));
    let app = stay(app.on_key(Key::Char(' ')));
    match app.on_key(Key::Enter) {
        Step::Leave(Exit::Clean(picked)) => {
            let names: Vec<String> = picked.iter().map(|h| h.path.display().to_string()).collect();
            assert_eq!(names, vec!["a", "c"]);
        }
        _ => panic!("enter should leave to clean"),
    }
}

#[test]
fn quit_touches_nothing() {
    let app = App::new(hits());
    assert!(matches!(app.on_key(Key::Char('q')), Step::Leave(Exit::Quit)));
    let app = App::new(hits());
    assert!(matches!(app.on_key(Key::Esc), Step::Leave(Exit::Quit)));
    let app = stay(App::new(hits()).on_key(Key::Char('z')));
    assert_eq!(app.picked_count(), 3);
}

#[test]
fn take_picked_keeps_order() {
    let mut h = hits();
    h[1].picked = false;
    let picked = take_picked(h);
    assert_eq!(picked.len(), 2);
    assert_eq!(picked[0].kind, "node");
    assert_eq!(picked[1].kind, "python");
}
