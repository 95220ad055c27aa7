//! The start menu shown when the tool runs with no path and no flags: what each answer means.

use std::path::PathBuf;

use vstd::prelude::*;
use vstd::string::*;

use crate::text::{trim, trimmed};

verus! {

/// What the user picked from the start menu.
pub enum Choice {
    /// Scan this directory (and everything under it).
    Scan(PathBuf),
    /// Leave without scanning.
    Quit,
}

impl Choice {
    /// The directory to scan, or `None` when the user chose to leave.
    pub fn into_path(self) -> (p: Option<PathBuf>)
        ensures
            match self {
                Choice::Scan(path) => p == Some(path),
                Choice::Quit => p is None,
            },
    {
        match self {
            Choice::Scan(path) => Some(path),
            Choice::Quit => None,
        }
    }
}

/// What one answer to the menu's prompt asks for.
#[derive(Debug, Clone, Copy, PartialEq, Eq)]
pub enum Pick {
    /// `1`: sweep the whole home folder.
    Home,
    /// `2`: scan the current folder.
    Current,
    /// `3`: ask for a path to scan.
    AskPath,
    /// `q` or `Q`: leave.
    Quit,
    /// Anything else: say so and ask again.
    Again,
}

/// The meaning of an answer, once leading and trailing white space is taken off.
pub open spec fn pick_of(t: Seq<char>) -> Pick {
    if t == seq!['1'] {
        Pick::Home
    } else if t == seq!['2'] {
        Pick::Current
    } else if t == seq!['3'] {
        Pick::AskPath
    } else if t == seq!['q'] || t == seq!['Q'] {
        Pick::Quit
    } else {
        Pick::Again
    }
}

/// What the answer `line` to the menu's prompt asks for.
pub fn pick(line: &str) -> (p: Pick)
    ensures
        p == pick_of(trimmed(line@)),
        (p == Pick::Home) <==> trimmed(line@) == seq!['1'],
        (p == Pick::Current) <==> trimmed(line@) == seq!['2'],
        (p == Pick::AskPath) <==> trimmed(line@) == seq!['3'],
        (p == Pick::Quit) <==> (trimmed(line@) == seq!['q'] || trimmed(line@) == seq!['Q']),
        (p == Pick::Again) <==> !(trimmed(line@) == seq!['1'] || trimmed(line@) == seq!['2']
            || trimmed(line@) == seq!['3'] || trimmed(line@) == seq!['q'] || trimmed(line@) == seq!['Q']),
{
    let t = trim(line);
    if t.unicode_len() != 1 {
        proof {
            assert(t@ != seq!['1'] && t@ != seq!['2'] && t@ != seq!['3'] && t@ != seq!['q'] && t@ != seq!['Q']);
        }
        return Pick::Again;
    }
    let c = t.get_char(0);
    proof {
        assert(t@ =~= seq![c]);
    }
    if c == '1' {
        Pick::Home
    } else if c == '2' {
        Pick::Current
    } else if c == '3' {
        Pick::AskPath
    } else if c == 'q' || c == 'Q' {
        Pick::Quit
    } else {
        Pick::Again
    }
}

/// The path typed in answer to "path to scan": the answer without surrounding white space,
/// or `None` when nothing is left (the menu is then shown again).
pub fn path_answer(raw: &str) -> (p: Option<String>)
    ensures
        match p {
            Some(s) => s@ == trimmed(raw@) && s@.len() > 0,
            None => trimmed(raw@).len() == 0,
        },
{
    let t = trim(raw);
    if t.unicode_len() == 0 {
        None
    } else {
        Some(String::from_str(t))
    }
}

/// What the menu does after an answer.
pub enum Reply {
    /// Leave the menu with this choice.
    Choose(Choice),
    /// Ask for the path to scan; an empty answer shows the menu again.
    AskPath,
    /// Say the answer was not understood and show the menu again.
    Again,
}

/// The menu's step after a pick: `1` scans `home`, `2` scans `current` (the current folder),
/// `3` asks for a path, `q` leaves, anything else asks again.
pub fn answer(pick: Pick, home: PathBuf, current: PathBuf) -> (r: Reply)
    ensures
        match pick {
            Pick::Home => r == Reply::Choose(Choice::Scan(home)),
            Pick::Current => r == Reply::Choose(Choice::Scan(current)),
            Pick::AskPath => r is AskPath,
            Pick::Quit => r == Reply::Choose(Choice::Quit),
            Pick::Again => r is Again,
        },
{
    match pick {
        Pick::Home => Reply::Choose(Choice::Scan(home)),
        Pick::Current => Reply::Choose(Choice::Scan(current)),
        Pick::AskPath => Reply::AskPath,
        Pick::Quit => Reply::Choose(Choice::Quit),
        Pick::Again => Reply::Again,
    }
}

} // verus!
