//! The command line: which directory to scan and what to do with what is found.

use std::path::PathBuf;

use vstd::prelude::*;

verus! {

/// The command-line options: an optional directory, `--list` and `--yes`.
pub struct Cli {
    /// Directory to scan. Omit to open the interactive menu.
    pub path: Option<PathBuf>,
    /// List what would be cleaned, then exit. No UI, no deletion.
    pub list: bool,
    /// Delete everything found without the interactive UI.
    pub yes: bool,
}

/// Where the directory to scan comes from.
pub enum Source {
    /// The path given on the command line.
    Given(PathBuf),
    /// The current directory: a flag was given without a path, so the tool stays scriptable.
    Current,
    /// Whatever the user picks from the start menu.
    Menu,
}

/// Work out which directory to scan: an explicit path, the current dir (with flags), or the
/// menu.
pub fn resolve_path(cli: &Cli) -> (s: Source)
    ensures
        match cli.path {
            Some(p) => s == Source::Given(p),
            None => if cli.list || cli.yes {
                s is Current
            } else {
                s is Menu
            },
        },
{
    match &cli.path {
        Some(path) => Source::Given(path.clone()),
        None => {
            if cli.list || cli.yes {
                Source::Current
            } else {
                Source::Menu
            }
        },
    }
}

/// What to do once the scan is done.
#[derive(Debug, Clone, Copy, PartialEq, Eq)]
pub enum Plan {
    /// Nothing was found: say the tree is already clean.
    NothingFound,
    /// `--list`: print what was found, delete nothing.
    List,
    /// `--yes`: delete everything found, no prompts.
    CleanAll,
    /// Let the user pick in the interactive UI.
    Interactive,
}

/// The action after a scan that found `hits` directories: nothing found wins, then `--list`,
/// then `--yes`, else the interactive UI.
pub fn plan(hits: usize, list: bool, yes: bool) -> (p: Plan)
    ensures
        p == if hits == 0 {
            Plan::NothingFound
        } else if list {
            Plan::List
        } else if yes {
            Plan::CleanAll
        } else {
            Plan::Interactive
        },
{
    if hits == 0 {
        Plan::NothingFound
    } else if list {
        Plan::List
    } else if yes {
        Plan::CleanAll
    } else {
        Plan::Interactive
    }
}

} // verus!
