//! Small path helpers shared across the app.

use std::path::PathBuf;

use vstd::prelude::*;

verus! {

/// The current user's home directory, from the values of `USERPROFILE` and `HOME`:
/// `USERPROFILE` on Windows and `HOME` elsewhere, falling back to `fallback` (the current
/// directory) when the platform's variable is not set.
pub fn home_from(windows: bool, userprofile: Option<PathBuf>, home: Option<PathBuf>, fallback: PathBuf) -> (p: PathBuf)
    ensures
        p == if windows {
            match userprofile {
                Some(u) => u,
                None => fallback,
            }
        } else {
            match home {
                Some(h) => h,
                None => fallback,
            }
        },
{
    let chosen = if windows { userprofile } else { home };
    match chosen {
        Some(p) => p,
        None => fallback,
    }
}

} // verus!
