//! The lines the tool prints, built from the numbers they report.

use vstd::prelude::*;
use vstd::string::*;

use crate::format::{bytes, bytes_text, duration, duration_text};
use crate::text::{decimal, decimal_string, pad_end, pad_left, pad_right, pad_start};

verus! {

/// The one-line summary after a scan: `walked 18204 dirs in 2.4 s`, an em dash (U+2014), then
/// `found 14 reclaimable (7.2 GB)`.
pub open spec fn walked_text(dirs: nat, secs: nat, nanos: nat, found: nat, size: nat) -> Seq<char> {
    "walked "@ + decimal(dirs) + " dirs in "@ + duration_text(secs, nanos) + " \u{2014} found "@
        + decimal(found) + " reclaimable ("@ + bytes_text(size) + ")"@
}

/// The one-line summary after a scan of `dirs` directories that took `secs` seconds and
/// `nanos` nanoseconds and found `found` directories holding `size` bytes.
pub fn walked_line(dirs: usize, secs: u64, nanos: u32, found: usize, size: u64) -> (s: String)
    requires
        nanos < 1_000_000_000,
    ensures
        s@ == walked_text(dirs as nat, secs as nat, nanos as nat, found as nat, size as nat),
{
    let mut s = String::from_str("walked ");
    s.append(decimal_string(dirs as u128).as_str());
    s.append(" dirs in ");
    s.append(duration(secs, nanos).as_str());
    s.append(" \u{2014} found ");
    s.append(decimal_string(found as u128).as_str());
    s.append(" reclaimable (");
    s.append(bytes(size).as_str());
    s.append(")");
    s
}

/// The start of a `--list` row, before the path: the size right-aligned in 9 columns, two
/// spaces, the ecosystem left-aligned in 8, one space.
pub open spec fn list_row_text(size: nat, kind: Seq<char>) -> Seq<char> {
    pad_start(bytes_text(size), 9) + "  "@ + pad_end(kind, 8) + " "@
}

/// The start of a `--list` row, before the path.
pub fn list_row(size: u64, kind: &str) -> (s: String)
    ensures
        s@ == list_row_text(size as nat, kind@),
{
    let mut s = pad_left(bytes(size).as_str(), 9);
    s.append("  ");
    s.append(pad_right(kind, 8).as_str());
    s.append(" ");
    s
}

/// A row of the per-ecosystem summary: `  node        1.2 GB  (3 dirs)`.
pub open spec fn summary_row_text(kind: Seq<char>, size: nat, dirs: nat) -> Seq<char> {
    "  "@ + pad_end(kind, 8) + " "@ + pad_start(bytes_text(size), 9) + "  ("@ + decimal(dirs) + " dirs)"@
}

/// A row of the per-ecosystem summary.
pub fn summary_row(kind: &str, size: u64, dirs: usize) -> (s: String)
    ensures
        s@ == summary_row_text(kind@, size as nat, dirs as nat),
{
    let mut s = String::from_str("  ");
    s.append(pad_right(kind, 8).as_str());
    s.append(" ");
    s.append(pad_left(bytes(size).as_str(), 9).as_str());
    s.append("  (");
    s.append(decimal_string(dirs as u128).as_str());
    s.append(" dirs)");
    s
}

/// The last line of `--list`: `7.2 GB reclaimable across 14 dirs`.
pub open spec fn across_text(size: nat, dirs: nat) -> Seq<char> {
    bytes_text(size) + " reclaimable across "@ + decimal(dirs) + " dirs"@
}

/// The last line of `--list`.
pub fn across_line(size: u64, dirs: usize) -> (s: String)
    ensures
        s@ == across_text(size as nat, dirs as nat),
{
    let mut s = bytes(size);
    s.append(" reclaimable across ");
    s.append(decimal_string(dirs as u128).as_str());
    s.append(" dirs");
    s
}

/// The line after cleaning: `removed 3 dirs, freed 1.2 GB`.
pub open spec fn removed_text(removed: nat, freed: nat) -> Seq<char> {
    "removed "@ + decimal(removed) + " dirs, freed "@ + bytes_text(freed)
}

/// The line after cleaning.
pub fn removed_line(removed: usize, freed: u64) -> (s: String)
    ensures
        s@ == removed_text(removed as nat, freed as nat),
{
    let mut s = String::from_str("removed ");
    s.append(decimal_string(removed as u128).as_str());
    s.append(" dirs, freed ");
    s.append(bytes(freed).as_str());
    s
}

/// The tick box of a row in the interactive list.
pub fn mark(picked: bool) -> (m: &'static str)
    ensures
        picked ==> m@ == "[x]"@,
        !picked ==> m@ == "[ ]"@,
{
    if picked {
        "[x]"
    } else {
        "[ ]"
    }
}

/// The header's count of hits: `14 dirs found`.
pub open spec fn found_text(hits: nat) -> Seq<char> {
    decimal(hits) + " dirs found"@
}

/// The header's count of hits.
pub fn found_part(hits: usize) -> (s: String)
    ensures
        s@ == found_text(hits as nat),
{
    let mut s = decimal_string(hits as u128);
    s.append(" dirs found");
    s
}

/// The header's selected bytes: `1.2 GB selected`.
pub open spec fn selected_text(size: nat) -> Seq<char> {
    bytes_text(size) + " selected"@
}

/// The header's selected bytes.
pub fn selected_part(size: u64) -> (s: String)
    ensures
        s@ == selected_text(size as nat),
{
    let mut s = bytes(size);
    s.append(" selected");
    s
}

/// The header's count of selected hits: `  (3 dirs)`.
pub open spec fn picked_dirs_text(dirs: nat) -> Seq<char> {
    "  ("@ + decimal(dirs) + " dirs)"@
}

/// The header's count of selected hits.
pub fn picked_dirs_part(dirs: usize) -> (s: String)
    ensures
        s@ == picked_dirs_text(dirs as nat),
{
    let mut s = String::from_str("  (");
    s.append(decimal_string(dirs as u128).as_str());
    s.append(" dirs)");
    s
}

/// The header's total bytes: `  /  7.2 GB total`.
pub open spec fn total_text(size: nat) -> Seq<char> {
    "  /  "@ + bytes_text(size) + " total"@
}

/// The header's total bytes.
pub fn total_part(size: u64) -> (s: String)
    ensures
        s@ == total_text(size as nat),
{
    let mut s = String::from_str("  /  ");
    s.append(bytes(size).as_str());
    s.append(" total");
    s
}

} // verus!
