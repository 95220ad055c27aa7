use reclaim::lines::{
    across_line, found_part, list_row, mark, picked_dirs_part, removed_line, selected_part, summary_row,
    total_part, walked_line,
};
use reclaim::text::{pad_left, pad_right, trim};

#[test]
fn status_lines() {
    assert_eq!(
        walked_line(18204, 2, 400_000_000, 14, 7 * 1024 * 1024 * 1024 + 200 * 1024 * 1024),
        "walked 18204 dirs in 2.4 s \u{2014} found 14 reclaimable (7.2 GB)"
    );
    assert_eq!(removed_line(3, 1536), "removed 3 dirs, freed 1.5 KB");
    assert_eq!(across_line(512, 1), "512 B reclaimable across 1 dirs");
}

#[test]
fn table_rows_are_aligned() {
    assert_eq!(list_row(1536, "node"), format!("{:>9}  {:<8} ", "1.5 KB", "node"));
    assert_eq!(list_row(0, "php/go"), format!("{:>9}  {:<8} ", "0 B", "php/go"));
    assert_eq!(summary_row("python", 2048, 3), format!("  {:<8} {:>9}  ({} dirs)", "python", "2.0 KB", 3));
    assert_eq!(mark(true), "[x]");
    assert_eq!(mark(false), "[ ]");
}

#[test]
fn padding_matches_std_formatting() {
    for s in ["", "a", "node", "12345678", "123456789", "1234567890", "häagen", "ü"] {
        for w in 0..12 {
            assert_eq!(pad_left(s, w), format!("{:>w$}", s, w = w));
            assert_eq!(pad_right(s, w), format!("{:<w$}", s, w = w));
        }
    }
}

#[test]
fn trim_matches_std() {
    for s in ["", "  a  ", "\t\n x y \r\n", "\u{2003}z\u{2029}", "\u{200b}q", "none", "   "] {
        assert_eq!(trim(s), s.trim());
    }
}

#[test]
fn header_parts() {
    assert_eq!(found_part(14), "14 dirs found");
    assert_eq!(selected_part(1536), "1.5 KB selected");
    assert_eq!(picked_dirs_part(3), "  (3 dirs)");
    assert_eq!(total_part(0), "  /  0 B total");
}
