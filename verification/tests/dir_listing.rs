use tracer::dirlist::{fmt_dir_line, fmt_file_line, listing_rows, listing_tail, name_width, DirEntry};
use tracer::listing::DirSummary;

fn s(x: &str) -> String {
    x.to_string()
}

fn file(name: &str, size: i64, mtime: i64) -> DirEntry {
    DirEntry { name: s(name), is_dir: false, has_git: false, stat: Some((size, mtime)) }
}

fn dir(name: &str, has_git: bool) -> DirEntry {
    DirEntry { name: s(name), is_dir: true, has_git, stat: None }
}

fn entries() -> Vec<DirEntry> {
    vec![
        file("b.py", 10, 300),
        file("A.md", 20, 100),
        file(".env", 5, 900),
        dir("src", false),
        dir("Docs", false),
        dir(".git", false),
        dir("node_modules", false),
        dir("vendor_repo", true),
        file("c.rs", 30, 300),
        DirEntry { name: s("broken"), is_dir: false, has_git: false, stat: None },
    ]
}

#[test]
fn listing_orders_by_name_and_prunes() {
    let l = listing_rows(&entries(), false, false, None);
    assert_eq!(l.dirs, vec![s("Docs"), s("src")]);
    assert_eq!(l.nested, vec![s("vendor_repo")]);
    let names: Vec<&str> = l.files.iter().map(|f| f.0.as_str()).collect();
    assert_eq!(names, vec!["A.md", "b.py", "c.rs"]);
    assert_eq!(l.total, 3);
    assert!(!l.limited);
}

#[test]
fn recent_and_limit_keep_the_pre_limit_total() {
    let l = listing_rows(&entries(), true, true, Some(2));
    let names: Vec<&str> = l.files.iter().map(|f| f.0.as_str()).collect();
    assert_eq!(names, vec![".env", "b.py"]);
    assert_eq!(l.total, 4);
    assert!(l.limited);
    assert_eq!(
        listing_tail(&l, Some(2)),
        vec![s("entries=4 (showing 2)"), s("nested repository (its own search scope): vendor_repo")]
    );
}

#[test]
fn directory_lines_carry_their_summary() {
    let sum = DirSummary { file_count: 3, ccn_total: 7, last_modified: Some(s("2024-05-01")), has_uncommitted: true };
    assert_eq!(
        fmt_dir_line("src", 4, Some(&sum)),
        "  \u{1F4C1} src/  (4 entries \u{B7} 3 tracked files \u{B7} ccn=7 \u{B7} last: 2024-05-01 \u{B7} uncommitted)"
    );
    assert_eq!(fmt_dir_line("out", 2, None), "  \u{1F4C1} out/  (2 entries)");
}

#[test]
fn file_rows_pad_name_and_size_columns() {
    assert_eq!(fmt_file_line("a.py", 6, "12B", 0), "  a.py         12B");
    assert_eq!(
        fmt_file_line("long_name.rs", 4, "1.5KB", 86_400_000_000_000),
        "  long_name.rs     1.5KB  1970-01-02 00:00"
    );
    let files = vec![(s("ab"), 1, 0), (s("abcdef"), 1, 0)];
    assert_eq!(name_width(&files), 6);
    let long = vec![(s(&"x".repeat(60)), 1, 0)];
    assert_eq!(name_width(&long), 48);
    assert_eq!(name_width(&vec![]), 0);
}
