use tracer::history::walk_history;

fn log(records: &[&str]) -> Vec<u8> {
    let mut out = Vec::new();
    for r in records {
        out.extend_from_slice(r.as_bytes());
        out.push(0);
    }
    out
}

#[test]
fn walk_counts_commits_authors_and_renames() {
    // Newest commit first, as git log prints it.
    let stdout = log(&[
        "COMMIT|c3|2026-09-07|Jordan|change both",
        "\nM",
        "src/new.rs",
        "M",
        "src/other.rs",
        "COMMIT|c2|2026-08-20|Ada|rename",
        "\nR100",
        "src/old.rs",
        "src/new.rs",
        "COMMIT|c1|2026-08-01|Jordan|create",
        "\nA",
        "src/old.rs",
    ]);
    let h = walk_history(&stdout, &Vec::new(), "2026-08-15");
    assert!(!h.truncated);
    let keys: Vec<&str> = h.entries.iter().map(|(k, _)| k.as_str()).collect();
    assert_eq!(keys, vec!["src/new.rs", "src/other.rs"]);
    let new = &h.entries[0].1;
    assert_eq!(new.last_modified.as_deref(), Some("2026-09-07"));
    assert_eq!(new.last_author.as_deref(), Some("Jordan"));
    assert_eq!(new.last_subject.as_deref(), Some("change both"));
    assert_eq!(new.first_seen.as_deref(), Some("2026-08-01"));
    assert_eq!(new.commit_count, 3);
    assert_eq!(new.commits_30d, 2);
    assert_eq!(new.rename_from.as_deref(), Some("src/old.rs"));
    assert_eq!(new.top_author.as_deref(), Some("Jordan"));
    assert_eq!(new.co_changed, vec![("src/other.rs".to_string(), 1)]);
    let other = &h.entries[1].1;
    assert_eq!(other.commit_count, 1);
    assert_eq!(other.co_changed, vec![("src/new.rs".to_string(), 1)]);
}

#[test]
fn graft_commits_contribute_nothing() {
    let stdout = log(&[
        "COMMIT|g1|2026-01-01|Cloner|grafted",
        "\nA",
        "a.rs",
        "A",
        "b.rs",
    ]);
    let h = walk_history(&stdout, &vec!["g1".to_string()], "2025-12-01");
    assert!(h.entries.is_empty());
}

#[test]
fn ties_in_author_counts_go_to_the_first_counted() {
    let stdout = log(&[
        "COMMIT|c2|2026-02-02|Bea|two",
        "\nM",
        "x.rs",
        "COMMIT|c1|2026-02-01|Al|one",
        "\nA",
        "x.rs",
    ]);
    let h = walk_history(&stdout, &Vec::new(), "2030-01-01");
    assert_eq!(h.entries[0].1.top_author.as_deref(), Some("Bea"));
    assert_eq!(h.entries[0].1.commits_30d, 0);
    assert_eq!(h.entries[0].1.co_changed, Vec::<(String, i64)>::new());
}

#[test]
fn empty_log_has_no_entries() {
    let h = walk_history(b"", &Vec::new(), "2026-01-01");
    assert!(h.entries.is_empty());
    assert!(!h.truncated);
}
