use tracer::activity::GitActivity;
use tracer::facts::FileFacts;
use tracer::layout::{aggregate_paths, layout_groups, layout_lines};

fn s(x: &str) -> String {
    x.to_string()
}

fn facts(path: &str, ccn: i64, modified: &str, state: &str) -> FileFacts {
    FileFacts {
        path: s(path),
        language: Some(s("python")),
        loc: 10,
        function_count: 1,
        cyclomatic_complexity_total: ccn,
        cyclomatic_complexity_max: ccn,
        rank: s("A"),
        functions: Vec::new(),
        last_modified: Some(s(modified)),
        last_author: None,
        commits_30d: 0,
        first_seen: None,
        commit_count: 0,
        commit_count_is_floor: false,
        rename_from: None,
        working_state: Some(s(state)),
        present_in: Vec::new(),
        last_subject: None,
        top_author: None,
        co_changed: Vec::new(),
        mtime_ns: 0,
        size_bytes: 0,
        extraction: None,
    }
}

fn activity(modified: &str) -> GitActivity {
    let mut a = GitActivity::empty();
    a.last_modified = Some(s(modified));
    a
}

fn rels() -> Vec<String> {
    ["src/a.py", "src/readme.md", "Docs/x.md", ".github/ci.yml", "build/out.js", "top.py", "docs/y.py"]
        .iter()
        .map(|x| s(x))
        .collect()
}

#[test]
fn layout_groups_by_top_directory_case_insensitively() {
    let groups = layout_groups(&rels());
    let names: Vec<&str> = groups.iter().map(|g| g.0.as_str()).collect();
    assert_eq!(names, vec!["Docs", "docs", "src"]);
    assert_eq!(groups[2].1, vec![s("src/a.py"), s("src/readme.md")]);
}

#[test]
fn layout_sums_facts_and_activity() {
    let f = vec![(s("src/a.py"), facts("src/a.py", 4, "2024-01-02", "modified"))];
    let g = vec![(s("src/readme.md"), activity("2024-03-01"))];
    let summary = aggregate_paths(&vec![s("src/a.py"), s("src/readme.md")], &f, &g);
    assert_eq!(summary.file_count, 2);
    assert_eq!(summary.ccn_total, 4);
    assert_eq!(summary.last_modified.as_deref(), Some("2024-03-01"));
    assert!(summary.has_uncommitted);
    let lines = layout_lines(&layout_groups(&rels()), &f, &g);
    assert_eq!(lines[0], "## Layout");
    assert_eq!(lines[2], "  \u{1F4C1} docs/  (1 files \u{B7} ccn=0)");
    assert_eq!(lines[3], "  \u{1F4C1} src/  (2 files \u{B7} ccn=4 \u{B7} last: 2024-03-01 \u{B7} uncommitted)");
    let none = layout_lines(&Vec::new(), &f, &g);
    assert_eq!(none, vec![s("## Layout"), s("  (no source directories at top level)")]);
}
