use tracer::activity::GitActivity;
use tracer::changes::{parse_name_status, InsertionOrderedMap};
use tracer::listing::{aggregate, discover_files, fmt_mtime, is_source_ext, ls_files_candidates, partition_under_base, skip_dir};
use tracer::architecture::{Edge, Graph, Node};
use tracer::primer::{spine_lines, ahead_behind_base, ahead_behind_text, split_whitespace, render_dirty, classify_directory, current_branch, git_user, is_timestamp_prefixed, origin_head_branch};
use tracer::session::{content_hash, plan_emission, SessionView};
use tracer::snippets::{civil_from_epoch, head, month_num, valid, window_snippet};

fn s(x: &str) -> String {
    x.to_string()
}

#[test]
fn skip_dir_knows_vendored_trees() {
    assert!(skip_dir(".git"));
    assert!(skip_dir("__pycache__"));
    assert!(!skip_dir("src"));
}

#[test]
fn source_extension_is_case_insensitive() {
    assert!(is_source_ext("src/main.py"));
    assert!(is_source_ext("lib/App.TSX"));
    assert!(!is_source_ext("src/main.rs"));
    assert!(!is_source_ext("Makefile"));
}

#[test]
fn discover_keeps_supported_non_symlinks_in_order() {
    let c = vec![(s("b.py"), false), (s("link.ts"), true), (s("notes.txt"), false), (s("a.php"), false)];
    assert_eq!(discover_files(&c), vec![s("b.py"), s("a.php")]);
}

#[test]
fn mtime_formats_utc_minutes() {
    assert_eq!(fmt_mtime(1_700_000_000_000_000_000), "2023-11-14 22:13");
    assert_eq!(fmt_mtime(0), "");
    assert_eq!(fmt_mtime(-5), "");
}

#[test]
fn aggregate_takes_newest_date_and_any_dirty_file() {
    let mut a = GitActivity::empty();
    a.last_modified = Some(s("2024-01-02"));
    let mut b = GitActivity::empty();
    b.last_modified = Some(s("2024-03-04"));
    b.working_state = Some(s("modified"));
    let map = vec![(s("d/a.rs"), a), (s("d/b.rs"), b)];
    let rels = vec![s("d/a.rs"), s("d/b.rs"), s("d/c.rs")];
    let sum = aggregate(&rels, &map);
    assert_eq!(sum.file_count, 3);
    assert_eq!(sum.last_modified, Some(s("2024-03-04")));
    assert!(sum.has_uncommitted);
    let clean = aggregate(&vec![s("d/a.rs")], &map);
    assert!(!clean.has_uncommitted);
    assert_eq!(clean.last_modified, Some(s("2024-01-02")));
}

#[test]
fn partition_groups_by_first_directory_in_name_order() {
    let rels = vec![s("src/b/y.rs"), s("src/a/x.rs"), s("src/top.rs"), s("src/a/z.rs"), s("other/q.rs")];
    let groups = partition_under_base("src", &rels);
    assert_eq!(groups.len(), 2);
    assert_eq!(groups[0].0, "a");
    assert_eq!(groups[0].1, vec![s("src/a/x.rs"), s("src/a/z.rs")]);
    assert_eq!(groups[1].0, "b");
    assert_eq!(groups[1].1, vec![s("src/b/y.rs")]);
}

#[test]
fn name_status_reads_renames_and_skips_blank_lines() {
    let out = parse_name_status("M\tsrc/a.rs\nR087\told.rs\tnew.rs\n\nA\n");
    assert_eq!(out.len(), 2);
    assert_eq!(out[0].status, "modified");
    assert_eq!(out[0].path, "src/a.rs");
    assert_eq!(out[0].rename_from, None);
    assert_eq!(out[1].status, "renamed");
    assert_eq!(out[1].path, "new.rs");
    assert_eq!(out[1].rename_from, Some(s("old.rs")));
}

#[test]
fn insertion_ordered_map_keeps_first_position_and_last_line() {
    let exports = vec![(s("f"), s("function"), 3), (s("g"), s("class"), 5), (s("f"), s("function"), 9)];
    let m = InsertionOrderedMap::from_exports(&exports);
    let items = m.items();
    assert_eq!(items.len(), 2);
    assert_eq!(items[0], ((s("f"), s("function")), 9));
    assert_eq!(items[1], ((s("g"), s("class")), 5));
    assert_eq!(m.get(&(s("g"), s("class"))), Some(5));
    assert!(!m.contains(&(s("g"), s("function"))));
}

#[test]
fn short_snippet_is_whole_line() {
    assert_eq!(window_snippet("let x = 1;", 4), "let x = 1;");
}

#[test]
fn long_snippet_is_windowed_around_the_match() {
    let line = "a".repeat(300);
    let mut want = String::from("\u{2026}");
    want.push_str(&"a".repeat(180));
    assert_eq!(window_snippet(&line, 200), want);
    let mut head_window = "a".repeat(240);
    head_window.push('\u{2026}');
    assert_eq!(window_snippet(&line, 10), head_window);
}

#[test]
fn log_head_is_sixty_four_chars() {
    let line = "x".repeat(70);
    assert_eq!(head(&line), "x".repeat(64));
    assert_eq!(head("short"), "short");
}

#[test]
fn month_names_in_any_case() {
    assert_eq!(month_num("Feb"), Some(2));
    assert_eq!(month_num("DEC"), Some(12));
    assert_eq!(month_num("xyz"), None);
    assert!(valid(2, 30));
    assert!(!valid(13, 1));
    assert!(!valid(1, 0));
}

#[test]
fn epoch_seconds_to_civil_date() {
    assert_eq!(civil_from_epoch(1_700_000_000), (2023, 11, 14));
    assert_eq!(civil_from_epoch(0), (1970, 1, 1));
    assert_eq!(civil_from_epoch(-1), (1969, 12, 31));
}

#[test]
fn git_user_line_from_name_and_email() {
    assert_eq!(git_user("Ada", "ada@example.org"), "Ada <ada@example.org>");
    assert_eq!(git_user("Ada", ""), "Ada");
    assert_eq!(git_user("", "ada@example.org"), "ada@example.org");
    assert_eq!(git_user("", ""), "(unset)");
}

#[test]
fn branch_answers() {
    assert_eq!(current_branch(Some(s("main"))), "main");
    assert_eq!(current_branch(Some(s(""))), "(detached)");
    assert_eq!(current_branch(None), "(unknown)");
    assert_eq!(origin_head_branch(Some(s("origin/trunk"))), Some(s("trunk")));
    assert_eq!(origin_head_branch(Some(s("origin/"))), None);
    assert_eq!(origin_head_branch(None), None);
}

#[test]
fn migration_timestamp_prefix() {
    assert!(is_timestamp_prefixed("2024_01_05_000000_create_users.php"));
    assert!(is_timestamp_prefixed("2024-01-05-x.sql"));
    assert!(!is_timestamp_prefixed("2024_1_05_x.sql"));
    assert!(!is_timestamp_prefixed("short"));
}

#[test]
fn directory_labels_with_evidence() {
    let names = vec![
        s("a.tsx"),
        s("b.jsx"),
        s("c.vue"),
        s("manage.py"),
        s("2024_01_05_a.sql"),
        s("2024-01-06_b.sql"),
        s("pytest.ini"),
        s("x.sh"),
        s("y.bash"),
    ];
    let labels = classify_directory(&names, false, 0);
    let got: Vec<(String, String)> = labels.iter().map(|(k, v)| (k.to_string(), v.clone())).collect();
    assert_eq!(
        got,
        vec![
            (s("frontend"), s("3 tsx/jsx/vue/svelte files")),
            (s("backend"), s("Django/Flask")),
            (s("database-migrations"), s("2 timestamp-prefixed files")),
            (s("tests"), s("config: pytest.ini")),
            (s("scripts"), s("2 shell scripts")),
        ]
    );
}

#[test]
fn directory_labels_fall_back_to_shebangs() {
    let names = vec![s("run"), s("deploy")];
    let labels = classify_directory(&names, false, 2);
    assert_eq!(labels.len(), 1);
    assert_eq!(labels[0].0, "scripts");
    assert_eq!(labels[0].1, "2 shebang scripts");
    assert!(classify_directory(&names, false, 1).is_empty());
}

#[test]
fn content_hash_is_prefixed_sha256_hex() {
    assert_eq!(
        content_hash(""),
        "sha256:e3b0c44298fc1c149afbf4c8996fb92427ae41e4649b934ca495991b7852b855"
    );
    assert_eq!(
        content_hash("abc"),
        "sha256:ba7816bf8f01cfea414140de5dae2223b00361a396177a9cb410ff61f20015ad"
    );
}

#[test]
fn emission_skips_unchanged_and_reemits_changed() {
    let mut view = SessionView { emitted: Vec::new() };
    let docs = vec![(s("a.md"), s("h1")), (s("b.md"), s("h2"))];
    assert_eq!(plan_emission(&mut view, &docs), vec![0, 1]);
    assert_eq!(plan_emission(&mut view, &docs), Vec::<usize>::new());
    let changed = vec![(s("a.md"), s("h3")), (s("b.md"), s("h2"))];
    assert_eq!(plan_emission(&mut view, &changed), vec![0]);
    assert_eq!(view.emitted.len(), 2);
}

#[test]
fn dirty_files_rank_by_dependents_then_complexity_then_path() {
    let rows = vec![
        (2, 5, s("modified"), s("b.rs")),
        (5, 1, s("added"), s("a.rs")),
        (2, 5, s("untracked"), s("a2.rs")),
        (2, 7, s("modified"), s("c.rs")),
    ];
    assert_eq!(
        render_dirty(&rows),
        vec![
            s("added      a.rs  (callers=5, ccn=1)"),
            s("modified   c.rs  (callers=2, ccn=7)"),
            s("untracked  a2.rs  (callers=2, ccn=5)"),
            s("modified   b.rs  (callers=2, ccn=5)"),
        ]
    );
}

#[test]
fn dirty_list_stops_at_ten_and_counts_the_rest() {
    let rows: Vec<(i64, i64, String, String)> = (0..12).map(|i| (i as i64, 0, s("modified"), format!("f{i:02}.rs"))).collect();
    let lines = render_dirty(&rows);
    assert_eq!(lines.len(), 11);
    assert_eq!(lines[0], "modified   f11.rs  (callers=11, ccn=0)");
    assert_eq!(lines[9], "modified   f02.rs  (callers=2, ccn=0)");
    assert_eq!(lines[10], "\u{2026} 2 more");
}

#[test]
fn ahead_behind_counts_against_the_default_branch() {
    assert_eq!(ahead_behind_base("feature", Some("main")), Some(s("main")));
    assert_eq!(ahead_behind_base("main", Some("main")), None);
    assert_eq!(ahead_behind_base("(detached)", Some("main")), None);
    assert_eq!(ahead_behind_base("feature", None), None);
    assert_eq!(ahead_behind_text("main", Some(s("3\t5\n"))), "ahead: 5, behind: 3 vs origin/main");
    assert_eq!(ahead_behind_text("main", Some(s("3"))), "");
    assert_eq!(ahead_behind_text("main", None), "");
    assert_eq!(split_whitespace("  a \u{3000} bb\tc "), vec![s("a"), s("bb"), s("c")]);
}

fn edge(source: &str, target: &str) -> Edge {
    Edge { source: s(source), target: s(target), relation: s("imports"), confidence: s("high") }
}

#[test]
fn spine_ranks_internal_targets_by_direct_dependents() {
    let f = Node {
        id: s("symbol::a::f"),
        label: s("f"),
        kind: s("function"),
        source_file: Some(s("a.py")),
        source_line: Some(3),
    };
    let g = Graph {
        nodes: vec![(s("symbol::a::f"), f)],
        edges: vec![
            edge("module::a", "symbol::a::f"),
            edge("module::b", "symbol::a::f"),
            edge("module::a", "module::external::os"),
        ],
        symbol_index: vec![],
        module_index: vec![],
        file_to_module_id: vec![],
    };
    let lines = spine_lines(Some(&g));
    assert_eq!(
        lines,
        vec![
            s("## Spine"),
            s("  Top 1 most-depended-on nodes:"),
            s("    #   direct  kind       symbol @ source"),
            s("    1        2  function   f @ a.py:3"),
        ]
    );
    let empty = spine_lines(None);
    assert_eq!(empty.len(), 2);
    assert!(empty[1].contains("architecture graph empty"));
}

#[test]
fn ls_files_lines_join_onto_the_root_in_git_order() {
    let out = b"src/b.py\n\nsrc/a.ts\r\nREADME.md\n";
    assert_eq!(ls_files_candidates("/repo", out), vec!["/repo/src/b.py", "/repo/src/a.ts", "/repo/README.md"]);
    assert_eq!(ls_files_candidates("/repo/", b"x.py"), vec!["/repo/x.py"]);
    assert!(ls_files_candidates("/repo", b"").is_empty());
}
