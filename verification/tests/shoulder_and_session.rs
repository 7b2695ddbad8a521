use tracer::civil::days_from_civil;
use tracer::drift::{check_observed, detect, Observed, ObservedDoc, ObservedError};
use tracer::facts::FileFacts;
use tracer::output::{guard, keeping_context, run_streamed, GuardError};
use tracer::passive::{age_token, changed_together, clip_subject, render, render_compact, state_label};
use tracer::session::{loaded_entries, loaded_paths, session_active, EventFields, EventKind, SessionView};

fn facts() -> FileFacts {
    FileFacts {
        path: "src/a.rs".to_string(),
        language: Some("rust".to_string()),
        loc: 10,
        function_count: 1,
        cyclomatic_complexity_total: 7,
        cyclomatic_complexity_max: 4,
        rank: "A".to_string(),
        functions: Vec::new(),
        last_modified: None,
        last_author: None,
        commits_30d: 0,
        first_seen: None,
        commit_count: 0,
        commit_count_is_floor: false,
        rename_from: None,
        working_state: None,
        present_in: Vec::new(),
        last_subject: None,
        top_author: None,
        co_changed: Vec::new(),
        mtime_ns: 0,
        size_bytes: 0,
        extraction: None,
    }
}

#[test]
fn age_tokens_bucket_days() {
    let today = days_from_civil(2026, 9, 7);
    assert_eq!(age_token("2026-09-07", today).as_deref(), Some("today"));
    assert_eq!(age_token("2026-09-06", today).as_deref(), Some("1d"));
    assert_eq!(age_token("2026-09-01", today).as_deref(), Some("6d"));
    assert_eq!(age_token("2026-08-01", today).as_deref(), Some("5w"));
    assert_eq!(age_token("2026-03-01", today).as_deref(), Some("6mo"));
    assert_eq!(age_token("2024-09-07", today).as_deref(), Some("2y"));
    assert_eq!(age_token("2024-06-01", today).as_deref(), Some("2y3mo"));
    assert_eq!(age_token("2026-09-08", today), None);
    assert_eq!(age_token("yesterday", today), None);
}

#[test]
fn a_brand_new_file_reads_today_not_today_to_today() {
    let today = days_from_civil(2026, 9, 7);
    let mut f = facts();
    f.last_modified = Some("2026-09-07".to_string());
    f.first_seen = Some("2026-09-07".to_string());
    f.commit_count = 1;
    f.commits_30d = 1;
    assert_eq!(
        render_compact(&f, today),
        "[git: new (1 commit) \u{b7} age: today \u{b7} churn: 1 commit, 1/30d \u{b7} ccn: 7 A]"
    );
    f.first_seen = Some("2026-08-01".to_string());
    assert!(render_compact(&f, today).contains("age: 5w\u{2192}today"));
}

#[test]
fn full_shoulder_carries_every_field() {
    let today = days_from_civil(2026, 9, 7);
    let mut f = facts();
    f.commit_count = 12;
    f.commits_30d = 3;
    f.present_in = vec!["prod".to_string(), "main".to_string()];
    f.co_changed = vec![("src/x/b.rs".to_string(), 4), ("c.rs".to_string(), 2)];
    f.top_author = Some("Jordan".to_string());
    f.last_subject = Some("fix".to_string());
    let r = render(&f, Some((2, 1)), today);
    assert_eq!(
        r,
        "[git: 12 commits \u{b7} presence: prod, main \u{b7} churn: 12 commits, 3/30d \u{b7} callers: 2 \u{b7} dependents: 1 \u{b7} ccn: 7 A \u{b7} together: b.rs, c.rs \u{b7} owner: Jordan \u{b7} last: fix]"
    );
    let compact = render_compact(&f, today);
    assert_eq!(compact, "[git: 12 commits \u{b7} churn: 12 commits, 3/30d \u{b7} ccn: 7 A]");
}

#[test]
fn lifecycle_labels() {
    let mut f = facts();
    assert_eq!(state_label(&f), "no-history");
    f.working_state = Some("modified".to_string());
    f.commit_count = 5;
    assert_eq!(state_label(&f), "modified (5 commits)");
    f.working_state = Some("untracked".to_string());
    assert_eq!(state_label(&f), "untracked");
    f.working_state = None;
    f.rename_from = Some("old.rs".to_string());
    assert_eq!(state_label(&f), "renamed-from old.rs");
}

#[test]
fn subjects_clip_with_an_ellipsis() {
    assert_eq!(clip_subject("short", 60), "short");
    assert_eq!(clip_subject("abcdef gh", 8), "abcdef\u{2026}");
    assert_eq!(changed_together(&Vec::new(), 3), None);
}

#[test]
fn filter_requires_json() {
    assert_eq!(guard(false, Some(".results")), Err(GuardError::FilterNeedsJson));
    assert_eq!(guard(true, Some(".results")), Ok(()));
    assert_eq!(guard(false, None), Ok(()));
    assert_eq!(GuardError::FilterNeedsJson.message(), "--filter requires --json");
    assert_eq!(
        keeping_context(".results"),
        "{\"context\": .context, \"results\": ([.results] | if length == 1 then .[0] else . end)}"
    );
    let mut ran = false;
    let r = run_streamed(false, Some(".x"), |_sink| {
        ran = true;
        Ok(())
    });
    assert_eq!(r, Err("--filter requires --json".to_string()));
    assert!(!ran);
    let r = run_streamed(true, Some(".x"), |sink| if sink.as_json { Ok(()) } else { Err("no".to_string()) });
    assert_eq!(r, Ok(()));
}

#[test]
fn drift_reports_both_differences_sorted() {
    let predicted = vec!["/r/README.md".to_string(), "/r/a/Readme.md".to_string()];
    let observed = Observed {
        paths: vec![
            ObservedDoc { path: "/r/z.md".to_string(), content_hash: "sha256:1".to_string(), size: 0 },
            ObservedDoc { path: "/r/README.md".to_string(), content_hash: "sha256:2".to_string(), size: 3 },
        ],
    };
    let rep = detect(&predicted, &observed).unwrap();
    assert_eq!(rep.missing, vec!["/r/a/Readme.md"]);
    assert_eq!(rep.extra, vec!["/r/z.md"]);
    assert_eq!(rep.observed, vec!["/r/README.md", "/r/z.md"]);
    let same = Observed {
        paths: vec![
            ObservedDoc { path: "/r/a/Readme.md".to_string(), content_hash: "sha256:1".to_string(), size: 0 },
            ObservedDoc { path: "/r/README.md".to_string(), content_hash: "sha256:2".to_string(), size: 0 },
        ],
    };
    assert!(detect(&predicted, &same).is_none());
}

#[test]
fn observed_input_contract() {
    let bad = vec![ObservedDoc { path: "/r/x".to_string(), content_hash: "md5:1".to_string(), size: 0 }];
    let e = check_observed(bad).unwrap_err();
    assert_eq!(
        e.message(),
        "--observed-from entry for `/r/x` has content_hash `md5:1` \u{2014} must start with `sha256:`"
    );
    let empty = vec![ObservedDoc { path: String::new(), content_hash: "sha256:1".to_string(), size: 0 }];
    assert_eq!(check_observed(empty).unwrap_err(), ObservedError::EmptyPath);
    let good = vec![ObservedDoc { path: "/r/x".to_string(), content_hash: "sha256:ab".to_string(), size: 1 }];
    assert_eq!(check_observed(good.clone()).unwrap().paths, good);
}

#[test]
fn session_manifest_takes_the_latest_attribution() {
    assert!(!session_active(&None));
    assert!(session_active(&Some("s1".to_string())));
    let view = SessionView {
        emitted: vec![
            ("/r/A.md".to_string(), "sha256:a".to_string()),
            ("/r/B.md".to_string(), "sha256:b".to_string()),
        ],
    };
    assert_eq!(loaded_paths(&view), vec!["/r/A.md", "/r/B.md"]);
    let events = vec![
        EventFields { path: Some("/r/A.md".to_string()), source: Some("old".to_string()), kind: None, size: Some(5), visible_as: None },
        EventFields { path: Some("/r/A.md".to_string()), source: Some("new".to_string()), kind: Some("read_file".to_string()), size: Some(9), visible_as: Some("A.md".to_string()) },
        EventFields { path: Some(String::new()), source: Some("drift".to_string()), kind: None, size: None, visible_as: None },
    ];
    let entries = loaded_entries(&view, &events);
    assert_eq!(entries.len(), 2);
    assert_eq!(entries[0].source, "new");
    assert_eq!(entries[0].kind, "read_file");
    assert_eq!(entries[0].size, 9);
    assert_eq!(entries[0].visible_as, "A.md");
    assert_eq!(entries[1].source, "unknown");
    assert_eq!(entries[1].kind, "doc_injection");
    assert_eq!(entries[1].visible_as, "/r/B.md");
    assert_eq!(EventKind::ContextPrimeDrift.label(), "context_prime_drift");
}
