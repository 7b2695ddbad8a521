use tracer::activity::{compose_live, deploy_label, historical, GitActivity};
use tracer::extraction::nearest_pending;
use tracer::history::{ranked_by_edge_count, History, HistoryEntry};
use tracer::repo_files::is_tracer_cache;

fn s(x: &str) -> String {
    x.to_string()
}

fn entry(last: &str, count: i64) -> HistoryEntry {
    HistoryEntry {
        last_modified: Some(s(last)),
        last_author: Some(s("Ada")),
        last_subject: Some(s("fix")),
        first_seen: Some(s("2023-01-01")),
        commit_count: count,
        commits_30d: 1,
        rename_from: None,
        top_author: Some(s("Ada")),
        co_changed: vec![(s("b.rs"), 2)],
    }
}

fn find<'a>(v: &'a [(String, GitActivity)], k: &str) -> Option<&'a GitActivity> {
    v.iter().find(|(p, _)| p == k).map(|(_, a)| a)
}

#[test]
fn historical_marks_counts_as_floors_when_truncated() {
    let h = History { entries: vec![(s("a.rs"), entry("2024-05-01", 7))], truncated: true };
    let out = historical(&h);
    assert_eq!(out.len(), 1);
    let a = &out[0].1;
    assert_eq!(out[0].0, "a.rs");
    assert_eq!(a.last_modified, Some(s("2024-05-01")));
    assert_eq!(a.commit_count, 7);
    assert!(a.commit_count_is_floor);
    assert_eq!(a.working_state, None);
    assert!(a.present_in.is_empty());
    assert_eq!(a.co_changed, vec![(s("b.rs"), 2)]);
}

#[test]
fn live_overlay_adds_states_and_presence() {
    let h = History {
        entries: vec![(s("a.rs"), entry("2024-05-01", 7)), (s("c.rs"), entry("2024-04-01", 2))],
        truncated: false,
    };
    let mut base = historical(&h);
    base[1].1.working_state = Some(s("stale"));
    base[1].1.present_in = vec![s("old")];
    let working = vec![(s("a.rs"), s("modified")), (s("new.rs"), s("untracked"))];
    let presence = vec![(s("a.rs"), vec![s("main")]), (s("gone.rs"), vec![s("prod"), s("main")])];
    let live = compose_live(base, &working, &presence);
    assert_eq!(live.len(), 4);
    let a = find(&live, "a.rs").unwrap();
    assert_eq!(a.working_state, Some(s("modified")));
    assert_eq!(a.present_in, vec![s("main")]);
    assert_eq!(a.commit_count, 7);
    let c = find(&live, "c.rs").unwrap();
    assert_eq!(c.working_state, None);
    assert!(c.present_in.is_empty());
    assert_eq!(c.last_modified, Some(s("2024-04-01")));
    let n = find(&live, "new.rs").unwrap();
    assert_eq!(n.working_state, Some(s("untracked")));
    assert_eq!(n.commit_count, 0);
    assert_eq!(n.last_modified, None);
    let g = find(&live, "gone.rs").unwrap();
    assert_eq!(g.present_in, vec![s("prod"), s("main")]);
    assert_eq!(g.working_state, None);
}

#[test]
fn ranking_by_count_keeps_first_seen_ties() {
    let items = vec![s("b"), s("a"), s("c"), s("a"), s("c"), s("d")];
    assert_eq!(
        ranked_by_edge_count(&items),
        vec![(s("a"), 2), (s("c"), 2), (s("b"), 1), (s("d"), 1)]
    );
    assert!(ranked_by_edge_count(&Vec::new()).is_empty());
}

#[test]
fn nearest_pending_import_before_symbol() {
    let pending = vec![(10, s("os")), (40, s("sys")), (40, s("json")), (90, s("re"))];
    assert_eq!(nearest_pending(&pending, 50), "json");
    assert_eq!(nearest_pending(&pending, 20), "os");
    assert_eq!(nearest_pending(&pending, 10), "unknown");
    assert_eq!(nearest_pending(&Vec::new(), 10), "unknown");
}

#[test]
fn deploy_label_is_the_label() {
    assert_eq!(deploy_label("prod"), "prod");
    assert_eq!(deploy_label("feature"), "feature");
}

#[test]
fn cache_paths_are_recognized_by_segment() {
    assert!(is_tracer_cache(".tracer-cache/files/x.json"));
    assert!(is_tracer_cache("sub/.tracer-cache/y"));
    assert!(!is_tracer_cache("src/tracer-cache.rs"));
    assert!(!is_tracer_cache("src/main.rs"));
}
