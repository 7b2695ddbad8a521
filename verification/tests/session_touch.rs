use tracer::drift::{Observed, ObservedDoc, Report};
use tracer::session::{content_hash, directory_marker, plan_emission, reconcile_drift, reset_view, touch, SessionView};

fn s(x: &str) -> String {
    x.to_string()
}

#[test]
fn a_read_is_a_first_touch_once_per_content() {
    let mut view = SessionView { emitted: vec![] };
    let h = content_hash("body");
    assert!(touch(&mut view, &s("/r/a.rs"), &h));
    assert!(!touch(&mut view, &s("/r/a.rs"), &h));
    assert!(touch(&mut view, &s("/r/a.rs"), &content_hash("body2")));
    assert_eq!(view.emitted.len(), 1);
    assert_eq!(view.emitted[0].1, content_hash("body2"));
}

#[test]
fn directories_are_marked_apart_from_file_content() {
    let m = directory_marker("/r/src");
    assert_eq!(m, content_hash("dir:/r/src"));
    assert_ne!(m, content_hash("/r/src"));
    assert!(m.starts_with("sha256:"));
}

#[test]
fn drift_drops_unobserved_predictions_and_keeps_reads() {
    let mut view = SessionView {
        emitted: vec![(s("/r/AGENTS.md"), s("h1")), (s("/r/gone.md"), s("h3")), (s("/r/read.rs"), s("h2"))],
    };
    let report = Report {
        predicted: vec![s("/r/AGENTS.md"), s("/r/gone.md")],
        observed: vec![s("/r/AGENTS.md"), s("/r/new.md")],
        missing: vec![s("/r/gone.md"), s("/r/read.rs")],
        extra: vec![s("/r/new.md")],
    };
    let observed = Observed {
        paths: vec![
            ObservedDoc { path: s("/r/AGENTS.md"), content_hash: s("h1b"), size: 1 },
            ObservedDoc { path: s("/r/new.md"), content_hash: s("h4"), size: 2 },
        ],
    };
    reconcile_drift(&mut view, &report, &observed);
    let got: Vec<(&str, &str)> = view.emitted.iter().map(|(a, b)| (a.as_str(), b.as_str())).collect();
    assert_eq!(got, vec![("/r/AGENTS.md", "h1b"), ("/r/new.md", "h4"), ("/r/read.rs", "h2")]);
    let cleared = reset_view(&mut view);
    assert_eq!(cleared, vec![s("/r/AGENTS.md"), s("/r/new.md"), s("/r/read.rs")]);
    assert!(view.emitted.is_empty());
}

#[test]
fn session_view_stays_in_path_order() {
    let mut view = SessionView { emitted: vec![] };
    let docs = vec![(s("/r/b.md"), s("h2")), (s("/r/a.md"), s("h1")), (s("/r/c.md"), s("h3"))];
    assert_eq!(plan_emission(&mut view, &docs), vec![0, 1, 2]);
    let got: Vec<&str> = view.emitted.iter().map(|(a, _)| a.as_str()).collect();
    assert_eq!(got, vec!["/r/a.md", "/r/b.md", "/r/c.md"]);
    assert!(touch(&mut view, &s("/r/0.md"), &s("h0")));
    assert_eq!(view.emitted[0].0, "/r/0.md");
}
