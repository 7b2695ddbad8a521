use tracer::cache::{file_hash_from_bytes, table_hash};
use tracer::callers::rank_use_sites;
use tracer::relations::{declarations_in, importers_need_rebuild, plan_relations_update};

fn s(x: &str) -> String {
    x.to_string()
}

fn pairs(v: &[(&str, &str)]) -> Vec<(String, String)> {
    v.iter().map(|(a, b)| (s(a), s(b))).collect()
}

#[test]
fn content_change_touches_only_the_moved_files() {
    let built = pairs(&[("a.py", "k1"), ("b.py", "k2"), ("c.py", "k3")]);
    let now = pairs(&[("a.py", "k1"), ("b.py", "k2x"), ("c.py", "k3")]);
    let u = plan_relations_update(&built, &now);
    assert!(u.gone.is_empty());
    assert_eq!(u.moved, vec![s("b.py")]);
    assert!(!u.structural);
    assert_eq!(u.touched, vec![s("b.py")]);
    assert_eq!(u.untouched, vec![s("a.py"), s("c.py")]);
}

#[test]
fn added_or_removed_files_force_a_full_rebuild() {
    let built = pairs(&[("a.py", "k1"), ("b.py", "k2")]);
    let removed = pairs(&[("a.py", "k1")]);
    let u = plan_relations_update(&built, &removed);
    assert_eq!(u.gone, vec![s("b.py")]);
    assert!(u.moved.is_empty());
    assert!(u.structural);
    assert_eq!(u.touched, vec![s("a.py")]);
    assert!(u.untouched.is_empty());
    let added = pairs(&[("a.py", "k1"), ("b.py", "k2"), ("n.py", "k9")]);
    let v = plan_relations_update(&built, &added);
    assert!(v.gone.is_empty());
    assert_eq!(v.moved, vec![s("n.py")]);
    assert!(v.structural);
    assert_eq!(v.touched, vec![s("a.py"), s("b.py"), s("n.py")]);
    let same = plan_relations_update(&built, &built);
    assert!(same.gone.is_empty() && same.moved.is_empty() && !same.structural);
}

#[test]
fn importers_rebuild_when_declarations_move() {
    let defined = vec![
        (s("helper"), vec![s("a.py"), s("b.py")]),
        (s("main"), vec![s("c.py")]),
    ];
    let moved = vec![s("b.py"), s("c.py")];
    let before = declarations_in(&defined, &moved);
    assert_eq!(before, pairs(&[("helper", "b.py"), ("main", "c.py")]));
    let reordered = pairs(&[("main", "c.py"), ("helper", "b.py")]);
    assert!(!importers_need_rebuild(false, &before, &reordered));
    assert!(importers_need_rebuild(true, &before, &reordered));
    let lost = pairs(&[("main", "c.py")]);
    assert!(importers_need_rebuild(false, &before, &lost));
}

#[test]
fn table_hash_is_the_digest_of_nul_terminated_paths() {
    assert_eq!(
        table_hash(&vec![s("a"), s("b/c.py")]),
        "4580111e49f97689914ddd0ab2dbe3f05a1c8dd3b2364f1455fa3b51d0f3c882"
    );
    assert_eq!(table_hash(&vec![]), "e3b0c44298fc1c149afbf4c8996fb92427ae41e4649b934ca495991b7852b855");
    assert_eq!(file_hash_from_bytes(b"x = 1\n", "src/a.py").len(), 64);
}

#[test]
fn use_sites_rank_resolved_first_then_file_and_line() {
    let sites = vec![
        (s("b.py"), 3, s("AMBIGUOUS")),
        (s("z.py"), 9, s("EXTRACTED")),
        (s("a.py"), 7, s("INFERRED")),
        (s("a.py"), 2, s("EXTRACTED")),
        (s("z.py"), 1, s("EXTRACTED")),
    ];
    let (top, total, truncated) = rank_use_sites(&sites, 3);
    assert_eq!(top, vec![(s("a.py"), 2, s("EXTRACTED")), (s("z.py"), 1, s("EXTRACTED")), (s("z.py"), 9, s("EXTRACTED"))]);
    assert_eq!(total, 5);
    assert!(truncated);
    let (all, _, cut) = rank_use_sites(&sites, 10);
    assert_eq!(all.len(), 5);
    assert_eq!(all[4], (s("b.py"), 3, s("AMBIGUOUS")));
    assert!(!cut);
}
