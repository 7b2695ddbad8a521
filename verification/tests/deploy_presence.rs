use sha2::{Digest, Sha256};
use tracer::presence::{presence_from_listings, presence_key, present_deploy_branches};

fn s(x: &str) -> String {
    x.to_string()
}

#[test]
fn present_branches_follow_configured_order_and_skip_empty_tips() {
    let out = b"refs/remotes/origin/main\0abc\nrefs/remotes/origin/staging\0\nrefs/remotes/origin/production\0def\nrefs/remotes/origin/mainline\0zzz\n";
    let present = present_deploy_branches(out);
    assert_eq!(
        present,
        vec![
            (s("prod"), s("origin/production"), s("def")),
            (s("main"), s("origin/main"), s("abc")),
        ]
    );
}

#[test]
fn presence_key_hashes_label_ref_and_tip() {
    let present = vec![(s("prod"), s("origin/production"), s("def")), (s("main"), s("origin/main"), s("abc"))];
    let mut h = Sha256::new();
    for (l, r, t) in &present {
        h.update(l.as_bytes());
        h.update(b"\0");
        h.update(r.as_bytes());
        h.update(b"\0");
        h.update(t.as_bytes());
        h.update(b"\n");
    }
    let want = format!("git_presence_v2__{}", hex::encode(h.finalize()));
    assert_eq!(presence_key(&present), want);
}

#[test]
fn paths_collect_sorted_labels_once() {
    let listings = vec![
        (s("prod"), b"a.rs\0b.rs\0".to_vec()),
        (s("main"), b"b.rs\0\0b.rs\0".to_vec()),
    ];
    let mut got = presence_from_listings(&listings);
    got.sort();
    assert_eq!(got, vec![(s("a.rs"), vec![s("prod")]), (s("b.rs"), vec![s("main"), s("prod")])]);
}
