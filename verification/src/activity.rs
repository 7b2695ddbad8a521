//! Per-file git activity: the lifecycle facts one history walk yields,
//! overlaid with the live working-tree state and deploy-branch presence.

use crate::history::{History, HistoryEntry};
use crate::keyed::{find_key, has_key, keys_unique, lookup};
use vstd::prelude::*;

verus! {

/// What the history says about one file. `commit_count_is_floor` is set
/// when the walk stopped at its cap, so the count (and `first_seen`) cover
/// only the commits within it.
#[derive(Debug, Clone)]
pub struct GitActivity {
    pub last_modified: Option<String>,
    pub last_author: Option<String>,
    pub commits_30d: i64,
    pub first_seen: Option<String>,
    pub commit_count: i64,
    pub commit_count_is_floor: bool,
    pub rename_from: Option<String>,
    pub working_state: Option<String>,
    pub present_in: Vec<String>,
    pub last_subject: Option<String>,
    pub top_author: Option<String>,
    pub co_changed: Vec<(String, i64)>,
}

/// Nothing known: no dates, no authors, no counts.
pub open spec fn is_blank(a: GitActivity) -> bool {
    &&& a.last_modified is None
    &&& a.last_author is None
    &&& a.commits_30d == 0
    &&& a.first_seen is None
    &&& a.commit_count == 0
    &&& !a.commit_count_is_floor
    &&& a.rename_from is None
    &&& a.working_state is None
    &&& a.present_in@.len() == 0
    &&& a.last_subject is None
    &&& a.top_author is None
    &&& a.co_changed@.len() == 0
}

impl GitActivity {
    pub fn empty() -> (r: GitActivity)
        ensures
            is_blank(r),
    {
        GitActivity {
            last_modified: None,
            last_author: None,
            commits_30d: 0,
            first_seen: None,
            commit_count: 0,
            commit_count_is_floor: false,
            rename_from: None,
            working_state: None,
            present_in: Vec::new(),
            last_subject: None,
            top_author: None,
            co_changed: Vec::new(),
        }
    }
}

/// The fields the history walk yields agree between `a` and `b`; the live
/// overlay (working state, presence) may differ.
pub open spec fn same_history(a: GitActivity, b: GitActivity) -> bool {
    &&& a.last_modified == b.last_modified
    &&& a.last_author == b.last_author
    &&& a.commits_30d == b.commits_30d
    &&& a.first_seen == b.first_seen
    &&& a.commit_count == b.commit_count
    &&& a.commit_count_is_floor == b.commit_count_is_floor
    &&& a.rename_from == b.rename_from
    &&& a.last_subject == b.last_subject
    &&& a.top_author == b.top_author
    &&& a.co_changed@ == b.co_changed@
}

/// No history is known of `a`.
pub open spec fn history_blank(a: GitActivity) -> bool {
    &&& a.last_modified is None
    &&& a.last_author is None
    &&& a.commits_30d == 0
    &&& a.first_seen is None
    &&& a.commit_count == 0
    &&& !a.commit_count_is_floor
    &&& a.rename_from is None
    &&& a.last_subject is None
    &&& a.top_author is None
    &&& a.co_changed@.len() == 0
}

/// `a` is the activity the history entry `e` gives, before the overlay;
/// `truncated` marks every count as a floor.
pub open spec fn from_entry(a: GitActivity, e: HistoryEntry, truncated: bool) -> bool {
    &&& a.last_modified == e.last_modified
    &&& a.last_author == e.last_author
    &&& a.commits_30d == e.commits_30d
    &&& a.first_seen == e.first_seen
    &&& a.commit_count == e.commit_count
    &&& a.commit_count_is_floor == truncated
    &&& a.rename_from == e.rename_from
    &&& a.working_state is None
    &&& a.present_in@.len() == 0
    &&& a.last_subject == e.last_subject
    &&& a.top_author == e.top_author
    &&& a.co_changed@ == e.co_changed@
}

fn clone_text(o: &Option<String>) -> (r: Option<String>)
    ensures
        r == *o,
{
    match o {
        Some(s) => Some(s.clone()),
        None => None,
    }
}

fn clone_pairs(v: &Vec<(String, i64)>) -> (r: Vec<(String, i64)>)
    ensures
        r@ == v@,
{
    let mut out: Vec<(String, i64)> = Vec::new();
    let mut i: usize = 0;
    while i < v.len()
        invariant
            i <= v.len(),
            out@ == v@.take(i as int),
        decreases v.len() - i,
    {
        out.push((v[i].0.clone(), v[i].1));
        assert(out@ =~= v@.take(i + 1));
        i += 1;
    }
    assert(v@.take(i as int) =~= v@);
    out
}

fn clone_texts(v: &Vec<String>) -> (r: Vec<String>)
    ensures
        r@ == v@,
{
    let mut out: Vec<String> = Vec::new();
    let mut i: usize = 0;
    while i < v.len()
        invariant
            i <= v.len(),
            out@ == v@.take(i as int),
        decreases v.len() - i,
    {
        out.push(v[i].clone());
        assert(out@ =~= v@.take(i + 1));
        i += 1;
    }
    assert(v@.take(i as int) =~= v@);
    out
}

/// Per-file activity from one history walk, keyed by path in the walk's
/// order; no working state or presence yet.
pub fn historical(h: &History) -> (r: Vec<(String, GitActivity)>)
    ensures
        r@.len() == h.entries@.len(),
        forall|i: int| 0 <= i < r@.len() ==> (#[trigger] r@[i]).0 == h.entries@[i].0
            && from_entry(r@[i].1, h.entries@[i].1, h.truncated),
{
    let mut out: Vec<(String, GitActivity)> = Vec::new();
    let mut i: usize = 0;
    while i < h.entries.len()
        invariant
            i <= h.entries@.len(),
            out@.len() == i,
            forall|j: int| 0 <= j < i ==> (#[trigger] out@[j]).0 == h.entries@[j].0
                && from_entry(out@[j].1, h.entries@[j].1, h.truncated),
        decreases h.entries@.len() - i,
    {
        let e = &h.entries[i].1;
        let a = GitActivity {
            last_modified: clone_text(&e.last_modified),
            last_author: clone_text(&e.last_author),
            commits_30d: e.commits_30d,
            first_seen: clone_text(&e.first_seen),
            commit_count: e.commit_count,
            commit_count_is_floor: h.truncated,
            rename_from: clone_text(&e.rename_from),
            working_state: None,
            present_in: Vec::new(),
            last_subject: clone_text(&e.last_subject),
            top_author: clone_text(&e.top_author),
            co_changed: clone_pairs(&e.co_changed),
        };
        out.push((h.entries[i].0.clone(), a));
        i += 1;
    }
    out
}

/// Whether the entry for `q` in `r` is the history's entry overlaid with
/// the working state and presence recorded for `q`.
pub open spec fn composed(
    r: Seq<(String, GitActivity)>,
    out: Seq<(String, GitActivity)>,
    working: Seq<(String, String)>,
    presence: Seq<(String, Vec<String>)>,
    q: Seq<char>,
) -> bool {
    match lookup(r, q) {
        Some(a) => {
            &&& has_key(out, q) || has_key(working, q) || has_key(presence, q)
            &&& match lookup(out, q) {
                Some(o) => same_history(a, o),
                None => history_blank(a),
            }
            &&& match lookup(working, q) {
                Some(s) => a.working_state == Some(s),
                None => a.working_state is None,
            }
            &&& a.present_in@ == match lookup(presence, q) {
                Some(v) => v@,
                None => Seq::empty(),
            }
        },
        None => !has_key(out, q) && !has_key(working, q) && !has_key(presence, q),
    }
}

fn set_overlay(entries: &mut Vec<(String, GitActivity)>, i: usize, state: Option<String>, present: Option<Vec<String>>)
    requires
        i < old(entries)@.len(),
        keys_unique(old(entries)@),
    ensures
        final(entries)@.len() == old(entries)@.len(),
        keys_unique(final(entries)@),
        forall|j: int| 0 <= j < old(entries)@.len() && j != i ==> #[trigger] final(entries)@[j] == old(entries)@[j],
        final(entries)@[i as int].0 == old(entries)@[i as int].0,
        same_history(final(entries)@[i as int].1, old(entries)@[i as int].1),
        final(entries)@[i as int].1.working_state == match state {
            Some(s) => Some(s),
            None => old(entries)@[i as int].1.working_state,
        },
        final(entries)@[i as int].1.present_in@ == match present {
            Some(p) => p@,
            None => old(entries)@[i as int].1.present_in@,
        },
{
    let ghost before = entries@;
    let (k, mut a) = entries.remove(i);
    match state {
        Some(s) => a.working_state = Some(s),
        None => {},
    }
    match present {
        Some(p) => a.present_in = p,
        None => {},
    }
    entries.insert(i, (k, a));
    assert forall|x: int, y: int| 0 <= x < y < entries@.len() implies #[trigger] entries@[x].0@ != #[trigger] entries@[y].0@ by {
        assert(before[x].0@ != before[y].0@);
    }
}

proof fn lemma_lookup_index<V>(entries: Seq<(String, V)>, i: int, q: Seq<char>)
    requires
        keys_unique(entries),
        0 <= i < entries.len(),
        entries[i].0@ == q,
    ensures
        lookup(entries, q) == Some(entries[i].1),
{
    assert forall|j: int| 0 <= j < i implies #[trigger] entries[j].0@ != q by {
        assert(entries[j].0@ != entries[i].0@);
    }
    crate::keyed::lemma_lookup_at(entries, q, i);
}

proof fn lemma_lookup_same_keys<V>(a: Seq<(String, V)>, b: Seq<(String, V)>, q: Seq<char>)
    requires
        a.len() == b.len(),
        forall|j: int| 0 <= j < a.len() ==> #[trigger] a[j].0 == b[j].0,
    ensures
        has_key(a, q) == has_key(b, q),
        lookup(a, q) is Some == lookup(b, q) is Some,
    decreases a.len(),
{
    if has_key(a, q) {
        let j = choose|j: int| 0 <= j < a.len() && #[trigger] a[j].0@ == q;
        assert(b[j].0@ == q);
    }
    if has_key(b, q) {
        let j = choose|j: int| 0 <= j < b.len() && #[trigger] b[j].0@ == q;
        assert(a[j].0 == b[j].0);
    }
    crate::keyed::lemma_has_key_lookup(a, q);
    crate::keyed::lemma_has_key_lookup(b, q);
}

/// The live view: the history's entries with their working state and
/// presence cleared, then each working-tree state and each file's
/// deploy-branch presence laid over it, a path the history lacks gaining a
/// blank entry.
pub fn compose_live(
    out: Vec<(String, GitActivity)>,
    working: &Vec<(String, String)>,
    presence: &Vec<(String, Vec<String>)>,
) -> (r: Vec<(String, GitActivity)>)
    requires
        keys_unique(out@),
        keys_unique(working@),
        keys_unique(presence@),
    ensures
        keys_unique(r@),
        forall|q: Seq<char>| #[trigger] composed(r@, out@, working@, presence@, q),
{
    let ghost orig = out@;
    let mut acc = out;
    let mut i: usize = 0;
    while i < acc.len()
        invariant
            keys_unique(orig),
            keys_unique(acc@),
            acc@.len() == orig.len(),
            i <= acc@.len(),
            forall|j: int| 0 <= j < acc@.len() ==> (#[trigger] acc@[j]).0 == orig[j].0
                && same_history(acc@[j].1, orig[j].1),
            forall|j: int| 0 <= j < i ==> (#[trigger] acc@[j]).1.working_state is None && acc@[j].1.present_in@.len() == 0,
        decreases orig.len() - i,
    {
        let ghost before = acc@;
        let (k, mut a) = acc.remove(i);
        a.working_state = None;
        a.present_in = Vec::new();
        acc.insert(i, (k, a));
        assert forall|x: int, y: int| 0 <= x < y < acc@.len() implies #[trigger] acc@[x].0@ != #[trigger] acc@[y].0@ by {
            assert(before[x].0@ != before[y].0@);
        }
        assert forall|j: int| 0 <= j < acc@.len() implies (#[trigger] acc@[j]).0 == orig[j].0
            && same_history(acc@[j].1, orig[j].1) by {
            if j != i {
                assert(acc@[j] == before[j]);
            }
        }
        i += 1;
    }
    // every entry carries exactly the history and nothing of the overlay
    proof {
        assert forall|q: Seq<char>| #[trigger] composed(acc@, orig, Seq::<(String, String)>::empty(), Seq::<(String, Vec<String>)>::empty(), q) by {
            lemma_lookup_same_keys(acc@, orig, q);
            crate::keyed::lemma_has_key_lookup(acc@, q);
            crate::keyed::lemma_has_key_lookup(orig, q);
            if has_key(acc@, q) {
                let j = choose|j: int| 0 <= j < acc@.len() && #[trigger] acc@[j].0@ == q;
                lemma_lookup_index(acc@, j, q);
                lemma_lookup_index(orig, j, q);
                assert(acc@[j].1.working_state is None);
                assert(acc@[j].1.present_in@ =~= Seq::<String>::empty());
            }
            assert(lookup(Seq::<(String, String)>::empty(), q) is None);
            assert(lookup(Seq::<(String, Vec<String>)>::empty(), q) is None);
            assert(!has_key(Seq::<(String, String)>::empty(), q));
            assert(!has_key(Seq::<(String, Vec<String>)>::empty(), q));
        }
    }
    assert(working@.take(0) =~= Seq::<(String, String)>::empty());
    let mut w: usize = 0;
    while w < working.len()
        invariant
            keys_unique(orig),
            keys_unique(working@),
            keys_unique(acc@),
            w <= working@.len(),
            forall|q: Seq<char>| #[trigger] composed(acc@, orig, working@.take(w as int), Seq::<(String, Vec<String>)>::empty(), q),
        decreases working@.len() - w,
    {
        let ghost before = acc@;
        let ghost wk = working@.take(w as int);
        let ghost wk1 = working@.take(w + 1);
        let path = &working[w].0;
        let state = working[w].1.clone();
        let ghost p = path@;
        assert(wk1 =~= wk.push(working@[w as int]));
        proof {
            assert forall|q: Seq<char>| q != p implies #[trigger] lookup(wk1, q) == lookup(wk, q) by {
                crate::keyed::lemma_lookup_push(wk, working@[w as int].0, working@[w as int].1, q);
            }
            assert(!has_key(wk, p)) by {
                if has_key(wk, p) {
                    let j = choose|j: int| 0 <= j < wk.len() && #[trigger] wk[j].0@ == p;
                    assert(working@[j].0@ != working@[w as int].0@);
                }
            }
            crate::keyed::lemma_has_key_lookup(wk, p);
            crate::keyed::lemma_lookup_push(wk, working@[w as int].0, working@[w as int].1, p);
            assert(lookup(wk1, p) == Some(working@[w as int].1));
            assert(has_key(wk1, p)) by {
                assert(wk1[w as int].0@ == p);
            }
            assert forall|q: Seq<char>| q != p implies has_key(wk1, q) == has_key(wk, q) by {
                crate::keyed::lemma_has_key_lookup(wk1, q);
                crate::keyed::lemma_has_key_lookup(wk, q);
            }
        }
        match find_key(&acc, path) {
            Some(i) => {
                set_overlay(&mut acc, i, Some(state), None);
                proof {
                    assert forall|q: Seq<char>| #[trigger] composed(acc@, orig, wk1, Seq::<(String, Vec<String>)>::empty(), q) by {
                        lemma_lookup_same_keys(acc@, before, q);
                        crate::keyed::lemma_has_key_lookup(acc@, q);
                        crate::keyed::lemma_has_key_lookup(before, q);
                        assert(composed(before, orig, wk, Seq::<(String, Vec<String>)>::empty(), q));
                        if has_key(acc@, q) {
                            let j = choose|j: int| 0 <= j < acc@.len() && #[trigger] acc@[j].0@ == q;
                            lemma_lookup_index(acc@, j, q);
                            lemma_lookup_index(before, j, q);
                        }
                    }
                }
            },
            None => {
                let mut e = GitActivity::empty();
                e.working_state = Some(state);
                let ghost ev = e;
                assert(ev.present_in@ =~= Seq::<String>::empty());
                let key = path.clone();
                let ghost kv = key;
                acc.push((key, e));
                proof {
                    assert forall|x: int, y: int| 0 <= x < y < acc@.len() implies #[trigger] acc@[x].0@ != #[trigger] acc@[y].0@ by {
                        if y == acc@.len() - 1 {
                            assert(acc@[x] == before[x]);
                        } else {
                            assert(before[x].0@ != before[y].0@);
                        }
                    }
                    assert forall|q: Seq<char>| #[trigger] composed(acc@, orig, wk1, Seq::<(String, Vec<String>)>::empty(), q) by {
                        crate::keyed::lemma_lookup_push(before, kv, ev, q);
                        assert(composed(before, orig, wk, Seq::<(String, Vec<String>)>::empty(), q));
                        crate::keyed::lemma_has_key_lookup(acc@, q);
                        crate::keyed::lemma_has_key_lookup(before, q);
                        crate::keyed::lemma_has_key_lookup(orig, q);
                        crate::keyed::lemma_has_key_lookup(working@, q);
                        crate::keyed::lemma_has_key_lookup(presence@, q);
                        assert(ev.co_changed@ =~= Seq::<(String, i64)>::empty());
                        if q == p {
                            assert(acc@[acc@.len() - 1].0@ == q);
                        }
                    }
                }
            },
        }
        w += 1;
    }
    assert(working@.take(w as int) =~= working@);
    assert(presence@.take(0) =~= Seq::<(String, Vec<String>)>::empty());
    let mut v: usize = 0;
    while v < presence.len()
        invariant
            keys_unique(orig),
            keys_unique(working@),
            keys_unique(presence@),
            keys_unique(acc@),
            v <= presence@.len(),
            forall|q: Seq<char>| #[trigger] composed(acc@, orig, working@, presence@.take(v as int), q),
        decreases presence@.len() - v,
    {
        let ghost before = acc@;
        let ghost pk = presence@.take(v as int);
        let ghost pk1 = presence@.take(v + 1);
        let path = &presence[v].0;
        let refs = clone_texts(&presence[v].1);
        let ghost p = path@;
        assert(pk1 =~= pk.push(presence@[v as int]));
        proof {
            assert forall|q: Seq<char>| q != p implies #[trigger] lookup(pk1, q) == lookup(pk, q) by {
                crate::keyed::lemma_lookup_push(pk, presence@[v as int].0, presence@[v as int].1, q);
            }
            assert(!has_key(pk, p)) by {
                if has_key(pk, p) {
                    let j = choose|j: int| 0 <= j < pk.len() && #[trigger] pk[j].0@ == p;
                    assert(presence@[j].0@ != presence@[v as int].0@);
                }
            }
            crate::keyed::lemma_has_key_lookup(pk, p);
            crate::keyed::lemma_lookup_push(pk, presence@[v as int].0, presence@[v as int].1, p);
            assert(lookup(pk1, p) == Some(presence@[v as int].1));
            assert(has_key(pk1, p)) by {
                assert(pk1[v as int].0@ == p);
            }
            assert forall|q: Seq<char>| q != p implies has_key(pk1, q) == has_key(pk, q) by {
                crate::keyed::lemma_has_key_lookup(pk1, q);
                crate::keyed::lemma_has_key_lookup(pk, q);
            }
        }
        match find_key(&acc, path) {
            Some(i) => {
                set_overlay(&mut acc, i, None, Some(refs));
                proof {
                    assert forall|q: Seq<char>| #[trigger] composed(acc@, orig, working@, pk1, q) by {
                        lemma_lookup_same_keys(acc@, before, q);
                        crate::keyed::lemma_has_key_lookup(acc@, q);
                        crate::keyed::lemma_has_key_lookup(before, q);
                        assert(composed(before, orig, working@, pk, q));
                        if has_key(acc@, q) {
                            let j = choose|j: int| 0 <= j < acc@.len() && #[trigger] acc@[j].0@ == q;
                            lemma_lookup_index(acc@, j, q);
                            lemma_lookup_index(before, j, q);
                        }
                    }
                }
            },
            None => {
                let mut e = GitActivity::empty();
                e.present_in = refs;
                let ghost ev = e;
                let key = path.clone();
                let ghost kv = key;
                acc.push((key, e));
                proof {
                    assert forall|x: int, y: int| 0 <= x < y < acc@.len() implies #[trigger] acc@[x].0@ != #[trigger] acc@[y].0@ by {
                        if y == acc@.len() - 1 {
                            assert(acc@[x] == before[x]);
                        } else {
                            assert(before[x].0@ != before[y].0@);
                        }
                    }
                    assert forall|q: Seq<char>| #[trigger] composed(acc@, orig, working@, pk1, q) by {
                        crate::keyed::lemma_lookup_push(before, kv, ev, q);
                        assert(composed(before, orig, working@, pk, q));
                        crate::keyed::lemma_has_key_lookup(acc@, q);
                        crate::keyed::lemma_has_key_lookup(before, q);
                        crate::keyed::lemma_has_key_lookup(orig, q);
                        crate::keyed::lemma_has_key_lookup(working@, q);
                        crate::keyed::lemma_has_key_lookup(presence@, q);
                        assert(ev.co_changed@ =~= Seq::<(String, i64)>::empty());
                        if q == p {
                            assert(acc@[acc@.len() - 1].0@ == q);
                        }
                    }
                }
            },
        }
        v += 1;
    }
    assert(presence@.take(v as int) =~= presence@);
    acc
}

/// The deploy branches presence is reported for, by label.
pub open spec fn deploy_branch_list() -> Seq<(Seq<char>, Seq<char>)> {
    seq![
        ("prod"@, "origin/production"@),
        ("staging"@, "origin/staging"@),
        ("main"@, "origin/main"@),
        ("main"@, "origin/master"@),
    ]
}

pub fn deploy_branches() -> (r: Vec<(&'static str, &'static str)>)
    ensures
        r@.map_values(|e: (&'static str, &'static str)| (e.0@, e.1@)) == deploy_branch_list(),
{
    let r: Vec<(&'static str, &'static str)> = vec![
        ("prod", "origin/production"),
        ("staging", "origin/staging"),
        ("main", "origin/main"),
        ("main", "origin/master"),
    ];
    assert(r@.map_values(|e: (&'static str, &'static str)| (e.0@, e.1@)) =~= deploy_branch_list());
    r
}

/// The label under which a deploy branch's presence is recorded: the
/// configured label that equals `label`, else `label` itself.
pub fn deploy_label(label: &str) -> (r: String)
    ensures
        r@ == label@,
{
    let branches = deploy_branches();
    let mut i: usize = 0;
    while i < branches.len()
        invariant
            i <= branches@.len(),
        decreases branches@.len() - i,
    {
        if crate::text::str_eq(branches[i].0, label) {
            return branches[i].0.to_owned();
        }
        i += 1;
    }
    label.to_owned()
}

} // verus!
