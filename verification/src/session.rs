//! The session log's shapes and its read side: which documents the current
//! session has already surfaced, and what each one is attributed to.

use crate::ordered::{strictly_sorted, text_views};
use vstd::prelude::*;

verus! {

/// Event kinds, written in the log in snake case.
#[derive(Debug, Clone, Copy, PartialEq, Eq)]
pub enum EventKind {
    DocInjection,
    ReadFile,
    DirectorySurfaced,
    ContextPrimeDrift,
    ContextReset,
}

impl EventKind {
    /// The kind as the log spells it.
    pub fn label(&self) -> (r: &'static str)
        ensures
            r@ == match *self {
                EventKind::DocInjection => "doc_injection"@,
                EventKind::ReadFile => "read_file"@,
                EventKind::DirectorySurfaced => "directory_surfaced"@,
                EventKind::ContextPrimeDrift => "context_prime_drift"@,
                EventKind::ContextReset => "context_reset"@,
            },
    {
        match self {
            EventKind::DocInjection => "doc_injection",
            EventKind::ReadFile => "read_file",
            EventKind::DirectorySurfaced => "directory_surfaced",
            EventKind::ContextPrimeDrift => "context_prime_drift",
            EventKind::ContextReset => "context_reset",
        }
    }
}

/// One log event.
#[derive(Debug, Clone)]
pub struct Event {
    pub ts: u128,
    pub path: String,
    pub kind: EventKind,
    pub source: String,
    pub size: usize,
    pub content_hash: String,
    pub triggering_tool: Option<String>,
    pub triggering_command: Option<String>,
    pub visible_as: String,
}

/// What the session has surfaced: canonical path to content hash, one
/// entry per path, in path order.
#[derive(Debug, Clone)]
pub struct SessionView {
    pub emitted: Vec<(String, String)>,
}

pub open spec fn view_paths(v: SessionView) -> Seq<Seq<char>> {
    v.emitted@.map_values(|e: (String, String)| e.0@)
}

/// The view's paths are in strict order, so each occurs once.
pub open spec fn view_wf(v: SessionView) -> bool {
    strictly_sorted(view_paths(v))
}

/// One entry of what the session currently has, with its latest
/// attribution from the event log.
#[derive(Debug, Clone)]
pub struct LoadedEntry {
    pub path: String,
    pub visible_as: String,
    pub kind: String,
    pub size: usize,
    pub content_hash: String,
    pub source: String,
}

/// The fields one line of the event log carries, each absent when the line
/// lacks it or holds another type there.
#[derive(Debug, Clone)]
pub struct EventFields {
    pub path: Option<String>,
    pub source: Option<String>,
    pub kind: Option<String>,
    pub size: Option<u64>,
    pub visible_as: Option<String>,
}

/// Whether a session id is set; without one the log is a no-op.
pub fn session_active(session_id: &Option<String>) -> (r: bool)
    ensures
        r == session_id is Some,
{
    session_id.is_some()
}

/// The paths the session has already surfaced.
pub fn loaded_paths(view: &SessionView) -> (r: Vec<String>)
    requires
        view_wf(*view),
    ensures
        text_views(r@) == view_paths(*view),
        strictly_sorted(text_views(r@)),
{
    let mut out: Vec<String> = Vec::new();
    let mut i: usize = 0;
    while i < view.emitted.len()
        invariant
            i <= view.emitted.len(),
            out@.len() == i,
            text_views(out@) == view_paths(*view).take(i as int),
        decreases view.emitted.len() - i,
    {
        let p = view.emitted[i].0.clone();
        out.push(p);
        assert(view_paths(*view)[i as int] == view.emitted@[i as int].0@);
        assert(text_views(out@) =~= view_paths(*view).take(i + 1));
        i += 1;
    }
    assert(view_paths(*view).take(i as int) =~= view_paths(*view));
    out
}

/// Source, kind, size and visible name, as an event attributes its path.
pub type Attribution = (Seq<char>, Seq<char>, int, Seq<char>);

pub open spec fn opt_text(o: Option<String>, default: Seq<char>) -> Seq<char> {
    match o {
        Some(s) => s@,
        None => default,
    }
}

pub open spec fn event_attribution(e: EventFields) -> Attribution {
    (
        opt_text(e.source, "unknown"@),
        opt_text(e.kind, "doc_injection"@),
        match e.size {
            Some(n) => n as usize as int,
            None => 0,
        },
        opt_text(e.visible_as, Seq::empty()),
    )
}

/// The latest event naming `path` (an event with an empty or absent path
/// names nothing).
pub open spec fn latest_attribution(events: Seq<EventFields>, path: Seq<char>) -> Option<Attribution>
    decreases events.len(),
{
    if events.len() == 0 {
        None
    } else if events.last().path matches Some(p) && p@.len() > 0 && p@ == path {
        Some(event_attribution(events.last()))
    } else {
        latest_attribution(events.drop_last(), path)
    }
}

/// The manifest entry for one surfaced path with hash `hash`.
pub open spec fn entry_spec(events: Seq<EventFields>, path: Seq<char>, hash: Seq<char>) -> (Seq<char>, Seq<char>, Seq<char>, int, Seq<char>, Seq<char>) {
    let a = match latest_attribution(events, path) {
        Some(a) => a,
        None => ("unknown"@, "doc_injection"@, 0, path),
    };
    (path, a.3, a.1, a.2, hash, a.0)
}

pub open spec fn loaded_entry_view(e: LoadedEntry) -> (Seq<char>, Seq<char>, Seq<char>, int, Seq<char>, Seq<char>) {
    (e.path@, e.visible_as@, e.kind@, e.size as int, e.content_hash@, e.source@)
}

fn text_or(o: &Option<String>, default: &str) -> (r: String)
    ensures
        r@ == opt_text(*o, default@),
{
    match o {
        Some(s) => s.clone(),
        None => default.to_owned(),
    }
}

/// The latest attribution of `path` in `events`, scanning from the end.
fn latest_for(events: &Vec<EventFields>, path: &String) -> (r: Option<(String, String, usize, String)>)
    ensures
        match r {
            Some(a) => latest_attribution(events@, path@) == Some((a.0@, a.1@, a.2 as int, a.3@)),
            None => latest_attribution(events@, path@) is None,
        },
{
    let nonempty = crate::text::chars_of(path.as_str()).len() > 0;
    assert(events@.take(events.len() as int) =~= events@);
    let mut i: usize = events.len();
    while i > 0
        invariant
            nonempty == (path@.len() > 0),
            i <= events.len(),
            latest_attribution(events@, path@) == latest_attribution(events@.take(i as int), path@),
        decreases i,
    {
        let e = &events[i - 1];
        let ghost pre = events@.take(i as int);
        assert(pre.last() == events@[i - 1]);
        assert(pre.drop_last() =~= events@.take(i - 1));
        let named = match &e.path {
            Some(p) => nonempty && crate::text::str_eq(p.as_str(), path.as_str()),
            None => false,
        };
        if named {
            let source = text_or(&e.source, "unknown");
            let kind = text_or(&e.kind, "doc_injection");
            let size: usize = match e.size {
                Some(n) => n as usize,
                None => 0,
            };
            let visible = text_or(&e.visible_as, "");
            proof {
                reveal_strlit("");
            }
            return Some((source, kind, size, visible));
        }
        i -= 1;
    }
    assert(events@.take(0) =~= Seq::<EventFields>::empty());
    None
}

/// Every surfaced path, in ascending order, joined against the event log
/// so each carries the source, kind, size and visible name of the latest
/// event naming it; a path no event names is attributed to `unknown`,
/// `doc_injection`, size 0, and shown as itself.
pub fn loaded_entries(view: &SessionView, events: &Vec<EventFields>) -> (r: Vec<LoadedEntry>)
    requires
        view_wf(*view),
    ensures
        strictly_sorted(r@.map_values(|e: LoadedEntry| e.path@)),
        r@.len() == view.emitted@.len(),
        forall|i: int| 0 <= i < r@.len() ==> loaded_entry_view(#[trigger] r@[i])
            == entry_spec(events@, view.emitted@[i].0@, view.emitted@[i].1@),
{
    let mut out: Vec<LoadedEntry> = Vec::new();
    let mut i: usize = 0;
    while i < view.emitted.len()
        invariant
            i <= view.emitted.len(),
            out@.len() == i,
            forall|j: int| 0 <= j < i ==> loaded_entry_view(#[trigger] out@[j])
                == entry_spec(events@, view.emitted@[j].0@, view.emitted@[j].1@),
        decreases view.emitted.len() - i,
    {
        let path = &view.emitted[i].0;
        let hash = &view.emitted[i].1;
        let entry = match latest_for(events, path) {
            Some((source, kind, size, visible_as)) => LoadedEntry {
                path: path.clone(),
                visible_as,
                kind,
                size,
                content_hash: hash.clone(),
                source,
            },
            None => LoadedEntry {
                path: path.clone(),
                visible_as: path.clone(),
                kind: "doc_injection".to_owned(),
                size: 0,
                content_hash: hash.clone(),
                source: "unknown".to_owned(),
            },
        };
        out.push(entry);
        i += 1;
    }
    proof {
        let ps = out@.map_values(|e: LoadedEntry| e.path@);
        assert forall|a: int, b: int| 0 <= a < b < ps.len() implies crate::ordered::text_lt(#[trigger] ps[a], #[trigger] ps[b]) by {
            assert(ps[a] == view_paths(*view)[a] && ps[b] == view_paths(*view)[b]);
        }
    }
    out
}

/// A document's content hash as the log records it.
pub open spec fn content_hash_spec(content: Seq<char>) -> Seq<char> {
    "sha256:"@ + crate::cache::hex_text(crate::cache::sha256_of(vstd::utf8::encode_utf8(content)))
}

pub fn content_hash(content: &str) -> (r: String)
    ensures
        r@ == content_hash_spec(content@),
{
    let digest = crate::cache::sha256(content.as_bytes());
    let hex = crate::cache::hex_encode(digest.as_slice());
    crate::text::concat("sha256:", hex.as_str())
}

pub open spec fn emitted_map(v: Seq<(String, String)>) -> Map<Seq<char>, Seq<char>> {
    crate::blame::text_map(v)
}

/// Surfacing documents `(path, hash)` in order against the emitted map `m`:
/// a document whose path already maps to its hash is skipped; any other is
/// emitted (its index kept) and its path mapped to its hash.
pub open spec fn emission(m: Map<Seq<char>, Seq<char>>, docs: Seq<(Seq<char>, Seq<char>)>) -> (Map<Seq<char>, Seq<char>>, Seq<int>)
    decreases docs.len(),
{
    if docs.len() == 0 {
        (m, Seq::empty())
    } else {
        let (m1, idx) = emission(m, docs.drop_last());
        let (p, h) = docs.last();
        if m1.contains_key(p) && m1[p] == h {
            (m1, idx)
        } else {
            (m1.insert(p, h), idx.push(docs.len() - 1))
        }
    }
}

pub open spec fn doc_views(v: Seq<(String, String)>) -> Seq<(Seq<char>, Seq<char>)> {
    v.map_values(|d: (String, String)| (d.0@, d.1@))
}

/// Record the documents `docs` (path, content hash) as surfaced: the view
/// maps each emitted path to its hash; the indices of the documents to log
/// as new events come back.
pub fn plan_emission(view: &mut SessionView, docs: &Vec<(String, String)>) -> (r: Vec<usize>)
    requires
        view_wf(*old(view)),
    ensures
        view_wf(*final(view)),
        crate::keyed::keys_unique(final(view).emitted@),
        emitted_map(final(view).emitted@) == emission(emitted_map(old(view).emitted@), doc_views(docs@)).0,
        r@.map_values(|i: usize| i as int) == emission(emitted_map(old(view).emitted@), doc_views(docs@)).1,
{
    let ghost m0 = emitted_map(view.emitted@);
    let ghost dv = doc_views(docs@);
    let mut out: Vec<usize> = Vec::new();
    let mut i: usize = 0;
    while i < docs.len()
        invariant
            i <= docs.len(),
            dv == doc_views(docs@),
            view_wf(*view),
            (emitted_map(view.emitted@), out@.map_values(|i: usize| i as int)) == emission(m0, dv.take(i as int)),
        decreases docs.len() - i,
    {
        assert(dv.take(i + 1).drop_last() =~= dv.take(i as int));
        assert(dv.take(i + 1).last() == (docs@[i as int].0@, docs@[i as int].1@));
        let ghost before = view.emitted@;
        let same = match crate::keyed::get(&view.emitted, &docs[i].0) {
            Some(h) => crate::text::str_eq(h.as_str(), docs[i].1.as_str()),
            None => false,
        };
        if !same {
            emitted_insert(view, docs[i].0.clone(), docs[i].1.clone());
            assert(emitted_map(view.emitted@) =~= emitted_map(before).insert(docs@[i as int].0@, docs@[i as int].1@));
            let ghost ov = out@.map_values(|i: usize| i as int);
            out.push(i);
            assert(out@.map_values(|i: usize| i as int) =~= ov.push(i as int));
        }
        i += 1;
    }
    assert(dv.take(i as int) =~= dv);
    proof {
        lemma_wf_unique(*view);
    }
    out
}

/// The paths of `docs` are distinct.
pub open spec fn distinct_paths(docs: Seq<(Seq<char>, Seq<char>)>) -> bool {
    forall|i: int, j: int| 0 <= i < j < docs.len() ==> (#[trigger] docs[i]).0 != (#[trigger] docs[j]).0
}

proof fn lemma_emission_maps_all(m: Map<Seq<char>, Seq<char>>, docs: Seq<(Seq<char>, Seq<char>)>)
    requires
        distinct_paths(docs),
    ensures
        forall|i: int| 0 <= i < docs.len() ==> emission(m, docs).0.contains_key((#[trigger] docs[i]).0)
            && emission(m, docs).0[docs[i].0] == docs[i].1,
    decreases docs.len(),
{
    if docs.len() > 0 {
        let pre = docs.drop_last();
        assert(distinct_paths(pre));
        lemma_emission_maps_all(m, pre);
        assert forall|i: int| 0 <= i < docs.len() implies emission(m, docs).0.contains_key((#[trigger] docs[i]).0)
            && emission(m, docs).0[docs[i].0] == docs[i].1 by {
            if i < docs.len() - 1 {
                assert(pre[i] == docs[i]);
                assert(docs[i].0 != docs[docs.len() - 1].0);
            }
        }
    }
}

proof fn lemma_emission_settled(m: Map<Seq<char>, Seq<char>>, docs: Seq<(Seq<char>, Seq<char>)>)
    requires
        forall|i: int| 0 <= i < docs.len() ==> m.contains_key((#[trigger] docs[i]).0) && m[docs[i].0] == docs[i].1,
    ensures
        emission(m, docs) == (m, Seq::<int>::empty()),
    decreases docs.len(),
{
    if docs.len() > 0 {
        let pre = docs.drop_last();
        assert forall|i: int| 0 <= i < pre.len() implies m.contains_key((#[trigger] pre[i]).0) && m[pre[i].0] == pre[i].1 by {
            assert(pre[i] == docs[i]);
        }
        lemma_emission_settled(m, pre);
        assert(docs.last() == docs[docs.len() - 1]);
    }
}

/// Surfacing the same documents again (distinct paths, unchanged content)
/// emits nothing and leaves the view as it was: the log records each
/// content once.
pub proof fn emission_is_idempotent(m: Map<Seq<char>, Seq<char>>, docs: Seq<(Seq<char>, Seq<char>)>)
    requires
        distinct_paths(docs),
    ensures
        emission(emission(m, docs).0, docs) == (emission(m, docs).0, Seq::<int>::empty()),
{
    lemma_emission_maps_all(m, docs);
    lemma_emission_settled(emission(m, docs).0, docs);
}

/// A document whose content changed since the view recorded its path is
/// emitted again; one the view holds unchanged is not.
pub proof fn changed_content_is_reemitted(m: Map<Seq<char>, Seq<char>>, path: Seq<char>, hash: Seq<char>)
    ensures
        emission(m, seq![(path, hash)]).1 == (if m.contains_key(path) && m[path] == hash {
            Seq::<int>::empty()
        } else {
            seq![0int]
        }),
{
    let d = seq![(path, hash)];
    assert(d.drop_last() =~= Seq::<(Seq<char>, Seq<char>)>::empty());
    assert(emission(m, d.drop_last()) == (m, Seq::<int>::empty()));
    assert(d.last() == (path, hash));
    assert(d.len() - 1 == 0);
    assert(Seq::<int>::empty().push(0) =~= seq![0int]);
}

} // verus!

verus! {

/// Surfacing one path whose content hashes to `hash` against the map `m`:
/// a first surfacing unless `m` already maps the path to that hash; a first
/// surfacing maps it.
pub open spec fn touch_spec(m: Map<Seq<char>, Seq<char>>, path: Seq<char>, hash: Seq<char>) -> (bool, Map<Seq<char>, Seq<char>>) {
    if m.contains_key(path) && m[path] == hash {
        (false, m)
    } else {
        (true, m.insert(path, hash))
    }
}

/// Record one path's surfacing; true on its first surfacing with this
/// content.
pub fn touch(view: &mut SessionView, path: &String, hash: &String) -> (first: bool)
    requires
        view_wf(*old(view)),
    ensures
        view_wf(*final(view)),
        crate::keyed::keys_unique(final(view).emitted@),
        (first, emitted_map(final(view).emitted@)) == touch_spec(emitted_map(old(view).emitted@), path@, hash@),
{
    let ghost before = view.emitted@;
    let same = match crate::keyed::get(&view.emitted, path) {
        Some(h) => crate::text::str_eq(h.as_str(), hash.as_str()),
        None => false,
    };
    if !same {
        emitted_insert(view, path.clone(), hash.clone());
        assert(emitted_map(view.emitted@) =~= emitted_map(before).insert(path@, hash@));
    }
    proof {
        lemma_wf_unique(*view);
    }
    !same
}

/// Touching a path again with unchanged content is no first touch and
/// changes nothing.
pub proof fn touch_is_idempotent(m: Map<Seq<char>, Seq<char>>, path: Seq<char>, hash: Seq<char>)
    ensures
        touch_spec(touch_spec(m, path, hash).1, path, hash) == (false, touch_spec(m, path, hash).1),
{
}

/// The hash a directory is recorded under: a directory has no content, so
/// it is the hash of `dir:` and its canonical path, which no file's content
/// hash at that path can equal by accident.
pub fn directory_marker(canonical: &str) -> (r: String)
    ensures
        r@ == content_hash_spec("dir:"@ + canonical@),
{
    let text = crate::text::concat("dir:", canonical);
    content_hash(text.as_str())
}

/// The view's map with every missing path that the context primer touched
/// (predicted or observed) dropped.
pub open spec fn drop_missing(m: Map<Seq<char>, Seq<char>>, missing: Seq<Seq<char>>, touched: spec_fn(Seq<char>) -> bool) -> Map<Seq<char>, Seq<char>>
    decreases missing.len(),
{
    if missing.len() == 0 {
        m
    } else {
        let m1 = drop_missing(m, missing.drop_last(), touched);
        if touched(missing.last()) {
            m1.remove(missing.last())
        } else {
            m1
        }
    }
}

/// The map with each observed document's path mapped to its hash, in order.
pub open spec fn add_observed(m: Map<Seq<char>, Seq<char>>, docs: Seq<(Seq<char>, Seq<char>)>) -> Map<Seq<char>, Seq<char>>
    decreases docs.len(),
{
    if docs.len() == 0 {
        m
    } else {
        add_observed(m, docs.drop_last()).insert(docs.last().0, docs.last().1)
    }
}

pub open spec fn observed_docs(o: crate::drift::Observed) -> Seq<(Seq<char>, Seq<char>)> {
    o.paths@.map_values(|d: crate::drift::ObservedDoc| (d.path@, d.content_hash@))
}

/// The view after a drift report: predicted paths that were not observed
/// are dropped, and every observed path maps to its observed hash; other
/// paths (files read earlier) are untouched.
pub open spec fn reconciled(m: Map<Seq<char>, Seq<char>>, r: crate::drift::Report, o: crate::drift::Observed) -> Map<Seq<char>, Seq<char>> {
    add_observed(
        drop_missing(m, text_views(r.missing@), |p: Seq<char>| text_views(r.predicted@).contains(p) || text_views(r.observed@).contains(p)),
        observed_docs(o),
    )
}

/// Reconcile the view to what was observed.
pub fn reconcile_drift(view: &mut SessionView, report: &crate::drift::Report, observed: &crate::drift::Observed)
    requires
        view_wf(*old(view)),
    ensures
        view_wf(*final(view)),
        crate::keyed::keys_unique(final(view).emitted@),
        emitted_map(final(view).emitted@) == reconciled(emitted_map(old(view).emitted@), *report, *observed),
{
    let ghost m0 = emitted_map(view.emitted@);
    let ghost touched = |p: Seq<char>| text_views(report.predicted@).contains(p) || text_views(report.observed@).contains(p);
    let ghost mv = text_views(report.missing@);
    let mut i: usize = 0;
    while i < report.missing.len()
        invariant
            i <= report.missing@.len(),
            mv == text_views(report.missing@),
            touched == (|p: Seq<char>| text_views(report.predicted@).contains(p) || text_views(report.observed@).contains(p)),
            view_wf(*view),
            emitted_map(view.emitted@) == drop_missing(m0, mv.take(i as int), touched),
        decreases report.missing@.len() - i,
    {
        assert(mv.take(i + 1).drop_last() =~= mv.take(i as int));
        assert(mv.take(i + 1).last() == report.missing@[i as int]@);
        let p = &report.missing[i];
        if crate::ordered::contains_text(&report.predicted, p.as_str()) || crate::ordered::contains_text(&report.observed, p.as_str()) {
            let ghost before = view.emitted@;
            emitted_remove(view, p);
            assert(emitted_map(view.emitted@) =~= emitted_map(before).remove(p@));
        }
        i += 1;
    }
    assert(mv.take(i as int) =~= mv);
    let ghost m1 = emitted_map(view.emitted@);
    let ghost dv = observed_docs(*observed);
    let mut j: usize = 0;
    while j < observed.paths.len()
        invariant
            j <= observed.paths@.len(),
            dv == observed_docs(*observed),
            view_wf(*view),
            emitted_map(view.emitted@) == add_observed(m1, dv.take(j as int)),
        decreases observed.paths@.len() - j,
    {
        assert(dv.take(j + 1).drop_last() =~= dv.take(j as int));
        assert(dv.take(j + 1).last() == (observed.paths@[j as int].path@, observed.paths@[j as int].content_hash@));
        let ghost before = view.emitted@;
        emitted_insert(view, observed.paths[j].path.clone(), observed.paths[j].content_hash.clone());
        assert(emitted_map(view.emitted@) =~= emitted_map(before).insert(
            observed.paths@[j as int].path@,
            observed.paths@[j as int].content_hash@,
        ));
        j += 1;
    }
    assert(dv.take(j as int) =~= dv);
    proof {
        lemma_wf_unique(*view);
    }
}

/// Clear what the view has surfaced; the cleared paths come back in view
/// order.
pub fn reset_view(view: &mut SessionView) -> (cleared: Vec<String>)
    ensures
        text_views(cleared@) == view_paths(*old(view)),
        final(view).emitted@.len() == 0,
{
    let mut cleared: Vec<String> = Vec::new();
    let mut i: usize = 0;
    while i < view.emitted.len()
        invariant
            i <= view.emitted@.len(),
            text_views(cleared@) == view_paths(*view).take(i as int),
        decreases view.emitted@.len() - i,
    {
        let ghost ov = text_views(cleared@);
        cleared.push(view.emitted[i].0.clone());
        assert(text_views(cleared@) =~= ov.push(view_paths(*view)[i as int]));
        assert(view_paths(*view).take(i + 1) =~= view_paths(*view).take(i as int).push(view_paths(*view)[i as int]));
        i += 1;
    }
    assert(view_paths(*view).take(i as int) =~= view_paths(*view));
    view.emitted = Vec::new();
    cleared
}

} // verus!

verus! {

proof fn lemma_wf_unique(v: SessionView)
    requires
        view_wf(v),
    ensures
        crate::keyed::keys_unique(v.emitted@),
{
    let ks = view_paths(v);
    assert forall|i: int, j: int| 0 <= i < j < v.emitted@.len() implies #[trigger] v.emitted@[i].0@ != #[trigger] v.emitted@[j].0@ by {
        assert(ks[i] == v.emitted@[i].0@ && ks[j] == v.emitted@[j].0@);
        assert(crate::ordered::text_lt(ks[i], ks[j]));
        crate::ordered::lemma_text_lt_irreflexive(ks[i]);
    }
}

proof fn lemma_lookup_update(a: Seq<(String, String)>, p: int, x: (String, String), q: Seq<char>)
    requires
        0 <= p < a.len(),
        a[p].0@ != q,
        x.0@ != q,
    ensures
        crate::keyed::lookup(a.update(p, x), q) == crate::keyed::lookup(a, q),
    decreases a.len(),
{
    if p == 0 {
        assert(a.update(p, x).drop_first() =~= a.drop_first());
    } else {
        assert(a.update(p, x).drop_first() =~= a.drop_first().update(p - 1, x));
        lemma_lookup_update(a.drop_first(), p - 1, x, q);
    }
}

proof fn lemma_lookup_insert(a: Seq<(String, String)>, p: int, x: (String, String), q: Seq<char>)
    requires
        0 <= p <= a.len(),
        x.0@ != q,
    ensures
        crate::keyed::lookup(a.insert(p, x), q) == crate::keyed::lookup(a, q),
    decreases a.len(),
{
    if p == 0 {
        assert(a.insert(p, x).drop_first() =~= a);
    } else {
        assert(a.insert(p, x).drop_first() =~= a.drop_first().insert(p - 1, x));
        lemma_lookup_insert(a.drop_first(), p - 1, x, q);
    }
}

/// Map `path` to `hash` in the view, keeping its paths in order.
fn emitted_insert(view: &mut SessionView, path: String, hash: String)
    requires
        view_wf(*old(view)),
    ensures
        view_wf(*final(view)),
        crate::keyed::keys_unique(final(view).emitted@),
        emitted_map(final(view).emitted@) == emitted_map(old(view).emitted@).insert(path@, hash@),
{
    let ghost old_e = view.emitted@;
    let ghost ks = view_paths(*view);
    proof {
        lemma_wf_unique(*view);
    }
    let mut p: usize = 0;
    while p < view.emitted.len() && crate::ordered::text_less(view.emitted[p].0.as_str(), path.as_str())
        invariant
            p <= view.emitted@.len(),
            view.emitted@ == old_e,
            ks == view_paths(*view),
            forall|j: int| 0 <= j < p ==> crate::ordered::text_lt(#[trigger] ks[j], path@),
        decreases view.emitted@.len() - p,
    {
        assert(ks[p as int] == view.emitted@[p as int].0@);
        p += 1;
    }
    let ghost pv = path@;
    let ghost hv = hash@;
    if p < view.emitted.len() && crate::text::str_eq(view.emitted[p].0.as_str(), path.as_str()) {
        view.emitted.set(p, (path, hash));
        let ghost ne = view.emitted@;
        assert(view_paths(*view) =~= ks);
        proof {
            lemma_wf_unique(*view);
            assert forall|q: Seq<char>| #[trigger] crate::keyed::lookup(ne, q) == if q == pv {
                Some(ne[p as int].1)
            } else {
                crate::keyed::lookup(old_e, q)
            } by {
                if q == pv {
                    crate::keyed::lemma_lookup_unique(ne, p as int);
                } else {
                    assert(ne =~= old_e.update(p as int, ne[p as int]));
                    lemma_lookup_update(old_e, p as int, ne[p as int], q);
                }
            }
            assert(emitted_map(ne) =~= emitted_map(old_e).insert(pv, hv));
        }
    } else {
        proof {
            if p < ks.len() {
                assert(ks[p as int] == old_e[p as int].0@);
                crate::ordered::lemma_text_lt_total(ks[p as int], pv);
                assert(crate::ordered::text_lt(pv, ks[p as int]));
            }
        }
        view.emitted.insert(p, (path, hash));
        let ghost ne = view.emitted@;
        assert(view_paths(*view) =~= ks.take(p as int) + seq![pv] + ks.skip(p as int));
        proof {
            let nk = view_paths(*view);
            assert forall|a: int, b: int| 0 <= a < b < nk.len() implies crate::ordered::text_lt(#[trigger] nk[a], #[trigger] nk[b]) by {
                if a < p && b < p {
                    assert(nk[a] == ks[a] && nk[b] == ks[b]);
                } else if a < p && b == p {
                    assert(nk[a] == ks[a]);
                } else if a < p {
                    assert(nk[a] == ks[a] && nk[b] == ks[b - 1]);
                    if b - 1 > p {
                        assert(crate::ordered::text_lt(ks[p as int], ks[b - 1]));
                        crate::ordered::lemma_text_lt_transitive(pv, ks[p as int], ks[b - 1]);
                    }
                    assert(crate::ordered::text_lt(pv, ks[b - 1]));
                    crate::ordered::lemma_text_lt_transitive(ks[a], pv, ks[b - 1]);
                } else if a == p {
                    assert(nk[b] == ks[b - 1]);
                    if b - 1 > p {
                        crate::ordered::lemma_text_lt_transitive(pv, ks[p as int], ks[b - 1]);
                    }
                } else {
                    assert(nk[a] == ks[a - 1] && nk[b] == ks[b - 1]);
                }
            }
            lemma_wf_unique(*view);
            assert forall|q: Seq<char>| #[trigger] crate::keyed::lookup(ne, q) == if q == pv {
                Some(ne[p as int].1)
            } else {
                crate::keyed::lookup(old_e, q)
            } by {
                if q == pv {
                    crate::keyed::lemma_lookup_unique(ne, p as int);
                } else {
                    assert(ne =~= old_e.insert(p as int, ne[p as int]));
                    lemma_lookup_insert(old_e, p as int, ne[p as int], q);
                }
            }
            assert(emitted_map(ne) =~= emitted_map(old_e).insert(pv, hv));
        }
    }
}

/// Drop `path` from the view, keeping its paths in order.
fn emitted_remove(view: &mut SessionView, path: &String)
    requires
        view_wf(*old(view)),
    ensures
        view_wf(*final(view)),
        crate::keyed::keys_unique(final(view).emitted@),
        emitted_map(final(view).emitted@) == emitted_map(old(view).emitted@).remove(path@),
{
    let ghost old_e = view.emitted@;
    let ghost ks = view_paths(*view);
    proof {
        lemma_wf_unique(*view);
    }
    crate::keyed::remove_key(&mut view.emitted, path);
    assert(emitted_map(view.emitted@) =~= emitted_map(old_e).remove(path@));
    proof {
        if view.emitted@ != old_e {
            let i = choose|i: int| 0 <= i < old_e.len() && view.emitted@ == old_e.remove(i);
            let nk = view_paths(*view);
            assert(nk =~= ks.remove(i));
            assert forall|a: int, b: int| 0 <= a < b < nk.len() implies crate::ordered::text_lt(#[trigger] nk[a], #[trigger] nk[b]) by {
                let a2 = if a < i { a } else { a + 1 };
                let b2 = if b < i { b } else { b + 1 };
                assert(nk[a] == ks[a2] && nk[b] == ks[b2]);
            }
        }
    }
}

/// What `loaded_paths` lists and the paths of what `loaded_entries`
/// returns for the same view are the same, in the same ascending order.
pub proof fn loaded_paths_are_entry_paths(view: SessionView, events: Seq<EventFields>, paths: Seq<Seq<char>>, entries: Seq<LoadedEntry>)
    requires
        paths == view_paths(view),
        entries.len() == view.emitted@.len(),
        forall|i: int| 0 <= i < entries.len() ==> loaded_entry_view(#[trigger] entries[i])
            == entry_spec(events, view.emitted@[i].0@, view.emitted@[i].1@),
    ensures
        paths == entries.map_values(|e: LoadedEntry| e.path@),
{
    assert forall|i: int| 0 <= i < entries.len() implies #[trigger] entries[i].path@ == paths[i] by {
        assert(loaded_entry_view(entries[i]) == entry_spec(events, view.emitted@[i].0@, view.emitted@[i].1@));
    }
    assert(paths =~= entries.map_values(|e: LoadedEntry| e.path@));
}

} // verus!
