//! The primer's Layout section: the repository's top-level source
//! directories, each summed up from its files' facts and git activity.

use crate::activity::GitActivity;
use crate::blame::opt_view;
use crate::extraction::{is_supported, is_supported_spec};
use crate::facts::FileFacts;
use crate::keyed::lookup;
use crate::listing::{base_prefix, dirty_state, group_head, later, members, partition_under_base, skip_dir};
use crate::ordered::{
    lemma_text_lt_asymmetric, lemma_text_lt_irreflexive, lemma_text_lt_total, lemma_text_lt_transitive, text_less,
    text_lt, text_views,
};
use crate::repo_files::skip_dir_names;
use crate::text::{concat, dec, dec_int, fmt_i64, fmt_u64, starts_with, str_eq, to_lowercase, unicode_lowercase};
use vstd::prelude::*;

verus! {

/// Directory names in Layout order: by lowercased name, ties by name.
pub open spec fn layout_before(a: Seq<char>, b: Seq<char>) -> bool {
    let la = unicode_lowercase(a);
    let lb = unicode_lowercase(b);
    text_lt(la, lb) || (la == lb && text_lt(a, b))
}

/// Layout order is a strict total order on names.
pub proof fn layout_order_is_strict_total(a: Seq<char>, b: Seq<char>, c: Seq<char>)
    ensures
        !layout_before(a, a),
        layout_before(a, b) ==> !layout_before(b, a),
        a != b ==> layout_before(a, b) || layout_before(b, a),
        layout_before(a, b) && layout_before(b, c) ==> layout_before(a, c),
{
    let la = unicode_lowercase(a);
    let lb = unicode_lowercase(b);
    let lc = unicode_lowercase(c);
    lemma_text_lt_irreflexive(la);
    lemma_text_lt_irreflexive(a);
    lemma_text_lt_total(la, lb);
    lemma_text_lt_total(a, b);
    if text_lt(la, lb) {
        lemma_text_lt_asymmetric(la, lb);
    }
    if text_lt(a, b) {
        lemma_text_lt_asymmetric(a, b);
    }
    if layout_before(a, b) && layout_before(b, c) {
        if text_lt(la, lb) && text_lt(lb, lc) {
            lemma_text_lt_transitive(la, lb, lc);
        }
        if la == lb && lb == lc {
            lemma_text_lt_transitive(a, b, c);
        }
    }
}

/// Each name sorts strictly before the next in Layout order.
pub open spec fn layout_sorted(s: Seq<Seq<char>>) -> bool {
    forall|i: int, j: int| 0 <= i < j < s.len() ==> layout_before(#[trigger] s[i], #[trigger] s[j])
}

/// A top-level directory the Layout shows: not hidden, not skipped.
pub open spec fn shown_dir(h: Seq<char>) -> bool {
    !starts_with(h, "."@) && !skip_dir_names().contains(h)
}

pub open spec fn group_names(r: Seq<(String, Vec<String>)>) -> Seq<Seq<char>> {
    r.map_values(|g: (String, Vec<String>)| g.0@)
}

/// The rels paths grouped by their top-level directory (paths at the top
/// level belong to none), hidden and skipped directories left out, groups
/// in Layout order, each with its paths in rels order.
pub fn layout_groups(rels: &Vec<String>) -> (r: Vec<(String, Vec<String>)>)
    ensures
        layout_sorted(group_names(r@)),
        forall|h: Seq<char>| #[trigger] group_names(r@).contains(h)
            <==> (shown_dir(h) && exists|i: int| 0 <= i < rels@.len() && group_head(#[trigger] rels@[i]@, Seq::empty()) == Some(h)),
        forall|i: int| 0 <= i < r@.len() ==> text_views(#[trigger] r@[i].1@) == members(text_views(rels@), Seq::empty(), r@[i].0@),
{
    let groups = partition_under_base("", rels);
    proof {
        reveal_strlit("");
    }
    assert(base_prefix(""@) == Seq::<char>::empty());
    let ghost gn = crate::listing::group_names(groups@);
    let mut out: Vec<(String, Vec<String>)> = Vec::new();
    let mut i: usize = 0;
    while i < groups.len()
        invariant
            i <= groups@.len(),
            gn == crate::listing::group_names(groups@),
            crate::ordered::strictly_sorted(gn),
            forall|h: Seq<char>| #[trigger] gn.contains(h)
                <==> exists|k: int| 0 <= k < rels@.len() && group_head(#[trigger] rels@[k]@, Seq::empty()) == Some(h),
            forall|k: int| 0 <= k < groups@.len() ==> text_views(#[trigger] groups@[k].1@) == members(text_views(rels@), Seq::empty(), groups@[k].0@),
            layout_sorted(group_names(out@)),
            forall|h: Seq<char>| #[trigger] group_names(out@).contains(h)
                <==> (shown_dir(h) && exists|k: int| 0 <= k < i && gn[k] == h),
            forall|k: int| 0 <= k < out@.len() ==> text_views(#[trigger] out@[k].1@) == members(text_views(rels@), Seq::empty(), out@[k].0@),
        decreases groups@.len() - i,
    {
        let name = &groups[i].0;
        assert(gn[i as int] == name@);
        let hidden = crate::text::seq_starts_with(&crate::text::chars_of(name.as_str()), &crate::text::chars_of("."));
        if !hidden && !skip_dir(name.as_str()) {
            assert(shown_dir(name@));
            let ghost on = group_names(out@);
            // `name` is new: every kept name so far came before it in byte order
            assert(!on.contains(name@)) by {
                if on.contains(name@) {
                    let k = choose|k: int| 0 <= k < i && gn[k] == name@;
                    lemma_text_lt_irreflexive(name@);
                }
            }
            let pos = insert_position(&out, name.as_str());
            let entry = (name.clone(), clone_paths(&groups[i].1));
            out.insert(pos, entry);
            proof {
                let nn = group_names(out@);
                assert(nn =~= on.insert(pos as int, name@));
                assert forall|p: int, q: int| 0 <= p < q < nn.len() implies layout_before(#[trigger] nn[p], #[trigger] nn[q]) by {
                    if p < pos && q < pos {
                        assert(nn[p] == on[p] && nn[q] == on[q]);
                    } else if p < pos && q == pos {
                        assert(nn[p] == on[p]);
                    } else if p < pos && q > pos {
                        assert(nn[p] == on[p] && nn[q] == on[q - 1]);
                    } else if p == pos {
                        assert(nn[q] == on[q - 1]);
                        if q - 1 > pos {
                            layout_order_is_strict_total(name@, on[pos as int], on[q - 1]);
                        }
                    } else {
                        assert(nn[p] == on[p - 1] && nn[q] == on[q - 1]);
                    }
                }
                assert forall|h: Seq<char>| #[trigger] nn.contains(h) <==> (shown_dir(h) && exists|k: int| 0 <= k < i + 1 && gn[k] == h) by {
                    if nn.contains(h) {
                        let x = choose|x: int| 0 <= x < nn.len() && nn[x] == h;
                        if x < pos {
                            assert(on[x] == h);
                            assert(on.contains(h));
                        } else if x > pos {
                            assert(on[x - 1] == h);
                            assert(on.contains(h));
                        } else {
                            assert(gn[i as int] == h);
                        }
                    }
                    if shown_dir(h) && exists|k: int| 0 <= k < i + 1 && gn[k] == h {
                        let k = choose|k: int| 0 <= k < i + 1 && gn[k] == h;
                        if k < i {
                            assert(on.contains(h));
                            let x = choose|x: int| 0 <= x < on.len() && on[x] == h;
                            if x < pos {
                                assert(nn[x] == h);
                            } else {
                                assert(nn[x + 1] == h);
                            }
                        } else {
                            assert(nn[pos as int] == h);
                        }
                    }
                }
            }
        } else {
            proof {
                let on = group_names(out@);
                assert(!shown_dir(name@));
                assert forall|h: Seq<char>| #[trigger] on.contains(h) <==> (shown_dir(h) && exists|k: int| 0 <= k < i + 1 && gn[k] == h) by {
                    if shown_dir(h) && exists|k: int| 0 <= k < i + 1 && gn[k] == h {
                        let k = choose|k: int| 0 <= k < i + 1 && gn[k] == h;
                        assert(k != i);
                    }
                }
            }
        }
        i += 1;
    }
    proof {
        let on = group_names(out@);
        assert forall|h: Seq<char>| #[trigger] on.contains(h)
            <==> (shown_dir(h) && exists|k: int| 0 <= k < rels@.len() && group_head(#[trigger] rels@[k]@, Seq::empty()) == Some(h)) by {
            if shown_dir(h) && exists|k: int| 0 <= k < rels@.len() && group_head(#[trigger] rels@[k]@, Seq::empty()) == Some(h) {
                assert(gn.contains(h));
                let k = choose|k: int| 0 <= k < gn.len() && gn[k] == h;
                assert(k < i);
            }
            if on.contains(h) {
                let k = choose|k: int| 0 <= k < i && gn[k] == h;
                assert(gn.contains(h));
            }
        }
    }
    out
}

fn clone_paths(v: &Vec<String>) -> (r: Vec<String>)
    ensures
        text_views(r@) == text_views(v@),
{
    let mut out: Vec<String> = Vec::new();
    let mut i: usize = 0;
    while i < v.len()
        invariant
            i <= v.len(),
            text_views(out@) == text_views(v@).take(i as int),
        decreases v.len() - i,
    {
        let ghost ov = text_views(out@);
        let x = v[i].clone();
        assert(x@ == v@[i as int]@);
        out.push(x);
        assert(text_views(out@) =~= ov.push(text_views(v@)[i as int]));
        assert(text_views(out@) =~= text_views(v@).take(i + 1));
        i += 1;
    }
    assert(text_views(v@).take(i as int) =~= text_views(v@));
    out
}

/// Whether `a` comes before `b` in Layout order.
fn before(a: &str, b: &str) -> (r: bool)
    ensures
        r == layout_before(a@, b@),
{
    let la = to_lowercase(a);
    let lb = to_lowercase(b);
    text_less(la.as_str(), lb.as_str()) || (str_eq(la.as_str(), lb.as_str()) && text_less(a, b))
}

/// Where `name` goes in a Layout-sorted list that does not hold it.
fn insert_position(out: &Vec<(String, Vec<String>)>, name: &str) -> (pos: usize)
    requires
        layout_sorted(group_names(out@)),
        !group_names(out@).contains(name@),
    ensures
        pos <= out@.len(),
        forall|k: int| 0 <= k < pos ==> layout_before(#[trigger] group_names(out@)[k], name@),
        pos < out@.len() ==> layout_before(name@, group_names(out@)[pos as int]),
{
    let ghost on = group_names(out@);
    let mut k: usize = 0;
    while k < out.len()
        invariant
            k <= out@.len(),
            on == group_names(out@),
            forall|j: int| 0 <= j < k ==> layout_before(#[trigger] on[j], name@),
            !on.contains(name@),
        decreases out@.len() - k,
    {
        assert(on[k as int] == out@[k as int].0@);
        if before(name, out[k].0.as_str()) {
            return k;
        }
        proof {
            layout_order_is_strict_total(name@, on[k as int], name@);
            assert(on.contains(on[k as int]));
        }
        k += 1;
    }
    k
}

/// What one path adds to its directory: complexity, last modification and
/// working-tree state. Source files read their facts when there are any;
/// other files, and source files without facts, their git activity.
pub open spec fn reading(
    rel: Seq<char>,
    facts: Seq<(String, FileFacts)>,
    git: Seq<(String, GitActivity)>,
) -> (int, Option<Seq<char>>, Option<Seq<char>>) {
    let from_git = match lookup(git, rel) {
        Some(a) => (0int, opt_view(a.last_modified), opt_view(a.working_state)),
        None => (0int, None, None),
    };
    if is_supported_spec(rel) {
        match lookup(facts, rel) {
            Some(f) => (f.cyclomatic_complexity_total as int, opt_view(f.last_modified), opt_view(f.working_state)),
            None => from_git,
        }
    } else {
        from_git
    }
}

/// A directory's paths in sum: total complexity, the newest modification
/// date (the first of equals), and whether any path is dirty.
pub open spec fn summary_of(
    rels: Seq<Seq<char>>,
    facts: Seq<(String, FileFacts)>,
    git: Seq<(String, GitActivity)>,
) -> (int, Option<Seq<char>>, bool)
    decreases rels.len(),
{
    if rels.len() == 0 {
        (0, None, false)
    } else {
        let p = summary_of(rels.drop_last(), facts, git);
        let r = reading(rels.last(), facts, git);
        (p.0 + r.0, later(p.1, r.1), p.2 || (match r.2 {
            Some(s) => dirty_state(s),
            None => false,
        }))
    }
}

/// Every running total of complexity fits an `i64`.
pub open spec fn totals_fit(rels: Seq<Seq<char>>, facts: Seq<(String, FileFacts)>, git: Seq<(String, GitActivity)>) -> bool {
    forall|k: int| 0 <= k <= rels.len() ==> i64::MIN <= #[trigger] summary_of(rels.take(k), facts, git).0 <= i64::MAX
}

/// One directory's summary.
pub struct LayoutSummary {
    pub file_count: usize,
    pub ccn_total: i64,
    pub last_modified: Option<String>,
    pub has_uncommitted: bool,
}

fn dirty(s: &str) -> (r: bool)
    ensures
        r == dirty_state(s@),
{
    str_eq(s, "untracked") || str_eq(s, "added") || str_eq(s, "modified") || str_eq(s, "renamed")
}

/// Sum up the paths of one directory.
pub fn aggregate_paths(
    rels: &Vec<String>,
    facts: &Vec<(String, FileFacts)>,
    git: &Vec<(String, GitActivity)>,
) -> (r: LayoutSummary)
    requires
        totals_fit(text_views(rels@), facts@, git@),
    ensures
        r.file_count == rels@.len(),
        (r.ccn_total as int, opt_view(r.last_modified), r.has_uncommitted) == summary_of(text_views(rels@), facts@, git@),
{
    let ghost rv = text_views(rels@);
    let mut ccn: i64 = 0;
    let mut last: Option<String> = None;
    let mut dirty_any = false;
    let mut i: usize = 0;
    assert(rv.take(0) =~= Seq::<Seq<char>>::empty());
    while i < rels.len()
        invariant
            i <= rels.len(),
            rv == text_views(rels@),
            totals_fit(rv, facts@, git@),
            (ccn as int, opt_view(last), dirty_any) == summary_of(rv.take(i as int), facts@, git@),
        decreases rels.len() - i,
    {
        assert(rv.take(i + 1).drop_last() =~= rv.take(i as int));
        assert(rv.take(i + 1).last() == rels@[i as int]@);
        let rel = &rels[i];
        let mut c: i64 = 0;
        let mut modified: Option<&String> = None;
        let mut state: Option<&String> = None;
        let mut from_facts = false;
        if is_supported(rel.as_str()) {
            match crate::keyed::get(facts, rel) {
                Some(f) => {
                    c = f.cyclomatic_complexity_total;
                    modified = f.last_modified.as_ref();
                    state = f.working_state.as_ref();
                    from_facts = true;
                },
                None => {},
            }
        }
        if !from_facts {
            match crate::keyed::get(git, rel) {
                Some(a) => {
                    modified = a.last_modified.as_ref();
                    state = a.working_state.as_ref();
                },
                None => {},
            }
        }
        let ghost rd = reading(rels@[i as int]@, facts@, git@);
        assert(c as int == rd.0);
        assert(match modified { Some(m) => Some(m@), None => None::<Seq<char>> } == rd.1);
        assert(match state { Some(m) => Some(m@), None => None::<Seq<char>> } == rd.2);
        assert(i64::MIN <= summary_of(rv.take(i + 1), facts@, git@).0 <= i64::MAX);
        ccn = ccn + c;
        match modified {
            Some(m) => {
                let newer = match &last {
                    Some(lm) => text_less(lm.as_str(), m.as_str()),
                    None => true,
                };
                if newer {
                    last = Some(m.clone());
                }
            },
            None => {},
        }
        match state {
            Some(s) => {
                if dirty(s.as_str()) {
                    dirty_any = true;
                }
            },
            None => {},
        }
        i += 1;
    }
    assert(rv.take(i as int) =~= rv);
    LayoutSummary { file_count: rels.len(), ccn_total: ccn, last_modified: last, has_uncommitted: dirty_any }
}

/// One directory's Layout line.
pub open spec fn layout_line(name: Seq<char>, count: nat, s: (int, Option<Seq<char>>, bool)) -> Seq<char> {
    "  \u{1F4C1} "@ + name + "/  ("@ + dec(count) + " files \u{B7} ccn="@ + dec_int(s.0) + match s.1 {
        Some(m) => " \u{B7} last: "@ + m,
        None => ""@,
    } + if s.2 {
        " \u{B7} uncommitted"@
    } else {
        ""@
    } + ")"@
}

/// A directory's line from its name and summary.
pub fn fmt_layout_line(name: &str, s: &LayoutSummary) -> (r: String)
    ensures
        r@ == layout_line(name@, s.file_count as nat, (s.ccn_total as int, opt_view(s.last_modified), s.has_uncommitted)),
{
    let a = concat("  \u{1F4C1} ", name);
    let b = concat(a.as_str(), "/  (");
    let c = concat(b.as_str(), fmt_u64(s.file_count as u64).as_str());
    let d = concat(c.as_str(), " files \u{B7} ccn=");
    let mut e = concat(d.as_str(), fmt_i64(s.ccn_total).as_str());
    proof {
        reveal_strlit("");
    }
    match &s.last_modified {
        Some(m) => {
            let f = concat(e.as_str(), " \u{B7} last: ");
            e = concat(f.as_str(), m.as_str());
        },
        None => {
            assert(e@ + ""@ =~= e@);
        },
    }
    if s.has_uncommitted {
        e = concat(e.as_str(), " \u{B7} uncommitted");
    } else {
        assert(e@ + ""@ =~= e@);
    }
    let r = concat(e.as_str(), ")");
    r
}

/// The Layout lines for the grouped directories, in the order given.
pub open spec fn layout_rows(groups: Seq<(String, Vec<String>)>, facts: Seq<(String, FileFacts)>, git: Seq<(String, GitActivity)>) -> Seq<Seq<char>>
    decreases groups.len(),
{
    if groups.len() == 0 {
        Seq::empty()
    } else {
        let g = groups.last();
        layout_rows(groups.drop_last(), facts, git).push(
            layout_line(g.0@, g.1@.len(), summary_of(text_views(g.1@), facts, git)),
        )
    }
}

/// The primer's Layout section.
pub open spec fn layout_section(groups: Seq<(String, Vec<String>)>, facts: Seq<(String, FileFacts)>, git: Seq<(String, GitActivity)>) -> Seq<Seq<char>> {
    if groups.len() == 0 {
        seq!["## Layout"@, "  (no source directories at top level)"@]
    } else {
        seq!["## Layout"@] + layout_rows(groups, facts, git)
    }
}

/// The lines of the Layout section for directories grouped as
/// `layout_groups` gives them.
pub fn layout_lines(
    groups: &Vec<(String, Vec<String>)>,
    facts: &Vec<(String, FileFacts)>,
    git: &Vec<(String, GitActivity)>,
) -> (r: Vec<String>)
    requires
        forall|i: int| 0 <= i < groups@.len() ==> totals_fit(text_views(#[trigger] groups@[i].1@), facts@, git@),
    ensures
        text_views(r@) == layout_section(groups@, facts@, git@),
{
    let mut out: Vec<String> = Vec::new();
    out.push("## Layout".to_owned());
    if groups.len() == 0 {
        out.push("  (no source directories at top level)".to_owned());
        assert(text_views(out@) =~= layout_section(groups@, facts@, git@));
        return out;
    }
    let ghost head = text_views(out@);
    let mut i: usize = 0;
    while i < groups.len()
        invariant
            i <= groups@.len(),
            forall|k: int| 0 <= k < groups@.len() ==> totals_fit(text_views(#[trigger] groups@[k].1@), facts@, git@),
            text_views(out@) == head + layout_rows(groups@.take(i as int), facts@, git@),
        decreases groups@.len() - i,
    {
        assert(groups@.take(i + 1).drop_last() =~= groups@.take(i as int));
        assert(groups@.take(i + 1).last() == groups@[i as int]);
        let summary = aggregate_paths(&groups[i].1, facts, git);
        let line = fmt_layout_line(groups[i].0.as_str(), &summary);
        let ghost ov = text_views(out@);
        out.push(line);
        assert(text_views(out@) =~= ov.push(line@));
        i += 1;
    }
    assert(groups@.take(i as int) =~= groups@);
    assert(text_views(out@) =~= layout_section(groups@, facts@, git@));
    out
}

} // verus!
