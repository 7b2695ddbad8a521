//! Directory listings: which names a listing skips, which files count as
//! source, how a modification time reads, and what a directory's files add
//! up to.

use crate::activity::GitActivity;
use crate::blame::opt_view;
use crate::civil::{civil_from_days, civil_from_days_spec, fmt_ymd, fmt_zero_padded_i64, ymd_text, zero_padded};
use crate::extraction::{is_supported, is_supported_spec};
use crate::keyed::{keys_unique, lookup};
use crate::ordered::{contains_text, sorted_unique, strictly_sorted, text_less, text_lt, text_views};
use crate::repo_files::{skip_dir_names, skip_dirs};
use crate::text::{chars_of, concat, starts_with, string_of_range};
use vstd::prelude::*;

verus! {

/// A directory name no listing descends into.
pub fn skip_dir(name: &str) -> (r: bool)
    ensures
        r == skip_dir_names().contains(name@),
{
    let names = skip_dirs();
    contains_text(&names, name)
}

/// A file whose lowercased extension has an extractor.
pub fn is_source_ext(rel: &str) -> (r: bool)
    ensures
        r == is_supported_spec(rel@),
{
    is_supported(rel)
}

/// Source files to feed the graph: each candidate path with whether it is a
/// symlink; supported extensions only, symlinks left out.
pub fn discover_files(candidates: &Vec<(String, bool)>) -> (r: Vec<String>)
    ensures
        text_views(r@) == candidates@.filter(|c: (String, bool)| is_supported_spec(c.0@) && !c.1).map_values(|c: (String, bool)| c.0@),
{
    let ghost keep = |c: (String, bool)| is_supported_spec(c.0@) && !c.1;
    let mut out: Vec<String> = Vec::new();
    let mut i: usize = 0;
    while i < candidates.len()
        invariant
            i <= candidates.len(),
            keep == (|c: (String, bool)| is_supported_spec(c.0@) && !c.1),
            text_views(out@) == candidates@.take(i as int).filter(keep).map_values(|c: (String, bool)| c.0@),
        decreases candidates.len() - i,
    {
        let ghost before = candidates@.take(i as int);
        assert(candidates@.take(i + 1) =~= before.push(candidates@[i as int]));
        proof {
            before.lemma_filter_push(candidates@[i as int], keep);
        }
        let ghost ov = text_views(out@);
        if is_supported(candidates[i].0.as_str()) && !candidates[i].1 {
            out.push(candidates[i].0.clone());
            assert(text_views(out@) =~= ov.push(candidates@[i as int].0@));
            assert(before.push(candidates@[i as int]).filter(keep).map_values(|c: (String, bool)| c.0@)
                =~= before.filter(keep).map_values(|c: (String, bool)| c.0@).push(candidates@[i as int].0@));
        } else {
            assert(before.push(candidates@[i as int]).filter(keep) == before.filter(keep));
        }
        i += 1;
    }
    assert(candidates@.take(i as int) =~= candidates@);
    out
}

/// The non-empty lines of `ls`, in order.
pub open spec fn nonempty_lines(ls: Seq<Seq<char>>) -> Seq<Seq<char>>
    decreases ls.len(),
{
    if ls.len() == 0 {
        Seq::empty()
    } else {
        let prev = nonempty_lines(ls.drop_last());
        if ls.last().len() == 0 { prev } else { prev.push(ls.last()) }
    }
}

/// The candidate paths a `git ls-files` listing names: its output read as
/// text (invalid UTF-8 replaced), each non-empty line joined onto the
/// repository root, in git's order.
pub fn ls_files_candidates(repo_root: &str, stdout: &[u8]) -> (r: Vec<String>)
    ensures
        text_views(r@) == nonempty_lines(crate::changes::text_lines(crate::text::utf8_lossy(stdout@)))
            .map_values(|l: Seq<char>| crate::repo_files::join_spec(repo_root@, l)),
{
    let text = crate::text::lossy_utf8(stdout);
    let lines = crate::changes::text_lines_of(text.as_str());
    let ghost lv = crate::text::views_char(lines@);
    let mut out: Vec<String> = Vec::new();
    let mut i: usize = 0;
    while i < lines.len()
        invariant
            i <= lines@.len(),
            lv == crate::text::views_char(lines@),
            text_views(out@) == nonempty_lines(lv.take(i as int)).map_values(|l: Seq<char>| crate::repo_files::join_spec(repo_root@, l)),
        decreases lines@.len() - i,
    {
        assert(lv.take(i + 1).drop_last() =~= lv.take(i as int));
        assert(lv.take(i + 1).last() == lines@[i as int]@);
        if lines[i].len() > 0 {
            let rel = crate::text::string_of(&lines[i]);
            let p = crate::repo_files::join_path(repo_root, rel.as_str());
            let ghost ov = text_views(out@);
            out.push(p);
            assert(text_views(out@) =~= ov.push(crate::repo_files::join_spec(repo_root@, lines@[i as int]@)));
            assert(nonempty_lines(lv.take(i + 1)).map_values(|l: Seq<char>| crate::repo_files::join_spec(repo_root@, l))
                =~= nonempty_lines(lv.take(i as int)).map_values(|l: Seq<char>| crate::repo_files::join_spec(repo_root@, l))
                    .push(crate::repo_files::join_spec(repo_root@, lines@[i as int]@)));
        }
        i += 1;
    }
    assert(lv.take(i as int) =~= lv);
    out
}

/// `YYYY-MM-DD HH:MM` (UTC) of an epoch-nanosecond time; empty for a time
/// at or before the epoch.
pub open spec fn mtime_text(mtime_ns: int) -> Seq<char> {
    if mtime_ns <= 0 {
        Seq::empty()
    } else {
        let secs = mtime_ns / 1_000_000_000;
        let d = civil_from_days_spec(secs / 86400);
        let sod = secs % 86400;
        ymd_text(d.0, d.1, d.2) + " "@ + zero_padded(sod / 3600, 2) + ":"@ + zero_padded((sod % 3600) / 60, 2)
    }
}

pub fn fmt_mtime(mtime_ns: i64) -> (r: String)
    ensures
        r@ == mtime_text(mtime_ns as int),
{
    if mtime_ns <= 0 {
        proof {
            reveal_strlit("");
        }
        return "".to_owned();
    }
    let secs = mtime_ns / 1_000_000_000;
    let days = secs / 86400;
    let sod = secs % 86400;
    let (y, m, d) = civil_from_days(days);
    let date = fmt_ymd(y, m, d);
    let a = concat(date.as_str(), " ");
    let hh = fmt_zero_padded_i64(sod / 3600, 2);
    let b = concat(a.as_str(), hh.as_str());
    let c = concat(b.as_str(), ":");
    let mm = fmt_zero_padded_i64((sod % 3600) / 60, 2);
    concat(c.as_str(), mm.as_str())
}

/// A directory's files in sum: how many, the newest modification date, and
/// whether any is dirty in the working tree.
#[derive(Debug)]
pub struct DirSummary {
    pub file_count: usize,
    pub ccn_total: i64,
    pub last_modified: Option<String>,
    pub has_uncommitted: bool,
}

/// Working-tree states that make a directory dirty.
pub open spec fn dirty_state(s: Seq<char>) -> bool {
    s == "untracked"@ || s == "added"@ || s == "modified"@ || s == "renamed"@
}

/// The later of two `YYYY-MM-DD` dates by text order, the first when equal.
pub open spec fn later(acc: Option<Seq<char>>, m: Option<Seq<char>>) -> Option<Seq<char>> {
    match m {
        None => acc,
        Some(d) => match acc {
            Some(a) => if text_lt(a, d) { Some(d) } else { acc },
            None => Some(d),
        },
    }
}

pub open spec fn activity_of(map: Seq<(String, GitActivity)>, rel: Seq<char>) -> Option<GitActivity> {
    lookup(map, rel)
}

/// The newest modification date over the first `n` paths.
pub open spec fn newest(rels: Seq<Seq<char>>, map: Seq<(String, GitActivity)>) -> Option<Seq<char>>
    decreases rels.len(),
{
    if rels.len() == 0 {
        None
    } else {
        let m = match activity_of(map, rels.last()) {
            Some(a) => opt_view(a.last_modified),
            None => None,
        };
        later(newest(rels.drop_last(), map), m)
    }
}

pub open spec fn any_dirty(rels: Seq<Seq<char>>, map: Seq<(String, GitActivity)>) -> bool {
    exists|i: int| 0 <= i < rels.len() && (match activity_of(map, #[trigger] rels[i]) {
        Some(a) => (match opt_view(a.working_state) {
            Some(s) => dirty_state(s),
            None => false,
        }),
        None => false,
    })
}

fn is_dirty(s: &str) -> (r: bool)
    ensures
        r == dirty_state(s@),
{
    crate::text::str_eq(s, "untracked") || crate::text::str_eq(s, "added") || crate::text::str_eq(s, "modified")
        || crate::text::str_eq(s, "renamed")
}

/// Sum up the files `rels` of one directory from the activity map.
pub fn aggregate(rels: &Vec<String>, git_map: &Vec<(String, GitActivity)>) -> (r: DirSummary)
    ensures
        r.file_count == rels@.len(),
        r.ccn_total == 0,
        opt_view(r.last_modified) == newest(text_views(rels@), git_map@),
        r.has_uncommitted == any_dirty(text_views(rels@), git_map@),
{
    let ghost rv = text_views(rels@);
    let mut last_modified: Option<String> = None;
    let mut has_uncommitted = false;
    let mut i: usize = 0;
    while i < rels.len()
        invariant
            i <= rels.len(),
            rv == text_views(rels@),
            opt_view(last_modified) == newest(rv.take(i as int), git_map@),
            has_uncommitted == any_dirty(rv.take(i as int), git_map@),
        decreases rels.len() - i,
    {
        let ghost pre = rv.take(i as int);
        assert(rv.take(i + 1).drop_last() =~= pre);
        assert(rv.take(i + 1).last() == rels@[i as int]@);
        match crate::keyed::get(git_map, &rels[i]) {
            Some(a) => {
                match &a.last_modified {
                    Some(m) => {
                        let newer = match &last_modified {
                            Some(lm) => text_less(lm.as_str(), m.as_str()),
                            None => true,
                        };
                        if newer {
                            last_modified = Some(m.clone());
                        }
                    },
                    None => {},
                }
                let dirty = match &a.working_state {
                    Some(s) => is_dirty(s.as_str()),
                    None => false,
                };
                if dirty {
                    has_uncommitted = true;
                }
                proof {
                    let post = rv.take(i + 1);
                    if dirty {
                        assert(post[i as int] == rels@[i as int]@);
                    }
                    if any_dirty(pre, git_map@) {
                        let j = choose|j: int| 0 <= j < pre.len() && (match activity_of(git_map@, #[trigger] pre[j]) {
                            Some(a) => (match opt_view(a.working_state) {
                                Some(s) => dirty_state(s),
                                None => false,
                            }),
                            None => false,
                        });
                        assert(post[j] == pre[j]);
                    }
                    if any_dirty(post, git_map@) && !dirty {
                        let j = choose|j: int| 0 <= j < post.len() && (match activity_of(git_map@, #[trigger] post[j]) {
                            Some(a) => (match opt_view(a.working_state) {
                                Some(s) => dirty_state(s),
                                None => false,
                            }),
                            None => false,
                        });
                        if j < i {
                            assert(pre[j] == post[j]);
                        }
                    }
                }
            },
            None => {
                proof {
                    let post = rv.take(i + 1);
                    if any_dirty(pre, git_map@) {
                        let j = choose|j: int| 0 <= j < pre.len() && (match activity_of(git_map@, #[trigger] pre[j]) {
                            Some(a) => (match opt_view(a.working_state) {
                                Some(s) => dirty_state(s),
                                None => false,
                            }),
                            None => false,
                        });
                        assert(post[j] == pre[j]);
                    }
                    if any_dirty(post, git_map@) {
                        let j = choose|j: int| 0 <= j < post.len() && (match activity_of(git_map@, #[trigger] post[j]) {
                            Some(a) => (match opt_view(a.working_state) {
                                Some(s) => dirty_state(s),
                                None => false,
                            }),
                            None => false,
                        });
                        if j < i {
                            assert(pre[j] == post[j]);
                        }
                    }
                }
            },
        }
        i += 1;
    }
    assert(rv.take(i as int) =~= rv);
    DirSummary { file_count: rels.len(), ccn_total: 0, last_modified, has_uncommitted }
}

/// The prefix paths under a listing base start with: empty at the root
/// (`""` or `.`), else the base and a slash.
pub open spec fn base_prefix(rel_base: Seq<char>) -> Seq<char> {
    if rel_base.len() == 0 || rel_base == "."@ {
        Seq::empty()
    } else {
        rel_base + "/"@
    }
}

/// The first directory below the base that `rel` lies in, if it lies in
/// one.
pub open spec fn group_head(rel: Seq<char>, prefix: Seq<char>) -> Option<Seq<char>> {
    if !starts_with(rel, prefix) {
        None
    } else {
        let under = rel.skip(prefix.len() as int);
        match crate::history::index_of(under, '/') {
            Some(k) => Some(under.take(k)),
            None => None,
        }
    }
}

pub open spec fn group_names(r: Seq<(String, Vec<String>)>) -> Seq<Seq<char>> {
    r.map_values(|g: (String, Vec<String>)| g.0@)
}

/// The paths of `rels` grouped under `head`, in order.
pub open spec fn members(rels: Seq<Seq<char>>, prefix: Seq<char>, head: Seq<char>) -> Seq<Seq<char>> {
    rels.filter(|r: Seq<char>| group_head(r, prefix) == Some(head))
}

fn head_of(rel: &str, prefix: &Vec<char>) -> (r: Option<String>)
    ensures
        crate::blame::opt_view(r) == group_head(rel@, prefix@),
{
    let cs = chars_of(rel);
    if !crate::text::seq_starts_with(&cs, prefix) {
        return None;
    }
    let mut k: usize = prefix.len();
    while k < cs.len() && cs[k] != '/'
        invariant
            prefix@.len() <= k <= cs.len(),
            forall|j: int| prefix@.len() <= j < k ==> cs@[j] != '/',
        decreases cs.len() - k,
    {
        k += 1;
    }
    let ghost under = cs@.skip(prefix@.len() as int);
    proof {
        crate::digest::lemma_index_of_at_pub(under, '/', k - prefix@.len());
    }
    if k == cs.len() {
        None
    } else {
        let h = string_of_range(&cs, prefix.len(), k);
        assert(h@ =~= under.take(k - prefix@.len()));
        Some(h)
    }
}

/// Paths (relative to the repository root) under the base `rel_base`,
/// grouped by their first directory below it, groups in name order; files
/// directly at the base belong to no group.
pub fn partition_under_base(rel_base: &str, rels: &Vec<String>) -> (r: Vec<(String, Vec<String>)>)
    ensures
        strictly_sorted(group_names(r@)),
        forall|h: Seq<char>| #[trigger] group_names(r@).contains(h)
            <==> exists|i: int| 0 <= i < rels@.len() && group_head(#[trigger] rels@[i]@, base_prefix(rel_base@)) == Some(h),
        forall|i: int| 0 <= i < r@.len() ==> text_views(#[trigger] r@[i].1@) == members(text_views(rels@), base_prefix(rel_base@), r@[i].0@),
{
    let rb = chars_of(rel_base);
    let prefix: Vec<char> = if rb.len() == 0 || crate::text::str_eq(rel_base, ".") {
        Vec::new()
    } else {
        let mut p = chars_of(rel_base);
        p.push('/');
        p
    };
    proof {
        reveal_strlit("/");
    }
    assert(prefix@ == base_prefix(rel_base@));
    let ghost pf = prefix@;
    let ghost rv = text_views(rels@);
    let mut groups: Vec<(String, Vec<String>)> = Vec::new();
    let mut i: usize = 0;
    while i < rels.len()
        invariant
            i <= rels.len(),
            pf == prefix@,
            rv == text_views(rels@),
            keys_unique(groups@),
            forall|h: Seq<char>| #[trigger] lookup(groups@, h) is Some
                <==> exists|j: int| 0 <= j < i && group_head(#[trigger] rv[j], pf) == Some(h),
            forall|h: Seq<char>| #[trigger] lookup(groups@, h) is Some ==> text_views(lookup(groups@, h)->0@) == members(rv.take(i as int), pf, h),
        decreases rels.len() - i,
    {
        let ghost pre = rv.take(i as int);
        assert(rv.take(i + 1) =~= pre.push(rv[i as int]));
        assert(rv[i as int] == rels@[i as int]@);
        let ghost g0 = groups@;
        match head_of(rels[i].as_str(), &prefix) {
            Some(h) => {
                let ghost hv = h@;
                crate::keyed::append_to(&mut groups, h, rels[i].clone());
                proof {
                    assert forall|q: Seq<char>| #[trigger] lookup(groups@, q) is Some
                        <==> exists|j: int| 0 <= j < i + 1 && group_head(#[trigger] rv[j], pf) == Some(q) by {
                        if q == hv {
                            assert(group_head(rv[i as int], pf) == Some(q));
                        } else if lookup(groups@, q) is Some {
                            assert(lookup(g0, q) is Some);
                        } else if exists|j: int| 0 <= j < i + 1 && group_head(#[trigger] rv[j], pf) == Some(q) {
                            let j = choose|j: int| 0 <= j < i + 1 && group_head(#[trigger] rv[j], pf) == Some(q);
                            assert(j < i);
                        }
                    }
                    assert forall|q: Seq<char>| #[trigger] lookup(groups@, q) is Some implies text_views(lookup(groups@, q)->0@) == members(rv.take(i + 1), pf, q) by {
                        pre.lemma_filter_push(rv[i as int], |r: Seq<char>| group_head(r, pf) == Some(q));
                        if q == hv {
                            let v = lookup(groups@, q)->0;
                            match lookup(g0, q) {
                                Some(o) => {
                                    assert(text_views(v@) =~= text_views(o@).push(rv[i as int]));
                                },
                                None => {
                                    assert(!(exists|j: int| 0 <= j < i && group_head(#[trigger] rv[j], pf) == Some(q)));
                                    assert(members(pre, pf, q) =~= Seq::<Seq<char>>::empty()) by {
                                        if members(pre, pf, q).len() > 0 {
                                            let x = members(pre, pf, q)[0];
                                            pre.filter_lemma(|r: Seq<char>| group_head(r, pf) == Some(q));
                                            assert(members(pre, pf, q).contains(x));
                                            pre.lemma_filter_contains_rev(|r: Seq<char>| group_head(r, pf) == Some(q), x);
                                            assert(pre.contains(x));
                                            let j = choose|j: int| 0 <= j < pre.len() && pre[j] == x;
                                            assert(rv[j] == x);
                                        }
                                    }
                                    assert(text_views(v@) =~= seq![rv[i as int]]);
                                },
                            }
                        }
                    }
                }
            },
            None => {
                proof {
                    assert forall|q: Seq<char>| #[trigger] lookup(groups@, q) is Some
                        <==> exists|j: int| 0 <= j < i + 1 && group_head(#[trigger] rv[j], pf) == Some(q) by {
                        if exists|j: int| 0 <= j < i + 1 && group_head(#[trigger] rv[j], pf) == Some(q) {
                            let j = choose|j: int| 0 <= j < i + 1 && group_head(#[trigger] rv[j], pf) == Some(q);
                            assert(j < i);
                        }
                    }
                    assert forall|q: Seq<char>| #[trigger] lookup(groups@, q) is Some implies text_views(lookup(groups@, q)->0@) == members(rv.take(i + 1), pf, q) by {
                        pre.lemma_filter_push(rv[i as int], |r: Seq<char>| group_head(r, pf) == Some(q));
                    }
                }
            },
        }
        i += 1;
    }
    assert(rv.take(i as int) =~= rv);
    let mut keys: Vec<String> = Vec::new();
    let mut k: usize = 0;
    while k < groups.len()
        invariant
            k <= groups.len(),
            keys@.len() == k,
            forall|j: int| 0 <= j < k ==> (#[trigger] keys@[j])@ == groups@[j].0@,
        decreases groups.len() - k,
    {
        keys.push(groups[k].0.clone());
        k += 1;
    }
    let sorted = sorted_unique(&keys);
    let mut out: Vec<(String, Vec<String>)> = Vec::new();
    let mut n: usize = 0;
    while n < sorted.len()
        invariant
            n <= sorted.len(),
            out@.len() == n,
            forall|j: int| 0 <= j < n ==> (#[trigger] out@[j]).0@ == sorted@[j]@,
            forall|j: int| 0 <= j < n ==> text_views((#[trigger] out@[j]).1@) == members(rv, pf, out@[j].0@),
            forall|x: Seq<char>| text_views(sorted@).contains(x) <==> text_views(keys@).contains(x),
            forall|j: int| 0 <= j < k ==> (#[trigger] keys@[j])@ == groups@[j].0@,
            k == groups@.len(),
            keys@.len() == k,
            rv == text_views(rels@),
            forall|h: Seq<char>| #[trigger] lookup(groups@, h) is Some ==> text_views(lookup(groups@, h)->0@) == members(rv, pf, h),
        decreases sorted.len() - n,
    {
        let key = &sorted[n];
        assert(text_views(sorted@)[n as int] == key@);
        assert(text_views(keys@).contains(key@));
        let ghost kj = choose|j: int| 0 <= j < text_views(keys@).len() && text_views(keys@)[j] == key@;
        assert(groups@[kj].0@ == key@);
        proof {
            crate::keyed::lemma_has_key_lookup(groups@, key@);
        }
        match crate::keyed::get(&groups, key) {
            Some(v) => {
                let mut copy: Vec<String> = Vec::new();
                let mut c: usize = 0;
                while c < v.len()
                    invariant
                        c <= v.len(),
                        copy@.len() == c,
                        forall|j: int| 0 <= j < c ==> (#[trigger] copy@[j])@ == v@[j]@,
                    decreases v.len() - c,
                {
                    copy.push(v[c].clone());
                    c += 1;
                }
                assert(text_views(copy@) =~= text_views(v@));
                out.push((key.clone(), copy));
            },
            None => {
                assert(false);
            },
        }
        n += 1;
    }
    proof {
        let ov = group_names(out@);
        assert(ov =~= text_views(sorted@)) by {
            assert forall|j: int| 0 <= j < ov.len() implies ov[j] == text_views(sorted@)[j] by {
                assert(out@[j].0@ == sorted@[j]@);
            }
        }
        assert forall|h: Seq<char>| ov.contains(h)
            <==> exists|i: int| 0 <= i < rels@.len() && group_head(#[trigger] rels@[i]@, pf) == Some(h) by {
            crate::keyed::lemma_has_key_lookup(groups@, h);
            if ov.contains(h) {
                assert(text_views(keys@).contains(h));
                let j = choose|j: int| 0 <= j < text_views(keys@).len() && text_views(keys@)[j] == h;
                assert(groups@[j].0@ == h);
                assert(lookup(groups@, h) is Some);
                let i = choose|i: int| 0 <= i < rels@.len() && group_head(#[trigger] rv[i], pf) == Some(h);
                assert(rv[i] == rels@[i]@);
            }
            if exists|i: int| 0 <= i < rels@.len() && group_head(#[trigger] rels@[i]@, pf) == Some(h) {
                let i = choose|i: int| 0 <= i < rels@.len() && group_head(#[trigger] rels@[i]@, pf) == Some(h);
                assert(rv[i] == rels@[i]@);
                assert(lookup(groups@, h) is Some);
                crate::keyed::lemma_lookup_some(groups@, h);
                let j = choose|j: int| 0 <= j < groups@.len() && groups@[j].0@ == h && lookup(groups@, h) == Some(#[trigger] groups@[j].1);
                assert(text_views(keys@)[j] == h);
                assert(text_views(sorted@).contains(h));
            }
        }
    }
    out
}

} // verus!
