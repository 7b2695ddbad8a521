//! `trace list`: which entries of one directory listing show, in what order,
//! and how many; `--recent` orders files newest first, `--limit N` caps the
//! file rows after sorting, and `entries=N` always carries the pre-limit file
//! total.

use crate::listing::DirSummary;
use crate::ordered::{text_less, text_lt, text_views};
use crate::repo_files::skip_dir_names;
use crate::text::{concat, fmt_i64, fmt_u64, starts_with, str_eq, to_lowercase, unicode_lowercase};
use vstd::prelude::*;

verus! {

/// One entry of a directory as read from disk: its name, whether it is a
/// directory, whether it holds a `.git` (a nested checkout), and, for
/// anything else whose metadata could be read, its size and mtime in ns.
#[derive(Debug)]
pub struct DirEntry {
    pub name: String,
    pub is_dir: bool,
    pub has_git: bool,
    pub stat: Option<(i64, i64)>,
}

/// What a listing shows: subdirectories and files in display order, nested
/// checkouts in text order, the file total before the limit, and whether
/// the limit cut files.
#[derive(Debug)]
pub struct Listing {
    pub dirs: Vec<String>,
    pub files: Vec<(String, i64, i64)>,
    pub nested: Vec<String>,
    pub total: usize,
    pub limited: bool,
}

pub type FileView = (Seq<char>, int, int);

pub open spec fn file_view(f: (String, i64, i64)) -> FileView {
    (f.0@, f.1 as int, f.2 as int)
}

pub open spec fn files_view(v: Seq<(String, i64, i64)>) -> Seq<FileView> {
    v.map_values(|f: (String, i64, i64)| file_view(f))
}

/// `x` placed into `s`, which is sorted by `before`, after every element it
/// does not come before: the step of a stable insertion sort.
pub open spec fn ins<A>(s: Seq<A>, x: A, before: spec_fn(A, A) -> bool) -> Seq<A>
    decreases s.len(),
{
    if s.len() == 0 || !before(x, s.last()) {
        s.push(x)
    } else {
        ins(s.drop_last(), x, before).push(s.last())
    }
}

/// `s` stably sorted by `before`: equal elements keep their order.
pub open spec fn stable_sort<A>(s: Seq<A>, before: spec_fn(A, A) -> bool) -> Seq<A>
    decreases s.len(),
{
    if s.len() == 0 {
        Seq::empty()
    } else {
        ins(stable_sort(s.drop_last(), before), s.last(), before)
    }
}

/// By lowercased name.
pub open spec fn name_before() -> spec_fn(Seq<char>, Seq<char>) -> bool {
    |a: Seq<char>, b: Seq<char>| text_lt(unicode_lowercase(a), unicode_lowercase(b))
}

/// By text.
pub open spec fn text_before() -> spec_fn(Seq<char>, Seq<char>) -> bool {
    |a: Seq<char>, b: Seq<char>| text_lt(a, b)
}

/// Files by lowercased name, or (recent) newest mtime first, then by name.
pub open spec fn file_before(recent: bool) -> spec_fn(FileView, FileView) -> bool {
    |a: FileView, b: FileView|
        if recent {
            a.2 > b.2 || (a.2 == b.2 && text_lt(a.0, b.0))
        } else {
            text_lt(unicode_lowercase(a.0), unicode_lowercase(b.0))
        }
}

/// An entry shows unless it is hidden (`.`-prefixed) and hidden entries
/// are not asked for.
pub open spec fn shown(e: DirEntry, show_hidden: bool) -> bool {
    show_hidden || !starts_with(e.name@, "."@)
}

/// A directory that is neither `.git`, a skipped tree, nor a checkout.
pub open spec fn pruned(e: DirEntry) -> bool {
    e.name@ == ".git"@ || skip_dir_names().contains(e.name@)
}

/// The shown subdirectories, in reading order.
pub open spec fn subdirs(es: Seq<DirEntry>, sh: bool) -> Seq<Seq<char>>
    decreases es.len(),
{
    if es.len() == 0 {
        Seq::empty()
    } else {
        let e = es.last();
        let prev = subdirs(es.drop_last(), sh);
        if shown(e, sh) && e.is_dir && !pruned(e) && !e.has_git {
            prev.push(e.name@)
        } else {
            prev
        }
    }
}

/// The shown nested checkouts, in reading order.
pub open spec fn checkouts(es: Seq<DirEntry>, sh: bool) -> Seq<Seq<char>>
    decreases es.len(),
{
    if es.len() == 0 {
        Seq::empty()
    } else {
        let e = es.last();
        let prev = checkouts(es.drop_last(), sh);
        if shown(e, sh) && e.is_dir && !pruned(e) && e.has_git {
            prev.push(e.name@)
        } else {
            prev
        }
    }
}

/// The shown files with their stat, in reading order.
pub open spec fn file_entries(es: Seq<DirEntry>, sh: bool) -> Seq<FileView>
    decreases es.len(),
{
    if es.len() == 0 {
        Seq::empty()
    } else {
        let e = es.last();
        let prev = file_entries(es.drop_last(), sh);
        match e.stat {
            Some((size, mtime)) => if shown(e, sh) && !e.is_dir {
                prev.push((e.name@, size as int, mtime as int))
            } else {
                prev
            },
            None => prev,
        }
    }
}

/// The file rows shown: the sorted files, the first `n` with a limit.
pub open spec fn shown_files(es: Seq<DirEntry>, sh: bool, recent: bool, limit: Option<usize>) -> Seq<FileView> {
    let sorted = stable_sort(file_entries(es, sh), file_before(recent));
    match limit {
        Some(n) => if n < sorted.len() { sorted.take(n as int) } else { sorted },
        None => sorted,
    }
}

pub(crate) proof fn lemma_ins_at<A>(s: Seq<A>, x: A, before: spec_fn(A, A) -> bool, p: int)
    requires
        0 <= p <= s.len(),
        forall|j: int| p <= j < s.len() ==> before(x, #[trigger] s[j]),
        p == 0 || !before(x, s[p - 1]),
    ensures
        ins(s, x, before) == s.take(p) + seq![x] + s.skip(p),
    decreases s.len(),
{
    if s.len() == p {
        assert(s.take(p) + seq![x] + s.skip(p) =~= s.push(x));
    } else {
        lemma_ins_at(s.drop_last(), x, before, p);
        assert(s.drop_last().take(p) + seq![x] + s.drop_last().skip(p) + seq![s.last()] =~= s.take(p) + seq![x] + s.skip(p));
    }
}

fn lower_less(a: &str, b: &str) -> (r: bool)
    ensures
        r == text_lt(unicode_lowercase(a@), unicode_lowercase(b@)),
{
    let la = to_lowercase(a);
    let lb = to_lowercase(b);
    text_less(la.as_str(), lb.as_str())
}

fn name_less(a: &str, b: &str, by_lower: bool) -> (r: bool)
    ensures
        r == (if by_lower { name_before() } else { text_before() })(a@, b@),
{
    if by_lower {
        lower_less(a, b)
    } else {
        text_less(a, b)
    }
}

/// Insert `x` into the name-sorted `out`.
fn insert_name(out: &mut Vec<String>, x: String, by_lower: bool)
    ensures
        text_views(final(out)@) == ins(text_views(old(out)@), x@, if by_lower { name_before() } else { text_before() }),
{
    let ghost ov = text_views(out@);
    let ghost bf = if by_lower { name_before() } else { text_before() };
    let mut p: usize = out.len();
    while p > 0 && name_less(x.as_str(), out[p - 1].as_str(), by_lower)
        invariant
            p <= out@.len(),
            ov == text_views(out@),
            bf == (if by_lower { name_before() } else { text_before() }),
            forall|j: int| p <= j < ov.len() ==> bf(x@, #[trigger] ov[j]),
        decreases p,
    {
        assert(ov[p - 1] == out@[p - 1]@);
        p -= 1;
    }
    if p > 0 {
        assert(ov[p - 1] == out@[p - 1]@);
    }
    proof {
        lemma_ins_at(ov, x@, bf, p as int);
    }
    let ghost xv = x@;
    out.insert(p, x);
    assert(text_views(out@) =~= ov.take(p as int) + seq![xv] + ov.skip(p as int));
}

fn file_less(a: &(String, i64, i64), b: &(String, i64, i64), recent: bool) -> (r: bool)
    ensures
        r == (file_before(recent))(file_view(*a), file_view(*b)),
{
    if recent {
        a.2 > b.2 || (a.2 == b.2 && text_less(a.0.as_str(), b.0.as_str()))
    } else {
        lower_less(a.0.as_str(), b.0.as_str())
    }
}

/// Insert `x` into the sorted `out`.
fn insert_file(out: &mut Vec<(String, i64, i64)>, x: (String, i64, i64), recent: bool)
    ensures
        files_view(final(out)@) == ins(files_view(old(out)@), file_view(x), file_before(recent)),
{
    let ghost ov = files_view(out@);
    let ghost bf = file_before(recent);
    let mut p: usize = out.len();
    while p > 0 && file_less(&x, &out[p - 1], recent)
        invariant
            p <= out@.len(),
            ov == files_view(out@),
            bf == file_before(recent),
            forall|j: int| p <= j < ov.len() ==> bf(file_view(x), #[trigger] ov[j]),
        decreases p,
    {
        assert(ov[p - 1] == file_view(out@[p - 1]));
        p -= 1;
    }
    if p > 0 {
        assert(ov[p - 1] == file_view(out@[p - 1]));
    }
    proof {
        lemma_ins_at(ov, file_view(x), bf, p as int);
    }
    let ghost xv = file_view(x);
    out.insert(p, x);
    assert(files_view(out@) =~= ov.take(p as int) + seq![xv] + ov.skip(p as int));
}

fn is_pruned(name: &str) -> (r: bool)
    ensures
        r == (name@ == ".git"@ || skip_dir_names().contains(name@)),
{
    str_eq(name, ".git") || crate::listing::skip_dir(name)
}

/// Which entries a listing shows and in what order: hidden entries only
/// with `show_hidden`; `.git` and skipped trees left out; subdirectories
/// holding a `.git` named apart as nested checkouts (in text order);
/// subdirectories by lowercased name; files (entries with a stat that are
/// not directories) by lowercased name, or with `recent` newest first and
/// then by name, both sorts stable; with a limit, the first `n` files.
/// `total` is the file count before the limit, and `limited` says the
/// limit cut some.
pub fn listing_rows(entries: &Vec<DirEntry>, show_hidden: bool, recent: bool, limit: Option<usize>) -> (r: Listing)
    ensures
        text_views(r.dirs@) == stable_sort(subdirs(entries@, show_hidden), name_before()),
        text_views(r.nested@) == stable_sort(checkouts(entries@, show_hidden), text_before()),
        files_view(r.files@) == shown_files(entries@, show_hidden, recent, limit),
        r.total == file_entries(entries@, show_hidden).len(),
        r.limited == (limit matches Some(n) && r.total > n),
{
    let ghost es = entries@;
    let mut dirs: Vec<String> = Vec::new();
    let mut nested: Vec<String> = Vec::new();
    let mut files: Vec<(String, i64, i64)> = Vec::new();
    let mut total: usize = 0;
    let mut i: usize = 0;
    while i < entries.len()
        invariant
            i <= entries@.len(),
            es == entries@,
            text_views(dirs@) == stable_sort(subdirs(es.take(i as int), show_hidden), name_before()),
            text_views(nested@) == stable_sort(checkouts(es.take(i as int), show_hidden), text_before()),
            files_view(files@) == stable_sort(file_entries(es.take(i as int), show_hidden), file_before(recent)),
            total as int == file_entries(es.take(i as int), show_hidden).len(),
            total <= i,
        decreases entries@.len() - i,
    {
        assert(es.take(i + 1).drop_last() =~= es.take(i as int));
        assert(es.take(i + 1).last() == es[i as int]);
        let e = &entries[i];
        let ghost pre = es.take(i as int);
        let ghost post = es.take(i + 1);
        assert(post.drop_last() == pre);
        assert(post.last() == *e);
        let dot = crate::text::chars_of(".");
        proof {
            reveal_strlit(".");
        }
        let hidden = crate::text::seq_starts_with(&crate::text::chars_of(e.name.as_str()), &dot);
        assert(hidden == starts_with(e.name@, "."@));
        if !show_hidden && hidden {
        } else if e.is_dir {
            if !is_pruned(e.name.as_str()) {
                if e.has_git {
                    proof {
                        let cd = checkouts(pre, show_hidden);
                        assert(checkouts(post, show_hidden) == cd.push(e.name@));
                        assert(cd.push(e.name@).drop_last() =~= cd);
                    }
                    insert_name(&mut nested, e.name.clone(), false);
                } else {
                    proof {
                        let sd = subdirs(pre, show_hidden);
                        assert(subdirs(post, show_hidden) == sd.push(e.name@));
                        assert(sd.push(e.name@).drop_last() =~= sd);
                    }
                    insert_name(&mut dirs, e.name.clone(), true);
                }
            }
        } else {
            match e.stat {
                Some((size, mtime)) => {
                    proof {
                        let fe = file_entries(pre, show_hidden);
                        assert(file_entries(post, show_hidden) == fe.push((e.name@, size as int, mtime as int)));
                        assert(fe.push((e.name@, size as int, mtime as int)).drop_last() =~= fe);
                    }
                    insert_file(&mut files, (e.name.clone(), size, mtime), recent);
                    total = total + 1;
                },
                None => {},
            }
        }
        i += 1;
    }
    assert(es.take(i as int) =~= es);
    let ghost sorted = files_view(files@);
    let limited = match limit {
        Some(n) => total > n,
        None => false,
    };
    match limit {
        Some(n) => {
            if n < files.len() {
                files.truncate(n);
                assert(files_view(files@) =~= sorted.take(n as int));
            }
        },
        None => {},
    }
    Listing { dirs, files, nested, total, limited }
}

/// A subdirectory's line: its entry count, and for one under version
/// control its file count there, complexity, last change and dirtiness.
pub open spec fn dir_line(name: Seq<char>, child_count: nat, summary: Option<(nat, int, Option<Seq<char>>, bool)>) -> Seq<char> {
    "  \u{1F4C1} "@ + name + "/  ("@ + crate::text::dec(child_count) + " entries"@ + match summary {
        Some((fc, ccn, lm, dirty)) => " \u{B7} "@ + crate::text::dec(fc) + " tracked files \u{B7} ccn="@ + crate::text::dec_int(ccn)
            + match lm {
            Some(m) => " \u{B7} last: "@ + m,
            None => ""@,
        } + if dirty {
            " \u{B7} uncommitted"@
        } else {
            ""@
        },
        None => ""@,
    } + ")"@
}

pub open spec fn summary_view(s: Option<&DirSummary>) -> Option<(nat, int, Option<Seq<char>>, bool)> {
    match s {
        Some(d) => Some((d.file_count as nat, d.ccn_total as int, crate::blame::opt_view(d.last_modified), d.has_uncommitted)),
        None => None,
    }
}

/// The line a subdirectory shows as.
pub fn fmt_dir_line(name: &str, child_count: usize, summary: Option<&DirSummary>) -> (r: String)
    ensures
        r@ == dir_line(name@, child_count as nat, summary_view(summary)),
{
    proof {
        reveal_strlit("");
    }
    let a = concat("  \u{1F4C1} ", name);
    let b = concat(a.as_str(), "/  (");
    let c = concat(b.as_str(), fmt_u64(child_count as u64).as_str());
    let mut d = concat(c.as_str(), " entries");
    match summary {
        Some(s) => {
            let e = concat(d.as_str(), " \u{B7} ");
            let f = concat(e.as_str(), fmt_u64(s.file_count as u64).as_str());
            let g = concat(f.as_str(), " tracked files \u{B7} ccn=");
            let mut h = concat(g.as_str(), fmt_i64(s.ccn_total).as_str());
            match &s.last_modified {
                Some(m) => {
                    let x = concat(h.as_str(), " \u{B7} last: ");
                    h = concat(x.as_str(), m.as_str());
                },
                None => {
                    assert(h@ + ""@ =~= h@);
                },
            }
            if s.has_uncommitted {
                h = concat(h.as_str(), " \u{B7} uncommitted");
            } else {
                assert(h@ + ""@ =~= h@);
            }
            d = h;
        },
        None => {
            assert(d@ + ""@ =~= d@);
        },
    }
    concat(d.as_str(), ")")
}

/// The listing's closing lines: `entries=N`, with `(showing n)` when the
/// limit cut files, then one line per nested checkout.
pub open spec fn tail_lines(total: nat, limit: Option<usize>, nested: Seq<Seq<char>>) -> Seq<Seq<char>> {
    seq![
        "entries="@ + crate::text::dec(total) + match limit {
            Some(n) => if total > n {
                " (showing "@ + crate::text::dec(n as nat) + ")"@
            } else {
                ""@
            },
            None => ""@,
        },
    ] + nested.map_values(|r: Seq<char>| "nested repository (its own search scope): "@ + r)
}

/// The lines that close a listing.
pub fn listing_tail(l: &Listing, limit: Option<usize>) -> (r: Vec<String>)
    ensures
        text_views(r@) == tail_lines(l.total as nat, limit, text_views(l.nested@)),
{
    proof {
        reveal_strlit("");
    }
    let a = concat("entries=", fmt_u64(l.total as u64).as_str());
    let first = match limit {
        Some(n) => {
            if l.total > n {
                let b = concat(a.as_str(), " (showing ");
                let c = concat(b.as_str(), fmt_u64(n as u64).as_str());
                concat(c.as_str(), ")")
            } else {
                assert(a@ + ""@ =~= a@);
                a
            }
        },
        None => {
            assert(a@ + ""@ =~= a@);
            a
        },
    };
    let ghost fv = first@;
    assert(fv == "entries="@ + crate::text::dec(l.total as nat) + match limit {
        Some(n) => if l.total > n {
            " (showing "@ + crate::text::dec(n as nat) + ")"@
        } else {
            ""@
        },
        None => ""@,
    });
    let mut out: Vec<String> = Vec::new();
    out.push(first);
    let ghost nv = text_views(l.nested@);
    let ghost head = text_views(out@);
    let mut i: usize = 0;
    while i < l.nested.len()
        invariant
            i <= l.nested@.len(),
            nv == text_views(l.nested@),
            text_views(out@) == head + nv.take(i as int).map_values(|r: Seq<char>| "nested repository (its own search scope): "@ + r),
        decreases l.nested@.len() - i,
    {
        let ghost ov = text_views(out@);
        let line = concat("nested repository (its own search scope): ", l.nested[i].as_str());
        out.push(line);
        assert(text_views(out@) =~= ov.push(line@));
        assert(nv.take(i + 1).map_values(|r: Seq<char>| "nested repository (its own search scope): "@ + r) =~= nv.take(
            i as int,
        ).map_values(|r: Seq<char>| "nested repository (its own search scope): "@ + r).push(line@));
        i += 1;
    }
    assert(nv.take(i as int) =~= nv);
    assert(head =~= seq![fv]);
    assert(text_views(out@) =~= seq![fv] + nv.map_values(|r: Seq<char>| "nested repository (its own search scope): "@ + r));
    assert(text_views(out@) =~= tail_lines(l.total as nat, limit, nv));
    out
}

/// `n` spaces.
pub open spec fn spaces(n: nat) -> Seq<char> {
    Seq::new(n, |_i: int| ' ')
}

/// `s` padded with spaces on the right to `w` characters.
pub open spec fn pad_right(s: Seq<char>, w: nat) -> Seq<char> {
    if s.len() < w { s + spaces((w - s.len()) as nat) } else { s }
}

/// `s` padded with spaces on the left to `w` characters.
pub open spec fn pad_left(s: Seq<char>, w: nat) -> Seq<char> {
    if s.len() < w { spaces((w - s.len()) as nat) + s } else { s }
}

/// The longest file name, in characters, capped at 48.
pub open spec fn name_width_spec(files: Seq<(String, i64, i64)>) -> nat
    decreases files.len(),
{
    if files.len() == 0 {
        0
    } else {
        let rest = name_width_spec(files.drop_last());
        let n = files.last().0@.len();
        let m = if n > rest { n } else { rest };
        if m > 48 { 48 } else { m }
    }
}

/// The column width of the file names: the longest name, at most 48.
pub fn name_width(files: &Vec<(String, i64, i64)>) -> (r: usize)
    ensures
        r == name_width_spec(files@),
{
    let mut w: usize = 0;
    let mut i: usize = 0;
    while i < files.len()
        invariant
            i <= files.len(),
            w == name_width_spec(files@.take(i as int)),
            w <= 48,
        decreases files.len() - i,
    {
        assert(files@.take(i + 1).drop_last() =~= files@.take(i as int));
        let n = crate::text::chars_of(files[i].0.as_str()).len();
        let m = if n > w { n } else { w };
        w = if m > 48 { 48 } else { m };
        i += 1;
    }
    assert(files@.take(i as int) =~= files@);
    w
}

/// A file row: the name padded to `width`, the size text right-aligned in
/// eight columns, then the mtime when there is one, with no trailing blanks.
pub open spec fn file_line(name: Seq<char>, width: nat, size_text: Seq<char>, mtime_ns: int) -> Seq<char> {
    let head = "  "@ + pad_right(name, width) + "  "@ + pad_left(size_text, 8);
    let m = crate::listing::mtime_text(mtime_ns);
    if m.len() == 0 { head } else { head + "  "@ + m }
}

fn push_spaces(out: &mut String, n: usize)
    ensures
        final(out)@ == old(out)@ + spaces(n as nat),
{
    let mut i: usize = 0;
    while i < n
        invariant
            i <= n,
            out@ == old(out)@ + spaces(i as nat),
        decreases n - i,
    {
        crate::text::push_char(out, ' ');
        assert(spaces((i + 1) as nat) =~= spaces(i as nat).push(' '));
        i += 1;
    }
}

/// One file row of the listing, given the size as the listing shows it
/// (which ends in a unit letter, never a blank).
pub fn fmt_file_line(name: &str, width: usize, size_text: &str, mtime_ns: i64) -> (r: String)
    ensures
        r@ == file_line(name@, width as nat, size_text@, mtime_ns as int),
{
    let mut out = "  ".to_owned();
    out.append(name);
    let n = crate::text::chars_of(name).len();
    if n < width {
        push_spaces(&mut out, width - n);
    }
    out.append("  ");
    let k = crate::text::chars_of(size_text).len();
    if k < 8 {
        push_spaces(&mut out, 8 - k);
    }
    out.append(size_text);
    let m = crate::listing::fmt_mtime(mtime_ns);
    if crate::text::chars_of(m.as_str()).len() > 0 {
        out.append("  ");
        out.append(m.as_str());
    }
    assert(out@ =~= file_line(name@, width as nat, size_text@, mtime_ns as int));
    out
}

} // verus!
