//! Working-tree state from `git status --porcelain=v1 -z`: per changed path,
//! the lifecycle word (`untracked`, `added`, `deleted`, `modified`,
//! `renamed`) and where the change lives (`staged`, `unstaged`,
//! `partly staged`). The subprocess runs in the program; this module reads
//! its bytes.

use crate::keyed::{insert, keys_unique, lookup};
use crate::text::{
    chars_of, lossy_utf8, push_char, split_bytes, split_chars, split_seq, string_of_range, utf8_len,
    utf8_lossy, views_u8,
};
use vstd::prelude::*;

verus! {

broadcast use vstd::string::group_string_axioms;

pub const CACHE_DIR_NAME: &'static str = ".tracer-cache";

/// Where a change lives, from the porcelain `XY` pair; `None` for an
/// untracked file, which has nothing staged to describe.
pub open spec fn staging_word_spec(x: char, y: char) -> Option<Seq<char>> {
    if x == '?' || y == '?' {
        None
    } else if x != ' ' && y != ' ' {
        Some("partly staged"@)
    } else if x != ' ' {
        Some("staged"@)
    } else {
        Some("unstaged"@)
    }
}

pub fn staging_word(x: char, y: char) -> (r: Option<String>)
    ensures
        match r {
            Some(s) => staging_word_spec(x, y) == Some(s@),
            None => staging_word_spec(x, y) is None,
        },
{
    if x == '?' || y == '?' {
        return None;
    }
    let indexed = x != ' ';
    let in_worktree = y != ' ';
    let word = if indexed && in_worktree {
        "partly staged"
    } else if indexed {
        "staged"
    } else {
        "unstaged"
    };
    Some(word.to_owned())
}

/// The lifecycle word of a non-rename porcelain entry.
pub open spec fn state_word_spec(x: char, y: char) -> Seq<char> {
    if x == '?' || y == '?' {
        "untracked"@
    } else if x == 'A' || y == 'A' {
        "added"@
    } else if x == 'D' || y == 'D' {
        "deleted"@
    } else {
        "modified"@
    }
}

fn state_word(x: char, y: char) -> (r: String)
    ensures
        r@ == state_word_spec(x, y),
{
    let w = if x == '?' || y == '?' {
        "untracked"
    } else if x == 'A' || y == 'A' {
        "added"
    } else if x == 'D' || y == 'D' {
        "deleted"
    } else {
        "modified"
    };
    w.to_owned()
}

/// Any path inside the tool's own cache directory is reported as the
/// directory itself.
pub open spec fn normalize_working_path_spec(path: Seq<char>) -> Seq<char> {
    if split_seq(path, '/')[0] == ".tracer-cache"@ {
        ".tracer-cache"@ + "/"@
    } else {
        path
    }
}

pub fn normalize_working_path(path: String) -> (r: String)
    ensures
        r@ == normalize_working_path_spec(path@),
{
    let cs = chars_of(path.as_str());
    let segs = split_chars(&cs, '/');
    proof { crate::text::lemma_split_nonempty(cs@, '/'); }
    let head = string_of_range(&segs[0], 0, segs[0].len());
    assert(head@ =~= split_seq(path@, '/')[0]);
    if crate::text::str_eq(head.as_str(), CACHE_DIR_NAME) {
        crate::text::concat(CACHE_DIR_NAME, "/")
    } else {
        path
    }
}

/// One porcelain record: path, lifecycle word, staging word.
pub type Record = (Seq<char>, Seq<char>, Option<Seq<char>>);

pub open spec fn is_rename_pair(x: char, y: char) -> bool {
    x == 'R' || x == 'C' || y == 'R' || y == 'C'
}

/// The record a porcelain chunk (`XY path`) describes.
pub open spec fn record_of(chunk: Seq<char>) -> Record {
    let x = chunk[0];
    let y = chunk[1];
    let path = normalize_working_path_spec(if chunk.len() >= 3 { chunk.skip(3) } else { Seq::empty() });
    if is_rename_pair(x, y) {
        (path, "renamed"@, staging_word_spec(x, y))
    } else {
        (path, state_word_spec(x, y), staging_word_spec(x, y))
    }
}

/// The records of the NUL-separated chunks from index `i` on. A chunk whose
/// text is shorter than three bytes is skipped; a rename or copy consumes
/// the following chunk (its source path) as well.
pub open spec fn records_from(parts: Seq<Seq<u8>>, i: int) -> Seq<Record>
    decreases parts.len() - i,
{
    if i < 0 || i >= parts.len() {
        Seq::empty()
    } else {
        let chunk = utf8_lossy(parts[i]);
        if utf8_len(chunk) < 3 {
            records_from(parts, i + 1)
        } else {
            let step = if is_rename_pair(chunk[0], chunk[1]) && i + 1 < parts.len() { 2int } else { 1int };
            seq![record_of(chunk)] + records_from(parts, i + step)
        }
    }
}

/// Every chunk long enough to be read has the two status letters it must
/// start with (git always writes them).
pub open spec fn porcelain_well_formed(parts: Seq<Seq<u8>>) -> bool {
    forall|i: int| 0 <= i < parts.len() && utf8_len(utf8_lossy(#[trigger] parts[i])) >= 3 ==> utf8_lossy(parts[i]).len() >= 2
}

/// The last record for `q`: later records replace earlier ones.
pub open spec fn latest(recs: Seq<Record>, q: Seq<char>) -> Option<(Seq<char>, Option<Seq<char>>)>
    decreases recs.len(),
{
    if recs.len() == 0 {
        None
    } else if recs.last().0 == q {
        Some((recs.last().1, recs.last().2))
    } else {
        latest(recs.drop_last(), q)
    }
}

pub open spec fn entry_view(v: (String, Option<String>)) -> (Seq<char>, Option<Seq<char>>) {
    (v.0@, match v.1 {
        Some(s) => Some(s@),
        None => None,
    })
}

/// Path → (lifecycle word, staging word), paths unique, in first-seen order.
pub type Porcelain = Vec<(String, (String, Option<String>))>;

pub open spec fn models(p: Seq<(String, (String, Option<String>))>, recs: Seq<Record>) -> bool {
    &&& keys_unique(p)
    &&& forall|q: Seq<char>| #![trigger lookup(p, q)] match lookup(p, q) {
        Some(v) => latest(recs, q) == Some(entry_view(v)),
        None => latest(recs, q) is None,
    }
}

fn char_count(s: &String) -> (r: usize)
    ensures
        r == s@.len(),
{
    s.as_str().unicode_len()
}

/// Parse `git status --porcelain=v1 -z` output.
pub fn parse_porcelain(out: &[u8]) -> (r: Porcelain)
    requires
        porcelain_well_formed(split_seq(out@, 0u8)),
    ensures
        models(r@, records_from(split_seq(out@, 0u8), 0)),
{
    let parts = split_bytes(out, 0u8);
    let ghost ps = split_seq(out@, 0u8);
    let mut result: Porcelain = Vec::new();
    let ghost mut done: Seq<Record> = Seq::empty();
    let mut i: usize = 0;
    proof {
        assert forall|q: Seq<char>| #![trigger lookup(result@, q)] match lookup(result@, q) {
            Some(v) => latest(done, q) == Some(entry_view(v)),
            None => latest(done, q) is None,
        } by {}
    }
    while i < parts.len()
        invariant
            views_u8(parts@) == ps,
            ps == split_seq(out@, 0u8),
            porcelain_well_formed(ps),
            i <= parts.len(),
            done + records_from(ps, i as int) == records_from(ps, 0),
            models(result@, done),
        decreases parts.len() - i,
    {
        assert(parts@[i as int]@ == ps[i as int]);
        assert(ps.len() == parts@.len());
        let chunk = lossy_utf8(parts[i].as_slice());
        let blen = chunk.as_str().as_bytes().len();
        if blen < 3 {
            proof {
                assert(chunk@ == utf8_lossy(ps[i as int]));
                assert(blen == utf8_len(chunk@));
                assert(utf8_len(utf8_lossy(ps[i as int])) < 3);
                assert(records_from(ps, i as int) == records_from(ps, i + 1));
            }
            i += 1;
            continue;
        }
        let cs = chars_of(chunk.as_str());
        assert(cs@.len() >= 2);
        let x = cs[0];
        let y = cs[1];
        let raw_path = if cs.len() >= 3 { string_of_range(&cs, 3.min(cs.len()), cs.len()) } else { String::new() };
        let path = normalize_working_path(raw_path);
        let ghost rec = record_of(chunk@);
        let rename = x == 'R' || x == 'C' || y == 'R' || y == 'C';
        let state = if rename { "renamed".to_owned() } else { state_word(x, y) };
        let staging = staging_word(x, y);
        proof {
            if cs.len() >= 3 {
                assert(cs@.subrange(3, cs@.len() as int) =~= chunk@.skip(3));
            } else {
                }
        }
        let step: usize = if rename && i + 1 < parts.len() { 2 } else { 1 };
        proof {
            let recs_i = records_from(ps, i as int);
            assert(recs_i == seq![rec] + records_from(ps, i + step));
            assert(done.push(rec) + records_from(ps, i + step) =~= done + recs_i);
        }
        let ghost before = result@;
        let ghost value = (state, staging);
        insert(&mut result, path, (state, staging));
        proof {
            assert(rec.0 == path@);
            assert(entry_view(value) == (rec.1, rec.2));
            assert forall|q: Seq<char>| #![trigger lookup(result@, q)] match lookup(result@, q) {
                Some(v) => latest(done.push(rec), q) == Some(entry_view(v)),
                None => latest(done.push(rec), q) is None,
            } by {
                assert(done.push(rec).drop_last() =~= done);
                assert(lookup(before, q) == lookup(before, q));
            }
            done = done.push(rec);
        }
        i += step;
    }
    proof {
        assert(records_from(ps, i as int) =~= Seq::<Record>::empty());
        assert(done =~= records_from(ps, 0));
    }
    result
}

} // verus!

verus! {

/// Parse porcelain output, or `None` when some chunk is long enough to be
/// read but lacks its two status letters (output git never writes).
pub fn parse_porcelain_checked(out: &[u8]) -> (r: Option<Porcelain>)
    ensures
        match r {
            Some(p) => porcelain_well_formed(split_seq(out@, 0u8)) && models(p@, records_from(split_seq(out@, 0u8), 0)),
            None => !porcelain_well_formed(split_seq(out@, 0u8)),
        },
{
    let parts = split_bytes(out, 0u8);
    let ghost ps = split_seq(out@, 0u8);
    let mut i: usize = 0;
    while i < parts.len()
        invariant
            views_u8(parts@) == ps,
            ps == split_seq(out@, 0u8),
            i <= parts.len(),
            forall|j: int| 0 <= j < i && utf8_len(utf8_lossy(#[trigger] ps[j])) >= 3 ==> utf8_lossy(ps[j]).len() >= 2,
        decreases parts.len() - i,
    {
        assert(parts@[i as int]@ == ps[i as int]);
        let chunk = lossy_utf8(parts[i].as_slice());
        if chunk.as_str().as_bytes().len() >= 3 && char_count(&chunk) < 2 {
            proof {
                assert(ps.len() == parts@.len());
                assert(utf8_len(utf8_lossy(ps[i as int])) >= 3 && utf8_lossy(ps[i as int]).len() < 2);
            }
            return None;
        }
        i += 1;
    }
    Some(parse_porcelain(out))
}

/// Path → lifecycle word, for every path the porcelain reports.
pub fn working_tree_state(porcelain: &Porcelain) -> (r: Vec<(String, String)>)
    ensures
        r@.len() == porcelain@.len(),
        forall|i: int| 0 <= i < r@.len() ==> #[trigger] r@[i].0 == porcelain@[i].0 && r@[i].1 == porcelain@[i].1.0,
{
    let mut out: Vec<(String, String)> = Vec::new();
    let mut i: usize = 0;
    while i < porcelain.len()
        invariant
            i <= porcelain.len(),
            out@.len() == i,
            forall|j: int| 0 <= j < i ==> #[trigger] out@[j].0 == porcelain@[j].0 && out@[j].1 == porcelain@[j].1.0,
        decreases porcelain.len() - i,
    {
        out.push((porcelain[i].0.clone(), porcelain[i].1.0.clone()));
        i += 1;
    }
    out
}

/// Path → staging word, for every changed path that has something staged or
/// unstaged to describe (untracked paths are absent).
pub fn staging_state(porcelain: &Porcelain) -> (r: Vec<(String, String)>)
    ensures
        r@.map_values(|e: (String, String)| (e.0@, e.1@)) == porcelain@.filter_map(
            |e: (String, (String, Option<String>))| match e.1.1 {
                Some(s) => Some((e.0@, s@)),
                None => None,
            },
        ),
{
    let ghost f = |e: (String, (String, Option<String>))| match e.1.1 {
        Some(s) => Some((e.0@, s@)),
        None => None,
    };
    let mut out: Vec<(String, String)> = Vec::new();
    let mut i: usize = 0;
    while i < porcelain.len()
        invariant
            i <= porcelain.len(),
            f == (|e: (String, (String, Option<String>))| match e.1.1 {
                Some(s) => Some((e.0@, s@)),
                None => None,
            }),
            out@.map_values(|e: (String, String)| (e.0@, e.1@)) == porcelain@.take(i as int).filter_map(f),
        decreases porcelain.len() - i,
    {
        proof { porcelain@.lemma_filter_map_take_succ(f, i as int); }
        let ghost prev = out@;
        if let Some(s) = &porcelain[i].1.1 {
            out.push((porcelain[i].0.clone(), s.clone()));
            assert(out@.map_values(|e: (String, String)| (e.0@, e.1@)) =~= prev.map_values(|e: (String, String)| (e.0@, e.1@)) + seq![(porcelain@[i as int].0@, s@)]);
        }
        i += 1;
    }
    assert(porcelain@.take(porcelain.len() as int) =~= porcelain@);
    out
}

} // verus!

verus! {

/// A record that carries a staging word is never untracked, and its word
/// is one of the three.
pub open spec fn staging_consistent(state: Seq<char>, staging: Option<Seq<char>>) -> bool {
    staging matches Some(w) ==> state != "untracked"@ && (w == "staged"@ || w == "unstaged"@ || w == "partly staged"@)
}

proof fn lemma_records_consistent(parts: Seq<Seq<u8>>, i: int)
    ensures
        forall|k: int| 0 <= k < records_from(parts, i).len() ==> staging_consistent(
            (#[trigger] records_from(parts, i)[k]).1,
            records_from(parts, i)[k].2,
        ),
    decreases parts.len() - i,
{
    if 0 <= i < parts.len() {
        let chunk = utf8_lossy(parts[i]);
        if utf8_len(chunk) < 3 {
            lemma_records_consistent(parts, i + 1);
            assert(records_from(parts, i) == records_from(parts, i + 1));
        } else {
            let step = if is_rename_pair(chunk[0], chunk[1]) && i + 1 < parts.len() { 2int } else { 1int };
            lemma_records_consistent(parts, i + step);
            let rest = records_from(parts, i + step);
            assert(records_from(parts, i) == seq![record_of(chunk)] + rest);
            assert forall|k: int| 0 <= k < records_from(parts, i).len() implies staging_consistent(
                (#[trigger] records_from(parts, i)[k]).1,
                records_from(parts, i)[k].2,
            ) by {
                if k > 0 {
                    assert(records_from(parts, i)[k] == rest[k - 1]);
                } else {
                    reveal_strlit("untracked");
                    reveal_strlit("renamed");
                    reveal_strlit("added");
                    reveal_strlit("deleted");
                    reveal_strlit("modified");
                    assert(records_from(parts, i)[0] == record_of(chunk));
                    assert("untracked"@.len() == 9);
                    assert("renamed"@.len() == 7 && "added"@.len() == 5 && "deleted"@.len() == 7 && "modified"@.len() == 8);
                    assert("renamed"@ != "untracked"@ && "added"@ != "untracked"@ && "deleted"@ != "untracked"@
                        && "modified"@ != "untracked"@);
                }
            }
        }
    }
}

proof fn lemma_latest_consistent(recs: Seq<Record>, q: Seq<char>)
    requires
        forall|k: int| 0 <= k < recs.len() ==> staging_consistent((#[trigger] recs[k]).1, recs[k].2),
    ensures
        latest(recs, q) matches Some(v) ==> staging_consistent(v.0, v.1),
    decreases recs.len(),
{
    if recs.len() > 0 && recs.last().0 != q {
        assert forall|k: int| 0 <= k < recs.drop_last().len() implies staging_consistent(
            (#[trigger] recs.drop_last()[k]).1,
            recs.drop_last()[k].2,
        ) by {
            assert(recs.drop_last()[k] == recs[k]);
        }
        lemma_latest_consistent(recs.drop_last(), q);
    } else if recs.len() > 0 {
        assert(recs.last() == recs[recs.len() - 1]);
    }
}

/// What `git status` reports: every path with a staging word (those
/// `staging_state` lists) is a path `working_tree_state` lists too, and
/// never an untracked one; the word is staged, unstaged or partly staged.
pub proof fn staging_within_working(out: Seq<u8>, p: Seq<(String, (String, Option<String>))>, j: int)
    requires
        models(p, records_from(split_seq(out, 0u8), 0)),
        0 <= j < p.len(),
    ensures
        staging_consistent(p[j].1.0@, match p[j].1.1 {
            Some(s) => Some(s@),
            None => None,
        }),
{
    let recs = records_from(split_seq(out, 0u8), 0);
    lemma_records_consistent(split_seq(out, 0u8), 0);
    crate::keyed::lemma_lookup_unique(p, j);
    lemma_latest_consistent(recs, p[j].0@);
    assert(lookup(p, p[j].0@) == Some(p[j].1));
}

/// The lifecycle word of a porcelain record `XY path`: a rename or copy
/// is "renamed"; otherwise `?` in either column is "untracked", then `A` is
/// "added", then `D` is "deleted", and anything else is "modified".
pub proof fn lifecycle_word_by_status_letters(chunk: Seq<char>)
    requires
        chunk.len() >= 2,
    ensures
        ({
            let x = chunk[0];
            let y = chunk[1];
            let w = record_of(chunk).1;
            &&& (x == 'R' || x == 'C' || y == 'R' || y == 'C') ==> w == "renamed"@
            &&& !(x == 'R' || x == 'C' || y == 'R' || y == 'C') && (x == '?' || y == '?') ==> w == "untracked"@
            &&& !(x == 'R' || x == 'C' || y == 'R' || y == 'C') && x != '?' && y != '?' && (x == 'A' || y == 'A')
                ==> w == "added"@
            &&& !(x == 'R' || x == 'C' || y == 'R' || y == 'C') && x != '?' && y != '?' && x != 'A' && y != 'A'
                && (x == 'D' || y == 'D') ==> w == "deleted"@
            &&& !(x == 'R' || x == 'C' || y == 'R' || y == 'C') && x != '?' && y != '?' && x != 'A' && y != 'A'
                && x != 'D' && y != 'D' ==> w == "modified"@
        }),
{
}

} // verus!
