//! What changed on a branch: `git diff --name-status -M` lines as changes,
//! each file's direct dependents, and exports keyed by name and kind in
//! first-seen order.

use crate::architecture::{dependents_of, is_dependent_edge, Graph};
use crate::blame::opt_view;
use crate::keyed::lookup;
use crate::labels::{status_label, status_label_spec};
use crate::text::{chars_of, split_chars, split_seq, string_of, views_char};
use vstd::prelude::*;

verus! {

/// One changed file: its status word, its path, and for a rename or copy
/// the path it came from.
#[derive(Debug, Clone)]
pub struct Change {
    pub status: String,
    pub path: String,
    pub rename_from: Option<String>,
}

/// `str::lines`: the text split at each `\n`, a `\r` before it dropped, no
/// empty line after a final newline.
pub open spec fn text_lines(s: Seq<char>) -> Seq<Seq<char>> {
    let parts = split_seq(s, '\n');
    let kept = if parts.last().len() == 0 { parts.drop_last() } else { parts };
    kept.map_values(|l: Seq<char>| if l.len() > 0 && l.last() == '\r' { l.drop_last() } else { l })
}

/// One line of `--name-status` output, if it names a change.
pub open spec fn change_of(line: Seq<char>) -> Option<(Seq<char>, Seq<char>, Option<Seq<char>>)> {
    if crate::digest::trim(line).len() == 0 {
        None
    } else {
        let tokens = split_seq(line, '\t');
        let kind = if tokens[0].len() > 0 { tokens[0][0] } else { '?' };
        if (kind == 'R' || kind == 'C') && tokens.len() >= 3 {
            Some((status_label_spec(kind), tokens[2], Some(tokens[1])))
        } else if tokens.len() >= 2 {
            Some((status_label_spec(kind), tokens[1], None))
        } else {
            None
        }
    }
}

/// The changes the lines name, in order.
pub open spec fn changes_of(lines: Seq<Seq<char>>) -> Seq<(Seq<char>, Seq<char>, Option<Seq<char>>)>
    decreases lines.len(),
{
    if lines.len() == 0 {
        Seq::empty()
    } else {
        let rest = changes_of(lines.drop_last());
        match change_of(lines.last()) {
            Some(c) => rest.push(c),
            None => rest,
        }
    }
}

pub open spec fn change_view(c: Change) -> (Seq<char>, Seq<char>, Option<Seq<char>>) {
    (c.status@, c.path@, opt_view(c.rename_from))
}

fn line_change(line: &Vec<char>) -> (r: Option<Change>)
    ensures
        match r {
            Some(c) => change_of(line@) == Some(change_view(c)),
            None => change_of(line@) is None,
        },
{
    let t = crate::digest::trim_text(line);
    if t.len() == 0 {
        return None;
    }
    let tokens = split_chars(line, '\t');
    let ghost tv = views_char(tokens@);
    proof {
        crate::text::lemma_split_nonempty(line@, '\t');
    }
    assert(tv[0] == tokens@[0]@);
    let kind = if tokens[0].len() > 0 { tokens[0][0] } else { '?' };
    if (kind == 'R' || kind == 'C') && tokens.len() >= 3 {
        assert(tv[1] == tokens@[1]@ && tv[2] == tokens@[2]@);
        Some(Change { status: status_label(kind), path: string_of(&tokens[2]), rename_from: Some(string_of(&tokens[1])) })
    } else if tokens.len() >= 2 {
        assert(tv[1] == tokens@[1]@);
        Some(Change { status: status_label(kind), path: string_of(&tokens[1]), rename_from: None })
    } else {
        None
    }
}

/// `str::lines`: each line of `s` as characters.
pub fn text_lines_of(s: &str) -> (r: Vec<Vec<char>>)
    ensures
        views_char(r@) == text_lines(s@),
{
    let cs = chars_of(s);
    let parts = split_chars(&cs, '\n');
    let ghost pv = views_char(parts@);
    proof {
        crate::text::lemma_split_nonempty(s@, '\n');
    }
    let mut n = parts.len();
    if parts[n - 1].len() == 0 {
        n = n - 1;
    }
    assert(pv[parts@.len() - 1] == parts@[parts@.len() - 1]@);
    let ghost kept = if pv.last().len() == 0 { pv.drop_last() } else { pv };
    let ghost lines = text_lines(s@);
    assert(kept.len() == n);
    let mut out: Vec<Vec<char>> = Vec::new();
    let mut i: usize = 0;
    while i < n
        invariant
            i <= n,
            n <= parts@.len(),
            pv == views_char(parts@),
            kept.len() == n,
            forall|j: int| 0 <= j < n ==> kept[j] == pv[j],
            lines == kept.map_values(|l: Seq<char>| if l.len() > 0 && l.last() == '\r' { l.drop_last() } else { l }),
            views_char(out@) == lines.take(i as int),
        decreases n - i,
    {
        assert(pv[i as int] == parts@[i as int]@);
        let raw = &parts[i];
        let keep = if raw.len() > 0 && raw[raw.len() - 1] == '\r' { raw.len() - 1 } else { raw.len() };
        let mut l: Vec<char> = Vec::new();
        let mut k: usize = 0;
        while k < keep
            invariant
                keep <= raw@.len(),
                k <= keep,
                l@ == raw@.take(k as int),
            decreases keep - k,
        {
            l.push(raw[k]);
            assert(l@ =~= raw@.take(k + 1));
            k += 1;
        }
        assert(l@ == lines[i as int]) by {
            if raw@.len() > 0 && raw@.last() == '\r' {
                assert(raw@.take(keep as int) =~= raw@.drop_last());
            } else {
                assert(raw@.take(keep as int) =~= raw@);
            }
        }
        let ghost ov = views_char(out@);
        let ghost lv = l@;
        out.push(l);
        assert(views_char(out@) =~= ov.push(lv));
        assert(lines.take(i + 1) =~= lines.take(i as int).push(lines[i as int]));
        i += 1;
    }
    assert(lines.take(n as int) =~= lines);
    out
}

/// The changes `git diff --name-status -M` reports, in its order: a rename
/// or copy carries the path it came from; blank and one-field lines name
/// nothing.
pub fn parse_name_status(stdout: &str) -> (r: Vec<Change>)
    ensures
        r@.map_values(|c: Change| change_view(c)) == changes_of(text_lines(stdout@)),
{
    let lines = text_lines_of(stdout);
    let ghost lv = views_char(lines@);
    let mut out: Vec<Change> = Vec::new();
    let mut i: usize = 0;
    while i < lines.len()
        invariant
            i <= lines@.len(),
            lv == views_char(lines@),
            lv == text_lines(stdout@),
            out@.map_values(|c: Change| change_view(c)) == changes_of(lv.take(i as int)),
        decreases lines@.len() - i,
    {
        assert(lv[i as int] == lines@[i as int]@);
        assert(lv.take(i + 1).drop_last() =~= lv.take(i as int));
        let ghost ov = out@.map_values(|c: Change| change_view(c));
        match line_change(&lines[i]) {
            Some(c) => {
                out.push(c);
                assert(out@.map_values(|c: Change| change_view(c)) =~= ov.push(change_view(c)));
            },
            None => {},
        }
        i += 1;
    }
    assert(lv.take(i as int) =~= lv);
    out
}

/// How many edges depend on the module owning `relative_path`; none when no
/// module owns it.
pub fn direct_dependent_count(graph: &Graph, relative_path: &str) -> (r: i64)
    ensures
        r == match lookup(graph.file_to_module_id@, relative_path@) {
            Some(m) => graph.edges@.filter(|e: crate::architecture::Edge| is_dependent_edge(graph, m@, e)).len() as i64,
            None => 0,
        },
{
    let key = relative_path.to_owned();
    match crate::keyed::get(&graph.file_to_module_id, &key) {
        Some(m) => {
            let deps = dependents_of(graph, m.as_str());
            assert(crate::architecture::derefs(deps@).len() == deps@.len());
            deps.len() as i64
        },
        None => 0,
    }
}

/// Exports keyed by (name, kind): a key keeps its first position, a later
/// duplicate overwrites its line.
#[derive(Debug)]
pub struct InsertionOrderedMap {
    pub entries: Vec<((String, String), i64)>,
}

pub type ExportKey = (Seq<char>, Seq<char>);

pub open spec fn key_view(k: (String, String)) -> ExportKey {
    (k.0@, k.1@)
}

pub open spec fn map_view(m: Seq<((String, String), i64)>) -> Seq<(ExportKey, i64)> {
    m.map_values(|e: ((String, String), i64)| (key_view(e.0), e.1))
}

/// The position of key `k`, if present.
pub open spec fn key_position(m: Seq<(ExportKey, i64)>, k: ExportKey) -> Option<int>
    decreases m.len(),
{
    if m.len() == 0 {
        None
    } else if m.last().0 == k {
        Some(m.len() - 1)
    } else {
        key_position(m.drop_last(), k)
    }
}

/// Insert `(k, line)`: a present key keeps its place and takes the new line.
pub open spec fn put(m: Seq<(ExportKey, i64)>, k: ExportKey, line: i64) -> Seq<(ExportKey, i64)> {
    match key_position(m, k) {
        Some(i) => m.update(i, (k, line)),
        None => m.push((k, line)),
    }
}

pub open spec fn export_key(e: (String, String, i64)) -> ExportKey {
    (e.0@, e.1@)
}

/// The map `from_exports` builds from the first `n` exports.
pub open spec fn from_exports_spec(exports: Seq<(String, String, i64)>) -> Seq<(ExportKey, i64)>
    decreases exports.len(),
{
    if exports.len() == 0 {
        Seq::empty()
    } else {
        let e = exports.last();
        put(from_exports_spec(exports.drop_last()), export_key(e), e.2)
    }
}

proof fn lemma_key_position(m: Seq<(ExportKey, i64)>, k: ExportKey)
    ensures
        match key_position(m, k) {
            Some(i) => 0 <= i < m.len() && m[i].0 == k && forall|j: int| i < j < m.len() ==> #[trigger] m[j].0 != k,
            None => forall|j: int| 0 <= j < m.len() ==> #[trigger] m[j].0 != k,
        },
    decreases m.len(),
{
    if m.len() > 0 {
        lemma_key_position(m.drop_last(), k);
        if m.last().0 != k {
            match key_position(m.drop_last(), k) {
                Some(i) => {
                    assert forall|j: int| i < j < m.len() implies #[trigger] m[j].0 != k by {
                        if j < m.len() - 1 {
                            assert(m[j] == m.drop_last()[j]);
                        }
                    }
                },
                None => {
                    assert forall|j: int| 0 <= j < m.len() implies #[trigger] m[j].0 != k by {
                        if j < m.len() - 1 {
                            assert(m[j] == m.drop_last()[j]);
                        }
                    }
                },
            }
        }
    }
}

/// Where key `k` sits in `m`, scanning from the end.
fn position_of(m: &Vec<((String, String), i64)>, k: &(String, String)) -> (r: Option<usize>)
    ensures
        match r {
            Some(i) => key_position(map_view(m@), key_view(*k)) == Some(i as int) && i < m@.len(),
            None => key_position(map_view(m@), key_view(*k)) is None,
        },
{
    let ghost mv = map_view(m@);
    assert(mv.take(m@.len() as int) =~= mv);
    let mut i: usize = m.len();
    while i > 0
        invariant
            i <= m.len(),
            mv == map_view(m@),
            key_position(mv, key_view(*k)) == key_position(mv.take(i as int), key_view(*k)),
        decreases i,
    {
        let ghost pre = mv.take(i as int);
        assert(pre.last() == mv[i - 1]);
        assert(pre.drop_last() =~= mv.take(i - 1));
        assert(mv[i - 1] == (key_view(m@[i - 1].0), m@[i - 1].1));
        if crate::text::str_eq(m[i - 1].0.0.as_str(), k.0.as_str()) && crate::text::str_eq(m[i - 1].0.1.as_str(), k.1.as_str()) {
            return Some(i - 1);
        }
        i -= 1;
    }
    assert(mv.take(0) =~= Seq::<(ExportKey, i64)>::empty());
    None
}

impl InsertionOrderedMap {
    /// Key each export by (name, kind), in first-seen order.
    pub fn from_exports(exports: &Vec<(String, String, i64)>) -> (r: InsertionOrderedMap)
        ensures
            map_view(r.entries@) == from_exports_spec(exports@),
    {
        let mut entries: Vec<((String, String), i64)> = Vec::new();
        let mut i: usize = 0;
        while i < exports.len()
            invariant
                i <= exports.len(),
                map_view(entries@) == from_exports_spec(exports@.take(i as int)),
            decreases exports.len() - i,
        {
            assert(exports@.take(i + 1).drop_last() =~= exports@.take(i as int));
            assert(exports@.take(i + 1).last() == exports@[i as int]);
            let key = (exports[i].0.clone(), exports[i].1.clone());
            let line = exports[i].2;
            let ghost before = map_view(entries@);
            match position_of(&entries, &key) {
                Some(p) => {
                    entries.set(p, (key, line));
                    assert(map_view(entries@) =~= before.update(p as int, (export_key(exports@[i as int]), line)));
                },
                None => {
                    entries.push((key, line));
                    assert(map_view(entries@) =~= before.push((export_key(exports@[i as int]), line)));
                },
            }
            i += 1;
        }
        assert(exports@.take(i as int) =~= exports@);
        InsertionOrderedMap { entries }
    }

    /// The line recorded for `key`, if any.
    pub fn get(&self, key: &(String, String)) -> (r: Option<i64>)
        ensures
            match key_position(map_view(self.entries@), key_view(*key)) {
                Some(i) => r == Some(map_view(self.entries@)[i].1),
                None => r is None,
            },
    {
        match position_of(&self.entries, key) {
            Some(p) => {
                assert(map_view(self.entries@)[p as int].1 == self.entries@[p as int].1);
                Some(self.entries[p].1)
            },
            None => None,
        }
    }

    /// Whether `key` is present.
    pub fn contains(&self, key: &(String, String)) -> (r: bool)
        ensures
            r == key_position(map_view(self.entries@), key_view(*key)) is Some,
    {
        position_of(&self.entries, key).is_some()
    }

    /// Every (key, line) in first-seen order.
    pub fn items(&self) -> (r: Vec<((String, String), i64)>)
        ensures
            map_view(r@) == map_view(self.entries@),
    {
        let mut out: Vec<((String, String), i64)> = Vec::new();
        let mut i: usize = 0;
        while i < self.entries.len()
            invariant
                i <= self.entries.len(),
                out@.len() == i,
                map_view(out@) == map_view(self.entries@).take(i as int),
            decreases self.entries.len() - i,
        {
            let e = ((self.entries[i].0.0.clone(), self.entries[i].0.1.clone()), self.entries[i].1);
            let ghost ov = map_view(out@);
            assert(map_view(self.entries@)[i as int] == (key_view(e.0), e.1));
            out.push(e);
            assert(map_view(out@) =~= ov.push((key_view(e.0), e.1)));
            assert(map_view(out@) =~= map_view(self.entries@).take(i + 1));
            i += 1;
        }
        assert(map_view(self.entries@).take(i as int) =~= map_view(self.entries@));
        out
    }
}

} // verus!
