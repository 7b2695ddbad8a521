//! `usages` and `dependencies`: one walk of the import inversion read in
//! either direction, and the rows and lines it is reported as.
//!
//! The direction decides which way the walk runs, what the rows are called,
//! whether a reached file is named by its module or by the symbol its edge
//! named, and the wording; nothing else.

use crate::architecture::{file_to_module_spec, is_python};
use crate::keyed::lookup;
use crate::labels::Direction;
use crate::relations::{module_id, symbol_id, Ranked, Reached};
use crate::text::{concat, dec_int, fmt_i64, left_pad, pad_left, pad_right, right_pad};
use vstd::prelude::*;

verus! {

broadcast use vstd::string::group_string_axioms;

/// What a reported row is named by: the symbol when there is one, else the
/// file's module.
pub open spec fn naming(file: Seq<char>, language: Option<Seq<char>>, symbol: Option<Seq<char>>) -> (Seq<char>, Seq<char>, Seq<char>) {
    match symbol {
        Some(sym) => (file + "::"@ + sym, sym, "symbol"@),
        None => {
            let python = language == Some("python"@);
            ("module::"@ + file_to_module_spec(file, python), file_to_module_spec(file, python), "module"@)
        },
    }
}

/// A file's indexed language.
pub open spec fn language_of(languages: Seq<(String, Option<String>)>, file: Seq<char>) -> Option<Seq<char>> {
    match lookup(languages, file) {
        Some(l) => crate::blame::opt_view(l),
        None => None,
    }
}

/// One reported row: its id, label and kind, the file it is in, and its
/// depth (walk rows) or rank (ranking rows).
#[derive(Debug)]
pub struct ReachRow {
    pub node_id: String,
    pub label: String,
    pub kind: String,
    pub source_file: String,
    pub depth: i64,
}

fn language_for_file(languages: &Vec<(String, Option<String>)>, file: &String) -> (r: Option<String>)
    ensures
        crate::blame::opt_view(r) == language_of(languages@, file@),
{
    match crate::keyed::get(languages, file) {
        Some(l) => match l {
            Some(x) => Some(x.clone()),
            None => None,
        },
        None => None,
    }
}

fn name_row(file: &String, language: &Option<String>, symbol: Option<&String>) -> (r: (String, String, String))
    ensures
        (r.0@, r.1@, r.2@) == naming(
            file@,
            crate::blame::opt_view(*language),
            match symbol {
                Some(s) => Some(s@),
                None => None,
            },
        ),
{
    match symbol {
        Some(sym) => (symbol_id(file.as_str(), sym.as_str()), sym.clone(), "symbol".to_owned()),
        None => {
            let lang: Option<&str> = match language {
                Some(l) => Some(l.as_str()),
                None => None,
            };
            let id = module_id(file.as_str(), lang);
            let label = crate::architecture::file_to_module(file.as_str(), lang);
            proof {
                reveal_strlit("python");
                assert(is_python(lang) == (crate::blame::opt_view(*language) == Some("python"@)));
            }
            (id, label, "module".to_owned())
        },
    }
}

/// The symbol a walk row is named by: read forward the edge's symbol lives
/// in the reached file, the dependency; read backward the row is the
/// importer, which the symbol says nothing about.
pub open spec fn walk_symbol(d: Direction, symbol: Option<String>) -> Option<Seq<char>> {
    match d {
        Direction::Dependencies => crate::blame::opt_view(symbol),
        Direction::Dependents => None,
    }
}

/// One reached file as a row.
pub fn reached_row(d: Direction, reached: &Reached, languages: &Vec<(String, Option<String>)>) -> (r: ReachRow)
    ensures
        (r.node_id@, r.label@, r.kind@) == naming(reached.file@, language_of(languages@, reached.file@), walk_symbol(d, reached.symbol)),
        r.source_file@ == reached.file@,
        r.depth == reached.depth,
{
    let language = language_for_file(languages, &reached.file);
    let named: Option<&String> = match d {
        Direction::Dependencies => match &reached.symbol {
            Some(s) => Some(s),
            None => None,
        },
        Direction::Dependents => None,
    };
    let (node_id, label, kind) = name_row(&reached.file, &language, named);
    ReachRow { node_id, label, kind, source_file: reached.file.clone(), depth: reached.depth }
}

/// The symbol a ranking row is named by: ranked by dependents the file is
/// the target of every counted edge, so its importers' symbol is what is
/// depended on; ranked by dependencies it is the importer.
pub open spec fn rank_symbol(d: Direction, symbol: Option<String>) -> Option<Seq<char>> {
    match d {
        Direction::Dependents => crate::blame::opt_view(symbol),
        Direction::Dependencies => None,
    }
}

/// A ranking row with its counts.
#[derive(Debug)]
pub struct PathRow {
    pub rank: i64,
    pub row: ReachRow,
    pub direct: i64,
    pub transitive: i64,
}

/// The ranking rows, numbered from 1.
pub fn path_rows(d: Direction, ranked: &Vec<Ranked>, languages: &Vec<(String, Option<String>)>) -> (r: Vec<PathRow>)
    requires
        ranked@.len() < i64::MAX,
    ensures
        r@.len() == ranked@.len(),
        forall|i: int| 0 <= i < r@.len() ==> {
            let x = #[trigger] r@[i];
            let k = ranked@[i];
            &&& x.rank == i + 1
            &&& (x.row.node_id@, x.row.label@, x.row.kind@) == naming(k.file@, language_of(languages@, k.file@), rank_symbol(d, k.symbol))
            &&& x.row.source_file@ == k.file@
            &&& x.row.depth == 1
            &&& x.direct == k.direct
            &&& x.transitive == k.transitive
        },
{
    let mut out: Vec<PathRow> = Vec::new();
    let mut i: usize = 0;
    while i < ranked.len()
        invariant
            i <= ranked@.len(),
            ranked@.len() < i64::MAX,
            out@.len() == i,
            forall|j: int| 0 <= j < i ==> {
                let x = #[trigger] out@[j];
                let k = ranked@[j];
                &&& x.rank == j + 1
                &&& (x.row.node_id@, x.row.label@, x.row.kind@) == naming(k.file@, language_of(languages@, k.file@), rank_symbol(d, k.symbol))
                &&& x.row.source_file@ == k.file@
                &&& x.row.depth == 1
                &&& x.direct == k.direct
                &&& x.transitive == k.transitive
            },
        decreases ranked@.len() - i,
    {
        let k = &ranked[i];
        let language = language_for_file(languages, &k.file);
        let named: Option<&String> = match d {
            Direction::Dependents => match &k.symbol {
                Some(s) => Some(s),
                None => None,
            },
            Direction::Dependencies => None,
        };
        let (node_id, label, kind) = name_row(&k.file, &language, named);
        let row = ReachRow { node_id, label, kind, source_file: k.file.clone(), depth: 1 };
        out.push(PathRow { rank: i as i64 + 1, row, direct: k.direct, transitive: k.transitive });
        i += 1;
    }
    out
}

/// One ranking row as the human report prints it.
pub open spec fn path_line(r: PathRow) -> Seq<char> {
    "  "@ + pad_right(dec_int(r.rank as int), 3) + " "@ + pad_left(dec_int(r.direct as int), 6, ' ') + "  "@ + pad_left(
        dec_int(r.transitive as int),
        10,
        ' ',
    ) + "  "@ + pad_right(r.row.kind@, 10) + "  "@ + r.row.label@ + " @ "@ + r.row.source_file@ + ":1"@
}

pub fn fmt_path_line(r: &PathRow) -> (s: String)
    ensures
        s@ == path_line(*r),
{
    let rank = right_pad(fmt_i64(r.rank).as_str(), 3);
    let direct = left_pad(fmt_i64(r.direct).as_str(), 6, ' ');
    let transitive = left_pad(fmt_i64(r.transitive).as_str(), 10, ' ');
    let kind = right_pad(r.row.kind.as_str(), 10);
    let a = concat("  ", rank.as_str());
    let b = concat(a.as_str(), " ");
    let c = concat(b.as_str(), direct.as_str());
    let e = concat(c.as_str(), "  ");
    let f = concat(e.as_str(), transitive.as_str());
    let g = concat(f.as_str(), "  ");
    let h = concat(g.as_str(), kind.as_str());
    let i = concat(h.as_str(), "  ");
    let j = concat(i.as_str(), r.row.label.as_str());
    let k = concat(j.as_str(), " @ ");
    let l = concat(k.as_str(), r.row.source_file.as_str());
    concat(l.as_str(), ":1")
}

/// One reached row of a symbol's walk as the human report prints it.
pub open spec fn walk_line(r: ReachRow) -> Seq<char> {
    "    [d="@ + dec_int(r.depth as int) + "] "@ + r.label@ + " ["@ + r.kind@ + "] @ "@ + r.source_file@ + ":1"@
}

pub fn fmt_walk_line(r: &ReachRow) -> (s: String)
    ensures
        s@ == walk_line(*r),
{
    let a = concat("    [d=", fmt_i64(r.depth).as_str());
    let b = concat(a.as_str(), "] ");
    let c = concat(b.as_str(), r.label.as_str());
    let e = concat(c.as_str(), " [");
    let f = concat(e.as_str(), r.kind.as_str());
    let g = concat(f.as_str(), "] @ ");
    let h = concat(g.as_str(), r.source_file.as_str());
    concat(h.as_str(), ":1")
}

pub open spec fn rows_key_spec(d: Direction) -> Seq<char> {
    match d {
        Direction::Dependents => "dependents"@,
        Direction::Dependencies => "dependencies"@,
    }
}

pub open spec fn path_heading_spec(d: Direction) -> Seq<char> {
    match d {
        Direction::Dependents => "most-depended-on"@,
        Direction::Dependencies => "highest-coupling"@,
    }
}

pub open spec fn symbol_heading_spec(d: Direction) -> Seq<char> {
    match d {
        Direction::Dependents => "depended on by"@,
        Direction::Dependencies => "depends on"@,
    }
}

/// The shoulder line printed under a row whose file has one.
pub open spec fn shoulder_lines(shoulders: Seq<(String, String)>, file: Seq<char>) -> Seq<Seq<char>> {
    match lookup(shoulders, file) {
        Some(line) => seq!["        "@ + line@],
        None => Seq::empty(),
    }
}

pub open spec fn path_lines(rows: Seq<PathRow>, shoulders: Seq<(String, String)>) -> Seq<Seq<char>>
    decreases rows.len(),
{
    if rows.len() == 0 {
        Seq::empty()
    } else {
        path_lines(rows.drop_last(), shoulders) + seq![path_line(rows.last())] + shoulder_lines(shoulders, rows.last().row.source_file@)
    }
}

/// The human report of a ranking.
pub open spec fn path_report(d: Direction, rows: Seq<PathRow>, path: Seq<char>, depth: int, shoulders: Seq<(String, String)>) -> Seq<Seq<char>> {
    if rows.len() == 0 {
        seq!["(no files with "@ + rows_key_spec(d) + " found in this scope)"@]
    } else {
        seq![
            "Top "@ + crate::text::dec(rows.len()) + " "@ + path_heading_spec(d) + " nodes in "@ + path + " (transitive depth \u{2264} "@ + dec_int(depth) + "):"@,
            "  #   direct  transitive  kind        symbol @ source"@,
        ] + path_lines(rows, shoulders)
    }
}

fn push_shoulder(out: &mut Vec<String>, shoulders: &Vec<(String, String)>, file: &String)
    ensures
        crate::ordered::text_views(final(out)@) == crate::ordered::text_views(old(out)@) + shoulder_lines(shoulders@, file@),
{
    match crate::keyed::get(shoulders, file) {
        Some(line) => {
            let ghost ov = crate::ordered::text_views(out@);
            out.push(concat("        ", line.as_str()));
            assert(crate::ordered::text_views(out@) =~= ov + seq!["        "@ + line@]);
        },
        None => {
            assert(crate::ordered::text_views(out@) =~= crate::ordered::text_views(out@) + Seq::<Seq<char>>::empty());
        },
    }
}

/// The lines `usages --path` / `dependencies --path` print.
pub fn path_report_lines(d: Direction, rows: &Vec<PathRow>, path: &str, depth: i64, shoulders: &Vec<(String, String)>) -> (r: Vec<String>)
    ensures
        crate::ordered::text_views(r@) == path_report(d, rows@, path@, depth as int, shoulders@),
{
    let mut out: Vec<String> = Vec::new();
    if rows.len() == 0 {
        let a = concat("(no files with ", d.rows_key());
        out.push(concat(a.as_str(), " found in this scope)"));
        assert(crate::ordered::text_views(out@) =~= path_report(d, rows@, path@, depth as int, shoulders@));
        return out;
    }
    let a = concat("Top ", crate::text::fmt_u64(rows.len() as u64).as_str());
    let b = concat(a.as_str(), " ");
    let c = concat(b.as_str(), d.path_heading());
    let e = concat(c.as_str(), " nodes in ");
    let f = concat(e.as_str(), path);
    let g = concat(f.as_str(), " (transitive depth \u{2264} ");
    let h = concat(g.as_str(), fmt_i64(depth).as_str());
    out.push(concat(h.as_str(), "):"));
    out.push("  #   direct  transitive  kind        symbol @ source".to_owned());
    let ghost head = crate::ordered::text_views(out@);
    let mut i: usize = 0;
    while i < rows.len()
        invariant
            i <= rows@.len(),
            crate::ordered::text_views(out@) == head + path_lines(rows@.take(i as int), shoulders@),
        decreases rows@.len() - i,
    {
        assert(rows@.take(i + 1).drop_last() =~= rows@.take(i as int));
        assert(rows@.take(i + 1).last() == rows@[i as int]);
        let ghost ov = crate::ordered::text_views(out@);
        out.push(fmt_path_line(&rows[i]));
        assert(crate::ordered::text_views(out@) =~= ov.push(path_line(rows@[i as int])));
        push_shoulder(&mut out, shoulders, &rows[i].row.source_file);
        assert(crate::ordered::text_views(out@) =~= head + path_lines(rows@.take(i + 1), shoulders@));
        i += 1;
    }
    assert(rows@.take(i as int) =~= rows@);
    assert(crate::ordered::text_views(out@) =~= path_report(d, rows@, path@, depth as int, shoulders@));
    out
}

/// One subject of a symbol walk: id, label, kind, file, line.
pub type Subject = (String, String, String, String, i64);

pub open spec fn chain_lines(d: Direction, chain: Seq<Reached>, languages: Seq<(String, Option<String>)>, shoulders: Seq<(String, String)>) -> Seq<Seq<char>>
    decreases chain.len(),
{
    if chain.len() == 0 {
        Seq::empty()
    } else {
        let r = chain.last();
        let nm = naming(r.file@, language_of(languages, r.file@), walk_symbol(d, r.symbol));
        chain_lines(d, chain.drop_last(), languages, shoulders) + seq![
            "    [d="@ + dec_int(r.depth as int) + "] "@ + nm.1 + " ["@ + nm.2 + "] @ "@ + r.file@ + ":1"@,
        ] + shoulder_lines(shoulders, r.file@)
    }
}

/// What one subject of a symbol walk prints.
pub open spec fn subject_report(d: Direction, s: Subject, chain: Seq<Reached>, depth: int, languages: Seq<(String, Option<String>)>, shoulders: Seq<(String, String)>) -> Seq<Seq<char>> {
    seq![
        Seq::empty(),
        s.1@ + " ["@ + s.2@ + "] @ "@ + s.3@ + ":"@ + dec_int(s.4 as int),
        "  "@ + symbol_heading_spec(d) + " (depth \u{2264} "@ + dec_int(depth) + "):"@,
    ] + if chain.len() == 0 {
        seq!["    (no "@ + rows_key_spec(d) + " found)"@]
    } else {
        chain_lines(d, chain, languages, shoulders)
    }
}

/// The lines one subject of `usages SYMBOL` / `dependencies SYMBOL` prints:
/// the subject, the heading, then each reached file (with its shoulder) or
/// a line saying none was found.
pub fn subject_report_lines(
    d: Direction,
    s: &Subject,
    chain: &Vec<Reached>,
    depth: i64,
    languages: &Vec<(String, Option<String>)>,
    shoulders: &Vec<(String, String)>,
) -> (r: Vec<String>)
    ensures
        crate::ordered::text_views(r@) == subject_report(d, *s, chain@, depth as int, languages@, shoulders@),
{
    let mut out: Vec<String> = Vec::new();
    out.push(String::new());
    let a = concat(s.1.as_str(), " [");
    let b = concat(a.as_str(), s.2.as_str());
    let c = concat(b.as_str(), "] @ ");
    let e = concat(c.as_str(), s.3.as_str());
    let f = concat(e.as_str(), ":");
    out.push(concat(f.as_str(), fmt_i64(s.4).as_str()));
    let g = concat("  ", d.symbol_heading());
    let h = concat(g.as_str(), " (depth \u{2264} ");
    let k = concat(h.as_str(), fmt_i64(depth).as_str());
    out.push(concat(k.as_str(), "):"));
    let ghost head = crate::ordered::text_views(out@);
    if chain.len() == 0 {
        let m = concat("    (no ", d.rows_key());
        out.push(concat(m.as_str(), " found)"));
        assert(crate::ordered::text_views(out@) =~= subject_report(d, *s, chain@, depth as int, languages@, shoulders@));
        return out;
    }
    let mut i: usize = 0;
    while i < chain.len()
        invariant
            i <= chain@.len(),
            crate::ordered::text_views(out@) == head + chain_lines(d, chain@.take(i as int), languages@, shoulders@),
        decreases chain@.len() - i,
    {
        assert(chain@.take(i + 1).drop_last() =~= chain@.take(i as int));
        assert(chain@.take(i + 1).last() == chain@[i as int]);
        let row = reached_row(d, &chain[i], languages);
        let ghost ov = crate::ordered::text_views(out@);
        out.push(fmt_walk_line(&row));
        assert(crate::ordered::text_views(out@) =~= ov.push(walk_line(row)));
        push_shoulder(&mut out, shoulders, &chain[i].file);
        assert(crate::ordered::text_views(out@) =~= head + chain_lines(d, chain@.take(i + 1), languages@, shoulders@));
        i += 1;
    }
    assert(chain@.take(i as int) =~= chain@);
    assert(crate::ordered::text_views(out@) =~= subject_report(d, *s, chain@, depth as int, languages@, shoulders@));
    out
}

} // verus!
