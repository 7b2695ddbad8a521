//! From the captures of a language's import/export query to the file's
//! imports and exports.
//!
//! A query over the parsed file yields named captures (`import.module`,
//! `export.class`, ...). They are grouped by capture name, groups in the
//! order their names were first seen, and each capture in a group becomes an
//! import, an export, or nothing, by its name.

use crate::extraction::{nearest_before, nearest_pending, Export, ExtractionResult, Import};
use crate::ordered::{contains_text, text_views};
use crate::text::str_eq;
use vstd::prelude::*;

verus! {

broadcast use vstd::string::group_string_axioms;

/// One capture: its name in the query, the captured node's text, the node's
/// line (1-based) and byte offset, and, for a TypeScript import specifier,
/// the module of the import statement that holds it.
#[derive(Debug)]
pub struct Capture {
    pub name: String,
    pub text: String,
    pub line: i64,
    pub start_byte: usize,
    pub owner_module: Option<String>,
}

/// Capture names in first-seen order.
pub open spec fn name_order(caps: Seq<Capture>) -> Seq<Seq<char>>
    decreases caps.len(),
{
    if caps.len() == 0 {
        Seq::empty()
    } else {
        let o = name_order(caps.drop_last());
        if o.contains(caps.last().name@) {
            o
        } else {
            o.push(caps.last().name@)
        }
    }
}

/// Indices below `n` of the captures named `nm`, in order.
pub open spec fn named_below(caps: Seq<Capture>, nm: Seq<char>, n: int) -> Seq<int>
    decreases n,
{
    if n <= 0 {
        Seq::empty()
    } else {
        named_below(caps, nm, n - 1) + if caps[n - 1].name@ == nm {
            seq![n - 1]
        } else {
            Seq::empty()
        }
    }
}

/// Capture indices grouped by name, the groups in the order `order` names.
pub open spec fn grouped(caps: Seq<Capture>, order: Seq<Seq<char>>) -> Seq<int>
    decreases order.len(),
{
    if order.len() == 0 {
        Seq::empty()
    } else {
        grouped(caps, order.drop_last()) + named_below(caps, order.last(), caps.len() as int)
    }
}

fn name_order_of(caps: &Vec<Capture>) -> (r: Vec<String>)
    ensures
        text_views(r@) == name_order(caps@),
{
    let mut out: Vec<String> = Vec::new();
    let mut i: usize = 0;
    while i < caps.len()
        invariant
            i <= caps@.len(),
            text_views(out@) == name_order(caps@.take(i as int)),
        decreases caps@.len() - i,
    {
        assert(caps@.take(i + 1).drop_last() =~= caps@.take(i as int));
        assert(caps@.take(i + 1).last() == caps@[i as int]);
        if !contains_text(&out, caps[i].name.as_str()) {
            let ghost ov = text_views(out@);
            out.push(caps[i].name.clone());
            assert(text_views(out@) =~= ov.push(caps@[i as int].name@));
        }
        i += 1;
    }
    assert(caps@.take(i as int) =~= caps@);
    out
}

fn grouped_indices(caps: &Vec<Capture>, order: &Vec<String>) -> (r: Vec<usize>)
    ensures
        r@.map_values(|u: usize| u as int) == grouped(caps@, text_views(order@)),
        forall|j: int| 0 <= j < r@.len() ==> #[trigger] r@[j] < caps@.len(),
{
    let ghost ov = text_views(order@);
    let mut out: Vec<usize> = Vec::new();
    let mut k: usize = 0;
    assert(ov.take(0) =~= Seq::<Seq<char>>::empty());
    while k < order.len()
        invariant
            k <= order@.len(),
            ov == text_views(order@),
            out@.map_values(|u: usize| u as int) == grouped(caps@, ov.take(k as int)),
            forall|j: int| 0 <= j < out@.len() ==> #[trigger] out@[j] < caps@.len(),
        decreases order@.len() - k,
    {
        assert(ov.take(k + 1).drop_last() =~= ov.take(k as int));
        assert(ov.take(k + 1).last() == order@[k as int]@);
        let ghost base = out@.map_values(|u: usize| u as int);
        let mut i: usize = 0;
        while i < caps.len()
            invariant
                k < order@.len(),
                i <= caps@.len(),
                out@.map_values(|u: usize| u as int) == base + named_below(caps@, order@[k as int]@, i as int),
                forall|j: int| 0 <= j < out@.len() ==> #[trigger] out@[j] < caps@.len(),
            decreases caps@.len() - i,
        {
            let ghost before = out@.map_values(|u: usize| u as int);
            if str_eq(caps[i].name.as_str(), order[k].as_str()) {
                out.push(i);
                assert(out@.map_values(|u: usize| u as int) =~= before.push(i as int));
            }
            assert(named_below(caps@, order@[k as int]@, i + 1) == named_below(caps@, order@[k as int]@, i as int)
                + if caps@[i as int].name@ == order@[k as int]@ {
                seq![i as int]
            } else {
                Seq::empty()
            });
            assert(out@.map_values(|u: usize| u as int) =~= base + named_below(caps@, order@[k as int]@, i + 1));
            i += 1;
        }
        k += 1;
    }
    assert(ov.take(k as int) =~= ov);
    out
}

/// The import capture names are not export capture names.
proof fn lemma_names_differ()
    ensures
        "import.module"@ != "export.function"@,
        "import.module"@ != "export.class"@,
        "import.module"@ != "export.constant"@,
        "import.module"@ != "export.interface"@,
        "import.module"@ != "export.type"@,
        "import.symbol"@ != "export.function"@,
        "import.symbol"@ != "export.class"@,
        "import.symbol"@ != "export.constant"@,
        "import.symbol"@ != "export.interface"@,
        "import.symbol"@ != "export.type"@,
        "import_from.symbol"@ != "export.function"@,
        "import_from.symbol"@ != "export.class"@,
{
    reveal_strlit("import.module");
    reveal_strlit("import.symbol");
    reveal_strlit("import_from.symbol");
    reveal_strlit("export.function");
    reveal_strlit("export.class");
    reveal_strlit("export.constant");
    reveal_strlit("export.interface");
    reveal_strlit("export.type");
    assert("import.module"@.len() == 13);
    assert("import.symbol"@.len() == 13);
    assert("import_from.symbol"@.len() == 18);
    assert("export.function"@.len() == 15);
    assert("export.class"@.len() == 12);
    assert("export.constant"@.len() == 15);
    assert("export.interface"@.len() == 16);
    assert("export.type"@.len() == 11);
}

/// An import as plain values: module, symbol, line.
pub type ImportRow = (Seq<char>, Option<Seq<char>>, int);

/// An export as plain values: name, kind, line.
pub type ExportRow = (Seq<char>, Seq<char>, int);

pub open spec fn import_row(i: Import) -> ImportRow {
    (i.module@, crate::blame::opt_view(i.symbol), i.line as int)
}

pub open spec fn export_row(e: Export) -> ExportRow {
    (e.name@, e.kind@, e.line as int)
}

pub open spec fn result_rows(r: ExtractionResult) -> (Seq<char>, Seq<ImportRow>, Seq<ExportRow>) {
    (r.language@, r.imports@.map_values(|i: Import| import_row(i)), r.exports@.map_values(|e: Export| export_row(e)))
}

/// The `from`-module captures of a Python file, as (byte offset, module).
pub open spec fn py_pending(caps: Seq<Capture>) -> Seq<(usize, String)> {
    named_below(caps, "import_from.module"@, caps.len() as int).map_values(
        |i: int| (caps[i].start_byte, caps[i].text),
    )
}

/// What one Python capture imports.
pub open spec fn py_import(caps: Seq<Capture>, i: int) -> Option<ImportRow> {
    let c = caps[i];
    if c.name@ == "import.module"@ {
        Some((c.text@, None, c.line as int))
    } else if c.name@ == "import_from.symbol"@ {
        let module = match nearest_before(py_pending(caps), c.start_byte as int) {
            Some(p) => p.1,
            None => "unknown"@,
        };
        Some((module, Some(c.text@), c.line as int))
    } else {
        None
    }
}

/// What one Python capture exports.
pub open spec fn py_export(caps: Seq<Capture>, i: int) -> Option<ExportRow> {
    let c = caps[i];
    if c.name@ == "export.function"@ {
        Some((c.text@, "function"@, c.line as int))
    } else if c.name@ == "export.class"@ {
        Some((c.text@, "class"@, c.line as int))
    } else {
        None
    }
}

/// What one TypeScript capture imports: a module, or a named import from
/// the module of the statement around it.
pub open spec fn ts_import(caps: Seq<Capture>, i: int) -> Option<ImportRow> {
    let c = caps[i];
    if c.name@ == "import.module"@ {
        Some((c.text@, None, c.line as int))
    } else if c.name@ == "import.symbol"@ {
        let module = match c.owner_module {
            Some(m) => m@,
            None => "unknown"@,
        };
        Some((module, Some(c.text@), c.line as int))
    } else {
        None
    }
}

/// The kind a TypeScript export capture names.
pub open spec fn ts_export_kind(name: Seq<char>) -> Option<Seq<char>> {
    if name == "export.function"@ {
        Some("function"@)
    } else if name == "export.class"@ {
        Some("class"@)
    } else if name == "export.constant"@ {
        Some("constant"@)
    } else if name == "export.interface"@ {
        Some("interface"@)
    } else if name == "export.type"@ {
        Some("type"@)
    } else {
        None
    }
}

pub open spec fn ts_export(caps: Seq<Capture>, i: int) -> Option<ExportRow> {
    match ts_export_kind(caps[i].name@) {
        Some(k) => Some((caps[i].text@, k, caps[i].line as int)),
        None => None,
    }
}

/// The rows `f` gives for the captures `idx`, in order.
pub open spec fn rows_of<T>(caps: Seq<Capture>, idx: Seq<int>, f: spec_fn(Seq<Capture>, int) -> Option<T>) -> Seq<T>
    decreases idx.len(),
{
    if idx.len() == 0 {
        Seq::empty()
    } else {
        rows_of(caps, idx.drop_last(), f) + match f(caps, idx.last()) {
            Some(x) => seq![x],
            None => Seq::empty(),
        }
    }
}

/// A Python file's imports and exports from its query captures.
pub open spec fn python_rows(caps: Seq<Capture>) -> (Seq<char>, Seq<ImportRow>, Seq<ExportRow>) {
    let idx = grouped(caps, name_order(caps));
    ("python"@, rows_of(caps, idx, |c: Seq<Capture>, i: int| py_import(c, i)), rows_of(
        caps,
        idx,
        |c: Seq<Capture>, i: int| py_export(c, i),
    ))
}

/// A TypeScript file's imports and exports from its query captures.
pub open spec fn typescript_rows(caps: Seq<Capture>) -> (Seq<char>, Seq<ImportRow>, Seq<ExportRow>) {
    let idx = grouped(caps, name_order(caps));
    ("typescript"@, rows_of(caps, idx, |c: Seq<Capture>, i: int| ts_import(c, i)), rows_of(
        caps,
        idx,
        |c: Seq<Capture>, i: int| ts_export(c, i),
    ))
}

fn copy_text(o: &Option<String>) -> (r: Option<String>)
    ensures
        r == *o,
{
    match o {
        Some(s) => Some(s.clone()),
        None => None,
    }
}

fn py_pending_of(caps: &Vec<Capture>) -> (r: Vec<(usize, String)>)
    ensures
        r@ == py_pending(caps@),
{
    let name = "import_from.module";
    let mut out: Vec<(usize, String)> = Vec::new();
    let mut i: usize = 0;
    while i < caps.len()
        invariant
            i <= caps@.len(),
            name@ == "import_from.module"@,
            out@ == named_below(caps@, "import_from.module"@, i as int).map_values(
                |j: int| (caps@[j].start_byte, caps@[j].text),
            ),
        decreases caps@.len() - i,
    {
        let ghost before = named_below(caps@, "import_from.module"@, i as int);
        if str_eq(caps[i].name.as_str(), name) {
            out.push((caps[i].start_byte, caps[i].text.clone()));
            assert(before.push(i as int).map_values(|j: int| (caps@[j].start_byte, caps@[j].text))
                =~= before.map_values(|j: int| (caps@[j].start_byte, caps@[j].text)).push(
                (caps@[i as int].start_byte, caps@[i as int].text),
            ));
            assert(named_below(caps@, "import_from.module"@, i + 1) =~= before.push(i as int));
        } else {
            assert(named_below(caps@, "import_from.module"@, i + 1) =~= before);
        }
        i += 1;
    }
    out
}

/// Imports and exports of a Python file, from the captures of its query in
/// the order the query yielded them.
pub fn python_from_captures(caps: &Vec<Capture>) -> (r: ExtractionResult)
    ensures
        result_rows(r) == python_rows(caps@),
{
    let order = name_order_of(caps);
    let idx = grouped_indices(caps, &order);
    let ghost gi = idx@.map_values(|u: usize| u as int);
    let pending = py_pending_of(caps);
    let mut imports: Vec<Import> = Vec::new();
    let mut exports: Vec<Export> = Vec::new();
    let mut k: usize = 0;
    while k < idx.len()
        invariant
            k <= idx@.len(),
            gi == idx@.map_values(|u: usize| u as int),
            forall|j: int| 0 <= j < idx@.len() ==> #[trigger] idx@[j] < caps@.len(),
            pending@ == py_pending(caps@),
            imports@.map_values(|i: Import| import_row(i)) == rows_of(caps@, gi.take(k as int), |c: Seq<Capture>, i: int| py_import(c, i)),
            exports@.map_values(|e: Export| export_row(e)) == rows_of(caps@, gi.take(k as int), |c: Seq<Capture>, i: int| py_export(c, i)),
        decreases idx@.len() - k,
    {
        assert(gi.take(k + 1).drop_last() =~= gi.take(k as int));
        assert(gi.take(k + 1).last() == idx@[k as int] as int);
        let i = idx[k];
        assert(i < caps@.len());
        let c = &caps[i];
        let ghost iv = imports@.map_values(|i: Import| import_row(i));
        let ghost ev = exports@.map_values(|e: Export| export_row(e));
        if str_eq(c.name.as_str(), "import.module") {
            imports.push(Import { module: c.text.clone(), symbol: None, line: c.line });
            assert(imports@.map_values(|i: Import| import_row(i)) =~= iv.push((c.text@, None, c.line as int)));
            proof { lemma_names_differ(); }
            assert(py_export(caps@, i as int) is None);
            assert(exports@.map_values(|e: Export| export_row(e)) =~= ev);
        } else if str_eq(c.name.as_str(), "import_from.symbol") {
            let module = nearest_pending(&pending, c.start_byte);
            imports.push(Import { module, symbol: Some(c.text.clone()), line: c.line });
            assert(imports@.map_values(|i: Import| import_row(i)) =~= iv.push(py_import(caps@, i as int)->0));
            proof { lemma_names_differ(); }
            assert(py_export(caps@, i as int) is None);
            assert(exports@.map_values(|e: Export| export_row(e)) =~= ev);
        } else if str_eq(c.name.as_str(), "export.function") {
            exports.push(Export { name: c.text.clone(), kind: "function".to_owned(), line: c.line });
            proof {
                reveal_strlit("function");
            }
            assert(exports@.map_values(|e: Export| export_row(e)) =~= ev.push(py_export(caps@, i as int)->0));
        } else if str_eq(c.name.as_str(), "export.class") {
            exports.push(Export { name: c.text.clone(), kind: "class".to_owned(), line: c.line });
            assert(exports@.map_values(|e: Export| export_row(e)) =~= ev.push(py_export(caps@, i as int)->0));
        }
        k += 1;
    }
    assert(gi.take(k as int) =~= gi);
    ExtractionResult { language: "python".to_owned(), imports, exports }
}

/// The captures of the query matches that survive the `require` filter: a
/// match with an `_fn` capture counts only when that capture's text (the
/// last one's, when several) is `require`; `_fn` captures themselves are
/// dropped.
pub open spec fn last_fn_text(m: Seq<Capture>) -> Option<Seq<char>>
    decreases m.len(),
{
    if m.len() == 0 {
        None
    } else if m.last().name@ == "_fn"@ {
        Some(m.last().text@)
    } else {
        last_fn_text(m.drop_last())
    }
}

pub open spec fn match_kept(m: Seq<Capture>) -> bool {
    match last_fn_text(m) {
        Some(t) => t == "require"@,
        None => true,
    }
}

/// A TypeScript query's matches, each its captures, flattened to the
/// captures that count.
pub open spec fn kept_captures(ms: Seq<Seq<Capture>>) -> Seq<Capture>
    decreases ms.len(),
{
    if ms.len() == 0 {
        Seq::empty()
    } else {
        kept_captures(ms.drop_last()) + if match_kept(ms.last()) {
            ms.last().filter(|c: Capture| c.name@ != "_fn"@)
        } else {
            Seq::empty()
        }
    }
}

fn copy_capture(c: &Capture) -> (r: Capture)
    ensures
        r == *c,
{
    Capture {
        name: c.name.clone(),
        text: c.text.clone(),
        line: c.line,
        start_byte: c.start_byte,
        owner_module: copy_text(&c.owner_module),
    }
}

fn kept_captures_of(matches: &Vec<Vec<Capture>>) -> (r: Vec<Capture>)
    ensures
        r@ == kept_captures(matches@.map_values(|m: Vec<Capture>| m@)),
{
    let ghost mv = matches@.map_values(|m: Vec<Capture>| m@);
    let mut out: Vec<Capture> = Vec::new();
    let mut k: usize = 0;
    while k < matches.len()
        invariant
            k <= matches@.len(),
            mv == matches@.map_values(|m: Vec<Capture>| m@),
            out@ == kept_captures(mv.take(k as int)),
        decreases matches@.len() - k,
    {
        assert(mv.take(k + 1).drop_last() =~= mv.take(k as int));
        assert(mv.take(k + 1).last() == matches@[k as int]@);
        let m = &matches[k];
        let mut fn_text: Option<String> = None;
        let mut i: usize = 0;
        while i < m.len()
            invariant
                i <= m@.len(),
                match fn_text {
                    Some(t) => last_fn_text(m@.take(i as int)) == Some(t@),
                    None => last_fn_text(m@.take(i as int)) is None,
                },
            decreases m@.len() - i,
        {
            assert(m@.take(i + 1).drop_last() =~= m@.take(i as int));
            assert(m@.take(i + 1).last() == m@[i as int]);
            if str_eq(m[i].name.as_str(), "_fn") {
                fn_text = Some(m[i].text.clone());
            }
            i += 1;
        }
        assert(m@.take(i as int) =~= m@);
        let kept = match &fn_text {
            Some(t) => str_eq(t.as_str(), "require"),
            None => true,
        };
        if kept {
            let ghost base = out@;
            let mut j: usize = 0;
            while j < m.len()
                invariant
                    j <= m@.len(),
                    out@ == base + m@.take(j as int).filter(|c: Capture| c.name@ != "_fn"@),
                decreases m@.len() - j,
            {
                proof {
                    m@.take(j as int).lemma_filter_push(m@[j as int], |c: Capture| c.name@ != "_fn"@);
                }
                assert(m@.take(j + 1) =~= m@.take(j as int).push(m@[j as int]));
                if !str_eq(m[j].name.as_str(), "_fn") {
                    let ghost before = out@;
                    out.push(copy_capture(&m[j]));
                    assert(out@ =~= base + m@.take(j + 1).filter(|c: Capture| c.name@ != "_fn"@));
                } else {
                    assert(out@ =~= base + m@.take(j + 1).filter(|c: Capture| c.name@ != "_fn"@));
                }
                j += 1;
            }
            assert(m@.take(j as int) =~= m@);
        } else {
            assert(out@ =~= kept_captures(mv.take(k as int)) + Seq::<Capture>::empty());
        }
        k += 1;
    }
    assert(mv.take(k as int) =~= mv);
    out
}

/// Imports and exports of a TypeScript or JavaScript file, from its query's
/// matches (each the captures of one match, in the order the query yielded
/// them).
pub fn typescript_from_matches(matches: &Vec<Vec<Capture>>) -> (r: ExtractionResult)
    ensures
        result_rows(r) == typescript_rows(kept_captures(matches@.map_values(|m: Vec<Capture>| m@))),
{
    let caps = kept_captures_of(matches);
    let order = name_order_of(&caps);
    let idx = grouped_indices(&caps, &order);
    let ghost gi = idx@.map_values(|u: usize| u as int);
    let mut imports: Vec<Import> = Vec::new();
    let mut exports: Vec<Export> = Vec::new();
    let mut k: usize = 0;
    while k < idx.len()
        invariant
            k <= idx@.len(),
            gi == idx@.map_values(|u: usize| u as int),
            forall|j: int| 0 <= j < idx@.len() ==> #[trigger] idx@[j] < caps@.len(),
            imports@.map_values(|i: Import| import_row(i)) == rows_of(caps@, gi.take(k as int), |c: Seq<Capture>, i: int| ts_import(c, i)),
            exports@.map_values(|e: Export| export_row(e)) == rows_of(caps@, gi.take(k as int), |c: Seq<Capture>, i: int| ts_export(c, i)),
        decreases idx@.len() - k,
    {
        assert(gi.take(k + 1).drop_last() =~= gi.take(k as int));
        assert(gi.take(k + 1).last() == idx@[k as int] as int);
        let i = idx[k];
        assert(i < caps@.len());
        let c = &caps[i];
        let ghost iv = imports@.map_values(|i: Import| import_row(i));
        let ghost ev = exports@.map_values(|e: Export| export_row(e));
        let n = c.name.as_str();
        if str_eq(n, "import.module") {
            imports.push(Import { module: c.text.clone(), symbol: None, line: c.line });
            assert(imports@.map_values(|i: Import| import_row(i)) =~= iv.push(ts_import(caps@, i as int)->0));
            proof { lemma_names_differ(); }
            assert(ts_export(caps@, i as int) is None);
            assert(exports@.map_values(|e: Export| export_row(e)) =~= ev);
        } else if str_eq(n, "import.symbol") {
            let module = match &c.owner_module {
                Some(m) => m.clone(),
                None => "unknown".to_owned(),
            };
            imports.push(Import { module, symbol: Some(c.text.clone()), line: c.line });
            assert(imports@.map_values(|i: Import| import_row(i)) =~= iv.push(ts_import(caps@, i as int)->0));
            proof { lemma_names_differ(); }
            assert(ts_export(caps@, i as int) is None);
            assert(exports@.map_values(|e: Export| export_row(e)) =~= ev);
        } else {
            let kind: Option<&'static str> = if str_eq(n, "export.function") {
                Some("function")
            } else if str_eq(n, "export.class") {
                Some("class")
            } else if str_eq(n, "export.constant") {
                Some("constant")
            } else if str_eq(n, "export.interface") {
                Some("interface")
            } else if str_eq(n, "export.type") {
                Some("type")
            } else {
                None
            };
            match kind {
                Some(kd) => {
                    exports.push(Export { name: c.text.clone(), kind: kd.to_owned(), line: c.line });
                    assert(exports@.map_values(|e: Export| export_row(e)) =~= ev.push(ts_export(caps@, i as int)->0));
                },
                None => {},
            }
        }
        k += 1;
    }
    assert(gi.take(k as int) =~= gi);
    ExtractionResult { language: "typescript".to_owned(), imports, exports }
}

} // verus!
