use tracer::captures::{python_from_captures, typescript_from_matches, Capture};
use tracer::extraction::ExtractionResult;
use tracer::pattern::{anchored_match, literals};

fn cap(name: &str, text: &str, line: i64, start_byte: usize) -> Capture {
    Capture { name: name.to_string(), text: text.to_string(), line, start_byte, owner_module: None }
}

fn owned(mut c: Capture, module: &str) -> Capture {
    c.owner_module = Some(module.to_string());
    c
}

fn imports(r: &ExtractionResult) -> Vec<(String, Option<String>, i64)> {
    r.imports.iter().map(|i| (i.module.clone(), i.symbol.clone(), i.line)).collect()
}

fn exports(r: &ExtractionResult) -> Vec<(String, String, i64)> {
    r.exports.iter().map(|e| (e.name.clone(), e.kind.clone(), e.line)).collect()
}

fn s(x: &str) -> String {
    x.to_string()
}

#[test]
fn python_groups_by_capture_name_and_pairs_from_imports() {
    let caps = vec![
        cap("import.module", "os", 1, 7),
        cap("import_from.module", "pkg.util", 2, 20),
        cap("import_from.symbol", "helper", 2, 40),
        cap("export.function", "main", 4, 60),
        cap("import_from.module", "json", 3, 45),
        cap("import_from.symbol", "loads", 3, 57),
        cap("export.class", "App", 6, 90),
        cap("import.module", "sys", 7, 100),
    ];
    let r = python_from_captures(&caps);
    assert_eq!(r.language, "python");
    assert_eq!(
        imports(&r),
        vec![
            (s("os"), None, 1),
            (s("sys"), None, 7),
            (s("pkg.util"), Some(s("helper")), 2),
            (s("json"), Some(s("loads")), 3),
        ]
    );
    assert_eq!(exports(&r), vec![(s("main"), s("function"), 4), (s("App"), s("class"), 6)]);
}

#[test]
fn python_symbol_without_a_preceding_module_is_unknown() {
    let caps = vec![cap("import_from.symbol", "x", 1, 5), cap("import_from.module", "late", 1, 30)];
    let r = python_from_captures(&caps);
    assert_eq!(imports(&r), vec![(s("unknown"), Some(s("x")), 1)]);
    assert!(r.exports.is_empty());
    assert!(python_from_captures(&Vec::new()).imports.is_empty());
}

#[test]
fn typescript_keeps_only_require_calls_and_uses_the_owning_statement() {
    let matches = vec![
        vec![owned(cap("import.symbol", "a", 1, 9), "m")],
        vec![cap("import.module", "m", 1, 20)],
        vec![cap("_fn", "require", 2, 40), cap("import.module", "fs", 2, 49)],
        vec![cap("_fn", "load", 3, 60), cap("import.module", "x", 3, 66)],
        vec![cap("export.class", "C", 4, 80)],
        vec![cap("import.symbol", "b", 5, 95)],
        vec![cap("export.type", "T", 6, 110), cap("export.constant", "K", 7, 130)],
    ];
    let r = typescript_from_matches(&matches);
    assert_eq!(r.language, "typescript");
    assert_eq!(
        imports(&r),
        vec![
            (s("m"), Some(s("a")), 1),
            (s("unknown"), Some(s("b")), 5),
            (s("m"), None, 1),
            (s("fs"), None, 2),
        ]
    );
    assert_eq!(
        exports(&r),
        vec![(s("C"), s("class"), 4), (s("T"), s("type"), 6), (s("K"), s("constant"), 7)]
    );
}

#[test]
fn pattern_literals_skip_metavariables_and_single_bytes() {
    assert_eq!(literals("dispatch($$$A)"), vec![s("dispatch")]);
    assert_eq!(literals("$X->save($$$A)"), vec![s("save")]);
    assert_eq!(literals("a + bb"), vec![s("bb")]);
    assert_eq!(literals("\u{e9}"), vec![s("\u{e9}")]);
    assert_eq!(literals("foo_bar.baz($_)"), vec![s("foo_bar"), s("baz")]);
    assert!(literals("$$$").is_empty());
}

#[test]
fn multi_line_match_is_reported_at_its_anchor_line() {
    let m = anchored_match(s("f.py"), 9, "x = call(\n    dispatch(a)  \n)", Some("dispatch"));
    assert_eq!(m.file, "f.py");
    assert_eq!(m.line, 11);
    assert_eq!(m.snippet, "    dispatch(a)");
    let one = anchored_match(s("g.py"), 3, "save(x)", Some("save"));
    assert_eq!((one.line, one.snippet.as_str()), (4, "save(x)"));
    let none = anchored_match(s("h"), 0, "a  \nb", Some("zzz"));
    assert_eq!((none.line, none.snippet.as_str()), (1, "a"));
}
