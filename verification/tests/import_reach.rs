use tracer::labels::{Direction, Reach};
use tracer::reach::{path_report_lines, path_rows, reached_row, subject_report_lines};
use tracer::relations::{
    confidence_code, confidence_name, module_id, ranked_by_reach, reachable_from, scope_contains, symbol_id,
    ImportEdge, Ranked,
};

fn edge(target: &str, importer: &str, symbol: Option<&str>) -> ImportEdge {
    ImportEdge { target: target.to_string(), importer: importer.to_string(), symbol: symbol.map(|s| s.to_string()) }
}

fn edges() -> Vec<ImportEdge> {
    vec![
        edge("util.py", "a.py", Some("helper")),
        edge("util.py", "b.py", None),
        edge("a.py", "c.py", None),
        edge("lib/x.py", "util.py", Some("X")),
    ]
}

fn rows(v: &[tracer::relations::Reached]) -> Vec<(String, i64, Option<String>)> {
    v.iter().map(|r| (r.file.clone(), r.depth, r.symbol.clone())).collect()
}

fn ranks(v: &[Ranked]) -> Vec<(String, Option<String>, i64, i64)> {
    v.iter().map(|r| (r.file.clone(), r.symbol.clone(), r.direct, r.transitive)).collect()
}

fn s(x: &str) -> String {
    x.to_string()
}

#[test]
fn importers_walk_breadth_first() {
    let e = edges();
    let got = reachable_from(&e, &s("util.py"), 2, Reach::Importers);
    assert_eq!(
        rows(&got),
        vec![(s("a.py"), 1, Some(s("helper"))), (s("b.py"), 1, None), (s("c.py"), 2, None)]
    );
    assert_eq!(reachable_from(&e, &s("util.py"), 1, Reach::Importers).len(), 2);
    assert!(reachable_from(&e, &s("util.py"), 0, Reach::Importers).is_empty());
}

#[test]
fn imports_walk_follows_edges_forward() {
    let e = edges();
    let got = reachable_from(&e, &s("c.py"), 5, Reach::Imports);
    assert_eq!(
        rows(&got),
        vec![(s("a.py"), 1, None), (s("util.py"), 2, Some(s("helper"))), (s("lib/x.py"), 3, Some(s("X")))]
    );
}

#[test]
fn ranking_by_transitive_reach_then_direct_then_path() {
    let e = edges();
    assert_eq!(
        ranks(&ranked_by_reach(&e, 3, 10, Reach::Importers, "")),
        vec![
            (s("lib/x.py"), Some(s("X")), 1, 4),
            (s("util.py"), Some(s("helper")), 2, 3),
            (s("a.py"), None, 1, 1),
        ]
    );
    assert_eq!(ranked_by_reach(&e, 3, 2, Reach::Importers, "").len(), 2);
    assert_eq!(
        ranks(&ranked_by_reach(&e, 3, 10, Reach::Importers, "lib/")),
        vec![(s("lib/x.py"), Some(s("X")), 1, 4)]
    );
    assert_eq!(
        ranks(&ranked_by_reach(&e, 5, 10, Reach::Imports, "")),
        vec![
            (s("c.py"), None, 1, 3),
            (s("b.py"), None, 1, 2),
            (s("a.py"), None, 1, 2),
            (s("util.py"), None, 1, 1),
        ]
    );
}

#[test]
fn scope_is_the_path_or_below_it() {
    assert!(scope_contains("", "any/file.py"));
    assert!(scope_contains("src//", "src/a.py"));
    assert!(scope_contains("src", "src"));
    assert!(!scope_contains("src", "srcx/a.py"));
}

#[test]
fn ids_and_confidence_classes() {
    assert_eq!(symbol_id("src/a.py", "run"), "src/a.py::run");
    assert_eq!(module_id("pkg/mod.py", Some("python")), "module::pkg.mod");
    assert_eq!(module_id("src/app.ts", Some("typescript")), "module::src/app");
    for c in ["EXTRACTED", "INFERRED", "AMBIGUOUS"] {
        assert_eq!(confidence_name(confidence_code(c)), c);
    }
    assert_eq!(confidence_code("whatever"), 2);
}

fn langs() -> Vec<(String, Option<String>)> {
    vec![(s("util.py"), Some(s("python"))), (s("lib/x.py"), Some(s("python"))), (s("a.py"), None)]
}

#[test]
fn path_report_names_rows_by_direction() {
    let e = edges();
    let ranked = ranked_by_reach(&e, 3, 10, Reach::Importers, "");
    let rows = path_rows(Direction::Dependents, &ranked, &langs());
    assert_eq!(rows[0].rank, 1);
    assert_eq!(rows[0].row.node_id, "lib/x.py::X");
    assert_eq!(rows[0].row.kind, "symbol");
    assert_eq!(rows[2].row.node_id, "module::a");
    assert_eq!(rows[2].row.label, "a");
    let back = path_rows(Direction::Dependencies, &ranked, &langs());
    assert_eq!(back[0].row.node_id, "module::lib.x");
    assert_eq!(back[0].row.kind, "module");
    let shoulders = vec![(s("util.py"), s("util.py | 3 callers"))];
    let lines = path_report_lines(Direction::Dependents, &rows, "src", 3, &shoulders);
    assert_eq!(
        lines,
        vec![
            s("Top 3 most-depended-on nodes in src (transitive depth \u{2264} 3):"),
            s("  #   direct  transitive  kind        symbol @ source"),
            s("  1        1           4  symbol      X @ lib/x.py:1"),
            s("  2        2           3  symbol      helper @ util.py:1"),
            s("        util.py | 3 callers"),
            s("  3        1           1  module      a @ a.py:1"),
        ]
    );
    assert_eq!(
        path_report_lines(Direction::Dependencies, &Vec::new(), "src", 3, &shoulders),
        vec![s("(no files with dependencies found in this scope)")]
    );
}

#[test]
fn symbol_report_lists_each_reached_file() {
    let e = edges();
    let chain = reachable_from(&e, &s("util.py"), 2, Reach::Importers);
    let subject = (s("module::util"), s("util"), s("module"), s("util.py"), 1);
    let lines = subject_report_lines(Direction::Dependents, &subject, &chain, 2, &langs(), &Vec::new());
    assert_eq!(
        lines,
        vec![
            s(""),
            s("util [module] @ util.py:1"),
            s("  depended on by (depth \u{2264} 2):"),
            s("    [d=1] a [module] @ a.py:1"),
            s("    [d=1] b [module] @ b.py:1"),
            s("    [d=2] c [module] @ c.py:1"),
        ]
    );
    let none = subject_report_lines(Direction::Dependencies, &subject, &Vec::new(), 2, &langs(), &Vec::new());
    assert_eq!(none[3], "    (no dependencies found)");
    let row = reached_row(Direction::Dependencies, &chain[0], &langs());
    assert_eq!((row.node_id.as_str(), row.depth), ("a.py::helper", 1));
}
