use tracer::architecture::{dependencies_of, dependents_of, find_symbols, transitive_dependencies, transitive_dependents, Edge, Graph, Node};
use tracer::blame::{collapse_regions, format_region, humanize_age, isoformat_date, parse_lines, parse_porcelain, short_sha, LinesError};
use tracer::extraction::{is_supported, supported_extensions, Export, ExtractionResult, Import};
use tracer::git_status::{parse_porcelain as parse_status, staging_state, staging_word, working_tree_state};
use tracer::graph_build::{build_from_facts, SourceFacts};
use tracer::labels::{check_dependencies, reports_universal_ctags, Direction};

const PORCELAIN: &str = "aaaaaaaa11111111 3 1 2\nauthor Ada\nauthor-time 86400\nauthor-tz +0000\nsummary first\n\tline one\naaaaaaaa11111111 4 2\n\tline two\nbbbbbbbb22222222 1 3 1\nauthor Bo\nauthor-time 0\nsummary second\n\tline three\n";

#[test]
fn blame_porcelain_parses_and_collapses() {
    let lines = parse_porcelain(PORCELAIN);
    assert_eq!(lines.len(), 3);
    assert_eq!(lines[0].line, 1);
    assert_eq!(lines[0].author, "Ada");
    assert_eq!(lines[0].author_time, 86400);
    assert_eq!(lines[1].line, 2);
    assert_eq!(lines[1].author, "Ada");
    assert_eq!(lines[1].summary, "first");
    assert_eq!(lines[2].author, "Bo");
    assert_eq!(lines[2].author_tz, "+0000");
    let regions = collapse_regions(&lines);
    assert_eq!(regions.len(), 2);
    assert_eq!((regions[0].line_start, regions[0].line_end), (1, 2));
    assert_eq!(regions[1].line_start, 3);
}

#[test]
fn blame_rendering_pieces() {
    assert_eq!(parse_lines("3:9"), Ok((3, 9)));
    assert_eq!(parse_lines("9:3"), Err(LinesError::BadBounds));
    assert_eq!(parse_lines("x"), Err(LinesError::NotARange));
    assert_eq!(parse_lines("a:b"), Err(LinesError::NotIntegers));
    assert_eq!(short_sha("0000000000000000"), "uncommitted");
    assert_eq!(short_sha("abcdef0123456789"), "abcdef01");
    assert_eq!(isoformat_date(0), "\u{2014}");
    assert_eq!(isoformat_date(86400), "1970-01-02");
    assert_eq!(humanize_age(0, 1000), "uncommitted");
    assert_eq!(humanize_age(100, 130), "30s ago");
    assert_eq!(humanize_age(0 + 1, 1 + 3 * 3600), "3h ago");
    assert_eq!(humanize_age(1, 1 + 400 * 86400), "1y ago");
    let lines = parse_porcelain(PORCELAIN);
    let regions = collapse_regions(&lines);
    let row = format_region(&regions[0], 86400 + 120);
    assert!(row.starts_with("  L1-L2          aaaaaaaa    1970-01-02  2m ago      Ada"));
    assert!(row.ends_with(" first"));
}

fn graph_fixture() -> Graph {
    let facts = vec![
        SourceFacts {
            path: "src/a.py".to_string(),
            language: Some("python".to_string()),
            extraction: Some(ExtractionResult {
                language: "python".to_string(),
                imports: vec![Import { module: "src.b".to_string(), symbol: Some("helper".to_string()), line: 1 }],
                exports: vec![Export { name: "main".to_string(), kind: "function".to_string(), line: 3 }],
            }),
        },
        SourceFacts {
            path: "src/b.py".to_string(),
            language: Some("python".to_string()),
            extraction: Some(ExtractionResult {
                language: "python".to_string(),
                imports: vec![],
                exports: vec![Export { name: "helper".to_string(), kind: "function".to_string(), line: 1 }],
            }),
        },
    ];
    build_from_facts(&facts)
}

#[test]
fn graph_edges_run_from_importer_to_import() {
    let g = graph_fixture();
    assert_eq!(g.edges.len(), 1);
    let e = &g.edges[0];
    assert_eq!(e.relation, "imports");
    assert_eq!(e.source, "module::src.a");
    let deps = dependencies_of(&g, "module::src.a");
    assert_eq!(deps.len(), 1);
    let target = deps[0].target.clone();
    let back = dependents_of(&g, &target);
    assert_eq!(back.len(), 1);
    assert_eq!(back[0].source, "module::src.a");
    let hits = find_symbols(&g, "HELPER");
    assert_eq!(hits.len(), 1);
    assert_eq!(hits[0].label, "helper");
    let reached = transitive_dependents(&g, &target, 3);
    assert_eq!(reached.len(), 1);
    assert_eq!(reached[0].1, 1);
    assert!(transitive_dependents(&g, &target, 0).is_empty());
}

#[test]
fn supported_files_by_extension() {
    assert!(is_supported("src/app.py"));
    assert!(is_supported("web/App.TSX"));
    assert!(!is_supported("README.md"));
    assert!(supported_extensions().contains(&"rs") || !supported_extensions().is_empty());
}

#[test]
fn porcelain_status_words() {
    let raw = b" M src/a.rs\0?? new.txt\0A  added.rs\0R  to.rs\0from.rs\0";
    let p = parse_status(raw);
    let working = working_tree_state(&p);
    let staging = staging_state(&p);
    let w: Vec<(&str, &str)> = working.iter().map(|(a, b)| (a.as_str(), b.as_str())).collect();
    assert!(w.contains(&("src/a.rs", "modified")));
    assert!(w.contains(&("new.txt", "untracked")));
    assert!(w.contains(&("added.rs", "added")));
    assert!(w.contains(&("to.rs", "renamed")));
    let s: Vec<(&str, &str)> = staging.iter().map(|(a, b)| (a.as_str(), b.as_str())).collect();
    assert!(s.contains(&("src/a.rs", "unstaged")));
    assert!(s.contains(&("added.rs", "staged")));
    assert!(!s.iter().any(|(p, _)| *p == "new.txt"));
    assert_eq!(staging_word('M', 'M').as_deref(), Some("partly staged"));
}

#[test]
fn doctor_splits_found_from_missing() {
    let (missing, present) = check_dependencies(&vec![true, false, true, true, false]);
    assert_eq!(present, vec!["ast-grep", "ctags", "git"]);
    assert_eq!(missing, vec!["scc", "rg"]);
    assert_eq!(Direction::Dependents.rows_key(), Direction::Dependents.rows_key());
}

fn py_facts(path: &str, imports: Vec<Import>, exports: Vec<&str>) -> SourceFacts {
    SourceFacts {
        path: path.to_string(),
        language: Some("python".to_string()),
        extraction: Some(ExtractionResult {
            language: "python".to_string(),
            imports,
            exports: exports
                .into_iter()
                .map(|n| Export { name: n.to_string(), kind: "function".to_string(), line: 1 })
                .collect(),
        }),
    }
}

#[test]
fn graph_edges_resolve_targets_and_confidence() {
    let imp = |m: &str, s: Option<&str>| Import { module: m.to_string(), symbol: s.map(|x| x.to_string()), line: 1 };
    let facts = vec![
        py_facts(
            "src/a.py",
            vec![imp("src.b", Some("helper")), imp("os", None), imp("nowhere", Some("dup")), imp("src.b", None)],
            vec![],
        ),
        py_facts("src/b.py", vec![], vec!["helper", "dup"]),
        py_facts("src/c.py", vec![], vec!["dup"]),
    ];
    let g = build_from_facts(&facts);
    let got: Vec<(&str, &str)> = g.edges.iter().map(|e| (e.target.as_str(), e.confidence.as_str())).collect();
    assert_eq!(
        got,
        vec![
            ("src/b.py::helper", "EXTRACTED"),
            ("module::external::os", "EXTRACTED"),
            ("module::external::nowhere", "AMBIGUOUS"),
            ("module::src.b", "EXTRACTED"),
        ]
    );
    for e in &g.edges {
        assert!(g.nodes.iter().any(|(k, _)| *k == e.target));
    }
}

#[test]
fn universal_ctags_is_told_apart_from_bsd_ctags() {
    assert!(reports_universal_ctags("Universal Ctags 6.1.0, Copyright (C) 2015-2023 Universal Ctags Team\n"));
    assert!(!reports_universal_ctags("ctags: illegal option -- -\nusage: ctags [-BFadtuwvx]"));
    assert!(!reports_universal_ctags(""));
}

fn fn_node(id: &str) -> (String, Node) {
    (
        id.to_string(),
        Node { id: id.to_string(), label: id.to_string(), kind: "function".to_string(), source_file: None, source_line: None },
    )
}

fn edge(source: &str, target: &str) -> Edge {
    Edge { source: source.to_string(), target: target.to_string(), relation: "calls".to_string(), confidence: "EXTRACTED".to_string() }
}

#[test]
fn traversal_rows_come_in_breadth_first_meeting_order() {
    let g = Graph {
        nodes: vec![fn_node("s"), fn_node("a"), fn_node("b"), fn_node("c"), fn_node("d")],
        edges: vec![edge("c", "s"), edge("a", "s"), edge("d", "a"), edge("b", "c"), edge("c", "s"), edge("ghost", "s")],
        symbol_index: vec![],
        module_index: vec![],
        file_to_module_id: vec![],
    };
    let rows: Vec<(&str, i64)> = transitive_dependents(&g, "s", 5).iter().map(|(n, d)| (n.id.as_str(), *d)).collect();
    assert_eq!(rows, vec![("c", 1), ("a", 1), ("b", 2), ("d", 2)]);
    let one: Vec<&str> = transitive_dependents(&g, "s", 1).iter().map(|(n, _)| n.id.as_str()).collect();
    assert_eq!(one, vec!["c", "a"]);
    let down: Vec<(&str, i64)> = transitive_dependencies(&g, "d", 5).iter().map(|(n, d)| (n.id.as_str(), *d)).collect();
    assert_eq!(down, vec![("a", 1), ("s", 2)]);
}

#[test]
fn graph_indexes_hold_modules_symbols_and_files() {
    let facts = vec![
        py_facts("src/a.py", vec![], vec!["Main"]),
        py_facts("src/b.py", vec![], vec!["main", "Helper"]),
    ];
    let g = build_from_facts(&facts);
    let mi: Vec<(&str, &str)> = g.module_index.iter().map(|(k, v)| (k.as_str(), v.as_str())).collect();
    assert_eq!(mi, vec![("src.a", "module::src.a"), ("src.b", "module::src.b")]);
    let f2m: Vec<(&str, &str)> = g.file_to_module_id.iter().map(|(k, v)| (k.as_str(), v.as_str())).collect();
    assert_eq!(f2m, vec![("src/a.py", "module::src.a"), ("src/b.py", "module::src.b")]);
    let main = g.symbol_index.iter().find(|(k, _)| k == "main").map(|(_, v)| v.clone()).unwrap();
    assert_eq!(main, vec!["src/a.py::Main".to_string(), "src/b.py::main".to_string()]);
    let keys: Vec<&str> = g.nodes.iter().map(|(k, _)| k.as_str()).collect();
    assert_eq!(keys, vec!["module::src.a", "src/a.py::Main", "module::src.b", "src/b.py::main", "src/b.py::Helper"]);
    let helper = &g.nodes[4].1;
    assert_eq!((helper.label.as_str(), helper.kind.as_str()), ("Helper", "function"));
    assert_eq!(helper.source_file.as_deref(), Some("src/b.py"));
    assert_eq!(helper.source_line, Some(1));
    let module = &g.nodes[0].1;
    assert_eq!((module.label.as_str(), module.kind.as_str(), module.source_line), ("src.a", "module", Some(1)));
}
