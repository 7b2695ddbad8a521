use tracer::architecture::{Edge, Graph, Node};
use tracer::upstream::{coupling_ranking, coupling_report_lines, dependency_lines};

fn s(x: &str) -> String {
    x.to_string()
}

fn node(id: &str, kind: &str, file: Option<&str>, line: Option<i64>) -> (String, Node) {
    (
        s(id),
        Node { id: s(id), label: s(id), kind: s(kind), source_file: file.map(s), source_line: line },
    )
}

fn edge(source: &str, target: &str, relation: &str) -> Edge {
    Edge { source: s(source), target: s(target), relation: s(relation), confidence: s("high") }
}

fn fixture() -> Graph {
    Graph {
        nodes: vec![
            node("a", "module", Some("a.py"), None),
            node("b", "module", Some("b.py"), Some(1)),
            node("x", "function", Some("x.py"), Some(4)),
            node("y", "function", None, None),
        ],
        edges: vec![
            edge("a", "x", "imports"),
            edge("a", "y", "imports"),
            edge("b", "x", "imports"),
            edge("module::external::os", "x", "imports"),
            edge("b", "y", "references"),
        ],
        symbol_index: vec![],
        module_index: vec![],
        file_to_module_id: vec![],
    }
}

#[test]
fn coupling_ranks_by_reach_then_direct_edges() {
    let g = fixture();
    let rows = coupling_ranking(&g, 3, 2);
    assert_eq!(rows.len(), 2);
    assert_eq!(rows[0].rank, 1);
    assert_eq!(rows[0].node.id, "a");
    assert_eq!(rows[0].direct_dependencies, 2);
    assert_eq!(rows[0].transitive_dependencies, 2);
    assert_eq!(rows[1].rank, 2);
    assert_eq!(rows[1].node.id, "b");
    assert_eq!(rows[1].direct_dependencies, 1);
    // the reference edge b -> y is walked but not counted as an import
    assert_eq!(rows[1].transitive_dependencies, 2);
    let lines = coupling_report_lines(&rows, "src", 3);
    assert_eq!(lines[0], "Top 2 highest-coupling nodes in src (transitive depth \u{2264} 3):");
    assert_eq!(lines[1], "  #   direct  transitive  kind        symbol @ source");
    assert_eq!(lines[2], format!("  {:<3} {:>6}  {:>10}  {:<10}  {} @ {}", 1, 2, 2, "module", "a", "a.py:None"));
    assert_eq!(lines[3], format!("  {:<3} {:>6}  {:>10}  {:<10}  {} @ {}", 2, 1, 2, "module", "b", "b.py:1"));
}

#[test]
fn coupling_ties_fall_to_direct_edges() {
    let g = fixture();
    let rows = coupling_ranking(&g, 1, 1);
    assert_eq!(rows.len(), 1);
    assert_eq!(rows[0].node.id, "a");
    assert!(coupling_ranking(&g, 3, 0).is_empty());
    let none: Vec<tracer::upstream::CouplingRow> = vec![];
    let lines = coupling_report_lines(&none, "src", 3);
    assert_eq!(lines.len(), 1);
    assert!(lines[0].starts_with("(no nodes in the architecture graph"));
}

#[test]
fn dependency_lines_show_hops_and_locations() {
    let g = fixture();
    let a = &g.nodes[0].1;
    let x = &g.nodes[2].1;
    let y = &g.nodes[3].1;
    let lines = dependency_lines(a, &vec![(x, 1), (y, 1)], 2);
    assert_eq!(
        lines,
        vec![
            s(""),
            s("a [module] @ a.py:None"),
            s("  depends on (depth \u{2264} 2):"),
            s("    [d=1] x [function] @ x.py:4"),
            s("    [d=1] y [function] @ (external)"),
        ]
    );
    let none = dependency_lines(x, &vec![], 3);
    assert_eq!(none[1], "x [function] @ x.py:4");
    assert_eq!(none[3], "    (no architecture-graph dependencies found)");
}
