use tracer::ccn::{
    class_kinds, count_decision_nodes, facts_from_tree, function_nodes, lang_for_path, language_for, qualified_name,
    spec_for, Grammar, SyntaxNode,
};

fn node(kind: &str, named: bool, parent: Option<usize>, children: Vec<usize>, end: usize, rows: (i64, i64)) -> SyntaxNode {
    SyntaxNode {
        kind: kind.to_string(),
        named,
        parent,
        children,
        end,
        start_row: rows.0,
        end_row: rows.1,
        has_name: false,
        name_text: None,
        key_text: None,
        field: None,
        text: String::new(),
    }
}

fn named(mut n: SyntaxNode, name: &str) -> SyntaxNode {
    n.has_name = true;
    n.name_text = Some(name.to_string());
    n
}

/// def outer(x):
///     if x and y: ...
///     def inner():
///         if z: ...
fn nested_python() -> Vec<SyntaxNode> {
    vec![
        node("module", true, None, vec![1], 7, (0, 5)),
        named(node("function_definition", true, Some(0), vec![2, 5], 7, (0, 5)), "outer"),
        node("if_statement", true, Some(1), vec![3], 5, (1, 2)),
        node("boolean_operator", true, Some(2), vec![4], 5, (1, 1)),
        node("and", false, Some(3), vec![], 5, (1, 1)),
        named(node("function_definition", true, Some(1), vec![6], 7, (3, 5)), "inner"),
        node("if_statement", true, Some(5), vec![], 7, (4, 5)),
    ]
}

#[test]
fn nested_functions_are_counted_on_their_own() {
    let t = nested_python();
    let facts = facts_from_tree(&t, "python");
    assert_eq!(facts.len(), 2);
    assert_eq!(facts[0].name, "outer");
    assert_eq!(facts[0].start_line, 1);
    assert_eq!(facts[0].nloc, 6);
    assert_eq!(facts[0].cyclomatic_complexity, 3);
    assert_eq!(facts[1].name, "outer.inner");
    assert_eq!(facts[1].start_line, 4);
    assert_eq!(facts[1].nloc, 3);
    assert_eq!(facts[1].cyclomatic_complexity, 2);
}

#[test]
fn walk_meets_functions_in_stack_order() {
    let t = nested_python();
    let sp = spec_for("python").unwrap();
    assert_eq!(function_nodes(&t, &sp.function_kinds), vec![1, 5]);
    assert_eq!(count_decision_nodes(&t, 1, &sp), 2);
    assert_eq!(count_decision_nodes(&t, 5, &sp), 1);
}

#[test]
fn methods_are_qualified_by_their_class() {
    let t = vec![
        node("module", true, None, vec![1], 4, (0, 3)),
        named(node("class_definition", true, Some(0), vec![2], 4, (0, 3)), "Svc"),
        named(node("function_definition", true, Some(1), vec![3], 4, (1, 3)), "run"),
        node("lambda", true, Some(2), vec![], 4, (2, 2)),
    ];
    let facts = facts_from_tree(&t, "python");
    let names: Vec<&str> = facts.iter().map(|f| f.name.as_str()).collect();
    assert_eq!(names, vec!["Svc::run", "Svc::run.<lambda>"]);
    assert_eq!(facts[0].cyclomatic_complexity, 1);
    let sp = spec_for("python").unwrap();
    assert_eq!(qualified_name(&t, 3, "python", &sp.function_kinds), "Svc::run.<lambda>");
}

#[test]
fn typescript_arrow_takes_its_declarator_name() {
    // const handler = (a) => a ?? b || c;
    let mut decl = node("variable_declarator", true, Some(0), vec![2], 6, (0, 0));
    decl.has_name = true;
    decl.name_text = Some("handler".to_string());
    let t = vec![
        node("program", true, None, vec![1], 6, (0, 0)),
        decl,
        node("arrow_function", true, Some(1), vec![3], 6, (0, 0)),
        node("binary_expression", true, Some(2), vec![4, 5], 6, (0, 0)),
        node("??", false, Some(3), vec![], 5, (0, 0)),
        node("||", false, Some(3), vec![], 6, (0, 0)),
    ];
    let facts = facts_from_tree(&t, "typescript");
    assert_eq!(facts.len(), 1);
    assert_eq!(facts[0].name, "handler");
    assert_eq!(facts[0].cyclomatic_complexity, 3);
}

#[test]
fn unknown_language_has_no_facts() {
    let t = nested_python();
    assert!(facts_from_tree(&t, "cobol").is_empty());
    assert!(spec_for("cobol").is_none());
    let py = spec_for("python").unwrap();
    assert_eq!(py.boolean_operator_kind, Some("boolean_operator"));
    assert!(py.short_circuit.is_empty());
    let php = spec_for("php").unwrap();
    assert_eq!(php.short_circuit, vec!["&&", "||", "??", "and", "or", "xor"]);
}

#[test]
fn grammar_by_extension_and_rc_files() {
    assert_eq!(lang_for_path("src/App.TSX"), Some(("typescript", Grammar::Tsx)));
    assert_eq!(lang_for_path("lib/util.js"), Some(("typescript", Grammar::TypeScript)));
    assert_eq!(lang_for_path("x/main.rs"), Some(("rust", Grammar::Rust)));
    assert_eq!(lang_for_path("/home/u/.bashrc"), Some(("bash", Grammar::Bash)));
    assert_eq!(lang_for_path("etc/profile"), Some(("bash", Grammar::Bash)));
    assert_eq!(lang_for_path("Makefile"), None);
    assert_eq!(lang_for_path("notes.txt"), None);
    assert_eq!(language_for("h"), Some(("c", Grammar::C)));
    assert_eq!(class_kinds("ruby"), vec!["class", "module", "singleton_class"]);
    assert!(class_kinds("go").is_empty());
}
