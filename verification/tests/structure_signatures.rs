use tracer::ccn::SyntaxNode;
use tracer::signatures::{extract, signature_grammar, SigGrammar, Signature};

struct T {
    kind: &'static str,
    field: Option<&'static str>,
    text: &'static str,
    row: i64,
    kids: Vec<T>,
}

fn n(kind: &'static str, text: &'static str, kids: Vec<T>) -> T {
    T { kind, field: None, text, row: 0, kids }
}

fn f(field: &'static str, mut t: T) -> T {
    t.field = Some(field);
    t
}

fn at(row: i64, mut t: T) -> T {
    t.row = row;
    t
}

fn leaf(kind: &'static str, text: &'static str) -> T {
    n(kind, text, vec![])
}

fn flatten(t: &T, parent: Option<usize>, out: &mut Vec<SyntaxNode>) -> usize {
    let i = out.len();
    let name = t.kids.iter().find(|k| k.field == Some("name")).map(|k| k.text.to_string());
    out.push(SyntaxNode {
        kind: t.kind.to_string(),
        named: true,
        parent,
        children: vec![],
        end: 0,
        start_row: t.row,
        end_row: t.row,
        has_name: name.is_some(),
        name_text: name,
        key_text: None,
        field: t.field.map(|x| x.to_string()),
        text: t.text.to_string(),
    });
    let mut ch = vec![];
    for k in &t.kids {
        ch.push(flatten(k, Some(i), out));
    }
    out[i].children = ch;
    out[i].end = out.len();
    i
}

fn tree(t: T) -> Vec<SyntaxNode> {
    let mut out = vec![];
    flatten(&t, None, &mut out);
    out
}

fn names(s: &[Signature]) -> Vec<(&str, &str, i64)> {
    s.iter().map(|x| (x.name.as_str(), x.kind.as_str(), x.line)).collect()
}

#[test]
fn python_signatures_carry_parameters_and_bases() {
    let t = tree(n("module", "", vec![
        n("decorated_definition", "", vec![
            leaf("decorator", "@cached"),
            n("function_definition", "", vec![
                leaf("async", "async"),
                f("name", at(2, leaf("identifier", "load"))),
                f("parameters", n("parameters", "", vec![
                    leaf("identifier", "self"),
                    n("typed_parameter", "", vec![leaf("identifier", "path"), leaf("type", "str")]),
                    n("default_parameter", "", vec![f("name", leaf("identifier", "n")), f("value", leaf("integer", "3"))]),
                    leaf("list_splat_pattern", "*args"),
                    leaf("dictionary_splat_pattern", "**kw"),
                ])),
                f("return_type", leaf("type", "Data")),
            ]),
        ]),
        n("class_definition", "", vec![
            f("name", at(5, leaf("identifier", "Store"))),
            f("superclasses", n("argument_list", "", vec![
                leaf("(", "("), leaf("identifier", "Base"), leaf(",", ","), leaf("identifier", "Mixin"), leaf(")", ")"),
            ])),
        ]),
    ]));
    assert_eq!(signature_grammar("pkg/mod.PY"), Some(SigGrammar::Python));
    let sigs = extract(&t, SigGrammar::Python);
    assert_eq!(names(&sigs), vec![("Store", "class", 6), ("load", "function", 3)]);
    assert_eq!(sigs[0].extra.bases, vec!["Base", "Mixin"]);
    let load = &sigs[1].extra;
    assert_eq!(load.decorators, vec!["@cached"]);
    assert!(load.is_async);
    assert_eq!(load.return_type.as_deref(), Some("Data"));
    let ps = load.parameters.as_ref().unwrap();
    assert_eq!(ps.len(), 5);
    assert_eq!(ps[0].name.as_deref(), Some("self"));
    assert_eq!((ps[1].name.as_deref(), ps[1].type_text.as_deref()), (Some("path"), Some("str")));
    assert_eq!((ps[2].name.as_deref(), ps[2].default.as_deref()), (Some("n"), Some("3")));
    assert!(ps[3].variadic && ps[3].name.as_deref() == Some("*args"));
    assert!(ps[4].keyword_variadic && ps[4].name.as_deref() == Some("**kw"));
}

#[test]
fn php_signatures_cover_classes_methods_and_hooked_properties() {
    let t = tree(n("program", "", vec![
        n("class_declaration", "", vec![
            n("attribute_list", "", vec![n("attribute_group", "", vec![
                n("attribute", "Entity(table: 'x')", vec![leaf("name", "Entity"), leaf("arguments", "(table: 'x')")]),
            ])]),
            leaf("final_modifier", "final"),
            f("name", at(1, leaf("name", "User"))),
            n("base_clause", "", vec![leaf("extends", "extends"), leaf("name", "Model")]),
            n("class_interface_clause", "", vec![leaf("implements", "implements"), leaf("name", "A"), leaf("qualified_name", "B\\C")]),
            n("declaration_list", "", vec![
                n("property_declaration", "", vec![
                    leaf("visibility_modifier", "public"),
                    leaf("primitive_type", "string"),
                    n("property_element", "", vec![
                        at(3, n("variable_name", "$email", vec![leaf("$", "$"), f("name", leaf("name", "email"))])),
                        n("property_initializer", "", vec![leaf("=", "="), leaf("string", "'x'")]),
                    ]),
                    n("property_hook_list", "", vec![n("property_hook", "get => 1", vec![leaf("name", "get")])]),
                ]),
                n("method_declaration", "", vec![
                    leaf("visibility_modifier", "public"),
                    leaf("static_modifier", "static"),
                    f("name", at(4, leaf("name", "make"))),
                    n("formal_parameters", "", vec![
                        n("simple_parameter", "", vec![leaf("named_type", "int"), leaf("variable_name", "$id"), leaf("=", "="), leaf("integer", "0")]),
                        n("variadic_parameter", "", vec![leaf("...", "..."), leaf("variable_name", "$rest")]),
                    ]),
                    leaf(":", ":"),
                    leaf("primitive_type", "self"),
                    leaf("compound_statement", "{}"),
                ]),
            ]),
        ]),
    ]));
    let sigs = extract(&t, SigGrammar::Php);
    assert_eq!(names(&sigs), vec![("User", "class", 2), ("make", "function", 5), ("email", "property", 4)]);
    let user = &sigs[0].extra;
    assert_eq!(user.attributes.len(), 1);
    assert_eq!(user.attributes[0].name.as_deref(), Some("Entity"));
    assert_eq!(user.attributes[0].source, "Entity(table: 'x')");
    assert_eq!(user.modifiers, vec!["final"]);
    assert_eq!(user.extends.as_deref(), Some("Model"));
    assert_eq!(user.implements, vec!["A", "B\\C"]);
    let make = &sigs[1].extra;
    assert_eq!(make.visibility.as_deref(), Some("public"));
    assert_eq!(make.modifiers, vec!["public", "static"]);
    assert_eq!(make.return_type.as_deref(), Some("self"));
    let ps = make.parameters.as_ref().unwrap();
    assert_eq!((ps[0].name.as_deref(), ps[0].type_text.as_deref(), ps[0].default.as_deref()), (Some("id"), Some("int"), Some("0")));
    assert!(ps[1].variadic && ps[1].name.as_deref() == Some("rest"));
    let email = &sigs[2].extra;
    assert_eq!(email.type_text.as_deref(), Some("string"));
    assert_eq!(email.default.as_deref(), Some("'x'"));
    assert_eq!(email.hooks.len(), 1);
    assert_eq!(email.hooks[0].accessor.as_deref(), Some("get"));
}

#[test]
fn typescript_signatures_read_decorators_heritage_and_annotations() {
    let t = tree(n("program", "", vec![
        n("export_statement", "", vec![
            leaf("decorator", "@Injectable()"),
            n("class_declaration", "", vec![
                f("name", leaf("type_identifier", "Svc")),
                n("class_heritage", "", vec![
                    n("extends_clause", "", vec![leaf("extends", "extends"), leaf("identifier", "Base")]),
                    n("implements_clause", "", vec![leaf("implements", "implements"), leaf("type_identifier", "A"), leaf(",", ","), leaf("generic_type", "B<T>")]),
                ]),
                n("class_body", "", vec![
                    n("method_definition", "", vec![
                        leaf("accessibility_modifier", "private"),
                        leaf("async", "async"),
                        f("name", at(2, leaf("property_identifier", "run"))),
                        f("parameters", n("formal_parameters", "", vec![
                            n("required_parameter", "", vec![
                                leaf("accessibility_modifier", "public"),
                                leaf("readonly", "readonly"),
                                f("pattern", leaf("identifier", "x")),
                                f("type", leaf("type_annotation", ": number")),
                            ]),
                            n("optional_parameter", "", vec![
                                f("pattern", leaf("identifier", "y")),
                                f("type", leaf("type_annotation", ":  string ")),
                            ]),
                        ])),
                        f("return_type", leaf("type_annotation", ": Promise<void>")),
                    ]),
                    n("public_field_definition", "", vec![
                        leaf("static", "static"),
                        f("name", leaf("property_identifier", "count")),
                        f("type", leaf("type_annotation", ": number")),
                        f("value", leaf("number", "0")),
                    ]),
                ]),
            ]),
        ]),
        n("interface_declaration", "", vec![
            f("name", leaf("type_identifier", "Shape")),
            n("extends_type_clause", "", vec![leaf("extends", "extends"), leaf("type_identifier", "A"), leaf("generic_type", "B<C>")]),
        ]),
    ]));
    assert_eq!(signature_grammar("web/App.tsx"), Some(SigGrammar::Tsx));
    assert_eq!(signature_grammar("README.md"), None);
    let sigs = extract(&t, SigGrammar::Tsx);
    assert_eq!(names(&sigs), vec![("Shape", "interface", 1), ("Svc", "class", 1), ("count", "property", 1), ("run", "function", 3)]);
    assert_eq!(sigs[0].extra.extends_list, vec!["A", "B<C>"]);
    let svc = &sigs[1].extra;
    assert_eq!(svc.decorators, vec!["@Injectable()"]);
    assert_eq!(svc.extends.as_deref(), Some("Base"));
    assert_eq!(svc.implements, vec!["A", "B<T>"]);
    let count = &sigs[2].extra;
    assert_eq!(count.modifiers, vec!["static"]);
    assert_eq!(count.type_text.as_deref(), Some("number"));
    assert_eq!(count.default.as_deref(), Some("0"));
    let run = &sigs[3].extra;
    assert_eq!(run.visibility.as_deref(), Some("private"));
    assert_eq!(run.modifiers, vec!["private", "async"]);
    assert!(run.is_async);
    assert_eq!(run.return_type.as_deref(), Some("Promise<void>"));
    let ps = run.parameters.as_ref().unwrap();
    assert_eq!(ps[0].visibility.as_deref(), Some("public"));
    assert_eq!(ps[0].modifiers, vec!["public", "readonly"]);
    assert_eq!((ps[0].name.as_deref(), ps[0].type_text.as_deref()), (Some("x"), Some("number")));
    assert!(ps[1].optional);
    assert_eq!(ps[1].type_text.as_deref(), Some("string"));
}
