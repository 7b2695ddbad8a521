use tracer::extraction::Import;
use tracer::facts::FunctionFact;
use tracer::signatures::{Extra, Signature};
use tracer::structure::{merge_symbols, report_lines, Symbol};

fn s(x: &str) -> String {
    x.to_string()
}

fn extra() -> Extra {
    Extra {
        attributes: vec![],
        decorators: vec![],
        modifiers: vec![],
        visibility: None,
        extends: None,
        extends_list: vec![],
        implements: vec![],
        bases: vec![],
        type_parameters: None,
        parameters: None,
        return_type: None,
        is_async: false,
        is_abstract: false,
        type_text: None,
        default: None,
        hooks: vec![],
    }
}

fn sym(name: &str, kind: &str, line: Option<i64>) -> Symbol {
    Symbol {
        name: s(name),
        kind: s(kind),
        line,
        scope: None,
        scope_kind: None,
        signature: None,
        cyclomatic_complexity: None,
        extra: None,
    }
}

fn fact(line: i64, ccn: i64) -> FunctionFact {
    FunctionFact { name: s("f"), start_line: line, nloc: 1, cyclomatic_complexity: ccn }
}

#[test]
fn symbols_join_signatures_and_backfill_in_line_order() {
    let mut load = sym("load", "function", Some(3));
    load.signature = Some(s("(self)"));
    load.scope = Some(s("Store"));
    let syms = vec![load, sym("X", "variable", Some(1)), sym("nol", "variable", None)];
    let mut ret = extra();
    ret.return_type = Some(s("Data"));
    let sigs = vec![
        Signature { name: s("load"), kind: s("function"), line: 3, extra: ret },
        Signature { name: s("Store"), kind: s("class"), line: 2, extra: extra() },
    ];
    let merged = merge_symbols(&syms, &sigs, &vec![fact(3, 4), fact(2, 1)]);
    let order: Vec<&str> = merged.iter().map(|x| x.name.as_str()).collect();
    assert_eq!(order, vec!["nol", "X", "Store", "load"]);
    assert_eq!(merged[2].cyclomatic_complexity, Some(1));
    assert_eq!(merged[3].cyclomatic_complexity, Some(4));
    assert_eq!(merged[3].extra.as_ref().unwrap().return_type.as_deref(), Some("Data"));
    assert!(merged[1].extra.is_none());

    let imports = vec![Import { module: s("os"), symbol: None, line: 1 }];
    let lines = report_lines("a.py", &Some(s("python")), &imports, &vec![], &merged);
    let want = vec![
        s("File: a.py"),
        s("Language: python"),
        s("Symbols: 4  Imports: 1  Exports: 0"),
        s(""),
        s("Imports:"),
        format!("  L{:<5} {}", 1, "os"),
        s(""),
        s("classs:"),
        format!("  L{:<5} {}", 2, "Store") + " cyclomatic_complexity=1",
        s(""),
        s("functions:"),
        format!("  L{:<5} {}", 3, "load") + " (self) [in Store] cyclomatic_complexity=4",
        s(""),
        s("variables:"),
        format!("  L{:<5} {}", 0, "nol"),
        format!("  L{:<5} {}", 1, "X"),
        s(""),
    ];
    assert_eq!(lines, want);
}
