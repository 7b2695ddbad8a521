//! Per-function cyclomatic complexity over a parsed syntax tree.
//!
//! Complexity follows McCabe: it starts at 1 and each branch point of the
//! function's own body adds one (if/elif, loops, case arms, catch clauses,
//! conditionals, short-circuit operators); nested functions are counted on
//! their own. Names are qualified by their enclosing functions (`outer.inner`)
//! and classes (`Class::method`).

use crate::blame::opt_view;
use crate::facts::FunctionFact;
use crate::paths::{extension, extension_of, file_name_bounds, file_name_range};
use crate::text::{chars_of, concat, str_eq, string_of_range, to_lowercase, unicode_lowercase};
use vstd::prelude::*;

verus! {

/// What a language's grammar calls a function, which node kinds are branch
/// points, and how short-circuit operators show up.
#[derive(Debug)]
pub struct LangSpec {
    pub function_kinds: Vec<&'static str>,
    pub decision_kinds: Vec<&'static str>,
    /// A parent kind whose `and`/`or` token children each count.
    pub boolean_operator_kind: Option<&'static str>,
    /// Operator tokens counted wherever they stand as a direct child.
    pub short_circuit: Vec<&'static str>,
}

pub type SpecRow = (Seq<Seq<char>>, Seq<Seq<char>>, Option<Seq<char>>, Seq<Seq<char>>);

pub open spec fn strs(v: Seq<&'static str>) -> Seq<Seq<char>> {
    v.map_values(|s: &'static str| s@)
}

pub open spec fn spec_row(s: LangSpec) -> SpecRow {
    (
        strs(s.function_kinds@),
        strs(s.decision_kinds@),
        match s.boolean_operator_kind {
            Some(k) => Some(k@),
            None => None,
        },
        strs(s.short_circuit@),
    )
}

/// The complexity rules of each language the analysis knows.
pub open spec fn lang_rules(lang: Seq<char>) -> Option<SpecRow> {
    if lang == "python"@ {
        Some((
            seq!["function_definition"@, "lambda"@],
            seq![
                "if_statement"@, "elif_clause"@, "for_statement"@, "while_statement"@, "except_clause"@,
                "case_clause"@, "conditional_expression"@, "if_clause"@, "for_in_clause"@,
            ],
            Some("boolean_operator"@),
            Seq::empty(),
        ))
    } else if lang == "typescript"@ {
        Some((
            seq![
                "function_declaration"@, "function_expression"@, "arrow_function"@, "method_definition"@,
                "generator_function"@, "generator_function_declaration"@,
            ],
            seq![
                "if_statement"@, "for_statement"@, "for_in_statement"@, "while_statement"@, "do_statement"@,
                "switch_case"@, "catch_clause"@, "ternary_expression"@,
            ],
            None,
            seq!["&&"@, "||"@, "??"@],
        ))
    } else if lang == "php"@ {
        Some((
            seq![
                "function_definition"@, "method_declaration"@, "anonymous_function"@,
                "anonymous_function_creation_expression"@, "arrow_function"@,
            ],
            seq![
                "if_statement"@, "else_if_clause"@, "for_statement"@, "foreach_statement"@, "while_statement"@,
                "do_statement"@, "case_statement"@, "catch_clause"@, "conditional_expression"@,
            ],
            None,
            seq!["&&"@, "||"@, "??"@, "and"@, "or"@, "xor"@],
        ))
    } else if lang == "bash"@ {
        Some((
            seq!["function_definition"@],
            seq![
                "if_statement"@, "elif_clause"@, "for_statement"@, "c_style_for_statement"@, "while_statement"@,
                "case_item"@, "ternary_expression"@,
            ],
            None,
            seq!["&&"@, "||"@],
        ))
    } else if lang == "lua"@ {
        Some((
            seq!["function_declaration"@, "function_definition"@],
            seq!["if_statement"@, "elseif_statement"@, "for_statement"@, "while_statement"@],
            None,
            seq!["and"@, "or"@],
        ))
    } else if lang == "go"@ {
        Some((
            seq!["function_declaration"@, "method_declaration"@, "func_literal"@],
            seq![
                "if_statement"@, "for_statement"@, "expression_case"@, "type_case"@, "communication_case"@,
                "select_statement"@,
            ],
            None,
            seq!["&&"@, "||"@],
        ))
    } else if lang == "rust"@ {
        Some((
            seq!["function_item"@, "closure_expression"@],
            seq![
                "if_expression"@, "for_expression"@, "while_expression"@, "loop_expression"@, "match_arm"@,
                "let_condition"@,
            ],
            None,
            seq!["&&"@, "||"@],
        ))
    } else if lang == "ruby"@ {
        Some((
            seq!["method"@, "singleton_method"@, "lambda"@, "do_block"@, "block"@],
            seq![
                "if"@, "elsif"@, "unless"@, "while"@, "until"@, "for"@, "case"@, "case_match"@, "when"@,
                "in_clause"@, "rescue"@, "conditional"@, "if_modifier"@, "unless_modifier"@, "while_modifier"@,
                "until_modifier"@, "rescue_modifier"@,
            ],
            None,
            seq!["&&"@, "||"@, "and"@, "or"@],
        ))
    } else if lang == "java"@ {
        Some((
            seq!["method_declaration"@, "constructor_declaration"@, "lambda_expression"@],
            seq![
                "if_statement"@, "for_statement"@, "enhanced_for_statement"@, "while_statement"@,
                "do_statement"@, "catch_clause"@, "switch_label"@, "ternary_expression"@,
            ],
            None,
            seq!["&&"@, "||"@],
        ))
    } else if lang == "c"@ {
        Some((
            seq!["function_definition"@],
            seq![
                "if_statement"@, "for_statement"@, "while_statement"@, "do_statement"@, "case_statement"@,
                "conditional_expression"@, "preproc_if"@, "preproc_ifdef"@, "preproc_elif"@,
            ],
            None,
            seq!["&&"@, "||"@],
        ))
    } else {
        None
    }
}

fn rules(
    function_kinds: Vec<&'static str>,
    decision_kinds: Vec<&'static str>,
    boolean_operator_kind: Option<&'static str>,
    short_circuit: Vec<&'static str>,
) -> (r: LangSpec)
    ensures
        r.function_kinds@ == function_kinds@,
        r.decision_kinds@ == decision_kinds@,
        r.boolean_operator_kind == boolean_operator_kind,
        r.short_circuit@ == short_circuit@,
{
    LangSpec { function_kinds, decision_kinds, boolean_operator_kind, short_circuit }
}

/// The complexity rules for the language id `lang`; none for a language
/// the analysis does not know.
pub fn spec_for(lang: &str) -> (r: Option<LangSpec>)
    ensures
        match r {
            Some(s) => lang_rules(lang@) == Some(spec_row(s)),
            None => lang_rules(lang@) is None,
        },
{
    let r = if str_eq(lang, "python") {
        rules(
            vec!["function_definition", "lambda"],
            vec![
                "if_statement", "elif_clause", "for_statement", "while_statement", "except_clause",
                "case_clause", "conditional_expression", "if_clause", "for_in_clause",
            ],
            Some("boolean_operator"),
            Vec::new(),
        )
    } else if str_eq(lang, "typescript") {
        rules(
            vec![
                "function_declaration", "function_expression", "arrow_function", "method_definition",
                "generator_function", "generator_function_declaration",
            ],
            vec![
                "if_statement", "for_statement", "for_in_statement", "while_statement", "do_statement",
                "switch_case", "catch_clause", "ternary_expression",
            ],
            None,
            vec!["&&", "||", "??"],
        )
    } else if str_eq(lang, "php") {
        rules(
            vec![
                "function_definition", "method_declaration", "anonymous_function",
                "anonymous_function_creation_expression", "arrow_function",
            ],
            vec![
                "if_statement", "else_if_clause", "for_statement", "foreach_statement", "while_statement",
                "do_statement", "case_statement", "catch_clause", "conditional_expression",
            ],
            None,
            vec!["&&", "||", "??", "and", "or", "xor"],
        )
    } else if str_eq(lang, "bash") {
        rules(
            vec!["function_definition"],
            vec![
                "if_statement", "elif_clause", "for_statement", "c_style_for_statement", "while_statement",
                "case_item", "ternary_expression",
            ],
            None,
            vec!["&&", "||"],
        )
    } else if str_eq(lang, "lua") {
        rules(
            vec!["function_declaration", "function_definition"],
            vec!["if_statement", "elseif_statement", "for_statement", "while_statement"],
            None,
            vec!["and", "or"],
        )
    } else if str_eq(lang, "go") {
        rules(
            vec!["function_declaration", "method_declaration", "func_literal"],
            vec![
                "if_statement", "for_statement", "expression_case", "type_case", "communication_case",
                "select_statement",
            ],
            None,
            vec!["&&", "||"],
        )
    } else if str_eq(lang, "rust") {
        rules(
            vec!["function_item", "closure_expression"],
            vec![
                "if_expression", "for_expression", "while_expression", "loop_expression", "match_arm",
                "let_condition",
            ],
            None,
            vec!["&&", "||"],
        )
    } else if str_eq(lang, "ruby") {
        rules(
            vec!["method", "singleton_method", "lambda", "do_block", "block"],
            vec![
                "if", "elsif", "unless", "while", "until", "for", "case", "case_match", "when", "in_clause",
                "rescue", "conditional", "if_modifier", "unless_modifier", "while_modifier", "until_modifier",
                "rescue_modifier",
            ],
            None,
            vec!["&&", "||", "and", "or"],
        )
    } else if str_eq(lang, "java") {
        rules(
            vec!["method_declaration", "constructor_declaration", "lambda_expression"],
            vec![
                "if_statement", "for_statement", "enhanced_for_statement", "while_statement", "do_statement",
                "catch_clause", "switch_label", "ternary_expression",
            ],
            None,
            vec!["&&", "||"],
        )
    } else if str_eq(lang, "c") {
        rules(
            vec!["function_definition"],
            vec![
                "if_statement", "for_statement", "while_statement", "do_statement", "case_statement",
                "conditional_expression", "preproc_if", "preproc_ifdef", "preproc_elif",
            ],
            None,
            vec!["&&", "||"],
        )
    } else {
        return None;
    };
    assert(spec_row(r) =~~= lang_rules(lang@)->0);
    Some(r)
}

proof fn lemma_rules_python()
    ensures
        lang_rules("python"@) == Some((seq!["function_definition"@, "lambda"@], seq!["if_statement"@, "elif_clause"@, "for_statement"@, "while_statement"@, "except_clause"@, "case_clause"@, "conditional_expression"@, "if_clause"@, "for_in_clause"@], Some("boolean_operator"@), Seq::<Seq<char>>::empty())),
{
    reveal_strlit("python");
}

proof fn lemma_rules_typescript()
    ensures
        lang_rules("typescript"@) == Some((seq!["function_declaration"@, "function_expression"@, "arrow_function"@, "method_definition"@, "generator_function"@, "generator_function_declaration"@], seq!["if_statement"@, "for_statement"@, "for_in_statement"@, "while_statement"@, "do_statement"@, "switch_case"@, "catch_clause"@, "ternary_expression"@], None::<Seq<char>>, seq!["&&"@, "||"@, "??"@])),
{
    reveal_strlit("typescript");
    reveal_strlit("python");
    assert("typescript"@.len() != "python"@.len());
}

proof fn lemma_rules_php()
    ensures
        lang_rules("php"@) == Some((seq!["function_definition"@, "method_declaration"@, "anonymous_function"@, "anonymous_function_creation_expression"@, "arrow_function"@], seq!["if_statement"@, "else_if_clause"@, "for_statement"@, "foreach_statement"@, "while_statement"@, "do_statement"@, "case_statement"@, "catch_clause"@, "conditional_expression"@], None::<Seq<char>>, seq!["&&"@, "||"@, "??"@, "and"@, "or"@, "xor"@])),
{
    reveal_strlit("php");
    reveal_strlit("python");
    assert("php"@.len() != "python"@.len());
    reveal_strlit("typescript");
    assert("php"@.len() != "typescript"@.len());
}

proof fn lemma_rules_bash()
    ensures
        lang_rules("bash"@) == Some((seq!["function_definition"@], seq!["if_statement"@, "elif_clause"@, "for_statement"@, "c_style_for_statement"@, "while_statement"@, "case_item"@, "ternary_expression"@], None::<Seq<char>>, seq!["&&"@, "||"@])),
{
    reveal_strlit("bash");
    reveal_strlit("python");
    assert("bash"@.len() != "python"@.len());
    reveal_strlit("typescript");
    assert("bash"@.len() != "typescript"@.len());
    reveal_strlit("php");
    assert("bash"@.len() != "php"@.len());
}

proof fn lemma_rules_lua()
    ensures
        lang_rules("lua"@) == Some((seq!["function_declaration"@, "function_definition"@], seq!["if_statement"@, "elseif_statement"@, "for_statement"@, "while_statement"@], None::<Seq<char>>, seq!["and"@, "or"@])),
{
    reveal_strlit("lua");
    reveal_strlit("python");
    assert("lua"@.len() != "python"@.len());
    reveal_strlit("typescript");
    assert("lua"@.len() != "typescript"@.len());
    reveal_strlit("php");
    assert("lua"@[0] == 'l' && "php"@[0] == 'p');
    assert("lua"@ != "php"@);
    reveal_strlit("bash");
    assert("lua"@.len() != "bash"@.len());
}

proof fn lemma_rules_go()
    ensures
        lang_rules("go"@) == Some((seq!["function_declaration"@, "method_declaration"@, "func_literal"@], seq!["if_statement"@, "for_statement"@, "expression_case"@, "type_case"@, "communication_case"@, "select_statement"@], None::<Seq<char>>, seq!["&&"@, "||"@])),
{
    reveal_strlit("go");
    reveal_strlit("python");
    assert("go"@.len() != "python"@.len());
    reveal_strlit("typescript");
    assert("go"@.len() != "typescript"@.len());
    reveal_strlit("php");
    assert("go"@.len() != "php"@.len());
    reveal_strlit("bash");
    assert("go"@.len() != "bash"@.len());
    reveal_strlit("lua");
    assert("go"@.len() != "lua"@.len());
}

proof fn lemma_rules_rust()
    ensures
        lang_rules("rust"@) == Some((seq!["function_item"@, "closure_expression"@], seq!["if_expression"@, "for_expression"@, "while_expression"@, "loop_expression"@, "match_arm"@, "let_condition"@], None::<Seq<char>>, seq!["&&"@, "||"@])),
{
    reveal_strlit("rust");
    reveal_strlit("python");
    assert("rust"@.len() != "python"@.len());
    reveal_strlit("typescript");
    assert("rust"@.len() != "typescript"@.len());
    reveal_strlit("php");
    assert("rust"@.len() != "php"@.len());
    reveal_strlit("bash");
    assert("rust"@[0] == 'r' && "bash"@[0] == 'b');
    assert("rust"@ != "bash"@);
    reveal_strlit("lua");
    assert("rust"@.len() != "lua"@.len());
    reveal_strlit("go");
    assert("rust"@.len() != "go"@.len());
}

proof fn lemma_rules_ruby()
    ensures
        lang_rules("ruby"@) == Some((seq!["method"@, "singleton_method"@, "lambda"@, "do_block"@, "block"@], seq!["if"@, "elsif"@, "unless"@, "while"@, "until"@, "for"@, "case"@, "case_match"@, "when"@, "in_clause"@, "rescue"@, "conditional"@, "if_modifier"@, "unless_modifier"@, "while_modifier"@, "until_modifier"@, "rescue_modifier"@], None::<Seq<char>>, seq!["&&"@, "||"@, "and"@, "or"@])),
{
    reveal_strlit("ruby");
    reveal_strlit("python");
    assert("ruby"@.len() != "python"@.len());
    reveal_strlit("typescript");
    assert("ruby"@.len() != "typescript"@.len());
    reveal_strlit("php");
    assert("ruby"@.len() != "php"@.len());
    reveal_strlit("bash");
    assert("ruby"@[0] == 'r' && "bash"@[0] == 'b');
    assert("ruby"@ != "bash"@);
    reveal_strlit("lua");
    assert("ruby"@.len() != "lua"@.len());
    reveal_strlit("go");
    assert("ruby"@.len() != "go"@.len());
    reveal_strlit("rust");
    assert("ruby"@[2] == 'b' && "rust"@[2] == 's');
    assert("ruby"@ != "rust"@);
}

proof fn lemma_rules_java()
    ensures
        lang_rules("java"@) == Some((seq!["method_declaration"@, "constructor_declaration"@, "lambda_expression"@], seq!["if_statement"@, "for_statement"@, "enhanced_for_statement"@, "while_statement"@, "do_statement"@, "catch_clause"@, "switch_label"@, "ternary_expression"@], None::<Seq<char>>, seq!["&&"@, "||"@])),
{
    reveal_strlit("java");
    reveal_strlit("python");
    assert("java"@.len() != "python"@.len());
    reveal_strlit("typescript");
    assert("java"@.len() != "typescript"@.len());
    reveal_strlit("php");
    assert("java"@.len() != "php"@.len());
    reveal_strlit("bash");
    assert("java"@[0] == 'j' && "bash"@[0] == 'b');
    assert("java"@ != "bash"@);
    reveal_strlit("lua");
    assert("java"@.len() != "lua"@.len());
    reveal_strlit("go");
    assert("java"@.len() != "go"@.len());
    reveal_strlit("rust");
    assert("java"@[0] == 'j' && "rust"@[0] == 'r');
    assert("java"@ != "rust"@);
    reveal_strlit("ruby");
    assert("java"@[0] == 'j' && "ruby"@[0] == 'r');
    assert("java"@ != "ruby"@);
}

proof fn lemma_rules_c()
    ensures
        lang_rules("c"@) == Some((seq!["function_definition"@], seq!["if_statement"@, "for_statement"@, "while_statement"@, "do_statement"@, "case_statement"@, "conditional_expression"@, "preproc_if"@, "preproc_ifdef"@, "preproc_elif"@], None::<Seq<char>>, seq!["&&"@, "||"@])),
{
    reveal_strlit("c");
    reveal_strlit("python");
    assert("c"@.len() != "python"@.len());
    reveal_strlit("typescript");
    assert("c"@.len() != "typescript"@.len());
    reveal_strlit("php");
    assert("c"@.len() != "php"@.len());
    reveal_strlit("bash");
    assert("c"@.len() != "bash"@.len());
    reveal_strlit("lua");
    assert("c"@.len() != "lua"@.len());
    reveal_strlit("go");
    assert("c"@.len() != "go"@.len());
    reveal_strlit("rust");
    assert("c"@.len() != "rust"@.len());
    reveal_strlit("ruby");
    assert("c"@.len() != "ruby"@.len());
    reveal_strlit("java");
    assert("c"@.len() != "java"@.len());
}

proof fn lemma_known_rules()
    ensures
        lang_rules("python"@) == Some((seq!["function_definition"@, "lambda"@], seq!["if_statement"@, "elif_clause"@, "for_statement"@, "while_statement"@, "except_clause"@, "case_clause"@, "conditional_expression"@, "if_clause"@, "for_in_clause"@], Some("boolean_operator"@), Seq::<Seq<char>>::empty())),
        lang_rules("typescript"@) == Some((seq!["function_declaration"@, "function_expression"@, "arrow_function"@, "method_definition"@, "generator_function"@, "generator_function_declaration"@], seq!["if_statement"@, "for_statement"@, "for_in_statement"@, "while_statement"@, "do_statement"@, "switch_case"@, "catch_clause"@, "ternary_expression"@], None::<Seq<char>>, seq!["&&"@, "||"@, "??"@])),
        lang_rules("php"@) == Some((seq!["function_definition"@, "method_declaration"@, "anonymous_function"@, "anonymous_function_creation_expression"@, "arrow_function"@], seq!["if_statement"@, "else_if_clause"@, "for_statement"@, "foreach_statement"@, "while_statement"@, "do_statement"@, "case_statement"@, "catch_clause"@, "conditional_expression"@], None::<Seq<char>>, seq!["&&"@, "||"@, "??"@, "and"@, "or"@, "xor"@])),
        lang_rules("bash"@) == Some((seq!["function_definition"@], seq!["if_statement"@, "elif_clause"@, "for_statement"@, "c_style_for_statement"@, "while_statement"@, "case_item"@, "ternary_expression"@], None::<Seq<char>>, seq!["&&"@, "||"@])),
        lang_rules("lua"@) == Some((seq!["function_declaration"@, "function_definition"@], seq!["if_statement"@, "elseif_statement"@, "for_statement"@, "while_statement"@], None::<Seq<char>>, seq!["and"@, "or"@])),
        lang_rules("go"@) == Some((seq!["function_declaration"@, "method_declaration"@, "func_literal"@], seq!["if_statement"@, "for_statement"@, "expression_case"@, "type_case"@, "communication_case"@, "select_statement"@], None::<Seq<char>>, seq!["&&"@, "||"@])),
        lang_rules("rust"@) == Some((seq!["function_item"@, "closure_expression"@], seq!["if_expression"@, "for_expression"@, "while_expression"@, "loop_expression"@, "match_arm"@, "let_condition"@], None::<Seq<char>>, seq!["&&"@, "||"@])),
        lang_rules("ruby"@) == Some((seq!["method"@, "singleton_method"@, "lambda"@, "do_block"@, "block"@], seq!["if"@, "elsif"@, "unless"@, "while"@, "until"@, "for"@, "case"@, "case_match"@, "when"@, "in_clause"@, "rescue"@, "conditional"@, "if_modifier"@, "unless_modifier"@, "while_modifier"@, "until_modifier"@, "rescue_modifier"@], None::<Seq<char>>, seq!["&&"@, "||"@, "and"@, "or"@])),
        lang_rules("java"@) == Some((seq!["method_declaration"@, "constructor_declaration"@, "lambda_expression"@], seq!["if_statement"@, "for_statement"@, "enhanced_for_statement"@, "while_statement"@, "do_statement"@, "catch_clause"@, "switch_label"@, "ternary_expression"@], None::<Seq<char>>, seq!["&&"@, "||"@])),
        lang_rules("c"@) == Some((seq!["function_definition"@], seq!["if_statement"@, "for_statement"@, "while_statement"@, "do_statement"@, "case_statement"@, "conditional_expression"@, "preproc_if"@, "preproc_ifdef"@, "preproc_elif"@], None::<Seq<char>>, seq!["&&"@, "||"@])),
{
    lemma_rules_python();
    lemma_rules_typescript();
    lemma_rules_php();
    lemma_rules_bash();
    lemma_rules_lua();
    lemma_rules_go();
    lemma_rules_rust();
    lemma_rules_ruby();
    lemma_rules_java();
    lemma_rules_c();
}

/// In each language, a named node of one of its branch-point kinds adds
/// exactly one to the complexity of the function whose body holds it
/// (Go's `for_statement`, Python's `elif_clause`, Rust's `match_arm`, ...).
pub proof fn branch_points_add_one(lang: Seq<char>, t: Seq<SyntaxNode>, m: int)
    requires
        0 <= m < t.len(),
        t[m].named,
    ensures
        (lang == "python"@ && seq!["if_statement"@, "elif_clause"@, "for_statement"@, "while_statement"@, "except_clause"@, "case_clause"@, "conditional_expression"@, "if_clause"@, "for_in_clause"@].contains(t[m].kind@)) ==> (lang_rules(lang) matches Some(r) && weight(t, m, r) == 1),
        (lang == "typescript"@ && seq!["if_statement"@, "for_statement"@, "for_in_statement"@, "while_statement"@, "do_statement"@, "switch_case"@, "catch_clause"@, "ternary_expression"@].contains(t[m].kind@)) ==> (lang_rules(lang) matches Some(r) && weight(t, m, r) == 1),
        (lang == "php"@ && seq!["if_statement"@, "else_if_clause"@, "for_statement"@, "foreach_statement"@, "while_statement"@, "do_statement"@, "case_statement"@, "catch_clause"@, "conditional_expression"@].contains(t[m].kind@)) ==> (lang_rules(lang) matches Some(r) && weight(t, m, r) == 1),
        (lang == "bash"@ && seq!["if_statement"@, "elif_clause"@, "for_statement"@, "c_style_for_statement"@, "while_statement"@, "case_item"@, "ternary_expression"@].contains(t[m].kind@)) ==> (lang_rules(lang) matches Some(r) && weight(t, m, r) == 1),
        (lang == "lua"@ && seq!["if_statement"@, "elseif_statement"@, "for_statement"@, "while_statement"@].contains(t[m].kind@)) ==> (lang_rules(lang) matches Some(r) && weight(t, m, r) == 1),
        (lang == "go"@ && seq!["if_statement"@, "for_statement"@, "expression_case"@, "type_case"@, "communication_case"@, "select_statement"@].contains(t[m].kind@)) ==> (lang_rules(lang) matches Some(r) && weight(t, m, r) == 1),
        (lang == "rust"@ && seq!["if_expression"@, "for_expression"@, "while_expression"@, "loop_expression"@, "match_arm"@, "let_condition"@].contains(t[m].kind@)) ==> (lang_rules(lang) matches Some(r) && weight(t, m, r) == 1),
        (lang == "ruby"@ && seq!["if"@, "elsif"@, "unless"@, "while"@, "until"@, "for"@, "case"@, "case_match"@, "when"@, "in_clause"@, "rescue"@, "conditional"@, "if_modifier"@, "unless_modifier"@, "while_modifier"@, "until_modifier"@, "rescue_modifier"@].contains(t[m].kind@)) ==> (lang_rules(lang) matches Some(r) && weight(t, m, r) == 1),
        (lang == "java"@ && seq!["if_statement"@, "for_statement"@, "enhanced_for_statement"@, "while_statement"@, "do_statement"@, "catch_clause"@, "switch_label"@, "ternary_expression"@].contains(t[m].kind@)) ==> (lang_rules(lang) matches Some(r) && weight(t, m, r) == 1),
        (lang == "c"@ && seq!["if_statement"@, "for_statement"@, "while_statement"@, "do_statement"@, "case_statement"@, "conditional_expression"@, "preproc_if"@, "preproc_ifdef"@, "preproc_elif"@].contains(t[m].kind@)) ==> (lang_rules(lang) matches Some(r) && weight(t, m, r) == 1),
{
    lemma_known_rules();
}

/// In each language, a node of one of its function kinds is a function of
/// its own (reported on its own, and left out of its parent's count).
pub proof fn function_kinds_by_language(lang: Seq<char>, k: Seq<char>)
    ensures
        (lang == "python"@ && seq!["function_definition"@, "lambda"@].contains(k)) ==> (lang_rules(lang) matches Some(r) && r.0.contains(k)),
        (lang == "typescript"@ && seq!["function_declaration"@, "function_expression"@, "arrow_function"@, "method_definition"@, "generator_function"@, "generator_function_declaration"@].contains(k)) ==> (lang_rules(lang) matches Some(r) && r.0.contains(k)),
        (lang == "php"@ && seq!["function_definition"@, "method_declaration"@, "anonymous_function"@, "anonymous_function_creation_expression"@, "arrow_function"@].contains(k)) ==> (lang_rules(lang) matches Some(r) && r.0.contains(k)),
        (lang == "bash"@ && seq!["function_definition"@].contains(k)) ==> (lang_rules(lang) matches Some(r) && r.0.contains(k)),
        (lang == "lua"@ && seq!["function_declaration"@, "function_definition"@].contains(k)) ==> (lang_rules(lang) matches Some(r) && r.0.contains(k)),
        (lang == "go"@ && seq!["function_declaration"@, "method_declaration"@, "func_literal"@].contains(k)) ==> (lang_rules(lang) matches Some(r) && r.0.contains(k)),
        (lang == "rust"@ && seq!["function_item"@, "closure_expression"@].contains(k)) ==> (lang_rules(lang) matches Some(r) && r.0.contains(k)),
        (lang == "ruby"@ && seq!["method"@, "singleton_method"@, "lambda"@, "do_block"@, "block"@].contains(k)) ==> (lang_rules(lang) matches Some(r) && r.0.contains(k)),
        (lang == "java"@ && seq!["method_declaration"@, "constructor_declaration"@, "lambda_expression"@].contains(k)) ==> (lang_rules(lang) matches Some(r) && r.0.contains(k)),
        (lang == "c"@ && seq!["function_definition"@].contains(k)) ==> (lang_rules(lang) matches Some(r) && r.0.contains(k)),
{
    lemma_known_rules();
}

/// Any other node adds one per short-circuit operator among its direct
/// children (`&&`, `||`, and the language's own); in Python, one per
/// `and`/`or` child of a `boolean_operator` node and nothing otherwise.
pub proof fn short_circuits_add_one_each(lang: Seq<char>, t: Seq<SyntaxNode>, m: int)
    requires
        0 <= m < t.len(),
    ensures
        (lang == "python"@ && !seq!["if_statement"@, "elif_clause"@, "for_statement"@, "while_statement"@, "except_clause"@, "case_clause"@, "conditional_expression"@, "if_clause"@, "for_in_clause"@].contains(t[m].kind@)) ==> (lang_rules(lang) matches Some(r) && weight(t, m, r) == if t[m].kind@ == "boolean_operator"@ { count_kids(t, t[m].children@, seq!["and"@, "or"@]) } else { 0 }),
        (lang == "typescript"@ && !(t[m].named && seq!["if_statement"@, "for_statement"@, "for_in_statement"@, "while_statement"@, "do_statement"@, "switch_case"@, "catch_clause"@, "ternary_expression"@].contains(t[m].kind@))) ==> (lang_rules(lang) matches Some(r) && weight(t, m, r) == count_kids(t, t[m].children@, seq!["&&"@, "||"@, "??"@])),
        (lang == "php"@ && !(t[m].named && seq!["if_statement"@, "else_if_clause"@, "for_statement"@, "foreach_statement"@, "while_statement"@, "do_statement"@, "case_statement"@, "catch_clause"@, "conditional_expression"@].contains(t[m].kind@))) ==> (lang_rules(lang) matches Some(r) && weight(t, m, r) == count_kids(t, t[m].children@, seq!["&&"@, "||"@, "??"@, "and"@, "or"@, "xor"@])),
        (lang == "bash"@ && !(t[m].named && seq!["if_statement"@, "elif_clause"@, "for_statement"@, "c_style_for_statement"@, "while_statement"@, "case_item"@, "ternary_expression"@].contains(t[m].kind@))) ==> (lang_rules(lang) matches Some(r) && weight(t, m, r) == count_kids(t, t[m].children@, seq!["&&"@, "||"@])),
        (lang == "lua"@ && !(t[m].named && seq!["if_statement"@, "elseif_statement"@, "for_statement"@, "while_statement"@].contains(t[m].kind@))) ==> (lang_rules(lang) matches Some(r) && weight(t, m, r) == count_kids(t, t[m].children@, seq!["and"@, "or"@])),
        (lang == "go"@ && !(t[m].named && seq!["if_statement"@, "for_statement"@, "expression_case"@, "type_case"@, "communication_case"@, "select_statement"@].contains(t[m].kind@))) ==> (lang_rules(lang) matches Some(r) && weight(t, m, r) == count_kids(t, t[m].children@, seq!["&&"@, "||"@])),
        (lang == "rust"@ && !(t[m].named && seq!["if_expression"@, "for_expression"@, "while_expression"@, "loop_expression"@, "match_arm"@, "let_condition"@].contains(t[m].kind@))) ==> (lang_rules(lang) matches Some(r) && weight(t, m, r) == count_kids(t, t[m].children@, seq!["&&"@, "||"@])),
        (lang == "ruby"@ && !(t[m].named && seq!["if"@, "elsif"@, "unless"@, "while"@, "until"@, "for"@, "case"@, "case_match"@, "when"@, "in_clause"@, "rescue"@, "conditional"@, "if_modifier"@, "unless_modifier"@, "while_modifier"@, "until_modifier"@, "rescue_modifier"@].contains(t[m].kind@))) ==> (lang_rules(lang) matches Some(r) && weight(t, m, r) == count_kids(t, t[m].children@, seq!["&&"@, "||"@, "and"@, "or"@])),
        (lang == "java"@ && !(t[m].named && seq!["if_statement"@, "for_statement"@, "enhanced_for_statement"@, "while_statement"@, "do_statement"@, "catch_clause"@, "switch_label"@, "ternary_expression"@].contains(t[m].kind@))) ==> (lang_rules(lang) matches Some(r) && weight(t, m, r) == count_kids(t, t[m].children@, seq!["&&"@, "||"@])),
        (lang == "c"@ && !(t[m].named && seq!["if_statement"@, "for_statement"@, "while_statement"@, "do_statement"@, "case_statement"@, "conditional_expression"@, "preproc_if"@, "preproc_ifdef"@, "preproc_elif"@].contains(t[m].kind@))) ==> (lang_rules(lang) matches Some(r) && weight(t, m, r) == count_kids(t, t[m].children@, seq!["&&"@, "||"@])),
{
    lemma_known_rules();
}

/// The grammar a file is parsed with.
#[derive(Debug, Clone, Copy, PartialEq, Eq, Structural)]
pub enum Grammar {
    Python,
    TypeScript,
    Tsx,
    Php,
    Bash,
    Lua,
    Go,
    Rust,
    Ruby,
    Java,
    C,
}

/// The language id and grammar of a lowercased extension.
pub open spec fn language_of_ext(ext: Seq<char>) -> Option<(Seq<char>, Grammar)> {
    if ext == "py"@ {
        Some(("python"@, Grammar::Python))
    } else if ext == "ts"@ || ext == "js"@ {
        Some(("typescript"@, Grammar::TypeScript))
    } else if ext == "tsx"@ || ext == "jsx"@ {
        Some(("typescript"@, Grammar::Tsx))
    } else if ext == "php"@ {
        Some(("php"@, Grammar::Php))
    } else if ext == "sh"@ || ext == "bash"@ || ext == "zsh"@ {
        Some(("bash"@, Grammar::Bash))
    } else if ext == "lua"@ {
        Some(("lua"@, Grammar::Lua))
    } else if ext == "go"@ {
        Some(("go"@, Grammar::Go))
    } else if ext == "rs"@ {
        Some(("rust"@, Grammar::Rust))
    } else if ext == "rb"@ {
        Some(("ruby"@, Grammar::Ruby))
    } else if ext == "java"@ {
        Some(("java"@, Grammar::Java))
    } else if ext == "c"@ || ext == "h"@ {
        Some(("c"@, Grammar::C))
    } else {
        None
    }
}

pub open spec fn lang_view(r: Option<(&'static str, Grammar)>) -> Option<(Seq<char>, Grammar)> {
    match r {
        Some((l, g)) => Some((l@, g)),
        None => None,
    }
}

/// The language id and grammar for a lowercased extension.
pub fn language_for(ext: &str) -> (r: Option<(&'static str, Grammar)>)
    ensures
        lang_view(r) == language_of_ext(ext@),
{
    if str_eq(ext, "py") {
        Some(("python", Grammar::Python))
    } else if str_eq(ext, "ts") || str_eq(ext, "js") {
        Some(("typescript", Grammar::TypeScript))
    } else if str_eq(ext, "tsx") || str_eq(ext, "jsx") {
        Some(("typescript", Grammar::Tsx))
    } else if str_eq(ext, "php") {
        Some(("php", Grammar::Php))
    } else if str_eq(ext, "sh") || str_eq(ext, "bash") || str_eq(ext, "zsh") {
        Some(("bash", Grammar::Bash))
    } else if str_eq(ext, "lua") {
        Some(("lua", Grammar::Lua))
    } else if str_eq(ext, "go") {
        Some(("go", Grammar::Go))
    } else if str_eq(ext, "rs") {
        Some(("rust", Grammar::Rust))
    } else if str_eq(ext, "rb") {
        Some(("ruby", Grammar::Ruby))
    } else if str_eq(ext, "java") {
        Some(("java", Grammar::Java))
    } else if str_eq(ext, "c") || str_eq(ext, "h") {
        Some(("c", Grammar::C))
    } else {
        None
    }
}

/// `s` without its leading dots.
pub open spec fn trim_dots(s: Seq<char>) -> Seq<char>
    decreases s.len(),
{
    if s.len() > 0 && s[0] == '.' {
        trim_dots(s.drop_first())
    } else {
        s
    }
}

/// The extension that picks a file's grammar: its own, lowercased, or for
/// an extensionless shell rc file (`.bashrc`, `profile`) `sh`.
pub open spec fn ccn_ext(path: Seq<char>) -> Option<Seq<char>> {
    match extension_of(path) {
        Some(e) => Some(unicode_lowercase(e)),
        None => match file_name_range(path) {
            Some((s, e)) => {
                let f = trim_dots(path.subrange(s, e));
                if crate::text::ends_with(f, "rc"@) || f == "profile"@ {
                    Some("sh"@)
                } else {
                    None
                }
            },
            None => None,
        },
    }
}

/// The language id and grammar for a path, if the analysis knows it.
pub fn lang_for_path(path: &str) -> (r: Option<(&'static str, Grammar)>)
    ensures
        lang_view(r) == match ccn_ext(path@) {
            Some(e) => language_of_ext(e),
            None => None,
        },
{
    match extension(path) {
        Some(e) => {
            let lower = to_lowercase(e.as_str());
            language_for(lower.as_str())
        },
        None => {
            let cs = chars_of(path);
            match file_name_bounds(&cs) {
                Some((s, e)) => {
                    let mut k = s;
                    while k < e && cs[k] == '.'
                        invariant
                            s <= k <= e <= cs.len(),
                            trim_dots(cs@.subrange(s as int, e as int)) == trim_dots(cs@.subrange(k as int, e as int)),
                        decreases e - k,
                    {
                        assert(cs@.subrange(k as int, e as int).drop_first() =~= cs@.subrange(k + 1, e as int));
                        k += 1;
                    }
                    let f = string_of_range(&cs, k, e);
                    let fc = chars_of(f.as_str());
                    let rc = chars_of("rc");
                    if crate::text::seq_ends_with(&fc, &rc) || str_eq(f.as_str(), "profile") {
                        proof {
                            reveal_strlit("sh");
                        }
                        language_for("sh")
                    } else {
                        None
                    }
                },
                None => None,
            }
        },
    }
}

/// Node kinds of class-like containers: a function directly inside one is
/// a method, named `Class::method`.
pub open spec fn class_kind_list(lang: Seq<char>) -> Seq<Seq<char>> {
    if lang == "php"@ {
        seq!["class_declaration"@, "trait_declaration"@, "interface_declaration"@, "enum_declaration"@]
    } else if lang == "python"@ {
        seq!["class_definition"@]
    } else if lang == "typescript"@ {
        seq!["class_declaration"@, "abstract_class_declaration"@, "class"@, "interface_declaration"@]
    } else if lang == "java"@ {
        seq!["class_declaration"@, "interface_declaration"@, "enum_declaration"@]
    } else if lang == "ruby"@ {
        seq!["class"@, "module"@, "singleton_class"@]
    } else {
        Seq::empty()
    }
}

pub fn class_kinds(lang: &str) -> (r: Vec<&'static str>)
    ensures
        strs(r@) == class_kind_list(lang@),
{
    let r: Vec<&'static str> = if str_eq(lang, "php") {
        vec!["class_declaration", "trait_declaration", "interface_declaration", "enum_declaration"]
    } else if str_eq(lang, "python") {
        vec!["class_definition"]
    } else if str_eq(lang, "typescript") {
        vec!["class_declaration", "abstract_class_declaration", "class", "interface_declaration"]
    } else if str_eq(lang, "java") {
        vec!["class_declaration", "interface_declaration", "enum_declaration"]
    } else if str_eq(lang, "ruby") {
        vec!["class", "module", "singleton_class"]
    } else {
        Vec::new()
    };
    assert(strs(r@) =~= class_kind_list(lang@));
    r
}

/// Whether `kind` is one of `kinds`.
pub fn kind_in(kinds: &Vec<&'static str>, kind: &str) -> (r: bool)
    ensures
        r == strs(kinds@).contains(kind@),
{
    let mut i: usize = 0;
    while i < kinds.len()
        invariant
            i <= kinds.len(),
            forall|j: int| 0 <= j < i ==> strs(kinds@)[j] != kind@,
        decreases kinds.len() - i,
    {
        if str_eq(kinds[i], kind) {
            assert(strs(kinds@)[i as int] == kind@);
            return true;
        }
        i += 1;
    }
    false
}

/// One node of a parsed syntax tree. A tree lists its nodes in preorder:
/// node 0 is the root, the subtree of a node is the run of nodes from it up
/// to (not including) `end`, and its children split the rest of that run
/// in order.
#[derive(Debug)]
pub struct SyntaxNode {
    pub kind: String,
    pub named: bool,
    pub parent: Option<usize>,
    pub children: Vec<usize>,
    pub end: usize,
    pub start_row: i64,
    pub end_row: i64,
    /// Whether the node has a `name` field child.
    pub has_name: bool,
    /// The text of the `name` field child, when there is one and it is UTF-8.
    pub name_text: Option<String>,
    /// The text of the `key` field child, likewise.
    pub key_text: Option<String>,
    /// The name of the field this node fills in its parent, if any.
    pub field: Option<String>,
    /// The node's source text (empty when it is not UTF-8).
    pub text: String,
}

pub open spec fn node_ok(t: Seq<SyntaxNode>, i: int) -> bool {
    let n = t[i];
    let ch = n.children@;
    &&& i < n.end <= t.len()
    &&& 0 <= n.start_row <= n.end_row < i64::MAX
    &&& match n.parent {
        Some(p) => p < i,
        None => true,
    }
    &&& forall|k: int| 0 <= k < ch.len() ==> i < #[trigger] ch[k] < n.end
    &&& if ch.len() == 0 {
        n.end == i + 1
    } else {
        &&& ch[0] == i + 1
        &&& forall|k: int| 0 <= k < ch.len() - 1 ==> ch[k + 1] == t[#[trigger] ch[k] as int].end
        &&& t[ch.last() as int].end == n.end
    }
}

/// The layout a tree is given in (see `SyntaxNode`).
pub open spec fn tree_ok(t: Seq<SyntaxNode>) -> bool {
    forall|i: int| 0 <= i < t.len() ==> #[trigger] node_ok(t, i)
}

/// The nodes a stack walk from `n` visits, in visiting order: the node,
/// then its children's subtrees from the last child to the first. Nodes of
/// a kind in `prune` are neither visited nor entered.
pub open spec fn walk(t: Seq<SyntaxNode>, n: int, prune: Seq<Seq<char>>) -> Seq<int>
    decreases t.len() - n, 1int, 0int,
{
    if 0 <= n < t.len() {
        if prune.contains(t[n].kind@) {
            Seq::empty()
        } else {
            seq![n] + pending(t, n, t[n].children@, prune)
        }
    } else {
        Seq::empty()
    }
}

/// What a stack walk visits from the stack `s` (top last), for nodes below
/// `p`.
pub open spec fn pending(t: Seq<SyntaxNode>, p: int, s: Seq<usize>, prune: Seq<Seq<char>>) -> Seq<int>
    decreases t.len() - p, 0int, s.len(),
{
    if s.len() == 0 {
        Seq::empty()
    } else {
        let c = s.last() as int;
        (if p < c < t.len() {
            walk(t, c, prune)
        } else {
            Seq::empty()
        }) + pending(t, p, s.drop_last(), prune)
    }
}

proof fn lemma_pending_append(t: Seq<SyntaxNode>, p: int, a: Seq<usize>, b: Seq<usize>, prune: Seq<Seq<char>>)
    ensures
        pending(t, p, a + b, prune) == pending(t, p, b, prune) + pending(t, p, a, prune),
    decreases b.len(),
{
    if b.len() == 0 {
        assert(a + b =~= a);
        assert(pending(t, p, b, prune) + pending(t, p, a, prune) =~= pending(t, p, a, prune));
    } else {
        assert((a + b).drop_last() =~= a + b.drop_last());
        assert((a + b).last() == b.last());
        lemma_pending_append(t, p, a, b.drop_last(), prune);
        let c = b.last() as int;
        let w = if p < c < t.len() { walk(t, c, prune) } else { Seq::empty() };
        assert(w + (pending(t, p, b.drop_last(), prune) + pending(t, p, a, prune))
            =~= (w + pending(t, p, b.drop_last(), prune)) + pending(t, p, a, prune));
    }
}

proof fn lemma_pending_below(t: Seq<SyntaxNode>, p: int, q: int, s: Seq<usize>, prune: Seq<Seq<char>>)
    requires
        forall|k: int| 0 <= k < s.len() ==> p < #[trigger] s[k] && q < s[k],
    ensures
        pending(t, p, s, prune) == pending(t, q, s, prune),
    decreases s.len(),
{
    if s.len() > 0 {
        assert(s.last() == s[s.len() - 1]);
        lemma_pending_below(t, p, q, s.drop_last(), prune);
    }
}

proof fn lemma_walk_size(t: Seq<SyntaxNode>, n: int)
    requires
        tree_ok(t),
        0 <= n < t.len(),
    ensures
        1 <= walk(t, n, Seq::empty()).len() <= t[n].end - n,
    decreases t.len() - n, 1int, 0int,
{
    assert(node_ok(t, n));
    let ch = t[n].children@;
    assert(!Seq::<Seq<char>>::empty().contains(t[n].kind@));
    if ch.len() > 0 {
        lemma_pending_size(t, n, ch.len() as int);
        assert(ch.take(ch.len() as int) =~= ch);
    }
}

proof fn lemma_pending_size(t: Seq<SyntaxNode>, n: int, j: int)
    requires
        tree_ok(t),
        0 <= n < t.len(),
        1 <= j <= t[n].children@.len(),
    ensures
        pending(t, n, t[n].children@.take(j), Seq::empty()).len()
            <= t[t[n].children@[j - 1] as int].end - t[n].children@[0],
    decreases t.len() - n, 0int, j,
{
    assert(node_ok(t, n));
    let ch = t[n].children@;
    let c = ch[j - 1] as int;
    assert(n < ch[j - 1] < t[n].end);
    assert(ch.take(j).drop_last() =~= ch.take(j - 1));
    assert(ch.take(j).last() == ch[j - 1]);
    assert(pending(t, n, ch.take(j), Seq::empty())
        == walk(t, c, Seq::empty()) + pending(t, n, ch.take(j - 1), Seq::empty()));
    lemma_walk_size(t, c);
    if j > 1 {
        lemma_pending_size(t, n, j - 1);
        assert(ch[(j - 2) + 1] == t[ch[j - 2] as int].end);
    }
}

/// Whether the node's kind is one of `kinds`.
pub open spec fn kind_is(t: Seq<SyntaxNode>, m: int, kinds: Seq<Seq<char>>) -> bool {
    kinds.contains(t[m].kind@)
}

/// The function nodes of the tree, in the order a stack walk from the root
/// meets them.
pub open spec fn function_order(t: Seq<SyntaxNode>, kinds: Seq<Seq<char>>) -> Seq<int> {
    walk(t, 0, Seq::empty()).filter(|m: int| kind_is(t, m, kinds))
}

/// The nodes of `kinds`, in walking order from the root.
pub fn function_nodes(t: &Vec<SyntaxNode>, kinds: &Vec<&'static str>) -> (r: Vec<usize>)
    requires
        tree_ok(t@),
    ensures
        r@.map_values(|u: usize| u as int) == function_order(t@, strs(kinds@)),
        forall|k: int| 0 <= k < r@.len() ==> #[trigger] r@[k] < t@.len(),
{
    let ghost tv = t@;
    let ghost e = Seq::<Seq<char>>::empty();
    let ghost f = |m: int| kind_is(tv, m, strs(kinds@));
    let mut out: Vec<usize> = Vec::new();
    let mut stack: Vec<usize> = Vec::new();
    if t.len() > 0 {
        stack.push(0);
    }
    proof {
        assert(pending(tv, -1, stack@, e) =~= walk(tv, 0, e)) by {
            if tv.len() > 0 {
                assert(stack@.drop_last() =~= Seq::<usize>::empty());
                assert(stack@.last() == 0);
                assert(pending(tv, -1, stack@, e) == walk(tv, 0, e) + pending(tv, -1, Seq::<usize>::empty(), e));
                assert(walk(tv, 0, e) + Seq::<int>::empty() =~= walk(tv, 0, e));
            } else {
                assert(stack@ =~= Seq::<usize>::empty());
            }
        }
    }
    while stack.len() > 0
        invariant
            tv == t@,
            tree_ok(tv),
            f == (|m: int| kind_is(tv, m, strs(kinds@))),
            e == Seq::<Seq<char>>::empty(),
            forall|k: int| 0 <= k < stack@.len() ==> #[trigger] stack@[k] < tv.len(),
            forall|k: int| 0 <= k < out@.len() ==> #[trigger] out@[k] < tv.len(),
            out@.map_values(|u: usize| u as int) + pending(tv, -1, stack@, e).filter(f) == walk(tv, 0, e).filter(f),
        decreases pending(tv, -1, stack@, e).len(),
    {
        let ghost before = stack@;
        let n = stack.pop().unwrap();
        assert(before.last() == n && before.drop_last() == stack@);
        assert(before[before.len() - 1] < tv.len());
        assert(node_ok(tv, n as int));
        let ghost rest = stack@;
        let ghost ch = tv[n as int].children@;
        assert(!e.contains(tv[n as int].kind@));
        // the popped node, then its subtree's remainder
        assert(pending(tv, -1, before, e) == walk(tv, n as int, e) + pending(tv, -1, rest, e));
        assert(walk(tv, n as int, e) == seq![n as int] + pending(tv, n as int, ch, e));
        let mut k: usize = 0;
        while k < t[n].children.len()
            invariant
                tv == t@,
                n < tv.len(),
                ch == tv[n as int].children@,
                node_ok(tv, n as int),
                k <= ch.len(),
                stack@ == rest + ch.take(k as int),
                forall|j: int| 0 <= j < rest.len() ==> #[trigger] rest[j] < tv.len(),
            decreases ch.len() - k,
        {
            stack.push(t[n].children[k]);
            assert(stack@ =~= rest + ch.take(k + 1));
            k += 1;
        }
        assert(ch.take(k as int) =~= ch);
        proof {
            assert forall|j: int| 0 <= j < stack@.len() implies #[trigger] stack@[j] < tv.len() by {
                if j >= rest.len() {
                    assert(stack@[j] == ch[j - rest.len()]);
                }
            }
            lemma_pending_append(tv, -1, rest, ch, e);
            lemma_pending_below(tv, -1, n as int, ch, e);
            Seq::filter_distributes_over_add(seq![n as int], pending(tv, n as int, ch, e), f);
            Seq::filter_distributes_over_add(seq![n as int] + pending(tv, n as int, ch, e), pending(tv, -1, rest, e), f);
            Seq::filter_distributes_over_add(pending(tv, n as int, ch, e), pending(tv, -1, rest, e), f);
            reveal_with_fuel(Seq::filter, 2);
            assert(seq![n as int].drop_last() =~= Seq::<int>::empty());
        }
        let ghost ov = out@.map_values(|u: usize| u as int);
        if kind_in(kinds, t[n].kind.as_str()) {
            out.push(n);
            assert(out@.map_values(|u: usize| u as int) =~= ov.push(n as int));
            assert(seq![n as int].filter(f) =~= seq![n as int]);
        } else {
            assert(seq![n as int].filter(f) =~= Seq::<int>::empty());
        }
        assert(out@.map_values(|u: usize| u as int) + pending(tv, -1, stack@, e).filter(f)
            =~= walk(tv, 0, e).filter(f));
    }
    out
}

/// How many of the nodes `s` have a kind in `toks`.
pub open spec fn count_kids(t: Seq<SyntaxNode>, s: Seq<usize>, toks: Seq<Seq<char>>) -> int
    decreases s.len(),
{
    if s.len() == 0 {
        0
    } else {
        count_kids(t, s.drop_last(), toks) + (if (s.last() as int) < t.len() && toks.contains(
            t[s.last() as int].kind@,
        ) {
            1int
        } else {
            0int
        })
    }
}

/// What one node adds to its function's complexity: one for a named
/// branch-point node; otherwise one per `and`/`or` child of a boolean
/// operator node, or one per short-circuit token child.
pub open spec fn weight(t: Seq<SyntaxNode>, m: int, r: SpecRow) -> int {
    let n = t[m];
    if n.named && r.1.contains(n.kind@) {
        1
    } else {
        match r.2 {
            Some(b) => if n.kind@ == b {
                count_kids(t, n.children@, seq!["and"@, "or"@])
            } else {
                0
            },
            None => if r.3.len() > 0 {
                count_kids(t, n.children@, r.3)
            } else {
                0
            },
        }
    }
}

pub open spec fn csum(t: Seq<SyntaxNode>, s: Seq<int>, r: SpecRow) -> int
    decreases s.len(),
{
    if s.len() == 0 {
        0
    } else {
        csum(t, s.drop_last(), r) + weight(t, s.last(), r)
    }
}

/// The branch points of function node `f`'s own body: its descendants,
/// nested functions and their bodies left out.
pub open spec fn decision_count(t: Seq<SyntaxNode>, f: int, r: SpecRow) -> int {
    csum(t, pending(t, f, t[f].children@, r.0), r)
}

proof fn lemma_count_kids_bound(t: Seq<SyntaxNode>, s: Seq<usize>, toks: Seq<Seq<char>>)
    ensures
        0 <= count_kids(t, s, toks) <= s.len(),
    decreases s.len(),
{
    if s.len() > 0 {
        lemma_count_kids_bound(t, s.drop_last(), toks);
    }
}

proof fn lemma_weight_bound(t: Seq<SyntaxNode>, m: int, r: SpecRow)
    ensures
        0 <= weight(t, m, r) <= 1 + t[m].children@.len(),
{
    lemma_count_kids_bound(t, t[m].children@, seq!["and"@, "or"@]);
    lemma_count_kids_bound(t, t[m].children@, r.3);
}

proof fn lemma_csum_append(t: Seq<SyntaxNode>, a: Seq<int>, b: Seq<int>, r: SpecRow)
    ensures
        csum(t, a + b, r) == csum(t, a, r) + csum(t, b, r),
    decreases b.len(),
{
    if b.len() == 0 {
        assert(a + b =~= a);
    } else {
        assert((a + b).drop_last() =~= a + b.drop_last());
        assert((a + b).last() == b.last());
        lemma_csum_append(t, a, b.drop_last(), r);
    }
}

proof fn lemma_csum_nonneg(t: Seq<SyntaxNode>, s: Seq<int>, r: SpecRow)
    ensures
        csum(t, s, r) >= 0,
    decreases s.len(),
{
    if s.len() > 0 {
        lemma_csum_nonneg(t, s.drop_last(), r);
        lemma_weight_bound(t, s.last(), r);
    }
}

proof fn lemma_csum_walk(t: Seq<SyntaxNode>, n: int, r: SpecRow)
    requires
        tree_ok(t),
        0 <= n < t.len(),
    ensures
        csum(t, walk(t, n, r.0), r) <= 2 * walk(t, n, Seq::empty()).len() - 1,
    decreases t.len() - n, 1int, 0int,
{
    assert(node_ok(t, n));
    lemma_walk_size(t, n);
    let ch = t[n].children@;
    assert(!Seq::<Seq<char>>::empty().contains(t[n].kind@));
    if r.0.contains(t[n].kind@) {
        assert(csum(t, Seq::<int>::empty(), r) == 0);
    } else {
        lemma_csum_pending(t, n, ch.len() as int, r);
        assert(ch.take(ch.len() as int) =~= ch);
        lemma_csum_append(t, seq![n], pending(t, n, ch, r.0), r);
        assert(seq![n].drop_last() =~= Seq::<int>::empty());
        assert(seq![n].last() == n);
        assert(csum(t, Seq::<int>::empty(), r) == 0);
        assert(csum(t, seq![n], r) == weight(t, n, r));
        lemma_weight_bound(t, n, r);
    }
}

proof fn lemma_csum_pending(t: Seq<SyntaxNode>, n: int, j: int, r: SpecRow)
    requires
        tree_ok(t),
        0 <= n < t.len(),
        0 <= j <= t[n].children@.len(),
    ensures
        csum(t, pending(t, n, t[n].children@.take(j), r.0), r)
            <= 2 * pending(t, n, t[n].children@.take(j), Seq::empty()).len() - j,
    decreases t.len() - n, 0int, j,
{
    assert(node_ok(t, n));
    let ch = t[n].children@;
    if j == 0 {
        assert(ch.take(0) =~= Seq::<usize>::empty());
    } else {
        let c = ch[j - 1] as int;
        assert(n < ch[j - 1] < t[n].end);
        assert(ch.take(j).drop_last() =~= ch.take(j - 1));
        assert(ch.take(j).last() == ch[j - 1]);
        assert(pending(t, n, ch.take(j), r.0) == walk(t, c, r.0) + pending(t, n, ch.take(j - 1), r.0));
        assert(pending(t, n, ch.take(j), Seq::empty())
            == walk(t, c, Seq::empty()) + pending(t, n, ch.take(j - 1), Seq::empty()));
        lemma_csum_walk(t, c, r);
        lemma_csum_pending(t, n, j - 1, r);
        lemma_csum_append(t, walk(t, c, r.0), pending(t, n, ch.take(j - 1), r.0), r);
    }
}

fn count_children(t: &Vec<SyntaxNode>, m: usize, toks: &Vec<&'static str>) -> (r: usize)
    requires
        m < t@.len(),
    ensures
        r == count_kids(t@, t@[m as int].children@, strs(toks@)),
{
    let ghost ch = t@[m as int].children@;
    let mut c: usize = 0;
    let mut k: usize = 0;
    while k < t[m].children.len()
        invariant
            m < t@.len(),
            ch == t@[m as int].children@,
            k <= ch.len(),
            c == count_kids(t@, ch.take(k as int), strs(toks@)),
        decreases ch.len() - k,
    {
        assert(ch.take(k + 1).drop_last() =~= ch.take(k as int));
        assert(ch.take(k + 1).last() == ch[k as int]);
        proof {
            lemma_count_kids_bound(t@, ch.take(k as int), strs(toks@));
        }
        let x = t[m].children[k];
        if x < t.len() && kind_in(toks, t[x].kind.as_str()) {
            c += 1;
        }
        k += 1;
    }
    assert(ch.take(k as int) =~= ch);
    c
}

fn node_weight_of(t: &Vec<SyntaxNode>, m: usize, sp: &LangSpec) -> (r: usize)
    requires
        m < t@.len(),
    ensures
        r == weight(t@, m as int, spec_row(*sp)),
{
    let node = &t[m];
    if node.named && kind_in(&sp.decision_kinds, node.kind.as_str()) {
        1
    } else {
        match sp.boolean_operator_kind {
            Some(b) => {
                if str_eq(node.kind.as_str(), b) {
                    let toks: Vec<&'static str> = vec!["and", "or"];
                    assert(strs(toks@) =~= seq!["and"@, "or"@]);
                    count_children(t, m, &toks)
                } else {
                    0
                }
            },
            None => {
                if sp.short_circuit.len() > 0 {
                    count_children(t, m, &sp.short_circuit)
                } else {
                    0
                }
            },
        }
    }
}

/// The number of branch points in the body of function node `f`.
pub fn count_decision_nodes(t: &Vec<SyntaxNode>, f: usize, sp: &LangSpec) -> (r: i64)
    requires
        tree_ok(t@),
        f < t@.len(),
        t@.len() < 0x4000_0000_0000_0000,
    ensures
        r == decision_count(t@, f as int, spec_row(*sp)),
        0 <= r <= 2 * t@.len(),
{
    let ghost tv = t@;
    let ghost r = spec_row(*sp);
    let ghost fk = r.0;
    let ghost e = Seq::<Seq<char>>::empty();
    let ghost cf = tv[f as int].children@;
    let ghost total = decision_count(tv, f as int, r);
    assert(node_ok(tv, f as int));
    let mut stack: Vec<usize> = Vec::new();
    let mut k: usize = 0;
    while k < t[f].children.len()
        invariant
            tv == t@,
            f < tv.len(),
            cf == tv[f as int].children@,
            k <= cf.len(),
            stack@ == cf.take(k as int),
        decreases cf.len() - k,
    {
        stack.push(t[f].children[k]);
        assert(stack@ =~= cf.take(k + 1));
        k += 1;
    }
    assert(stack@ =~= cf);
    proof {
        lemma_pending_below(tv, -1, f as int, cf, fk);
        lemma_csum_pending(tv, f as int, cf.len() as int, r);
        assert(cf.take(cf.len() as int) =~= cf);
        if cf.len() > 0 {
            lemma_pending_size(tv, f as int, cf.len() as int);
        } else {
            assert(pending(tv, f as int, cf, e) =~= Seq::<int>::empty());
        }
        assert(forall|j: int| 0 <= j < cf.len() ==> f < #[trigger] cf[j] < tv[f as int].end);
    }
    let mut count: i64 = 0;
    while stack.len() > 0
        invariant
            tv == t@,
            tree_ok(tv),
            r == spec_row(*sp),
            fk == r.0,
            e == Seq::<Seq<char>>::empty(),
            total == decision_count(tv, f as int, r),
            total <= 2 * tv.len(),
            tv.len() < 0x4000_0000_0000_0000,
            forall|j: int| 0 <= j < stack@.len() ==> #[trigger] stack@[j] < tv.len(),
            0 <= count,
            count + csum(tv, pending(tv, -1, stack@, fk), r) == total,
        decreases pending(tv, -1, stack@, e).len(),
    {
        let ghost before = stack@;
        let n = stack.pop().unwrap();
        assert(before.last() == n && before.drop_last() == stack@);
        assert(before[before.len() - 1] < tv.len());
        assert(node_ok(tv, n as int));
        let ghost rest = stack@;
        let ghost ch = tv[n as int].children@;
        assert(pending(tv, -1, before, fk) == walk(tv, n as int, fk) + pending(tv, -1, rest, fk));
        assert(pending(tv, -1, before, e) == walk(tv, n as int, e) + pending(tv, -1, rest, e));
        proof {
            lemma_walk_size(tv, n as int);
            lemma_csum_append(tv, walk(tv, n as int, fk), pending(tv, -1, rest, fk), r);
            lemma_csum_nonneg(tv, pending(tv, -1, rest, fk), r);
        }
        if kind_in(&sp.function_kinds, t[n].kind.as_str()) {
            assert(walk(tv, n as int, fk) =~= Seq::<int>::empty());
        } else {
            assert(walk(tv, n as int, fk) == seq![n as int] + pending(tv, n as int, ch, fk));
            assert(!e.contains(tv[n as int].kind@));
            assert(walk(tv, n as int, e) == seq![n as int] + pending(tv, n as int, ch, e));
            proof {
                lemma_csum_append(tv, seq![n as int], pending(tv, n as int, ch, fk), r);
                assert(seq![n as int].drop_last() =~= Seq::<int>::empty());
                assert(seq![n as int].last() == n as int);
                assert(csum(tv, Seq::<int>::empty(), r) == 0);
                assert(csum(tv, seq![n as int], r) == weight(tv, n as int, r));
                lemma_csum_nonneg(tv, pending(tv, n as int, ch, fk), r);
            }
            let c = node_weight_of(t, n, sp);
            count = count + c as i64;
            let mut k: usize = 0;
            while k < t[n].children.len()
                invariant
                    tv == t@,
                    n < tv.len(),
                    ch == tv[n as int].children@,
                    node_ok(tv, n as int),
                    k <= ch.len(),
                    stack@ == rest + ch.take(k as int),
                    forall|j: int| 0 <= j < rest.len() ==> #[trigger] rest[j] < tv.len(),
                decreases ch.len() - k,
            {
                stack.push(t[n].children[k]);
                assert(stack@ =~= rest + ch.take(k + 1));
                k += 1;
            }
            assert(ch.take(k as int) =~= ch);
            proof {
                assert forall|j: int| 0 <= j < stack@.len() implies #[trigger] stack@[j] < tv.len() by {
                    if j >= rest.len() {
                        assert(stack@[j] == ch[j - rest.len()]);
                    }
                }
                lemma_pending_append(tv, -1, rest, ch, fk);
                lemma_pending_append(tv, -1, rest, ch, e);
                lemma_pending_below(tv, -1, n as int, ch, fk);
                lemma_pending_below(tv, -1, n as int, ch, e);
                lemma_csum_append(tv, pending(tv, n as int, ch, fk), pending(tv, -1, rest, fk), r);
            }
        }
    }
    count
}

pub open spec fn text_or(o: Option<String>, d: Seq<char>) -> Seq<char> {
    match o {
        Some(s) => s@,
        None => d,
    }
}

/// A TypeScript function's name: its own `name`, else the `name` (or, when
/// it has none, the `key`) of the declarator, pair or assignment it is the
/// value of.
pub open spec fn ts_name(t: Seq<SyntaxNode>, n: int) -> Seq<char> {
    match t[n].name_text {
        Some(s) => s@,
        None => match t[n].parent {
            Some(p) => if (p as int) < t.len() && (t[p as int].kind@ == "variable_declarator"@ || t[p as int].kind@
                == "pair"@ || t[p as int].kind@ == "assignment_expression"@) {
                if t[p as int].has_name {
                    text_or(t[p as int].name_text, "<anonymous>"@)
                } else {
                    text_or(t[p as int].key_text, "<anonymous>"@)
                }
            } else {
                "<anonymous>"@
            },
            None => "<anonymous>"@,
        },
    }
}

/// The bare name of function node `n`: a placeholder for lambdas, blocks,
/// closures and function literals, else its `name` field's text.
pub open spec fn bare(t: Seq<SyntaxNode>, n: int, lang: Seq<char>) -> Seq<char> {
    let k = t[n].kind@;
    if lang == "python"@ && k == "lambda"@ {
        "<lambda>"@
    } else if lang == "ruby"@ && (k == "do_block"@ || k == "block"@ || k == "lambda"@) {
        "<block>"@
    } else if lang == "rust"@ && k == "closure_expression"@ {
        "<closure>"@
    } else if lang == "go"@ && k == "func_literal"@ {
        "<func>"@
    } else if lang == "typescript"@ {
        ts_name(t, n)
    } else if lang == "java"@ && k == "lambda_expression"@ {
        "<lambda>"@
    } else {
        text_or(t[n].name_text, "<anonymous>"@)
    }
}

fn text_or_anonymous(o: &Option<String>) -> (r: String)
    ensures
        r@ == text_or(*o, "<anonymous>"@),
{
    match o {
        Some(s) => s.clone(),
        None => "<anonymous>".to_owned(),
    }
}

pub fn bare_name(t: &Vec<SyntaxNode>, n: usize, lang: &str) -> (r: String)
    requires
        n < t@.len(),
    ensures
        r@ == bare(t@, n as int, lang@),
{
    let k = t[n].kind.as_str();
    if str_eq(lang, "python") && str_eq(k, "lambda") {
        "<lambda>".to_owned()
    } else if str_eq(lang, "ruby") && (str_eq(k, "do_block") || str_eq(k, "block") || str_eq(k, "lambda")) {
        "<block>".to_owned()
    } else if str_eq(lang, "rust") && str_eq(k, "closure_expression") {
        "<closure>".to_owned()
    } else if str_eq(lang, "go") && str_eq(k, "func_literal") {
        "<func>".to_owned()
    } else if str_eq(lang, "typescript") {
        match &t[n].name_text {
            Some(s) => s.clone(),
            None => match t[n].parent {
                Some(p) => {
                    if p < t.len() && (str_eq(t[p].kind.as_str(), "variable_declarator") || str_eq(
                        t[p].kind.as_str(),
                        "pair",
                    ) || str_eq(t[p].kind.as_str(), "assignment_expression")) {
                        if t[p].has_name {
                            text_or_anonymous(&t[p].name_text)
                        } else {
                            text_or_anonymous(&t[p].key_text)
                        }
                    } else {
                        "<anonymous>".to_owned()
                    }
                },
                None => "<anonymous>".to_owned(),
            },
        }
    } else if str_eq(lang, "java") && str_eq(k, "lambda_expression") {
        "<lambda>".to_owned()
    } else {
        text_or_anonymous(&t[n].name_text)
    }
}

/// The index of a node's parent, or -1 for none.
pub open spec fn parent_index(t: Seq<SyntaxNode>, i: int) -> int {
    match t[i].parent {
        Some(q) => if (q as int) < i {
            q as int
        } else {
            -1
        },
        None => -1,
    }
}

/// The name segments the ancestors from `cur` upward contribute: a class
/// container its name (joined by `::`), an enclosing function its bare
/// name (joined by `.`).
pub open spec fn up_segs(t: Seq<SyntaxNode>, cur: int, lang: Seq<char>, fk: Seq<Seq<char>>) -> Seq<(Seq<char>, bool)>
    decreases cur + 1,
{
    if 0 <= cur < t.len() {
        let rest = up_segs(t, parent_index(t, cur), lang, fk);
        if class_kind_list(lang).contains(t[cur].kind@) {
            match t[cur].name_text {
                Some(c) => seq![(c@, true)] + rest,
                None => rest,
            }
        } else if fk.contains(t[cur].kind@) {
            seq![(bare(t, cur, lang), false)] + rest
        } else {
            rest
        }
    } else {
        Seq::empty()
    }
}

/// Segments joined outermost first: `::` before or after a class segment,
/// `.` between function segments.
pub open spec fn seg_join(s: Seq<(Seq<char>, bool)>) -> Seq<char>
    decreases s.len(),
{
    if s.len() == 0 {
        Seq::empty()
    } else if s.len() == 1 {
        s[0].0
    } else {
        seg_join(s.drop_last()) + (if s.last().1 || s[s.len() - 2].1 {
            "::"@
        } else {
            "."@
        }) + s.last().0
    }
}

/// The qualified name of function node `n`.
pub open spec fn qualified(t: Seq<SyntaxNode>, n: int, lang: Seq<char>, fk: Seq<Seq<char>>) -> Seq<char> {
    seg_join((seq![(bare(t, n, lang), false)] + up_segs(t, parent_index(t, n), lang, fk)).reverse())
}

pub open spec fn seg_view(v: Seq<(String, bool)>) -> Seq<(Seq<char>, bool)> {
    v.map_values(|x: (String, bool)| (x.0@, x.1))
}

pub open spec fn opt_index(o: Option<usize>) -> int {
    match o {
        Some(p) => p as int,
        None => -1,
    }
}

fn parent_below(t: &Vec<SyntaxNode>, i: usize) -> (r: Option<usize>)
    requires
        i < t@.len(),
    ensures
        opt_index(r) == parent_index(t@, i as int),
        r matches Some(p) ==> p < i,
{
    match t[i].parent {
        Some(q) => if q < i {
            Some(q)
        } else {
            None
        },
        None => None,
    }
}

/// The name of function node `n`, qualified by its enclosing classes and
/// functions, outermost first.
pub fn qualified_name(t: &Vec<SyntaxNode>, n: usize, lang: &str, fk: &Vec<&'static str>) -> (r: String)
    requires
        n < t@.len(),
    ensures
        r@ == qualified(t@, n as int, lang@, strs(fk@)),
{
    let ghost tv = t@;
    let ghost fks = strs(fk@);
    let classes = class_kinds(lang);
    let first = bare_name(t, n, lang);
    let mut segs: Vec<(String, bool)> = Vec::new();
    segs.push((first, false));
    let ghost whole = seq![(bare(tv, n as int, lang@), false)] + up_segs(tv, parent_index(tv, n as int), lang@, fks);
    let mut cur = parent_below(t, n);
    assert(seg_view(segs@) =~= seq![(bare(tv, n as int, lang@), false)]);
    while cur.is_some()
        invariant
            tv == t@,
            fks == strs(fk@),
            strs(classes@) == class_kind_list(lang@),
            opt_index(cur) < tv.len(),
            seg_view(segs@) + up_segs(tv, opt_index(cur), lang@, fks) == whole,
        decreases opt_index(cur) + 1,
    {
        let p = cur.unwrap();
        let ghost before = seg_view(segs@);
        let ghost rest = up_segs(tv, parent_index(tv, p as int), lang@, fks);
        if kind_in(&classes, t[p].kind.as_str()) {
            match &t[p].name_text {
                Some(c) => {
                    segs.push((c.clone(), true));
                    assert(seg_view(segs@) =~= before.push((c@, true)));
                    assert(before + (seq![(c@, true)] + rest) =~= before.push((c@, true)) + rest);
                },
                None => {},
            }
        } else if kind_in(fk, t[p].kind.as_str()) {
            let b = bare_name(t, p, lang);
            segs.push((b, false));
            assert(seg_view(segs@) =~= before.push((bare(tv, p as int, lang@), false)));
            assert(before + (seq![(bare(tv, p as int, lang@), false)] + rest) =~= before.push(
                (bare(tv, p as int, lang@), false),
            ) + rest);
        }
        cur = parent_below(t, p);
    }
    assert(seg_view(segs@) + up_segs(tv, -1, lang@, fks) =~= seg_view(segs@));
    let ghost sv = seg_view(segs@);
    let ghost rv = sv.reverse();
    let m = segs.len();
    let mut out = String::new();
    let mut i: usize = 0;
    assert(rv.take(0) =~= Seq::<(Seq<char>, bool)>::empty());
    assert(out@ =~= Seq::<char>::empty());
    while i < m
        invariant
            m == segs@.len(),
            sv == seg_view(segs@),
            rv == sv.reverse(),
            rv.len() == m,
            i <= m,
            out@ == seg_join(rv.take(i as int)),
        decreases m - i,
    {
        let ghost tk = rv.take(i + 1);
        assert(tk.drop_last() =~= rv.take(i as int));
        assert(tk.last() == rv[i as int]);
        assert(rv[i as int] == sv[m - 1 - i]);
        assert(sv[m - 1 - i] == (segs@[m - 1 - i].0@, segs@[m - 1 - i].1));
        let seg = &segs[m - 1 - i].0;
        let is_class = segs[m - 1 - i].1;
        if i == 0 {
            out = seg.clone();
            assert(tk.len() == 1);
        } else {
            assert(tk[tk.len() - 2] == rv[i - 1]);
            assert(rv[i - 1] == sv[m - i]);
            assert(sv[m - i] == (segs@[m - i as int].0@, segs@[m - i as int].1));
            let prev_is_class = segs[m - i].1;
            let sep = if is_class || prev_is_class {
                "::"
            } else {
                "."
            };
            let a = concat(out.as_str(), sep);
            out = concat(a.as_str(), seg.as_str());
        }
        i += 1;
    }
    assert(rv.take(m as int) =~= rv);
    out
}

/// One function's facts as plain values: qualified name, first line,
/// lines spanned, complexity.
pub open spec fn fact_row(t: Seq<SyntaxNode>, n: int, lang: Seq<char>, r: SpecRow) -> (Seq<char>, int, int, int) {
    (
        qualified(t, n, lang, r.0),
        t[n].start_row + 1,
        t[n].end_row - t[n].start_row + 1,
        1 + decision_count(t, n, r),
    )
}

pub open spec fn fact_view(f: FunctionFact) -> (Seq<char>, int, int, int) {
    (f.name@, f.start_line as int, f.nloc as int, f.cyclomatic_complexity as int)
}

/// The per-function facts of a parsed file in language `lang`, in walking
/// order; none for a language without complexity rules.
pub open spec fn tree_facts(t: Seq<SyntaxNode>, lang: Seq<char>) -> Seq<(Seq<char>, int, int, int)> {
    match lang_rules(lang) {
        Some(r) => function_order(t, r.0).map_values(|n: int| fact_row(t, n, lang, r)),
        None => Seq::empty(),
    }
}

/// Complexity facts of every function in a parsed file.
pub fn facts_from_tree(t: &Vec<SyntaxNode>, lang: &str) -> (r: Vec<FunctionFact>)
    requires
        tree_ok(t@),
        t@.len() < 0x4000_0000_0000_0000,
    ensures
        r@.map_values(|f: FunctionFact| fact_view(f)) == tree_facts(t@, lang@),
{
    let sp = match spec_for(lang) {
        Some(s) => s,
        None => return Vec::new(),
    };
    let ghost r = spec_row(sp);
    let fnodes = function_nodes(t, &sp.function_kinds);
    let ghost order = fnodes@.map_values(|u: usize| u as int);
    let mut facts: Vec<FunctionFact> = Vec::new();
    let mut i: usize = 0;
    while i < fnodes.len()
        invariant
            tree_ok(t@),
            t@.len() < 0x4000_0000_0000_0000,
            r == spec_row(sp),
            lang_rules(lang@) == Some(r),
            order == fnodes@.map_values(|u: usize| u as int),
            order == function_order(t@, r.0),
            forall|k: int| 0 <= k < fnodes@.len() ==> #[trigger] fnodes@[k] < t@.len(),
            i <= fnodes.len(),
            facts@.map_values(|f: FunctionFact| fact_view(f)) == order.take(i as int).map_values(
                |n: int| fact_row(t@, n, lang@, r),
            ),
        decreases fnodes.len() - i,
    {
        let f = fnodes[i];
        assert(f < t@.len());
        assert(node_ok(t@, f as int));
        let ccn = count_decision_nodes(t, f, &sp);
        let start = t[f].start_row + 1;
        let end = t[f].end_row + 1;
        let name = qualified_name(t, f, lang, &sp.function_kinds);
        let ghost before = facts@.map_values(|f: FunctionFact| fact_view(f));
        facts.push(FunctionFact { name, start_line: start, nloc: end - start + 1, cyclomatic_complexity: 1 + ccn });
        assert(order[i as int] == f as int);
        assert(facts@.map_values(|f: FunctionFact| fact_view(f)) =~= before.push(fact_row(t@, f as int, lang@, r)));
        assert(order.take(i + 1).map_values(|n: int| fact_row(t@, n, lang@, r)) =~= order.take(i as int).map_values(
            |n: int| fact_row(t@, n, lang@, r),
        ).push(fact_row(t@, f as int, lang@, r)));
        i += 1;
    }
    assert(order.take(i as int) =~= order);
    facts
}

} // verus!
