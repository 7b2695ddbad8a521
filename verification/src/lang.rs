//! The one language table every search shares: the name a caller writes,
//! the ripgrep type, the ast-grep language (empty where ast-grep has no
//! grammar) and the extensions a git pathspec needs.

use crate::text::{ascii_lowercase, concat, lower, str_eq};
use vstd::prelude::*;

verus! {

/// One row of the table.
pub struct Language {
    pub name: &'static str,
    pub rg: &'static str,
    pub sg: &'static str,
    pub exts: Vec<&'static str>,
}

/// A row as plain text: name, ripgrep type, ast-grep language, extensions.
pub type LangRow = (Seq<char>, Seq<char>, Seq<char>, Seq<&'static str>);

pub open spec fn lang_view(l: Language) -> LangRow {
    (l.name@, l.rg@, l.sg@, l.exts@)
}

/// The table, aliases beside their canonical names.
pub open spec fn lang_table() -> Seq<LangRow> {
    seq![
        ("python"@, "py"@, "python"@, seq!["py", "pyi"]),
        ("py"@, "py"@, "python"@, seq!["py", "pyi"]),
        ("javascript"@, "js"@, "javascript"@, seq!["js", "cjs", "mjs", "jsx"]),
        ("js"@, "js"@, "javascript"@, seq!["js", "cjs", "mjs", "jsx"]),
        ("jsx"@, "js"@, "jsx"@, seq!["jsx"]),
        ("typescript"@, "ts"@, "typescript"@, seq!["ts", "cts", "mts"]),
        ("ts"@, "ts"@, "typescript"@, seq!["ts", "cts", "mts"]),
        ("tsx"@, "ts"@, "tsx"@, seq!["tsx"]),
        ("php"@, "php"@, "php"@, seq!["php", "phtml"]),
        ("rust"@, "rust"@, "rust"@, seq!["rs"]),
        ("rs"@, "rust"@, "rust"@, seq!["rs"]),
        ("go"@, "go"@, "go"@, seq!["go"]),
        ("java"@, "java"@, "java"@, seq!["java"]),
        ("kotlin"@, "kotlin"@, "kotlin"@, seq!["kt", "kts"]),
        ("swift"@, "swift"@, "swift"@, seq!["swift"]),
        ("scala"@, "scala"@, "scala"@, seq!["scala", "sc"]),
        ("ruby"@, "ruby"@, "ruby"@, seq!["rb"]),
        ("rb"@, "ruby"@, "ruby"@, seq!["rb"]),
        ("c"@, "c"@, "c"@, seq!["c", "h"]),
        ("cpp"@, "cpp"@, "cpp"@, seq!["cpp", "cc", "cxx", "hpp"]),
        ("csharp"@, "csharp"@, "csharp"@, seq!["cs"]),
        ("cs"@, "csharp"@, "csharp"@, seq!["cs"]),
        ("elixir"@, "elixir"@, "elixir"@, seq!["ex", "exs"]),
        ("lua"@, "lua"@, "lua"@, seq!["lua"]),
        ("bash"@, "sh"@, "bash"@, seq!["sh", "bash", "zsh"]),
        ("sh"@, "sh"@, "bash"@, seq!["sh", "bash", "zsh"]),
        ("shell"@, "sh"@, "bash"@, seq!["sh", "bash", "zsh"]),
        ("html"@, "html"@, "html"@, seq!["html", "htm"]),
        ("css"@, "css"@, "css"@, seq!["css"]),
        ("json"@, "json"@, "json"@, seq!["json"]),
        ("yaml"@, "yaml"@, "yaml"@, seq!["yaml", "yml"]),
        ("yml"@, "yaml"@, "yaml"@, seq!["yaml", "yml"]),
        ("sql"@, "sql"@, "sql"@, seq!["sql"]),
        ("toml"@, "toml"@, ""@, seq!["toml"]),
        ("markdown"@, "md"@, ""@, seq!["md", "markdown"]),
        ("md"@, "md"@, ""@, seq!["md", "markdown"]),
    ]
}

/// The first row of `t` named `name`.
pub open spec fn first_named(t: Seq<LangRow>, name: Seq<char>) -> Option<LangRow>
    decreases t.len(),
{
    if t.len() == 0 {
        None
    } else if t[0].0 == name {
        Some(t[0])
    } else {
        first_named(t.drop_first(), name)
    }
}

/// `parts` joined with `sep` between consecutive parts.
pub open spec fn join_with(parts: Seq<Seq<char>>, sep: Seq<char>) -> Seq<char>
    decreases parts.len(),
{
    if parts.len() == 0 {
        Seq::empty()
    } else if parts.len() == 1 {
        parts[0]
    } else {
        join_with(parts.drop_last(), sep) + sep + parts.last()
    }
}

fn table() -> (t: Vec<Language>)
    ensures
        t@.map_values(|l: Language| lang_view(l)) == lang_table(),
{
    let mut t: Vec<Language> = Vec::new();
    t.push(Language { name: "python", rg: "py", sg: "python", exts: vec!["py", "pyi"] });
    t.push(Language { name: "py", rg: "py", sg: "python", exts: vec!["py", "pyi"] });
    t.push(Language { name: "javascript", rg: "js", sg: "javascript", exts: vec!["js", "cjs", "mjs", "jsx"] });
    t.push(Language { name: "js", rg: "js", sg: "javascript", exts: vec!["js", "cjs", "mjs", "jsx"] });
    t.push(Language { name: "jsx", rg: "js", sg: "jsx", exts: vec!["jsx"] });
    t.push(Language { name: "typescript", rg: "ts", sg: "typescript", exts: vec!["ts", "cts", "mts"] });
    t.push(Language { name: "ts", rg: "ts", sg: "typescript", exts: vec!["ts", "cts", "mts"] });
    t.push(Language { name: "tsx", rg: "ts", sg: "tsx", exts: vec!["tsx"] });
    t.push(Language { name: "php", rg: "php", sg: "php", exts: vec!["php", "phtml"] });
    t.push(Language { name: "rust", rg: "rust", sg: "rust", exts: vec!["rs"] });
    t.push(Language { name: "rs", rg: "rust", sg: "rust", exts: vec!["rs"] });
    t.push(Language { name: "go", rg: "go", sg: "go", exts: vec!["go"] });
    t.push(Language { name: "java", rg: "java", sg: "java", exts: vec!["java"] });
    t.push(Language { name: "kotlin", rg: "kotlin", sg: "kotlin", exts: vec!["kt", "kts"] });
    t.push(Language { name: "swift", rg: "swift", sg: "swift", exts: vec!["swift"] });
    t.push(Language { name: "scala", rg: "scala", sg: "scala", exts: vec!["scala", "sc"] });
    t.push(Language { name: "ruby", rg: "ruby", sg: "ruby", exts: vec!["rb"] });
    t.push(Language { name: "rb", rg: "ruby", sg: "ruby", exts: vec!["rb"] });
    t.push(Language { name: "c", rg: "c", sg: "c", exts: vec!["c", "h"] });
    t.push(Language { name: "cpp", rg: "cpp", sg: "cpp", exts: vec!["cpp", "cc", "cxx", "hpp"] });
    t.push(Language { name: "csharp", rg: "csharp", sg: "csharp", exts: vec!["cs"] });
    t.push(Language { name: "cs", rg: "csharp", sg: "csharp", exts: vec!["cs"] });
    t.push(Language { name: "elixir", rg: "elixir", sg: "elixir", exts: vec!["ex", "exs"] });
    t.push(Language { name: "lua", rg: "lua", sg: "lua", exts: vec!["lua"] });
    t.push(Language { name: "bash", rg: "sh", sg: "bash", exts: vec!["sh", "bash", "zsh"] });
    t.push(Language { name: "sh", rg: "sh", sg: "bash", exts: vec!["sh", "bash", "zsh"] });
    t.push(Language { name: "shell", rg: "sh", sg: "bash", exts: vec!["sh", "bash", "zsh"] });
    t.push(Language { name: "html", rg: "html", sg: "html", exts: vec!["html", "htm"] });
    t.push(Language { name: "css", rg: "css", sg: "css", exts: vec!["css"] });
    t.push(Language { name: "json", rg: "json", sg: "json", exts: vec!["json"] });
    t.push(Language { name: "yaml", rg: "yaml", sg: "yaml", exts: vec!["yaml", "yml"] });
    t.push(Language { name: "yml", rg: "yaml", sg: "yaml", exts: vec!["yaml", "yml"] });
    t.push(Language { name: "sql", rg: "sql", sg: "sql", exts: vec!["sql"] });
    t.push(Language { name: "toml", rg: "toml", sg: "", exts: vec!["toml"] });
    t.push(Language { name: "markdown", rg: "md", sg: "", exts: vec!["md", "markdown"] });
    t.push(Language { name: "md", rg: "md", sg: "", exts: vec!["md", "markdown"] });
    assert(t@.len() == 36);
    assert(lang_view(t@[0]) == lang_table()[0]);
    assert(lang_view(t@[1]) == lang_table()[1]);
    assert(lang_view(t@[2]) == lang_table()[2]);
    assert(lang_view(t@[3]) == lang_table()[3]);
    assert(lang_view(t@[4]) == lang_table()[4]);
    assert(lang_view(t@[5]) == lang_table()[5]);
    assert(lang_view(t@[6]) == lang_table()[6]);
    assert(lang_view(t@[7]) == lang_table()[7]);
    assert(lang_view(t@[8]) == lang_table()[8]);
    assert(lang_view(t@[9]) == lang_table()[9]);
    assert(lang_view(t@[10]) == lang_table()[10]);
    assert(lang_view(t@[11]) == lang_table()[11]);
    assert(lang_view(t@[12]) == lang_table()[12]);
    assert(lang_view(t@[13]) == lang_table()[13]);
    assert(lang_view(t@[14]) == lang_table()[14]);
    assert(lang_view(t@[15]) == lang_table()[15]);
    assert(lang_view(t@[16]) == lang_table()[16]);
    assert(lang_view(t@[17]) == lang_table()[17]);
    assert(lang_view(t@[18]) == lang_table()[18]);
    assert(lang_view(t@[19]) == lang_table()[19]);
    assert(lang_view(t@[20]) == lang_table()[20]);
    assert(lang_view(t@[21]) == lang_table()[21]);
    assert(lang_view(t@[22]) == lang_table()[22]);
    assert(lang_view(t@[23]) == lang_table()[23]);
    assert(lang_view(t@[24]) == lang_table()[24]);
    assert(lang_view(t@[25]) == lang_table()[25]);
    assert(lang_view(t@[26]) == lang_table()[26]);
    assert(lang_view(t@[27]) == lang_table()[27]);
    assert(lang_view(t@[28]) == lang_table()[28]);
    assert(lang_view(t@[29]) == lang_table()[29]);
    assert(lang_view(t@[30]) == lang_table()[30]);
    assert(lang_view(t@[31]) == lang_table()[31]);
    assert(lang_view(t@[32]) == lang_table()[32]);
    assert(lang_view(t@[33]) == lang_table()[33]);
    assert(lang_view(t@[34]) == lang_table()[34]);
    assert(lang_view(t@[35]) == lang_table()[35]);
    assert(t@.map_values(|l: Language| lang_view(l)) =~= lang_table());
    t
}

proof fn lemma_first_named_skip(t: Seq<LangRow>, i: int, name: Seq<char>)
    requires
        0 <= i <= t.len(),
        forall|j: int| 0 <= j < i ==> #[trigger] t[j].0 != name,
    ensures
        first_named(t, name) == first_named(t.skip(i), name),
    decreases i,
{
    if i > 0 {
        lemma_first_named_skip(t.drop_first(), i - 1, name);
        assert(t.drop_first().skip(i - 1) =~= t.skip(i));
    } else {
        assert(t.skip(0) =~= t);
    }
}

/// The row for `name`, matched ASCII-case-insensitively.
pub fn resolve(name: &str) -> (r: Option<Language>)
    ensures
        match r {
            Some(l) => first_named(lang_table(), lower(name@)) == Some(lang_view(l)),
            None => first_named(lang_table(), lower(name@)) is None,
        },
{
    let wanted = ascii_lowercase(name);
    let mut t = table();
    let ghost rows = lang_table();
    let mut i: usize = 0;
    while i < t.len()
        invariant
            i <= t.len(),
            t@.map_values(|l: Language| lang_view(l)) == rows,
            rows == lang_table(),
            wanted@ == lower(name@),
            forall|j: int| 0 <= j < i ==> #[trigger] rows[j].0 != wanted@,
        decreases t.len() - i,
    {
        assert(rows[i as int].0 == t@[i as int].name@);
        if str_eq(t[i].name, wanted.as_str()) {
            proof {
                lemma_first_named_skip(rows, i as int, wanted@);
                assert(rows.skip(i as int)[0] == rows[i as int]);
            }
            let l = t.swap_remove(i);
            return Some(l);
        }
        i += 1;
    }
    proof {
        lemma_first_named_skip(rows, i as int, wanted@);
    }
    None
}

/// Every accepted name, comma-separated, in table order.
pub fn accepted() -> (r: String)
    ensures
        r@ == join_with(lang_table().map_values(|row: LangRow| row.0), ", "@),
{
    let t = table();
    let ghost names = lang_table().map_values(|row: LangRow| row.0);
    let mut out = String::new();
    let mut i: usize = 0;
    while i < t.len()
        invariant
            i <= t.len(),
            t@.map_values(|l: Language| lang_view(l)) == lang_table(),
            names == lang_table().map_values(|row: LangRow| row.0),
            out@ == join_with(names.take(i as int), ", "@),
        decreases t.len() - i,
    {
        assert(names.take(i + 1).drop_last() =~= names.take(i as int));
        assert(names[i as int] == t@[i as int].name@);
        if i == 0 {
            assert(names.take(1) =~= seq![names[0]]);
            out = concat(out.as_str(), t[i].name);
        } else {
            let with_sep = concat(out.as_str(), ", ");
            out = concat(with_sep.as_str(), t[i].name);
        }
        i += 1;
    }
    assert(names.take(t.len() as int) =~= names);
    out
}

} // verus!


verus! {

proof fn lemma_first_named_finds(t: Seq<LangRow>, i: int)
    requires
        0 <= i < t.len(),
    ensures
        first_named(t, t[i].0) matches Some(r) && r.0 == t[i].0,
    decreases i,
{
    if t[0].0 != t[i].0 {
        lemma_first_named_finds(t.drop_first(), i - 1);
    }
}

/// Every accepted language name resolves, and to a row of that very name.
pub proof fn accepted_names_resolve_to_themselves(i: int)
    requires
        0 <= i < lang_table().len(),
    ensures
        first_named(lang_table(), lower(lang_table()[i].0)) matches Some(r) && r.0 == lang_table()[i].0,
{
    let t = lang_table();
    reveal_strlit("python");
    reveal_strlit("py");
    reveal_strlit("javascript");
    reveal_strlit("js");
    reveal_strlit("jsx");
    reveal_strlit("typescript");
    reveal_strlit("ts");
    reveal_strlit("tsx");
    reveal_strlit("php");
    reveal_strlit("rust");
    reveal_strlit("rs");
    reveal_strlit("go");
    reveal_strlit("java");
    reveal_strlit("kotlin");
    reveal_strlit("swift");
    reveal_strlit("scala");
    reveal_strlit("ruby");
    reveal_strlit("rb");
    reveal_strlit("c");
    reveal_strlit("cpp");
    reveal_strlit("csharp");
    reveal_strlit("cs");
    reveal_strlit("elixir");
    reveal_strlit("lua");
    reveal_strlit("bash");
    reveal_strlit("sh");
    reveal_strlit("shell");
    reveal_strlit("html");
    reveal_strlit("css");
    reveal_strlit("json");
    reveal_strlit("yaml");
    reveal_strlit("yml");
    reveal_strlit("sql");
    reveal_strlit("toml");
    reveal_strlit("markdown");
    reveal_strlit("md");
    assert(t.len() == 36);
    assert(lower(t[0].0) == t[0].0);
    assert(lower(t[1].0) == t[1].0);
    assert(lower(t[2].0) == t[2].0);
    assert(lower(t[3].0) == t[3].0);
    assert(lower(t[4].0) == t[4].0);
    assert(lower(t[5].0) == t[5].0);
    assert(lower(t[6].0) == t[6].0);
    assert(lower(t[7].0) == t[7].0);
    assert(lower(t[8].0) == t[8].0);
    assert(lower(t[9].0) == t[9].0);
    assert(lower(t[10].0) == t[10].0);
    assert(lower(t[11].0) == t[11].0);
    assert(lower(t[12].0) == t[12].0);
    assert(lower(t[13].0) == t[13].0);
    assert(lower(t[14].0) == t[14].0);
    assert(lower(t[15].0) == t[15].0);
    assert(lower(t[16].0) == t[16].0);
    assert(lower(t[17].0) == t[17].0);
    assert(lower(t[18].0) == t[18].0);
    assert(lower(t[19].0) == t[19].0);
    assert(lower(t[20].0) == t[20].0);
    assert(lower(t[21].0) == t[21].0);
    assert(lower(t[22].0) == t[22].0);
    assert(lower(t[23].0) == t[23].0);
    assert(lower(t[24].0) == t[24].0);
    assert(lower(t[25].0) == t[25].0);
    assert(lower(t[26].0) == t[26].0);
    assert(lower(t[27].0) == t[27].0);
    assert(lower(t[28].0) == t[28].0);
    assert(lower(t[29].0) == t[29].0);
    assert(lower(t[30].0) == t[30].0);
    assert(lower(t[31].0) == t[31].0);
    assert(lower(t[32].0) == t[32].0);
    assert(lower(t[33].0) == t[33].0);
    assert(lower(t[34].0) == t[34].0);
    assert(lower(t[35].0) == t[35].0);
    lemma_first_named_finds(t, i);
}

/// Each name of the list `accepted` joins resolves, through `resolve`'s
/// lookup, to the language row of that very name.
pub proof fn every_accepted_name_resolves(n: Seq<char>)
    requires
        lang_table().map_values(|row: LangRow| row.0).contains(n),
    ensures
        first_named(lang_table(), lower(n)) matches Some(r) && r.0 == n,
{
    let names = lang_table().map_values(|row: LangRow| row.0);
    let i = choose|i: int| 0 <= i < names.len() && names[i] == n;
    accepted_names_resolve_to_themselves(i);
}

} // verus!
