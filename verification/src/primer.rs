//! The context primer's readings of a repository: who the git user is,
//! which branch is checked out, and what kind of directory a directory is
//! by the names of its files.

use crate::blame::opt_view;
use crate::lang::join_with;
use crate::ordered::{lemma_text_lt_asymmetric, lemma_text_lt_irreflexive, lemma_text_lt_total, lemma_text_lt_transitive, text_less, text_lt, text_views};
use crate::paths::extension_of;
use crate::text::{chars_of, concat, contains, dec, ends_with, fmt_u64, starts_with, str_eq, unicode_lowercase};
use vstd::prelude::*;
use vstd::utf8::encode_utf8;

verus! {

/// `name <email>`, or whichever of the two is set, or `(unset)`.
pub open spec fn git_user_spec(name: Seq<char>, email: Seq<char>) -> Seq<char> {
    if name.len() > 0 && email.len() > 0 {
        name + " <"@ + email + ">"@
    } else if name.len() > 0 {
        name
    } else if email.len() > 0 {
        email
    } else {
        "(unset)"@
    }
}

/// The git user line from `user.name` and `user.email` (empty when unset).
pub fn git_user(name: &str, email: &str) -> (r: String)
    ensures
        r@ == git_user_spec(name@, email@),
{
    let has_name = chars_of(name).len() > 0;
    let has_email = chars_of(email).len() > 0;
    if has_name && has_email {
        let a = concat(name, " <");
        let b = concat(a.as_str(), email);
        concat(b.as_str(), ">")
    } else if has_name {
        name.to_owned()
    } else if has_email {
        email.to_owned()
    } else {
        "(unset)".to_owned()
    }
}

/// The branch `rev-parse --abbrev-ref HEAD` names: `(detached)` when it
/// answers with nothing, `(unknown)` when it fails.
pub fn current_branch(answer: Option<String>) -> (r: String)
    ensures
        r@ == match answer {
            Some(s) => if s@.len() > 0 { s@ } else { "(detached)"@ },
            None => "(unknown)"@,
        },
{
    match answer {
        Some(s) => {
            if chars_of(s.as_str()).len() > 0 {
                s
            } else {
                "(detached)".to_owned()
            }
        },
        None => "(unknown)".to_owned(),
    }
}

/// The default branch from `symbolic-ref --short refs/remotes/origin/HEAD`:
/// without its `origin/`, nothing when that leaves nothing.
pub fn origin_head_branch(answer: Option<String>) -> (r: Option<String>)
    ensures
        opt_view(r) == match answer {
            Some(s) => {
                let t = if starts_with(s@, "origin/"@) { s@.skip(7) } else { s@ };
                if t.len() > 0 { Some(t) } else { None }
            },
            None => None,
        },
{
    match answer {
        Some(s) => {
            let cs = chars_of(s.as_str());
            let prefix = chars_of("origin/");
            proof {
                reveal_strlit("origin/");
            }
            let t = if crate::text::seq_starts_with(&cs, &prefix) {
                crate::text::string_of_range(&cs, 7, cs.len())
            } else {
                crate::text::string_of_range(&cs, 0, cs.len())
            };
            assert(cs@.subrange(7, cs@.len() as int) =~= cs@.skip(7) || !starts_with(s@, "origin/"@));
            assert(cs@.subrange(0, cs@.len() as int) =~= cs@);
            if chars_of(t.as_str()).len() > 0 {
                Some(t)
            } else {
                None
            }
        },
        None => None,
    }
}

pub open spec fn is_ascii_digit(b: u8) -> bool {
    48 <= b <= 57
}

/// Names like `2024_01_05...` or `2024-01-05...`: a migration's timestamp.
pub open spec fn timestamp_prefixed_spec(b: Seq<u8>) -> bool {
    &&& b.len() >= 10
    &&& is_ascii_digit(b[0]) && is_ascii_digit(b[1]) && is_ascii_digit(b[2]) && is_ascii_digit(b[3])
    &&& (b[4] == 95 || b[4] == 45)
    &&& is_ascii_digit(b[5]) && is_ascii_digit(b[6])
    &&& (b[7] == 95 || b[7] == 45)
    &&& is_ascii_digit(b[8]) && is_ascii_digit(b[9])
}

pub fn is_timestamp_prefixed(name: &str) -> (r: bool)
    ensures
        r == timestamp_prefixed_spec(encode_utf8(name@)),
{
    let b = name.as_bytes();
    if b.len() < 10 {
        return false;
    }
    let d = |x: u8| -> (r: bool)
        ensures
            r == is_ascii_digit(x),
        { 48 <= x && x <= 57 };
    let sep = |x: u8| -> (r: bool)
        ensures
            r == (x == 95 || x == 45),
        { x == 95 || x == 45 };
    d(b[0]) && d(b[1]) && d(b[2]) && d(b[3]) && sep(b[4]) && d(b[5]) && d(b[6]) && sep(b[7]) && d(b[8]) && d(b[9])
}

// ---------------------------------------------------------------- directories

/// `.` and the lowercased extension of a file name, or empty without one.
pub open spec fn ext_key(name: Seq<char>) -> Seq<char> {
    match extension_of(name) {
        Some(e) => seq!['.'] + unicode_lowercase(e),
        None => Seq::empty(),
    }
}

/// How many of `names` satisfy `p`.
pub open spec fn count_where(names: Seq<Seq<char>>, p: spec_fn(Seq<char>) -> bool) -> nat
    decreases names.len(),
{
    if names.len() == 0 {
        0
    } else {
        count_where(names.drop_last(), p) + if p(names.last()) { 1nat } else { 0nat }
    }
}

pub open spec fn ext_count(names: Seq<Seq<char>>, e: Seq<char>) -> nat {
    count_where(names, |n: Seq<char>| ext_key(n) == e)
}

pub open spec fn test_config_names() -> Seq<Seq<char>> {
    seq![
        "phpunit.xml"@, "phpunit.xml.dist"@, "pytest.ini"@, "tox.ini"@, "vitest.config.ts"@,
        "vitest.config.js"@, "jest.config.js"@, "jest.config.ts"@, "playwright.config.ts"@,
        "playwright.config.js"@,
    ]
}

pub open spec fn is_test_name(n: Seq<char>) -> bool {
    contains(n, "_test."@) || contains(n, ".test."@) || starts_with(n, "test_"@) || ends_with(n, "Test.php"@)
        || ends_with(n, "Spec.php"@)
}

pub open spec fn is_shell_name(n: Seq<char>) -> bool {
    ends_with(n, ".sh"@) || ends_with(n, ".bash"@) || ends_with(n, ".zsh"@)
}

pub open spec fn is_php_role(n: Seq<char>) -> bool {
    ends_with(n, "Controller.php"@) || ends_with(n, "Model.php"@) || ends_with(n, "Service.php"@)
}

pub open spec fn ts_count(names: Seq<Seq<char>>) -> nat {
    count_where(names, |n: Seq<char>| timestamp_prefixed_spec(encode_utf8(n)))
}

pub open spec fn test_count(names: Seq<Seq<char>>) -> nat {
    count_where(names, |n: Seq<char>| is_test_name(n))
}

pub open spec fn shell_count(names: Seq<Seq<char>>) -> nat {
    count_where(names, |n: Seq<char>| is_shell_name(n))
}

pub open spec fn config_names(names: Seq<Seq<char>>) -> Seq<Seq<char>> {
    names.filter(|n: Seq<char>| test_config_names().contains(n))
}

/// The backends a directory's file names point to.
pub open spec fn backends(names: Seq<Seq<char>>, has_rails_config: bool) -> Seq<Seq<char>> {
    let b1: Seq<Seq<char>> = if names.contains("artisan"@) { seq!["Laravel"@] } else { Seq::empty() };
    let b2 = if names.contains("manage.py"@) || names.contains("wsgi.py"@) || names.contains("asgi.py"@) {
        b1.push("Django/Flask"@)
    } else {
        b1
    };
    let b3 = if names.contains("config.ru"@) || (names.contains("Gemfile"@) && has_rails_config) {
        b2.push("Rails"@)
    } else {
        b2
    };
    let php = ext_count(names, ".php"@);
    if php >= 3 && exists|i: int| 0 <= i < names.len() && is_php_role(#[trigger] names[i]) {
        b3.push(dec(php) + " PHP files (controller/model/service)"@)
    } else {
        b3
    }
}

/// What a directory looks like from its file names: `(kind, evidence)`
/// labels in a fixed order. `has_rails_config` says whether
/// `config/application.rb` exists below it; `shebangs` counts its
/// extensionless files that start with `#!`.
pub open spec fn classify_spec(names: Seq<Seq<char>>, has_rails_config: bool, shebangs: nat) -> Seq<(Seq<char>, Seq<char>)> {
    let frontend = ext_count(names, ".tsx"@) + ext_count(names, ".jsx"@) + ext_count(names, ".vue"@) + ext_count(names, ".svelte"@);
    let l1: Seq<(Seq<char>, Seq<char>)> = if frontend >= 3 {
        seq![("frontend"@, dec(frontend) + " tsx/jsx/vue/svelte files"@)]
    } else {
        Seq::empty()
    };
    let be = backends(names, has_rails_config);
    let l2 = if be.len() > 0 { l1.push(("backend"@, join_with(be, ", "@))) } else { l1 };
    let ts = ts_count(names);
    let l3 = if ts >= 2 { l2.push(("database-migrations"@, dec(ts) + " timestamp-prefixed files"@)) } else { l2 };
    let configs = config_names(names);
    let tests = test_count(names);
    let l4 = if configs.len() > 0 {
        l3.push(("tests"@, "config: "@ + join_with(configs, ", "@)))
    } else if tests >= 2 {
        l3.push(("tests"@, dec(tests) + " test files"@))
    } else {
        l3
    };
    let shells = shell_count(names);
    if shells >= 2 {
        l4.push(("scripts"@, dec(shells) + " shell scripts"@))
    } else if shebangs >= 2 {
        l4.push(("scripts"@, dec(shebangs) + " shebang scripts"@))
    } else {
        l4
    }
}

fn ext_key_of(name: &str) -> (r: String)
    ensures
        r@ == ext_key(name@),
{
    match crate::paths::extension(name) {
        Some(e) => {
            let lower = crate::text::to_lowercase(e.as_str());
            proof {
                reveal_strlit(".");
            }
            concat(".", lower.as_str())
        },
        None => {
            proof {
                reveal_strlit("");
            }
            "".to_owned()
        },
    }
}

/// Files with four different extensions are at most all the files.
proof fn lemma_four_exts(names: Seq<Seq<char>>, a: Seq<char>, b: Seq<char>, c: Seq<char>, d: Seq<char>)
    requires
        a != b && a != c && a != d && b != c && b != d && c != d,
    ensures
        ext_count(names, a) + ext_count(names, b) + ext_count(names, c) + ext_count(names, d) <= names.len(),
    decreases names.len(),
{
    if names.len() > 0 {
        lemma_four_exts(names.drop_last(), a, b, c, d);
    }
}

fn count_ext(names: &Vec<String>, e: &str) -> (r: u64)
    ensures
        r as nat == ext_count(text_views(names@), e@),
        r <= names@.len(),
{
    let ghost nv = text_views(names@);
    let mut n: u64 = 0;
    let mut i: usize = 0;
    while i < names.len()
        invariant
            i <= names.len(),
            nv == text_views(names@),
            n as nat == ext_count(nv.take(i as int), e@),
            n <= i,
        decreases names.len() - i,
    {
        assert(nv.take(i + 1).drop_last() =~= nv.take(i as int));
        assert(nv.take(i + 1).last() == names@[i as int]@);
        let k = ext_key_of(names[i].as_str());
        if str_eq(k.as_str(), e) {
            n = n + 1;
        }
        i += 1;
    }
    assert(nv.take(i as int) =~= nv);
    n
}

fn count_ts(names: &Vec<String>) -> (r: u64)
    ensures
        r as nat == ts_count(text_views(names@)),
{
    let ghost nv = text_views(names@);
    let mut n: u64 = 0;
    let mut i: usize = 0;
    while i < names.len()
        invariant
            i <= names.len(),
            nv == text_views(names@),
            n as nat == ts_count(nv.take(i as int)),
            n <= i,
        decreases names.len() - i,
    {
        assert(nv.take(i + 1).drop_last() =~= nv.take(i as int));
        assert(nv.take(i + 1).last() == names@[i as int]@);
        if is_timestamp_prefixed(names[i].as_str()) {
            n = n + 1;
        }
        i += 1;
    }
    assert(nv.take(i as int) =~= nv);
    n
}

fn is_test_file(n: &str) -> (r: bool)
    ensures
        r == is_test_name(n@),
{
    let c = chars_of(n);
    let a = chars_of("_test.");
    let b = chars_of(".test.");
    let p = chars_of("test_");
    let t = chars_of("Test.php");
    let s = chars_of("Spec.php");
    crate::text::seq_contains(&c, &a) || crate::text::seq_contains(&c, &b) || crate::text::seq_starts_with(&c, &p)
        || crate::text::seq_ends_with(&c, &t) || crate::text::seq_ends_with(&c, &s)
}

fn count_tests(names: &Vec<String>) -> (r: u64)
    ensures
        r as nat == test_count(text_views(names@)),
{
    let ghost nv = text_views(names@);
    let mut n: u64 = 0;
    let mut i: usize = 0;
    while i < names.len()
        invariant
            i <= names.len(),
            nv == text_views(names@),
            n as nat == test_count(nv.take(i as int)),
            n <= i,
        decreases names.len() - i,
    {
        assert(nv.take(i + 1).drop_last() =~= nv.take(i as int));
        assert(nv.take(i + 1).last() == names@[i as int]@);
        if is_test_file(names[i].as_str()) {
            n = n + 1;
        }
        i += 1;
    }
    assert(nv.take(i as int) =~= nv);
    n
}

fn is_shell_file(n: &str) -> (r: bool)
    ensures
        r == is_shell_name(n@),
{
    let c = chars_of(n);
    let a = chars_of(".sh");
    let b = chars_of(".bash");
    let z = chars_of(".zsh");
    crate::text::seq_ends_with(&c, &a) || crate::text::seq_ends_with(&c, &b) || crate::text::seq_ends_with(&c, &z)
}

fn count_shells(names: &Vec<String>) -> (r: u64)
    ensures
        r as nat == shell_count(text_views(names@)),
{
    let ghost nv = text_views(names@);
    let mut n: u64 = 0;
    let mut i: usize = 0;
    while i < names.len()
        invariant
            i <= names.len(),
            nv == text_views(names@),
            n as nat == shell_count(nv.take(i as int)),
            n <= i,
        decreases names.len() - i,
    {
        assert(nv.take(i + 1).drop_last() =~= nv.take(i as int));
        assert(nv.take(i + 1).last() == names@[i as int]@);
        if is_shell_file(names[i].as_str()) {
            n = n + 1;
        }
        i += 1;
    }
    assert(nv.take(i as int) =~= nv);
    n
}

fn is_php_role_file(n: &str) -> (r: bool)
    ensures
        r == is_php_role(n@),
{
    let c = chars_of(n);
    let a = chars_of("Controller.php");
    let b = chars_of("Model.php");
    let s = chars_of("Service.php");
    crate::text::seq_ends_with(&c, &a) || crate::text::seq_ends_with(&c, &b) || crate::text::seq_ends_with(&c, &s)
}

fn any_php_role(names: &Vec<String>) -> (r: bool)
    ensures
        r == exists|i: int| 0 <= i < names@.len() && is_php_role(#[trigger] text_views(names@)[i]),
{
    let mut i: usize = 0;
    while i < names.len()
        invariant
            i <= names.len(),
            forall|j: int| 0 <= j < i ==> !is_php_role(#[trigger] text_views(names@)[j]),
        decreases names.len() - i,
    {
        assert(text_views(names@)[i as int] == names@[i as int]@);
        if is_php_role_file(names[i].as_str()) {
            return true;
        }
        i += 1;
    }
    false
}

fn configs_in(names: &Vec<String>) -> (r: Vec<String>)
    ensures
        text_views(r@) == config_names(text_views(names@)),
{
    let ghost nv = text_views(names@);
    let list: Vec<String> = vec![
        "phpunit.xml".to_owned(), "phpunit.xml.dist".to_owned(), "pytest.ini".to_owned(), "tox.ini".to_owned(),
        "vitest.config.ts".to_owned(), "vitest.config.js".to_owned(), "jest.config.js".to_owned(),
        "jest.config.ts".to_owned(), "playwright.config.ts".to_owned(), "playwright.config.js".to_owned(),
    ];
    assert(text_views(list@) =~= test_config_names());
    let mut out: Vec<String> = Vec::new();
    let mut i: usize = 0;
    while i < names.len()
        invariant
            i <= names.len(),
            nv == text_views(names@),
            text_views(list@) == test_config_names(),
            text_views(out@) == config_names(nv.take(i as int)),
        decreases names.len() - i,
    {
        let ghost pre = nv.take(i as int);
        assert(nv.take(i + 1) =~= pre.push(nv[i as int]));
        assert(nv[i as int] == names@[i as int]@);
        proof {
            pre.lemma_filter_push(nv[i as int], |n: Seq<char>| test_config_names().contains(n));
        }
        let ghost ov = text_views(out@);
        if crate::ordered::contains_text(&list, names[i].as_str()) {
            out.push(names[i].clone());
            assert(text_views(out@) =~= ov.push(nv[i as int]));
        }
        i += 1;
    }
    assert(nv.take(i as int) =~= nv);
    out
}

pub open spec fn label_view(l: (&'static str, String)) -> (Seq<char>, Seq<char>) {
    (l.0@, l.1@)
}

/// Label a directory from its file names (in listing order): frontend,
/// backend, migrations, tests and scripts, each with its evidence.
#[verifier::spinoff_prover]
#[verifier::rlimit(40)]
pub fn classify_directory(names: &Vec<String>, has_rails_config: bool, shebangs: u64) -> (r: Vec<(&'static str, String)>)
    ensures
        r@.map_values(|l: (&'static str, String)| label_view(l)) == classify_spec(text_views(names@), has_rails_config, shebangs as nat),
{
    let ghost nv = text_views(names@);
    let mut labels: Vec<(&'static str, String)> = Vec::new();
    proof {
        reveal_strlit(".tsx");
        reveal_strlit(".jsx");
        reveal_strlit(".vue");
        reveal_strlit(".svelte");
        assert(".tsx"@ != ".jsx"@ && ".tsx"@ != ".vue"@ && ".tsx"@ != ".svelte"@ && ".jsx"@ != ".vue"@ && ".jsx"@ != ".svelte"@ && ".vue"@ != ".svelte"@) by {
            assert(".tsx"@[1] != ".jsx"@[1]);
            assert(".tsx"@[1] != ".vue"@[1]);
            assert(".tsx"@.len() != ".svelte"@.len());
            assert(".jsx"@[1] != ".vue"@[1]);
            assert(".jsx"@.len() != ".svelte"@.len());
            assert(".vue"@.len() != ".svelte"@.len());
        }
        lemma_four_exts(nv, ".tsx"@, ".jsx"@, ".vue"@, ".svelte"@);
    }
    let c1 = count_ext(names, ".tsx");
    let c2 = count_ext(names, ".jsx");
    let c3 = count_ext(names, ".vue");
    let c4 = count_ext(names, ".svelte");
    assert(c1 + c2 + c3 + c4 <= names@.len());
    let total = names.len();
    assert(names@.len() == total as int);
    assert(usize::MAX <= u64::MAX);
    let fe = c1 + c2 + c3 + c4;
    if fe >= 3 {
        let n = fmt_u64(fe);
        labels.push(("frontend", concat(n.as_str(), " tsx/jsx/vue/svelte files")));
    }
    let mut backend: Vec<String> = Vec::new();
    if crate::ordered::contains_text(names, "artisan") {
        backend.push("Laravel".to_owned());
    }
    if crate::ordered::contains_text(names, "manage.py") || crate::ordered::contains_text(names, "wsgi.py")
        || crate::ordered::contains_text(names, "asgi.py") {
        backend.push("Django/Flask".to_owned());
    }
    if crate::ordered::contains_text(names, "config.ru") || (crate::ordered::contains_text(names, "Gemfile") && has_rails_config) {
        backend.push("Rails".to_owned());
    }
    let php = count_ext(names, ".php");
    if php >= 3 && any_php_role(names) {
        let n = fmt_u64(php);
        backend.push(concat(n.as_str(), " PHP files (controller/model/service)"));
    }
    assert(text_views(backend@) =~= backends(nv, has_rails_config));
    if backend.len() > 0 {
        labels.push(("backend", crate::passive::join_texts(&backend, ", ")));
    }
    let ts = count_ts(names);
    if ts >= 2 {
        let n = fmt_u64(ts);
        labels.push(("database-migrations", concat(n.as_str(), " timestamp-prefixed files")));
    }
    let configs = configs_in(names);
    if configs.len() > 0 {
        let j = crate::passive::join_texts(&configs, ", ");
        labels.push(("tests", concat("config: ", j.as_str())));
    } else {
        let tests = count_tests(names);
        if tests >= 2 {
            let n = fmt_u64(tests);
            labels.push(("tests", concat(n.as_str(), " test files")));
        }
    }
    let shells = count_shells(names);
    if shells >= 2 {
        let n = fmt_u64(shells);
        labels.push(("scripts", concat(n.as_str(), " shell scripts")));
    } else if shebangs >= 2 {
        let n = fmt_u64(shebangs);
        labels.push(("scripts", concat(n.as_str(), " shebang scripts")));
    }
    assert(labels@.map_values(|l: (&'static str, String)| label_view(l)) =~= classify_spec(nv, has_rails_config, shebangs as nat));
    labels
}

/// One uncommitted file as the primer ranks it: how many modules depend on
/// it, its complexity, its working state, its path.
pub type DirtyRow = (i64, i64, String, String);

/// `a` ranks before `b`: more dependents first, then more complex, then by
/// path.
pub open spec fn ranks_before(a: DirtyRow, b: DirtyRow) -> bool {
    a.0 > b.0 || (a.0 == b.0 && (a.1 > b.1 || (a.1 == b.1 && text_lt(a.3@, b.3@))))
}

pub open spec fn rows_ranked(s: Seq<DirtyRow>) -> bool {
    forall|i: int, j: int| 0 <= i < j < s.len() ==> ranks_before(#[trigger] s[i], #[trigger] s[j])
}

pub open spec fn paths_distinct(s: Seq<DirtyRow>) -> bool {
    forall|i: int, j: int| 0 <= i < j < s.len() ==> (#[trigger] s[i]).3@ != (#[trigger] s[j]).3@
}

proof fn lemma_ranks_total(a: DirtyRow, b: DirtyRow)
    requires
        a.3@ != b.3@,
    ensures
        ranks_before(a, b) || ranks_before(b, a),
{
    lemma_text_lt_total(a.3@, b.3@);
}

proof fn lemma_ranks_transitive(a: DirtyRow, b: DirtyRow, c: DirtyRow)
    requires
        ranks_before(a, b),
        ranks_before(b, c),
    ensures
        ranks_before(a, c),
{
    if a.0 == b.0 && b.0 == c.0 && a.1 == b.1 && b.1 == c.1 {
        lemma_text_lt_transitive(a.3@, b.3@, c.3@);
    }
}

proof fn lemma_ranks_asymmetric(a: DirtyRow, b: DirtyRow)
    requires
        ranks_before(a, b),
    ensures
        !ranks_before(b, a),
{
    if a.0 == b.0 && a.1 == b.1 {
        lemma_text_lt_asymmetric(a.3@, b.3@);
    }
}

fn ranks_before_exec(a: &DirtyRow, b: &DirtyRow) -> (r: bool)
    ensures
        r == ranks_before(*a, *b),
{
    a.0 > b.0 || (a.0 == b.0 && (a.1 > b.1 || (a.1 == b.1 && text_less(a.3.as_str(), b.3.as_str()))))
}

/// Two rankings of the same rows agree: with distinct paths the ranking
/// order is total, so only one order of the rows is ranked.
pub proof fn ranking_is_unique(a: Seq<DirtyRow>, b: Seq<DirtyRow>)
    requires
        a.to_multiset() == b.to_multiset(),
        rows_ranked(a),
        rows_ranked(b),
    ensures
        a == b,
    decreases a.len(),
{
    broadcast use vstd::seq_lib::group_to_multiset_ensures;
    a.to_multiset_ensures();
    b.to_multiset_ensures();
    if a.len() == 0 {
        assert(b.len() == 0);
        assert(a =~= b);
    } else {
        assert(b.len() == a.len());
        assert(a.to_multiset().count(a[0]) > 0);
        assert(b.contains(a[0]));
        let k = choose|k: int| 0 <= k < b.len() && b[k] == a[0];
        assert(b.to_multiset().count(b[0]) > 0);
        assert(a.contains(b[0]));
        let m = choose|m: int| 0 <= m < a.len() && a[m] == b[0];
        if k > 0 {
            assert(ranks_before(b[0], b[k]));
            if m > 0 {
                assert(ranks_before(a[0], a[m]));
                lemma_ranks_asymmetric(a[0], b[0]);
            } else {
                assert(a[0] == b[0]);
                lemma_ranks_asymmetric(b[0], b[k]);
            }
        }
        assert(a[0] == b[0]);
        let a1 = a.drop_first();
        let b1 = b.drop_first();
        assert(a =~= a1.insert(0, a[0]));
        assert(b =~= b1.insert(0, b[0]));
        vstd::seq_lib::to_multiset_insert(a1, 0, a[0]);
        vstd::seq_lib::to_multiset_insert(b1, 0, b[0]);
        assert forall|y: DirtyRow| a1.to_multiset().count(y) == b1.to_multiset().count(y) by {
            assert(a1.to_multiset().insert(a[0]).count(y) == b1.to_multiset().insert(b[0]).count(y));
        }
        assert(a1.to_multiset() =~= b1.to_multiset());
        assert forall|i: int, j: int| 0 <= i < j < a1.len() implies ranks_before(#[trigger] a1[i], #[trigger] a1[j]) by {
            assert(a1[i] == a[i + 1] && a1[j] == a[j + 1]);
        }
        assert forall|i: int, j: int| 0 <= i < j < b1.len() implies ranks_before(#[trigger] b1[i], #[trigger] b1[j]) by {
            assert(b1[i] == b[i + 1] && b1[j] == b[j + 1]);
        }
        ranking_is_unique(a1, b1);
    }
}

fn copy_row(r: &DirtyRow) -> (c: DirtyRow)
    ensures
        c == *r,
{
    (r.0, r.1, r.2.clone(), r.3.clone())
}

/// The rows in rank order.
pub fn rank_dirty(rows: &Vec<DirtyRow>) -> (r: Vec<DirtyRow>)
    requires
        paths_distinct(rows@),
    ensures
        r@.to_multiset() == rows@.to_multiset(),
        rows_ranked(r@),
{
    broadcast use vstd::seq_lib::group_to_multiset_ensures;
    let mut out: Vec<DirtyRow> = Vec::new();
    let mut i: usize = 0;
    assert(rows@.take(0) =~= Seq::<DirtyRow>::empty());
    while i < rows.len()
        invariant
            i <= rows@.len(),
            paths_distinct(rows@),
            rows_ranked(out@),
            out@.to_multiset() == rows@.take(i as int).to_multiset(),
        decreases rows@.len() - i,
    {
        let x = copy_row(&rows[i]);
        let mut p: usize = 0;
        while p < out.len() && !ranks_before_exec(&x, &out[p])
            invariant
                p <= out@.len(),
                forall|j: int| 0 <= j < p ==> !ranks_before(x, #[trigger] out@[j]),
            decreases out@.len() - p,
        {
            p += 1;
        }
        let ghost before = out@;
        proof {
            // every ranked row came from the rows before `i`, so its path differs from x's
            assert forall|j: int| 0 <= j < before.len() implies (#[trigger] before[j]).3@ != x.3@ by {
                before.to_multiset_ensures();
                rows@.take(i as int).to_multiset_ensures();
                assert(before.contains(before[j]));
                assert(before.to_multiset().count(before[j]) > 0);
                assert(rows@.take(i as int).to_multiset().count(before[j]) > 0);
                assert(rows@.take(i as int).contains(before[j]));
                let k = choose|k: int| 0 <= k < i && rows@.take(i as int)[k] == before[j];
                assert(rows@[k] == before[j]);
            }
        }
        out.insert(p, x);
        proof {
            vstd::seq_lib::to_multiset_insert(before, p as int, x);
            assert(rows@.take(i + 1) =~= rows@.take(i as int).push(rows@[i as int]));
            vstd::seq_lib::to_multiset_build(rows@.take(i as int), rows@[i as int]);
            assert forall|a: int, b: int| 0 <= a < b < out@.len() implies ranks_before(#[trigger] out@[a], #[trigger] out@[b]) by {
                if a < p && b == p {
                    lemma_ranks_total(before[a], x);
                } else if a < p && b > p {
                    assert(out@[b] == before[b - 1]);
                    lemma_ranks_total(before[a], x);
                    if p < before.len() {
                        assert(ranks_before(x, before[p as int]));
                        if b - 1 > p {
                            assert(ranks_before(before[p as int], before[b - 1]));
                            lemma_ranks_transitive(x, before[p as int], before[b - 1]);
                        }
                    }
                    lemma_ranks_transitive(before[a], x, before[b - 1]);
                } else if a == p {
                    assert(out@[b] == before[b - 1]);
                    assert(ranks_before(x, before[p as int]));
                    if b - 1 > p {
                        assert(ranks_before(before[p as int], before[b - 1]));
                        lemma_ranks_transitive(x, before[p as int], before[b - 1]);
                    }
                } else if a > p {
                    assert(out@[a] == before[a - 1] && out@[b] == before[b - 1]);
                } else {
                    assert(out@[a] == before[a] && out@[b] == before[b]);
                }
            }
        }
        i += 1;
    }
    assert(rows@.take(i as int) =~= rows@);
    out
}

/// How many dirty files the primer lists by name.
pub open spec fn dirty_limit() -> nat {
    10
}

pub open spec fn dirty_line(r: DirtyRow) -> Seq<char> {
    crate::text::pad_right(r.2@, 10) + " "@ + r.3@ + "  (callers="@ + crate::text::dec_int(r.0 as int) + ", ccn="@
        + crate::text::dec_int(r.1 as int) + ")"@
}

/// The primer's lines for ranked rows: the first ten, then how many more
/// there are.
pub open spec fn dirty_lines(ranked: Seq<DirtyRow>) -> Seq<Seq<char>> {
    let shown = if ranked.len() > dirty_limit() { ranked.take(dirty_limit() as int) } else { ranked };
    shown.map_values(|r: DirtyRow| dirty_line(r)) + if ranked.len() > dirty_limit() {
        seq![seq!['\u{2026}'] + " "@ + dec((ranked.len() - dirty_limit()) as nat) + " more"@]
    } else {
        Seq::empty()
    }
}

fn fmt_dirty_line(r: &DirtyRow) -> (s: String)
    ensures
        s@ == dirty_line(*r),
{
    let a = crate::text::right_pad(r.2.as_str(), 10);
    let b = concat(a.as_str(), " ");
    let c = concat(b.as_str(), r.3.as_str());
    let d = concat(c.as_str(), "  (callers=");
    let e = concat(d.as_str(), crate::text::fmt_i64(r.0).as_str());
    let f = concat(e.as_str(), ", ccn=");
    let g = concat(f.as_str(), crate::text::fmt_i64(r.1).as_str());
    concat(g.as_str(), ")")
}

/// The uncommitted files, most depended-on and most complex first, as the
/// primer prints them.
pub fn render_dirty(rows: &Vec<DirtyRow>) -> (r: Vec<String>)
    requires
        paths_distinct(rows@),
    ensures
        exists|s: Seq<DirtyRow>| s.to_multiset() == rows@.to_multiset() && rows_ranked(s) && text_views(r@) == dirty_lines(s),
{
    let ranked = rank_dirty(rows);
    let n = ranked.len();
    let shown = if n > 10 { 10 } else { n };
    let ghost sh = if ranked@.len() > dirty_limit() { ranked@.take(dirty_limit() as int) } else { ranked@ };
    assert(sh.len() == shown);
    let mut out: Vec<String> = Vec::new();
    let mut i: usize = 0;
    while i < shown
        invariant
            i <= shown,
            shown <= ranked@.len(),
            sh.len() == shown,
            forall|j: int| 0 <= j < shown ==> #[trigger] sh[j] == ranked@[j],
            text_views(out@) == sh.take(i as int).map_values(|r: DirtyRow| dirty_line(r)),
        decreases shown - i,
    {
        let line = fmt_dirty_line(&ranked[i]);
        let ghost ov = text_views(out@);
        out.push(line);
        assert(text_views(out@) =~= ov.push(dirty_line(sh[i as int])));
        assert(sh.take(i + 1).map_values(|r: DirtyRow| dirty_line(r)) =~= sh.take(i as int).map_values(
            |r: DirtyRow| dirty_line(r),
        ).push(dirty_line(sh[i as int])));
        i += 1;
    }
    assert(sh.take(i as int) =~= sh);
    if n > 10 {
        let mut more = String::new();
        crate::text::push_char(&mut more, '\u{2026}');
        let a = concat(more.as_str(), " ");
        let b = concat(a.as_str(), fmt_u64((n - 10) as u64).as_str());
        let line = concat(b.as_str(), " more");
        let ghost ov = text_views(out@);
        out.push(line);
        assert(text_views(out@) =~= ov.push(line@));
        assert(more@ =~= seq!['\u{2026}']);
    }
    assert(text_views(out@) =~= dirty_lines(ranked@));
    out
}

/// `str::split_whitespace` so far: the finished words, and the word being
/// read.
pub open spec fn ws_state(s: Seq<char>) -> (Seq<Seq<char>>, Seq<char>)
    decreases s.len(),
{
    if s.len() == 0 {
        (Seq::empty(), Seq::empty())
    } else {
        let (done, cur) = ws_state(s.drop_last());
        let c = s.last();
        if crate::digest::is_ws(c) {
            (if cur.len() > 0 { done.push(cur) } else { done }, Seq::empty())
        } else {
            (done, cur.push(c))
        }
    }
}

/// `str::split_whitespace`: the runs of non-whitespace characters, in order.
pub open spec fn ws_words(s: Seq<char>) -> Seq<Seq<char>> {
    let (done, cur) = ws_state(s);
    if cur.len() > 0 {
        done.push(cur)
    } else {
        done
    }
}

pub fn split_whitespace(s: &str) -> (r: Vec<String>)
    ensures
        text_views(r@) == ws_words(s@),
{
    let cs = chars_of(s);
    let mut done: Vec<String> = Vec::new();
    let mut cur = String::new();
    let mut i: usize = 0;
    assert(cur@ =~= Seq::<char>::empty());
    assert(cs@.take(0) =~= Seq::<char>::empty());
    while i < cs.len()
        invariant
            i <= cs@.len(),
            cs@ == s@,
            (text_views(done@), cur@) == ws_state(cs@.take(i as int)),
        decreases cs@.len() - i,
    {
        assert(cs@.take(i + 1).drop_last() =~= cs@.take(i as int));
        assert(cs@.take(i + 1).last() == cs@[i as int]);
        let c = cs[i];
        if crate::digest::ws(c) {
            if cur.unicode_len() > 0 {
                let ghost dv = text_views(done@);
                let w = cur;
                let ghost wv = w@;
                done.push(w);
                assert(text_views(done@) =~= dv.push(wv));
                cur = String::new();
            } else {
                cur = String::new();
            }
            assert(cur@ =~= Seq::<char>::empty());
        } else {
            crate::text::push_char(&mut cur, c);
        }
        i += 1;
    }
    assert(cs@.take(i as int) =~= cs@);
    if cur.unicode_len() > 0 {
        let ghost dv = text_views(done@);
        let ghost wv = cur@;
        done.push(cur);
        assert(text_views(done@) =~= dv.push(wv));
    }
    done
}

/// The base branch the primer counts commits ahead and behind against: the
/// default branch, unless it is the current one or there is no current
/// branch to speak of.
pub open spec fn compare_base(current: Seq<char>, base: Option<Seq<char>>) -> Option<Seq<char>> {
    match base {
        Some(b) => if current == b || current == "(unknown)"@ || current == "(detached)"@ {
            None
        } else {
            Some(b)
        },
        None => None,
    }
}

pub fn ahead_behind_base(current: &str, base: Option<&str>) -> (r: Option<String>)
    ensures
        opt_view(r) == compare_base(current@, match base {
            Some(b) => Some(b@),
            None => None,
        }),
{
    match base {
        Some(b) => {
            if str_eq(current, b) || str_eq(current, "(unknown)") || str_eq(current, "(detached)") {
                None
            } else {
                Some(b.to_owned())
            }
        },
        None => None,
    }
}

/// The ahead/behind line from `rev-list --left-right --count
/// origin/<base>...HEAD`: its two counts are behind, then ahead; anything
/// else says nothing.
pub open spec fn ahead_behind_spec(base: Seq<char>, stdout: Option<Seq<char>>) -> Seq<char> {
    match stdout {
        Some(o) => {
            let w = ws_words(o);
            if w.len() == 2 {
                "ahead: "@ + w[1] + ", behind: "@ + w[0] + " vs origin/"@ + base
            } else {
                Seq::empty()
            }
        },
        None => Seq::empty(),
    }
}

pub fn ahead_behind_text(base: &str, stdout: Option<String>) -> (r: String)
    ensures
        r@ == ahead_behind_spec(base@, opt_view(stdout)),
{
    match stdout {
        Some(o) => {
            let w = split_whitespace(o.as_str());
            if w.len() == 2 {
                assert(text_views(w@)[0] == w@[0]@ && text_views(w@)[1] == w@[1]@);
                let a = concat("ahead: ", w[1].as_str());
                let b = concat(a.as_str(), ", behind: ");
                let c = concat(b.as_str(), w[0].as_str());
                let d = concat(c.as_str(), " vs origin/");
                concat(d.as_str(), base)
            } else {
                proof {
                    reveal_strlit("");
                }
                "".to_owned()
            }
        },
        None => {
            proof {
                reveal_strlit("");
            }
            "".to_owned()
        },
    }
}

/// Whether a node id names a module outside the repository.
pub open spec fn is_external(id: Seq<char>) -> bool {
    starts_with(id, "module::external::"@)
}

/// The spine: edge targets by how many edges point at them, most first
/// (ties in first-seen order), external modules left out, at most ten.
pub open spec fn spine_ranked(g: &crate::architecture::Graph) -> crate::history::Counts {
    let t = crate::history::tally(g.edges@.map_values(|e: crate::architecture::Edge| e.target@));
    let internal = crate::history::most_common(t, t.len()).filter(|c: (Seq<char>, int)| !is_external(c.0));
    if internal.len() > 10 { internal.take(10) } else { internal }
}

/// Where a node lives: `file:line`, the file, or `(no source)`.
pub open spec fn location_text(n: crate::architecture::Node) -> Seq<char> {
    match n.source_file {
        Some(sf) => match n.source_line {
            Some(l) => sf@ + ":"@ + crate::text::dec_int(l as int),
            None => sf@,
        },
        None => "(no source)"@,
    }
}

/// The row of the spine entry at `rank` (0-based), when the graph holds its
/// node.
pub open spec fn spine_row(g: &crate::architecture::Graph, rank: int, c: (Seq<char>, int)) -> Seq<Seq<char>> {
    match crate::keyed::lookup(g.nodes@, c.0) {
        Some(n) => seq![
            "    "@ + crate::text::pad_right(crate::text::dec_int(rank + 1), 3) + " "@ + crate::text::pad_left(
                crate::text::dec_int(c.1),
                6,
                ' ',
            ) + "  "@ + crate::text::pad_right(n.kind@, 10) + " "@ + n.label@ + " @ "@ + location_text(n),
        ],
        None => Seq::empty(),
    }
}

pub open spec fn spine_rows(g: &crate::architecture::Graph, ranked: crate::history::Counts) -> Seq<Seq<char>>
    decreases ranked.len(),
{
    if ranked.len() == 0 {
        Seq::empty()
    } else {
        spine_rows(g, ranked.drop_last()) + spine_row(g, ranked.len() - 1, ranked.last())
    }
}

/// The primer's Spine section.
pub open spec fn spine_section(g: Option<&crate::architecture::Graph>) -> Seq<Seq<char>> {
    seq!["## Spine"@] + match g {
        Some(g) => if g.edges@.len() > 0 {
            let r = spine_ranked(g);
            if r.len() == 0 {
                seq!["  (no internal nodes in the architecture graph)"@]
            } else {
                seq![
                    "  Top "@ + dec(r.len()) + " most-depended-on nodes:"@,
                    "    #   direct  kind       symbol @ source"@,
                ] + spine_rows(g, r)
            }
        } else {
            seq!["  (architecture graph empty \u{2014} run `trace cache build` if you expect data)"@]
        },
        None => seq!["  (architecture graph empty \u{2014} run `trace cache build` if you expect data)"@],
    }
}

fn location_of(n: &crate::architecture::Node) -> (r: String)
    ensures
        r@ == location_text(*n),
{
    match &n.source_file {
        Some(sf) => match n.source_line {
            Some(l) => {
                let a = concat(sf.as_str(), ":");
                concat(a.as_str(), crate::text::fmt_i64(l).as_str())
            },
            None => sf.clone(),
        },
        None => "(no source)".to_owned(),
    }
}

/// The lines of the primer's Spine section for the cached graph, if any.
pub fn spine_lines(g: Option<&crate::architecture::Graph>) -> (r: Vec<String>)
    requires
        match g {
            Some(g) => g.edges@.len() < i64::MAX,
            None => true,
        },
    ensures
        text_views(r@) == spine_section(g),
{
    let mut out: Vec<String> = Vec::new();
    out.push("## Spine".to_owned());
    let graph = match g {
        Some(graph) => {
            if graph.edges.len() == 0 {
                out.push("  (architecture graph empty \u{2014} run `trace cache build` if you expect data)".to_owned());
                assert(text_views(out@) =~= spine_section(g));
                return out;
            }
            graph
        },
        None => {
            out.push("  (architecture graph empty \u{2014} run `trace cache build` if you expect data)".to_owned());
            assert(text_views(out@) =~= spine_section(g));
            return out;
        },
    };
    let mut targets: Vec<String> = Vec::new();
    let mut i: usize = 0;
    while i < graph.edges.len()
        invariant
            i <= graph.edges@.len(),
            text_views(targets@) == graph.edges@.take(i as int).map_values(|e: crate::architecture::Edge| e.target@),
        decreases graph.edges@.len() - i,
    {
        let ghost ov = text_views(targets@);
        targets.push(graph.edges[i].target.clone());
        assert(text_views(targets@) =~= ov.push(graph.edges@[i as int].target@));
        assert(graph.edges@.take(i + 1).map_values(|e: crate::architecture::Edge| e.target@) =~= graph.edges@.take(
            i as int,
        ).map_values(|e: crate::architecture::Edge| e.target@).push(graph.edges@[i as int].target@));
        i += 1;
    }
    assert(graph.edges@.take(i as int) =~= graph.edges@);
    let counts = crate::history::ranked_by_edge_count(&targets);
    let ghost t = crate::history::tally(graph.edges@.map_values(|e: crate::architecture::Edge| e.target@));
    let ghost pred = |c: (Seq<char>, int)| !is_external(c.0);
    let ghost cv = crate::history::counts_view(counts@);
    assert(cv == crate::history::most_common(t, t.len()));
    let ext = chars_of("module::external::");
    let mut ranked: Vec<(String, i64)> = Vec::new();
    let mut k: usize = 0;
    while k < counts.len() && ranked.len() < 10
        invariant
            k <= counts@.len(),
            cv == crate::history::counts_view(counts@),
            ext@ == "module::external::"@,
            ranked@.len() <= 10,
            crate::history::counts_view(ranked@) == cv.take(k as int).filter(pred),
            pred == (|c: (Seq<char>, int)| !is_external(c.0)),
        decreases counts@.len() - k,
    {
        proof {
            cv.take(k as int).lemma_filter_push(cv[k as int], pred);
        }
        assert(cv.take(k + 1) =~= cv.take(k as int).push(cv[k as int]));
        assert(cv[k as int] == (counts@[k as int].0@, counts@[k as int].1 as int));
        let id_cs = chars_of(counts[k].0.as_str());
        if !crate::text::seq_starts_with(&id_cs, &ext) {
            let ghost rv = crate::history::counts_view(ranked@);
            ranked.push((counts[k].0.clone(), counts[k].1));
            assert(crate::history::counts_view(ranked@) =~= rv.push(cv[k as int]));
        }
        k += 1;
    }
    proof {
        let all = cv.filter(pred);
        if k == counts@.len() {
            assert(cv.take(k as int) =~= cv);
        } else {
            // ten taken: the rest cannot change the first ten
            assert(crate::history::counts_view(ranked@).len() == 10);
            lemma_filter_prefix(cv, pred, k as int);
        }
    }
    assert(crate::history::counts_view(ranked@) == spine_ranked(graph));
    let ghost rk = crate::history::counts_view(ranked@);
    if ranked.len() == 0 {
        out.push("  (no internal nodes in the architecture graph)".to_owned());
        assert(text_views(out@) =~= spine_section(g));
        return out;
    }
    let a = concat("  Top ", fmt_u64(ranked.len() as u64).as_str());
    out.push(concat(a.as_str(), " most-depended-on nodes:"));
    out.push("    #   direct  kind       symbol @ source".to_owned());
    let ghost head = text_views(out@);
    let mut j: usize = 0;
    while j < ranked.len()
        invariant
            j <= ranked@.len(),
            ranked@.len() <= 10,
            rk == crate::history::counts_view(ranked@),
            text_views(out@) == head + spine_rows(graph, rk.take(j as int)),
        decreases ranked@.len() - j,
    {
        assert(rk.take(j + 1).drop_last() =~= rk.take(j as int));
        assert(rk.take(j + 1).last() == rk[j as int]);
        assert(rk[j as int] == (ranked@[j as int].0@, ranked@[j as int].1 as int));
        let ghost ov = text_views(out@);
        match crate::keyed::get(&graph.nodes, &ranked[j].0) {
            Some(n) => {
                let rank = crate::text::right_pad(crate::text::fmt_i64(j as i64 + 1).as_str(), 3);
                let direct = crate::text::left_pad(crate::text::fmt_i64(ranked[j].1).as_str(), 6, ' ');
                let kind = crate::text::right_pad(n.kind.as_str(), 10);
                let b = concat("    ", rank.as_str());
                let c = concat(b.as_str(), " ");
                let d = concat(c.as_str(), direct.as_str());
                let e = concat(d.as_str(), "  ");
                let f = concat(e.as_str(), kind.as_str());
                let h = concat(f.as_str(), " ");
                let i2 = concat(h.as_str(), n.label.as_str());
                let l = concat(i2.as_str(), " @ ");
                let line = concat(l.as_str(), location_of(n).as_str());
                out.push(line);
                assert(text_views(out@) =~= ov + spine_row(graph, j as int, rk[j as int]));
            },
            None => {
                assert(text_views(out@) =~= ov + spine_row(graph, j as int, rk[j as int]));
            },
        }
        j += 1;
    }
    assert(rk.take(j as int) =~= rk);
    assert(text_views(out@) =~= spine_section(g));
    out
}

/// Once `k` items of `s` have given ten kept ones, the first ten kept
/// items of `s` are those.
proof fn lemma_filter_prefix(s: crate::history::Counts, pred: spec_fn((Seq<char>, int)) -> bool, k: int)
    requires
        0 <= k <= s.len(),
        s.take(k).filter(pred).len() == 10,
    ensures
        (if s.filter(pred).len() > 10 { s.filter(pred).take(10) } else { s.filter(pred) }) == s.take(k).filter(pred),
{
    let rest = s.skip(k);
    assert(s =~= s.take(k) + rest);
    Seq::filter_distributes_over_add(s.take(k), rest, pred);
    assert(s.filter(pred) == s.take(k).filter(pred) + rest.filter(pred));
    assert((s.take(k).filter(pred) + rest.filter(pred)).take(10) =~= s.take(k).filter(pred));
}

} // verus!
