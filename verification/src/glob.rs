//! Shell-style basename matching: a glob is translated to an anchored
//! regular expression, which the `regex` crate compiles and runs.

use crate::text::{chars_of, concat, push_char, starts_with};
use vstd::prelude::*;

verus! {

/// A character `regex::escape` puts a backslash before.
pub open spec fn is_meta(c: char) -> bool {
    c == '\\' || c == '.' || c == '+' || c == '*' || c == '?' || c == '(' || c == ')' || c == '|'
        || c == '[' || c == ']' || c == '{' || c == '}' || c == '^' || c == '$' || c == '#'
        || c == '&' || c == '-' || c == '~'
}

/// `text` with every meta character preceded by a backslash.
pub open spec fn escape_spec(text: Seq<char>) -> Seq<char>
    decreases text.len(),
{
    if text.len() == 0 {
        Seq::empty()
    } else {
        let c = text.last();
        escape_spec(text.drop_last()) + if is_meta(c) { seq!['\\', c] } else { seq![c] }
    }
}

/// `regex::escape`: each meta character of `text` gets a backslash before
/// it; every other character is kept.
#[verifier::external_body]
fn regex_escape(text: &str) -> (r: String)
    ensures
        r@ == escape_spec(text@),
{
    regex::escape(text)
}

/// Whether `regex::Regex::new` accepts a pattern.
pub uninterp spec fn regex_compiles(pattern: Seq<char>) -> bool;

/// Whether the regex `pattern` finds a match anywhere in `text`
/// (`regex::Regex::is_match`); a function of the two texts alone.
pub uninterp spec fn regex_matches(pattern: Seq<char>, text: Seq<char>) -> bool;

/// `regex::Regex::new` then `regex::Regex::is_match`: whether the pattern
/// matches anywhere in `text`, or nothing when the pattern is refused.
/// Which patterns are refused and which texts match are named, not stated.
#[verifier::external_body]
fn regex_find(pattern: &str, text: &str) -> (r: Option<bool>)
    ensures
        r == if regex_compiles(pattern@) {
            Some(regex_matches(pattern@, text@))
        } else {
            None
        },
{
    match regex::Regex::new(pattern) {
        Ok(re) => Some(re.is_match(text)),
        Err(_) => None,
    }
}

/// Where a `[` class that starts at `i` (just after the bracket) ends: a
/// leading `!` and then a leading `]` belong to it.
pub open spec fn class_start(p: Seq<char>, i: int) -> int {
    let j1 = if i < p.len() && p[i] == '!' { i + 1 } else { i };
    if j1 < p.len() && p[j1] == ']' { j1 + 1 } else { j1 }
}

/// The first `]` at or after `j`, or the end of `p`.
pub open spec fn close_bracket(p: Seq<char>, j: int) -> int
    decreases p.len() - j,
{
    if j >= p.len() || p[j] == ']' {
        j
    } else {
        close_bracket(p, j + 1)
    }
}

/// Backslashes doubled.
pub open spec fn double_backslashes(s: Seq<char>) -> Seq<char>
    decreases s.len(),
{
    if s.len() == 0 {
        Seq::empty()
    } else {
        double_backslashes(s.drop_last()) + if s.last() == '\\' { seq!['\\', '\\'] } else { seq![s.last()] }
    }
}

/// A bracket class: `!` negation becomes `^`, a leading `^` or `[` is
/// escaped.
pub open spec fn class_text(raw: Seq<char>) -> Seq<char> {
    let stuff = double_backslashes(raw);
    if stuff.len() > 0 && stuff[0] == '!' {
        "[^"@ + stuff.skip(1) + "]"@
    } else if stuff.len() > 0 && (stuff[0] == '^' || stuff[0] == '[') {
        "[\\"@ + stuff + "]"@
    } else {
        "["@ + stuff + "]"@
    }
}

/// The regex for the glob `p` from position `i` on.
pub open spec fn translate_from(p: Seq<char>, i: int) -> Seq<char>
    decreases p.len() - i,
{
    if i < 0 || i >= p.len() {
        Seq::empty()
    } else {
        let c = p[i];
        if c == '*' {
            ".*"@ + translate_from(p, i + 1)
        } else if c == '?' {
            "."@ + translate_from(p, i + 1)
        } else if c == '[' {
            let j = close_bracket(p, class_start(p, i + 1));
            if j >= p.len() {
                "\\["@ + translate_from(p, i + 1)
            } else {
                proof {
                    lemma_close_bracket_bounds(p, class_start(p, i + 1));
                }
                class_text(p.subrange(i + 1, j)) + translate_from(p, j + 1)
            }
        } else {
            escape_spec(seq![c]) + translate_from(p, i + 1)
        }
    }
}

/// The anchored regex a glob means.
pub open spec fn translate_spec(p: Seq<char>) -> Seq<char> {
    "(?s:"@ + translate_from(p, 0) + ")\\z"@
}

pub proof fn lemma_close_bracket_bounds(p: Seq<char>, j: int)
    requires
        0 <= j <= p.len(),
    ensures
        j <= close_bracket(p, j) <= p.len(),
        close_bracket(p, j) < p.len() ==> p[close_bracket(p, j)] == ']',
        forall|k: int| j <= k < close_bracket(p, j) ==> p[k] != ']',
    decreases p.len() - j,
{
    if j < p.len() && p[j] != ']' {
        lemma_close_bracket_bounds(p, j + 1);
    }
}

fn class_of(raw: &Vec<char>, from: usize, to: usize) -> (r: String)
    requires
        from <= to <= raw.len(),
    ensures
        r@ == class_text(raw@.subrange(from as int, to as int)),
{
    let ghost sub = raw@.subrange(from as int, to as int);
    let mut stuff: Vec<char> = Vec::new();
    let mut i: usize = from;
    while i < to
        invariant
            from <= i <= to <= raw.len(),
            sub == raw@.subrange(from as int, to as int),
            stuff@ == double_backslashes(raw@.subrange(from as int, i as int)),
        decreases to - i,
    {
        assert(raw@.subrange(from as int, i + 1).drop_last() =~= raw@.subrange(from as int, i as int));
        if raw[i] == '\\' {
            stuff.push('\\');
            stuff.push('\\');
        } else {
            stuff.push(raw[i]);
        }
        assert(stuff@ =~= double_backslashes(raw@.subrange(from as int, i + 1)));
        i += 1;
    }
    let mut out = String::new();
    if stuff.len() > 0 && stuff[0] == '!' {
        out.append("[^");
        let mut k: usize = 1;
        while k < stuff.len()
            invariant
                1 <= k <= stuff.len(),
                out@ == "[^"@ + stuff@.subrange(1, k as int),
            decreases stuff.len() - k,
        {
            push_char(&mut out, stuff[k]);
            assert(out@ =~= "[^"@ + stuff@.subrange(1, k + 1));
            k += 1;
        }
        out.append("]");
        assert(stuff@.subrange(1, stuff.len() as int) =~= stuff@.skip(1));
    } else {
        if stuff.len() > 0 && (stuff[0] == '^' || stuff[0] == '[') {
            out.append("[\\");
        } else {
            out.append("[");
        }
        let ghost head = out@;
        let mut k: usize = 0;
        while k < stuff.len()
            invariant
                k <= stuff.len(),
                out@ == head + stuff@.subrange(0, k as int),
            decreases stuff.len() - k,
        {
            push_char(&mut out, stuff[k]);
            assert(out@ =~= head + stuff@.subrange(0, k + 1));
            k += 1;
        }
        out.append("]");
        assert(stuff@.subrange(0, stuff.len() as int) =~= stuff@);
    }
    out
}

/// Translate a shell glob to an anchored regex: `*` matches any run, `?`
/// one character, `[...]` a class (`!` negates), anything else itself.
pub fn fnmatch_translate(pattern: &str) -> (r: String)
    ensures
        r@ == translate_spec(pattern@),
{
    let p = chars_of(pattern);
    let n = p.len();
    let mut res = String::new();
    let mut i: usize = 0;
    while i < n
        invariant
            n == p.len(),
            i <= n,
            res@ + translate_from(p@, i as int) == translate_from(p@, 0),
        decreases n - i,
    {
        let c = p[i];
        let ghost before = res@;
        let ghost i0 = i as int;
        if c == '*' {
            res.append(".*");
            i += 1;
            assert(before + translate_from(p@, i0) =~= res@ + translate_from(p@, i as int));
        } else if c == '?' {
            res.append(".");
            i += 1;
            assert(before + translate_from(p@, i0) =~= res@ + translate_from(p@, i as int));
        } else if c == '[' {
            let mut j = i + 1;
            if j < n && p[j] == '!' {
                j += 1;
            }
            if j < n && p[j] == ']' {
                j += 1;
            }
            assert(j as int == class_start(p@, i + 1));
            let ghost js = j as int;
            while j < n && p[j] != ']'
                invariant
                    i + 1 <= js <= j <= n,
                    n == p.len(),
                    close_bracket(p@, js) == close_bracket(p@, j as int),
                decreases n - j,
            {
                j += 1;
            }
            assert(close_bracket(p@, j as int) == j as int);
            if j >= n {
                res.append("\\[");
                i += 1;
                assert(before + translate_from(p@, i0) =~= res@ + translate_from(p@, i as int));
            } else {
                let cls = class_of(&p, i + 1, j);
                res.append(cls.as_str());
                i = j + 1;
                assert(before + translate_from(p@, i0) =~= res@ + translate_from(p@, i as int));
            }
        } else {
            let mut one = String::new();
            push_char(&mut one, c);
            assert(one@ =~= seq![c]);
            let esc = regex_escape(one.as_str());
            res.append(esc.as_str());
            i += 1;
            assert(before + translate_from(p@, i0) =~= res@ + translate_from(p@, i as int));
        }
    }
    let a = concat("(?s:", res.as_str());
    concat(a.as_str(), ")\\z")
}

/// Case-sensitive shell-glob match of the basename `name` against
/// `pattern`; a glob whose regex does not compile matches nothing.
pub fn fnmatch(name: &str, pattern: &str) -> (r: bool)
    ensures
        r == (regex_compiles(translate_spec(pattern@)) && regex_matches(translate_spec(pattern@), name@)),
{
    let source = fnmatch_translate(pattern);
    match regex_find(source.as_str(), name) {
        Some(m) => m,
        None => false,
    }
}

} // verus!
