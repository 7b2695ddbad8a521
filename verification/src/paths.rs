//! Unix path-string semantics the library relies on: which component is the
//! file name, what its extension is, and what stripping it leaves — the
//! rules of `std::path::Path::{file_name, extension, with_extension}` for
//! `/`-separated paths.

use crate::text::{chars_of, string_of_range};
use vstd::prelude::*;

verus! {

/// End of the last normal component of `p[..n]`: trailing separators and
/// `.` components are skipped, as `Path::components` skips them.
pub open spec fn name_end_from(p: Seq<char>, n: int) -> int
    decreases n,
{
    if n <= 0 {
        0
    } else if p[n - 1] == '/' {
        name_end_from(p, n - 1)
    } else if p[n - 1] == '.' && (n == 1 || p[n - 2] == '/') {
        name_end_from(p, n - 1)
    } else {
        n
    }
}

/// Start of the component that ends at `end`: just after the previous `/`.
pub open spec fn name_start_from(p: Seq<char>, end: int) -> int
    decreases end,
{
    if end <= 0 {
        0
    } else if p[end - 1] == '/' {
        end
    } else {
        name_start_from(p, end - 1)
    }
}

/// `Path::file_name` as a character range of `p`, or `None` when the path
/// has no normal last component (empty, `/`, `.`, or ending in `..`).
pub open spec fn file_name_range(p: Seq<char>) -> Option<(int, int)> {
    let end = name_end_from(p, p.len() as int);
    let start = name_start_from(p, end);
    if end == 0 {
        None
    } else if p.subrange(start, end) == seq!['.', '.'] {
        None
    } else {
        Some((start, end))
    }
}

/// Position of the last `.` in `p[start..end]`, or `start - 1` when there is none.
pub open spec fn last_dot_from(p: Seq<char>, start: int, end: int) -> int
    decreases end - start,
{
    if end <= start {
        start - 1
    } else if p[end - 1] == '.' {
        end - 1
    } else {
        last_dot_from(p, start, end - 1)
    }
}

/// Position of the `.` that starts `Path::extension`: the last `.` of the
/// file name, unless that is its first character.
pub open spec fn extension_dot(p: Seq<char>) -> Option<int> {
    match file_name_range(p) {
        Some((start, end)) => {
            let dot = last_dot_from(p, start, end);
            if dot > start {
                Some(dot)
            } else {
                None
            }
        },
        None => None,
    }
}

/// `Path::extension`.
pub open spec fn extension_of(p: Seq<char>) -> Option<Seq<char>> {
    match extension_dot(p) {
        Some(dot) => Some(p.subrange(dot + 1, file_name_end(p))),
        None => None,
    }
}

/// End of the file name (0 when there is none).
pub open spec fn file_name_end(p: Seq<char>) -> int {
    match file_name_range(p) {
        Some((_, end)) => end,
        None => 0,
    }
}

/// Start of the file name (0 when there is none).
pub open spec fn file_name_start(p: Seq<char>) -> int {
    match file_name_range(p) {
        Some((start, _)) => start,
        None => 0,
    }
}

/// `Path::with_extension("")`: the path cut right after the file stem, or
/// unchanged when there is no extension.
pub open spec fn strip_extension(p: Seq<char>) -> Seq<char> {
    match extension_dot(p) {
        Some(dot) => p.take(dot),
        None => p,
    }
}

fn name_end(p: &Vec<char>) -> (r: usize)
    ensures
        r == name_end_from(p@, p.len() as int),
        r <= p.len(),
{
    let mut n = p.len();
    while n > 0
        invariant
            n <= p.len(),
            name_end_from(p@, p.len() as int) == name_end_from(p@, n as int),
        decreases n,
    {
        if p[n - 1] == '/' {
            n -= 1;
        } else if p[n - 1] == '.' && (n == 1 || p[n - 2] == '/') {
            n -= 1;
        } else {
            return n;
        }
    }
    0
}

fn name_start(p: &Vec<char>, end: usize) -> (r: usize)
    requires
        end <= p.len(),
    ensures
        r == name_start_from(p@, end as int),
        r <= end,
{
    let mut s = end;
    while s > 0
        invariant
            s <= end <= p.len(),
            name_start_from(p@, end as int) == name_start_from(p@, s as int),
        decreases s,
    {
        if p[s - 1] == '/' {
            return s;
        }
        s -= 1;
    }
    0
}

/// `Path::file_name` as a range of `p`.
pub fn file_name_bounds(p: &Vec<char>) -> (r: Option<(usize, usize)>)
    ensures
        match r {
            Some((s, e)) => file_name_range(p@) == Some((s as int, e as int)) && s < e <= p.len(),
            None => file_name_range(p@) is None,
        },
{
    let end = name_end(p);
    let start = name_start(p, end);
    if end == 0 {
        return None;
    }
    if end - start == 2 && p[start] == '.' && p[start + 1] == '.' {
        assert(p@.subrange(start as int, end as int) =~= seq!['.', '.']);
        return None;
    }
    proof {
        if p@.subrange(start as int, end as int) =~= seq!['.', '.'] {
            assert(p@.subrange(start as int, end as int).len() == 2);
            assert(p@[start as int] == p@.subrange(start as int, end as int)[0]);
            assert(p@[start + 1] == p@.subrange(start as int, end as int)[1]);
        }
    }
    proof {
        // a component never starts at its end: name_end is past a non-separator
        lemma_start_before_end(p@, end as int);
    }
    Some((start, end))
}

proof fn lemma_start_before_end(p: Seq<char>, end: int)
    requires
        0 < end <= p.len(),
        end == name_end_from(p, p.len() as int),
    ensures
        name_start_from(p, end) < end,
{
    lemma_name_end_not_sep(p, p.len() as int);
    lemma_name_start_le(p, end - 1);
}

proof fn lemma_name_start_le(p: Seq<char>, e: int)
    ensures
        name_start_from(p, e) <= if e > 0 { e } else { 0 },
    decreases e,
{
    if e > 0 && p[e - 1] != '/' {
        lemma_name_start_le(p, e - 1);
    }
}

proof fn lemma_name_end_not_sep(p: Seq<char>, n: int)
    requires
        0 <= n <= p.len(),
    ensures
        name_end_from(p, n) > 0 ==> p[name_end_from(p, n) - 1] != '/',
        name_end_from(p, n) <= n,
    decreases n,
{
    if n > 0 {
        lemma_name_end_not_sep(p, n - 1);
    }
}

/// The position of the dot that begins the extension.
pub fn extension_dot_pos(p: &Vec<char>) -> (r: Option<usize>)
    ensures
        match r {
            Some(d) => extension_dot(p@) == Some(d as int) && d < p.len(),
            None => extension_dot(p@) is None,
        },
{
    match file_name_bounds(p) {
        None => None,
        Some((start, end)) => {
            let mut k = end;
            while k > start
                invariant
                    start <= k <= end <= p.len(),
                    file_name_range(p@) == Some((start as int, end as int)),
                    last_dot_from(p@, start as int, end as int) == last_dot_from(p@, start as int, k as int),
                decreases k - start,
            {
                if p[k - 1] == '.' {
                    if k - 1 > start {
                        return Some(k - 1);
                    } else {
                        return None;
                    }
                }
                k -= 1;
            }
            None
        },
    }
}

/// `Path::extension`, as text.
pub fn extension(path: &str) -> (r: Option<String>)
    ensures
        match r {
            Some(e) => extension_of(path@) == Some(e@),
            None => extension_of(path@) is None,
        },
{
    let p = chars_of(path);
    match extension_dot_pos(&p) {
        Some(dot) => {
            let (_, end) = file_name_bounds(&p).unwrap();
            proof { lemma_dot_inside(p@); }
            Some(string_of_range(&p, dot + 1, end))
        },
        None => None,
    }
}

proof fn lemma_dot_inside(p: Seq<char>)
    requires
        extension_dot(p) is Some,
    ensures
        file_name_start(p) < extension_dot(p)->0 < file_name_end(p),
{
    lemma_last_dot_bounds(p, file_name_start(p), file_name_end(p));
}

proof fn lemma_last_dot_bounds(p: Seq<char>, start: int, end: int)
    ensures
        start - 1 <= last_dot_from(p, start, end) < if end > start { end } else { start },
    decreases end - start,
{
    if end > start && p[end - 1] != '.' {
        lemma_last_dot_bounds(p, start, end - 1);
    }
}

/// `Path::with_extension("")`, as text.
pub fn without_extension(path: &str) -> (r: String)
    ensures
        r@ == strip_extension(path@),
{
    let p = chars_of(path);
    match extension_dot_pos(&p) {
        Some(dot) => string_of_range(&p, 0, dot),
        None => path.to_owned(),
    }
}

} // verus!
