//! Reading `git grep -z -n` output: each record is the revision-qualified
//! path, a NUL, the line number, a NUL, the line's text and a newline.

use crate::facts::Match;
use crate::presence::first_at;
use crate::snippets::{byte_len, utf8_width, window_snippet, window_spec};
use crate::text::{chars_of, lossy_utf8, parse_i64_spec, string_of, utf8_lossy};
use vstd::prelude::*;
use vstd::utf8::{decode_utf8, valid_utf8};

verus! {

/// Why a `git grep` record could not be read.
#[derive(Debug, Clone, Copy, PartialEq, Eq, Structural)]
pub enum GrepError {
    /// A record without the NUL that ends its path.
    NoPathDelimiter,
    /// A path field that does not start with the searched revision and `:`.
    MalformedPath,
    /// A record without the NUL that ends its line number.
    NoLineDelimiter,
    /// A line number that is not UTF-8 text.
    NonTextLine,
    /// A line number that is not a number.
    BadLineNumber,
    /// A record without the newline that ends its text.
    NoTextDelimiter,
}

impl GrepError {
    /// What the error says.
    pub fn message(&self) -> (r: &'static str)
        ensures
            r@ == grep_error_text(*self),
    {
        match self {
            GrepError::NoPathDelimiter => "git grep wrote a record without a path delimiter",
            GrepError::MalformedPath => "git grep wrote a malformed revision/path field",
            GrepError::NoLineDelimiter => "git grep wrote a record without a line delimiter",
            GrepError::NonTextLine => "git grep wrote a non-text line number",
            GrepError::BadLineNumber => "git grep wrote an invalid line number",
            GrepError::NoTextDelimiter => "git grep wrote a record without a text delimiter",
        }
    }
}

pub open spec fn grep_error_text(e: GrepError) -> Seq<char> {
    match e {
        GrepError::NoPathDelimiter => "git grep wrote a record without a path delimiter"@,
        GrepError::MalformedPath => "git grep wrote a malformed revision/path field"@,
        GrepError::NoLineDelimiter => "git grep wrote a record without a line delimiter"@,
        GrepError::NonTextLine => "git grep wrote a non-text line number"@,
        GrepError::BadLineNumber => "git grep wrote an invalid line number"@,
        GrepError::NoTextDelimiter => "git grep wrote a record without a text delimiter"@,
    }
}

/// The first character index at or after `k` where `p` occurs in `t`.
pub open spec fn find_from(t: Seq<char>, p: Seq<char>, k: int) -> Option<int>
    decreases t.len() - k,
{
    if k < 0 || k + p.len() > t.len() {
        None
    } else if t.subrange(k, k + p.len()) == p {
        Some(k)
    } else if k >= t.len() {
        None
    } else {
        find_from(t, p, k + 1)
    }
}

/// `str::find`: the byte offset of the first occurrence of `p` in `t`, or
/// 0 when there is none.
pub open spec fn match_start(t: Seq<char>, p: Seq<char>) -> int {
    match find_from(t, p, 0) {
        Some(k) => byte_len(t.take(k)),
        None => 0,
    }
}

/// The snippet of one matched line: the window around the pattern's first
/// occurrence (an offset past what a `usize` holds, which text in memory
/// cannot reach, is clamped).
pub open spec fn grep_snippet(text: Seq<char>, p: Seq<char>) -> Seq<char> {
    let m = match_start(text, p);
    window_spec(text, if m <= usize::MAX { m } else { usize::MAX as int })
}

pub type MatchView = (Seq<char>, int, Seq<char>);

pub open spec fn match_view(m: Match) -> MatchView {
    (m.file@, m.line as int, m.snippet@)
}

pub open spec fn matches_view(v: Seq<Match>) -> Seq<MatchView> {
    v.map_values(|m: Match| match_view(m))
}

/// The records of `git grep -z -n` output searched at revision `at`
/// (`prefix` is `at` and `:`), or the first error met.
pub open spec fn grep_records(b: Seq<u8>, prefix: Seq<u8>, pattern: Seq<char>) -> Result<Seq<MatchView>, GrepError>
    decreases b.len(),
{
    if b.len() == 0 {
        Ok(Seq::empty())
    } else {
        match first_at(b, 0) {
            None => Err(GrepError::NoPathDelimiter),
            Some(p) => {
                proof {
                    lemma_first_at_bounds(b, 0);
                }
                let framed = b.take(p);
                if !prefix.is_prefix_of(framed) {
                    Err(GrepError::MalformedPath)
                } else {
                    let file = framed.skip(prefix.len() as int);
                    let rest = b.skip(p + 1);
                    match first_at(rest, 0) {
                        None => Err(GrepError::NoLineDelimiter),
                        Some(l) => {
                            proof {
                                lemma_first_at_bounds(rest, 0);
                            }
                            let lb = rest.take(l);
                            if !valid_utf8(lb) {
                                Err(GrepError::NonTextLine)
                            } else {
                                match parse_i64_spec(decode_utf8(lb)) {
                                    None => Err(GrepError::BadLineNumber),
                                    Some(n) => {
                                        let rest2 = rest.skip(l + 1);
                                        match first_at(rest2, 10) {
                                            None => Err(GrepError::NoTextDelimiter),
                                            Some(t) => {
                                                proof {
                                                    lemma_first_at_bounds(rest2, 10);
                                                }
                                                let text = utf8_lossy(rest2.take(t));
                                                match grep_records(rest2.skip(t + 1), prefix, pattern) {
                                                    Err(e) => Err(e),
                                                    Ok(ms) => Ok(
                                                        seq![(utf8_lossy(file), n as int, grep_snippet(text, pattern))] + ms,
                                                    ),
                                                }
                                            },
                                        }
                                    },
                                }
                            }
                        },
                    }
                }
            },
        }
    }
}

/// A found index lies inside the sequence.
pub proof fn lemma_first_at_bounds(s: Seq<u8>, x: u8)
    ensures
        first_at(s, x) matches Some(i) ==> 0 <= i < s.len(),
    decreases s.len(),
{
    if s.len() > 0 {
        lemma_first_at_bounds(s.drop_first(), x);
    }
}

/// The prefix a record's path field starts with: the revision and `:`.
pub open spec fn revision_prefix(at: Seq<char>) -> Seq<u8> {
    vstd::utf8::encode_utf8(at + ":"@)
}

proof fn lemma_first_at_from(s: Seq<u8>, x: u8, from: int, k: int)
    requires
        0 <= from <= k <= s.len(),
        forall|j: int| from <= j < k ==> s[j] != x,
        k == s.len() || s[k] == x,
    ensures
        first_at(s.skip(from), x) == if k == s.len() { None } else { Some(k - from) },
    decreases k - from,
{
    if k > from {
        lemma_first_at_from(s, x, from + 1, k);
        assert(s.skip(from).drop_first() =~= s.skip(from + 1));
    }
}

/// The first index at or after `from` holding `x`, or the length.
fn scan_to(b: &[u8], from: usize, x: u8) -> (k: usize)
    requires
        from <= b@.len(),
    ensures
        from <= k <= b@.len(),
        first_at(b@.skip(from as int), x) == if k == b@.len() { None } else { Some(k - from) },
{
    let mut k = from;
    while k < b.len() && b[k] != x
        invariant
            from <= k <= b@.len(),
            forall|j: int| from <= j < k ==> b@[j] != x,
        decreases b@.len() - k,
    {
        k += 1;
    }
    proof {
        lemma_first_at_from(b@, x, from as int, k as int);
    }
    k
}

fn bytes_between(b: &[u8], from: usize, to: usize) -> (r: Vec<u8>)
    requires
        from <= to <= b@.len(),
    ensures
        r@ == b@.subrange(from as int, to as int),
{
    let mut r: Vec<u8> = Vec::new();
    let mut i = from;
    while i < to
        invariant
            from <= i <= to <= b@.len(),
            r@ == b@.subrange(from as int, i as int),
        decreases to - i,
    {
        r.push(b[i]);
        assert(r@ =~= b@.subrange(from as int, i + 1));
        i += 1;
    }
    r
}

fn width(c: char) -> (r: u128)
    ensures
        r as int == utf8_width(c),
        r <= 4,
{
    let v = c as u32;
    if v < 0x80 {
        1
    } else if v < 0x800 {
        2
    } else if v < 0x10000 {
        3
    } else {
        4
    }
}

/// The byte offset of the pattern's first occurrence in `t`.
fn match_start_of(t: &Vec<char>, p: &Vec<char>) -> (r: usize)
    ensures
        r as int == if match_start(t@, p@) <= usize::MAX { match_start(t@, p@) } else { usize::MAX as int },
{
    let mut k: usize = 0;
    let mut found: Option<usize> = None;
    assert(find_from(t@, p@, 0) == find_from(t@, p@, 0));
    while k < t.len() && found.is_none()
        invariant
            k <= t@.len(),
            found matches Some(f) ==> find_from(t@, p@, 0) == Some(f as int) && f <= t@.len(),
            found is None ==> find_from(t@, p@, 0) == find_from(t@, p@, k as int),
        decreases t@.len() - k + (if found is None { 1int } else { 0int }),
    {
        if p.len() <= t.len() - k {
            if crate::text::occurs_at(t, p, k) {
                found = Some(k);
            } else {
                k += 1;
            }
        } else {
            k += 1;
        }
    }
    let f: usize = match found {
        Some(f) => f,
        None => {
            if p.len() == 0 && k == t.len() {
                assert(t@.subrange(k as int, k as int) =~= p@);
                k
            } else {
                return 0;
            }
        },
    };
    let mut blen: u128 = 0;
    let mut j: usize = 0;
    while j < f
        invariant
            j <= f <= t@.len(),
            blen as int == byte_len(t@.take(j as int)),
            blen <= 4 * j,
        decreases f - j,
    {
        assert(t@.take(j + 1).drop_last() =~= t@.take(j as int));
        blen = blen + width(t[j]);
        j += 1;
    }
    if blen <= usize::MAX as u128 {
        blen as usize
    } else {
        usize::MAX
    }
}

/// The matches in `git grep -z -n` output for `pattern` searched at
/// revision `at`, or the first malformed record's error.
pub fn parse_git_grep(out: &[u8], at: &str, pattern: &str) -> (r: Result<Vec<Match>, GrepError>)
    ensures
        match r {
            Ok(ms) => grep_records(out@, revision_prefix(at@), pattern@) == Ok::<Seq<MatchView>, GrepError>(matches_view(ms@)),
            Err(e) => grep_records(out@, revision_prefix(at@), pattern@) == Err::<Seq<MatchView>, GrepError>(e),
        },
{
    let prefix_text = crate::text::concat(at, ":");
    let prefix = prefix_text.as_str().as_bytes();
    let ghost pre = prefix@;
    assert(pre == revision_prefix(at@));
    let pat = chars_of(pattern);
    let mut ms: Vec<Match> = Vec::new();
    let mut pos: usize = 0;
    let ghost whole = grep_records(out@, pre, pattern@);
    assert(out@.skip(0) =~= out@);
    while pos < out.len()
        invariant
            pos <= out@.len(),
            pre == prefix@,
            pre == revision_prefix(at@),
            pat@ == pattern@,
            whole == grep_records(out@, pre, pattern@),
            whole == match grep_records(out@.skip(pos as int), pre, pattern@) {
                Ok(rest) => Ok(matches_view(ms@) + rest),
                Err(e) => Err(e),
            },
        decreases out@.len() - pos,
    {
        let ghost b = out@.skip(pos as int);
        let path_end = scan_to(out, pos, 0u8);
        if path_end == out.len() {
            assert(grep_records(b, pre, pattern@) == Err::<Seq<MatchView>, GrepError>(GrepError::NoPathDelimiter));
            return Err(GrepError::NoPathDelimiter);
        }
        let plen = prefix.len();
        let framed_len = path_end - pos;
        let mut ok = plen <= framed_len;
        let mut q: usize = 0;
        while ok && q < plen
            invariant
                q <= plen,
                plen == pre.len(),
                pre == prefix@,
                ok ==> plen <= framed_len && forall|j: int| 0 <= j < q ==> pre[j] == out@[pos + j],
                !ok ==> !pre.is_prefix_of(out@.subrange(pos as int, path_end as int)),
                pos <= path_end <= out@.len(),
                framed_len == path_end - pos,
            decreases plen - q + (if ok { 1int } else { 0int }),
        {
            if prefix[q] != out[pos + q] {
                ok = false;
                assert(out@.subrange(pos as int, path_end as int)[q as int] == out@[pos + q]);
            } else {
                q += 1;
            }
        }
        assert(b.take(path_end - pos) =~= out@.subrange(pos as int, path_end as int));
        if !ok {
            assert(grep_records(b, pre, pattern@) == Err::<Seq<MatchView>, GrepError>(GrepError::MalformedPath));
            return Err(GrepError::MalformedPath);
        }
        assert(pre.is_prefix_of(b.take(path_end - pos))) by {
            assert(pre =~= b.take(path_end - pos).take(pre.len() as int));
        }
        let file = bytes_between(out, pos + plen, path_end);
        assert(file@ =~= b.take(path_end - pos).skip(pre.len() as int));
        let line_start = path_end + 1;
        assert(out@.skip(line_start as int) =~= b.skip(path_end - pos + 1));
        let line_end = scan_to(out, line_start, 0u8);
        if line_end == out.len() {
            return Err(GrepError::NoLineDelimiter);
        }
        let lb = bytes_between(out, line_start, line_end);
        assert(lb@ =~= b.skip(path_end - pos + 1).take(line_end - line_start));
        let n = match crate::text::utf8_text(lb.as_slice()) {
            None => {
                return Err(GrepError::NonTextLine);
            },
            Some(txt) => match crate::text::parse_i64(txt.as_str()) {
                None => {
                    return Err(GrepError::BadLineNumber);
                },
                Some(n) => n,
            },
        };
        let text_start = line_end + 1;
        assert(out@.skip(text_start as int) =~= b.skip(path_end - pos + 1).skip(line_end - line_start + 1));
        let text_end = scan_to(out, text_start, 10u8);
        if text_end == out.len() {
            return Err(GrepError::NoTextDelimiter);
        }
        let tb = bytes_between(out, text_start, text_end);
        assert(tb@ =~= out@.skip(text_start as int).take(text_end - text_start));
        let text = lossy_utf8(tb.as_slice());
        let tcs = chars_of(text.as_str());
        let at_byte = match_start_of(&tcs, &pat);
        let snippet = window_snippet(text.as_str(), at_byte);
        let m = Match { file: lossy_utf8(file.as_slice()), line: n, snippet };
        let ghost mv = match_view(m);
        let ghost old_ms = matches_view(ms@);
        ms.push(m);
        assert(matches_view(ms@) =~= old_ms.push(mv));
        let next = text_end + 1;
        assert(out@.skip(next as int) =~= out@.skip(text_start as int).skip(text_end - text_start + 1));
        assert(old_ms.push(mv) =~= old_ms + seq![mv]);
        proof {
            let rest_next = grep_records(out@.skip(next as int), pre, pattern@);
            match rest_next {
                Ok(r2) => {
                    assert(old_ms + (seq![mv] + r2) =~= old_ms.push(mv) + r2);
                },
                Err(e) => {},
            }
        }
        pos = next;
    }
    assert(out@.skip(pos as int) =~= Seq::<u8>::empty());
    assert(matches_view(ms@) + Seq::<MatchView>::empty() =~= matches_view(ms@));
    Ok(ms)
}

} // verus!
