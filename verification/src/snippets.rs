//! Text cut down for display: the window of a long matched line around its
//! match, the head of a log line, and the small date readers log listings
//! use.

use crate::civil::{civil_from_days, civil_from_days_spec};
use crate::text::{chars_of, concat, push_char, string_of_range, to_lowercase, unicode_lowercase};
use vstd::prelude::*;

verus! {

/// How many bytes UTF-8 spends on `c`.
pub open spec fn utf8_width(c: char) -> int {
    if (c as int) < 0x80 {
        1
    } else if (c as int) < 0x800 {
        2
    } else if (c as int) < 0x10000 {
        3
    } else {
        4
    }
}

/// The UTF-8 length of `s`.
pub open spec fn byte_len(s: Seq<char>) -> int
    decreases s.len(),
{
    if s.len() == 0 {
        0
    } else {
        byte_len(s.drop_last()) + utf8_width(s.last())
    }
}

/// The number of characters that fill exactly the first `b` bytes of `s`
/// (scanning from `k` characters in), or 0 when `b` falls inside a
/// character.
pub open spec fn chars_in_bytes(s: Seq<char>, b: int, k: int) -> int
    decreases s.len() - k,
{
    if k < 0 || k > s.len() {
        0
    } else if byte_len(s.take(k)) == b {
        k
    } else if k == s.len() {
        0
    } else {
        chars_in_bytes(s, b, k + 1)
    }
}

/// The longest snippet shown, in characters.
pub open spec fn max_snippet() -> int {
    240
}

/// How much of the line before the match a window keeps.
pub open spec fn window_before() -> int {
    80
}

/// A matched line cut to a window around its match, starting `80`
/// characters before the match (the line's `match_byte_start` byte), `240`
/// characters long, an ellipsis marking each cut side.
pub open spec fn window_spec(line: Seq<char>, match_byte_start: int) -> Seq<char> {
    let total = line.len() as int;
    if total <= max_snippet() {
        line
    } else {
        let bb = if match_byte_start < byte_len(line) { match_byte_start } else { byte_len(line) };
        let prefix = chars_in_bytes(line, bb, 0);
        let begin = if prefix > window_before() { prefix - window_before() } else { 0 };
        let end = if begin + max_snippet() < total { begin + max_snippet() } else { total };
        (if begin > 0 { "\u{2026}"@ } else { Seq::empty() }) + line.subrange(begin, end)
            + (if begin + max_snippet() < total { "\u{2026}"@ } else { Seq::empty() })
    }
}

fn width(c: char) -> (r: u128)
    ensures
        r as int == utf8_width(c),
{
    let v = c as u32;
    if v < 0x80 {
        1
    } else if v < 0x800 {
        2
    } else if v < 0x10000 {
        3
    } else {
        4
    }
}

proof fn lemma_byte_len_take(s: Seq<char>, k: int)
    requires
        0 <= k < s.len(),
    ensures
        byte_len(s.take(k + 1)) == byte_len(s.take(k)) + utf8_width(s[k]),
        byte_len(s.take(k)) >= 0,
{
    assert(s.take(k + 1).drop_last() =~= s.take(k));
    lemma_byte_len_nonneg(s.take(k));
}

proof fn lemma_byte_len_nonneg(s: Seq<char>)
    ensures
        byte_len(s) >= 0,
    decreases s.len(),
{
    if s.len() > 0 {
        lemma_byte_len_nonneg(s.drop_last());
    }
}

/// A long matched line as a window around its match.
pub fn window_snippet(line: &str, match_byte_start: usize) -> (r: String)
    ensures
        r@ == window_spec(line@, match_byte_start as int),
{
    let cs = chars_of(line);
    let total = cs.len();
    if total <= 240 {
        return line.to_owned();
    }
    let mut blen: u128 = 0;
    let mut k: usize = 0;
    while k < cs.len()
        invariant
            k <= cs.len(),
            blen as int == byte_len(cs@.take(k as int)),
            blen <= 4 * k,
            k <= usize::MAX,
            cs@ == line@,
        decreases cs.len() - k,
    {
        proof {
            lemma_byte_len_take(cs@, k as int);
        }
        blen = blen + width(cs[k]);
        k += 1;
    }
    assert(cs@.take(cs.len() as int) =~= cs@);
    let bb: u128 = if (match_byte_start as u128) < blen { match_byte_start as u128 } else { blen };
    let mut acc: u128 = 0;
    let mut j: usize = 0;
    while j < cs.len() && acc != bb
        invariant
            j <= cs.len(),
            acc as int == byte_len(cs@.take(j as int)),
            acc <= 4 * j,
            chars_in_bytes(cs@, bb as int, 0) == chars_in_bytes(cs@, bb as int, j as int),
        decreases cs.len() - j,
    {
        proof {
            lemma_byte_len_take(cs@, j as int);
        }
        acc = acc + width(cs[j]);
        j += 1;
    }
    let prefix: usize = if acc == bb { j } else { 0 };
    let begin: usize = if prefix > 80 { prefix - 80 } else { 0 };
    let end: usize = if begin < total - 240 { begin + 240 } else { total };
    let mut out = String::new();
    if begin > 0 {
        push_char(&mut out, '\u{2026}');
    }
    let window = string_of_range(&cs, begin, end);
    out.append(window.as_str());
    if begin < total - 240 {
        push_char(&mut out, '\u{2026}');
    }
    proof {
        reveal_strlit("\u{2026}");
    }
    assert(out@ =~= window_spec(line@, match_byte_start as int));
    out
}

/// The first `n` characters of `line`, or all of it.
pub open spec fn head_spec(line: Seq<char>, n: int) -> Seq<char> {
    if line.len() > n { line.take(n) } else { line }
}

/// The head of a log line: its first 64 characters.
pub fn head(line: &str) -> (r: String)
    ensures
        r@ == head_spec(line@, 64),
{
    let cs = chars_of(line);
    if cs.len() > 64 {
        let r = string_of_range(&cs, 0, 64);
        assert(r@ =~= line@.take(64));
        r
    } else {
        line.to_owned()
    }
}

pub open spec fn month_names() -> Seq<Seq<char>> {
    seq!["jan"@, "feb"@, "mar"@, "apr"@, "may"@, "jun"@, "jul"@, "aug"@, "sep"@, "oct"@, "nov"@, "dec"@]
}

/// The first index of `x` in `s`.
pub open spec fn position_in(s: Seq<Seq<char>>, x: Seq<char>) -> Option<int>
    decreases s.len(),
{
    if s.len() == 0 {
        None
    } else if s[0] == x {
        Some(0)
    } else {
        match position_in(s.drop_first(), x) {
            Some(i) => Some(i + 1),
            None => None,
        }
    }
}

proof fn lemma_position_in(s: Seq<Seq<char>>, x: Seq<char>, i: int)
    requires
        0 <= i <= s.len(),
        forall|j: int| 0 <= j < i ==> #[trigger] s[j] != x,
    ensures
        i < s.len() && s[i] == x ==> position_in(s, x) == Some(i),
        i == s.len() ==> position_in(s, x) is None,
    decreases i,
{
    if i > 0 {
        lemma_position_in(s.drop_first(), x, i - 1);
    }
}

/// The month number (1 for January) of a three-letter month name, in any
/// case.
pub fn month_num(name: &str) -> (r: Option<u32>)
    ensures
        match position_in(month_names(), unicode_lowercase(name@)) {
            Some(i) => r == Some((i + 1) as u32),
            None => r is None,
        },
{
    let lower = to_lowercase(name);
    let names: Vec<&'static str> = vec!["jan", "feb", "mar", "apr", "may", "jun", "jul", "aug", "sep", "oct", "nov", "dec"];
    assert(names@.map_values(|s: &str| s@) =~= month_names());
    let mut i: usize = 0;
    while i < 12
        invariant
            i <= 12,
            names@.len() == 12,
            names@.map_values(|s: &str| s@) == month_names(),
            lower@ == unicode_lowercase(name@),
            forall|j: int| 0 <= j < i ==> #[trigger] month_names()[j] != lower@,
        decreases 12 - i,
    {
        assert(month_names()[i as int] == names@[i as int]@);
        if crate::text::str_eq(names[i], lower.as_str()) {
            proof {
                lemma_position_in(month_names(), lower@, i as int);
            }
            return Some((i + 1) as u32);
        }
        i += 1;
    }
    proof {
        lemma_position_in(month_names(), lower@, 12);
    }
    None
}

/// A month and day that could be a date.
pub fn valid(m: u32, d: u32) -> (r: bool)
    ensures
        r == (1 <= m <= 12 && 1 <= d <= 31),
{
    1 <= m && m <= 12 && 1 <= d && d <= 31
}

/// The UTC date of a unix time, as `(year, month, day)`; the year is taken
/// to 32 bits.
pub fn civil_from_epoch(secs: i64) -> (r: (i32, u32, u32))
    ensures
        ({
            let d = civil_from_days_spec(secs as int / 86400);
            r == ((d.0 as i64) as i32, d.1 as u32, d.2 as u32)
        }),
{
    let days = crate::civil::floor_div(secs, 86400);
    let (y, m, d) = civil_from_days(days);
    (y as i32, m as u32, d as u32)
}

} // verus!
