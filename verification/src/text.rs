//! Character-level text helpers shared by every parser and formatter.
//!
//! Strings are modelled by their view, a `Seq<char>`; every helper states its
//! result over that view.

use vstd::prelude::*;

verus! {

broadcast use vstd::string::group_string_axioms;

/// `String::push`: appends one character to the end of the string.
#[verifier::external_body]
pub fn push_char(s: &mut String, c: char)
    ensures
        final(s)@ == old(s)@.push(c),
{
    s.push(c);
}

/// The characters of `s`, in order.
pub fn chars_of(s: &str) -> (r: Vec<char>)
    ensures
        r@ == s@,
{
    let mut out: Vec<char> = Vec::new();
    for c in it: s.chars()
        invariant
            out@ == it.seq().take(it.index() as int),
            it.seq() == s@,
    {
        out.push(c);
    }
    out
}

/// A `String` holding exactly the characters `cs[from..to]`.
pub fn string_of_range(cs: &Vec<char>, from: usize, to: usize) -> (r: String)
    requires
        from <= to <= cs.len(),
    ensures
        r@ == cs@.subrange(from as int, to as int),
{
    let mut out = String::new();
    let mut i = from;
    while i < to
        invariant
            from <= i <= to <= cs.len(),
            out@ == cs@.subrange(from as int, i as int),
        decreases to - i,
    {
        push_char(&mut out, cs[i]);
        i += 1;
    }
    out
}

/// A `String` holding exactly the characters of `cs`.
pub fn string_of(cs: &Vec<char>) -> (r: String)
    ensures
        r@ == cs@,
{
    string_of_range(cs, 0, cs.len())
}

/// `s` followed by `t`.
pub fn concat(s: &str, t: &str) -> (r: String)
    ensures
        r@ == s@ + t@,
{
    let mut out = s.to_owned();
    out.append(t);
    out
}

/// Exact equality of two strings' characters.
pub fn str_eq(a: &str, b: &str) -> (r: bool)
    ensures
        r == (a@ == b@),
{
    let x = a.to_owned();
    let y = b.to_owned();
    x == y
}

// ---------------------------------------------------------------- prefixes

pub open spec fn starts_with(s: Seq<char>, p: Seq<char>) -> bool {
    p.len() <= s.len() && s.take(p.len() as int) == p
}

pub open spec fn ends_with(s: Seq<char>, p: Seq<char>) -> bool {
    p.len() <= s.len() && s.skip(s.len() - p.len()) == p
}

/// `p` occurs somewhere in `s`.
pub open spec fn contains(s: Seq<char>, p: Seq<char>) -> bool {
    exists|i: int| 0 <= i <= s.len() - p.len() && #[trigger] s.subrange(i, i + p.len()) == p
}

pub fn seq_starts_with(s: &Vec<char>, p: &Vec<char>) -> (r: bool)
    ensures
        r == starts_with(s@, p@),
{
    if p.len() > s.len() {
        return false;
    }
    let mut i: usize = 0;
    while i < p.len()
        invariant
            p.len() <= s.len(),
            i <= p.len(),
            forall|k: int| 0 <= k < i ==> s@[k] == p@[k],
        decreases p.len() - i,
    {
        if s[i] != p[i] {
            assert(s@.take(p.len() as int)[i as int] != p@[i as int]);
            return false;
        }
        i += 1;
    }
    assert(s@.take(p.len() as int) =~= p@);
    true
}

pub fn seq_ends_with(s: &Vec<char>, p: &Vec<char>) -> (r: bool)
    ensures
        r == ends_with(s@, p@),
{
    if p.len() > s.len() {
        return false;
    }
    let off = s.len() - p.len();
    let mut i: usize = 0;
    while i < p.len()
        invariant
            p.len() <= s.len(),
            off == s.len() - p.len(),
            i <= p.len(),
            forall|k: int| 0 <= k < i ==> s@[off + k] == p@[k],
        decreases p.len() - i,
    {
        if s[off + i] != p[i] {
            assert(s@.skip(off as int)[i as int] != p@[i as int]);
            return false;
        }
        i += 1;
    }
    assert(s@.skip(off as int) =~= p@);
    true
}

/// Whether `p` occurs at position `at` of `s`.
pub fn occurs_at(s: &Vec<char>, p: &Vec<char>, at: usize) -> (r: bool)
    requires
        at + p.len() <= s.len(),
    ensures
        r == (s@.subrange(at as int, at + p.len()) == p@),
{
    let mut i: usize = 0;
    while i < p.len()
        invariant
            at + p.len() <= s.len(),
            i <= p.len(),
            forall|k: int| 0 <= k < i ==> s@[at + k] == p@[k],
        decreases p.len() - i,
    {
        if s[at + i] != p[i] {
            assert(s@.subrange(at as int, at + p.len())[i as int] != p@[i as int]);
            return false;
        }
        i += 1;
    }
    assert(s@.subrange(at as int, at + p.len()) =~= p@);
    true
}

pub fn seq_contains(s: &Vec<char>, p: &Vec<char>) -> (r: bool)
    ensures
        r == contains(s@, p@),
{
    if p.len() > s.len() {
        return false;
    }
    let last = s.len() - p.len();
    let mut i: usize = 0;
    loop
        invariant
            p.len() <= s.len(),
            last == s.len() - p.len(),
            i <= last,
            forall|k: int| 0 <= k < i ==> #[trigger] s@.subrange(k, k + p.len()) != p@,
        decreases last - i,
    {
        if occurs_at(s, p, i) {
            return true;
        }
        if i == last {
            return false;
        }
        i += 1;
    }
}

/// Whether character `c` occurs in `s`.
pub fn has_char(s: &Vec<char>, c: char) -> (r: bool)
    ensures
        r == s@.contains(c),
{
    let mut i: usize = 0;
    while i < s.len()
        invariant
            i <= s.len(),
            forall|k: int| 0 <= k < i ==> s@[k] != c,
        decreases s.len() - i,
    {
        if s[i] == c {
            return true;
        }
        i += 1;
    }
    false
}

// ---------------------------------------------------------------- case

/// ASCII lowercase of one character (`char::to_ascii_lowercase`).
pub open spec fn lower_char(c: char) -> char {
    if 'A' <= c && c <= 'Z' {
        ((c as u32) + 32) as char
    } else {
        c
    }
}

pub open spec fn lower(s: Seq<char>) -> Seq<char> {
    s.map_values(|c: char| lower_char(c))
}

pub fn ascii_lower_char(c: char) -> (r: char)
    ensures
        r == lower_char(c),
{
    if 'A' <= c && c <= 'Z' {
        let v: u32 = (c as u32) + 32;
        assert(97 <= v <= 122);
        char_from_ascii(v)
    } else {
        c
    }
}

/// The character with the given ASCII code.
fn char_from_ascii(v: u32) -> (r: char)
    requires
        v < 128,
    ensures
        r == v as char,
{
    (v as u8) as char
}

/// ASCII lowercase of a whole string (`str::to_ascii_lowercase`).
pub fn ascii_lowercase(s: &str) -> (r: String)
    ensures
        r@ == lower(s@),
{
    let cs = chars_of(s);
    let mut out = String::new();
    let mut i: usize = 0;
    while i < cs.len()
        invariant
            i <= cs.len(),
            cs@ == s@,
            out@ == lower(cs@.take(i as int)),
        decreases cs.len() - i,
    {
        let c = ascii_lower_char(cs[i]);
        push_char(&mut out, c);
        assert(lower(cs@.take(i + 1)) =~= lower(cs@.take(i as int)).push(c));
        i += 1;
    }
    assert(cs@.take(cs.len() as int) =~= cs@);
    out
}

// ---------------------------------------------------------------- numbers

pub open spec fn digit_char(d: nat) -> char {
    (('0' as nat) + d) as char
}

/// Decimal digits of `n`, most significant first, no leading zeros.
pub open spec fn dec(n: nat) -> Seq<char>
    decreases n,
{
    if n < 10 {
        seq![digit_char(n)]
    } else {
        dec(n / 10).push(digit_char(n % 10))
    }
}

/// `format!("{}", n)` for a signed integer.
pub open spec fn dec_int(i: int) -> Seq<char> {
    if i < 0 {
        seq!['-'] + dec((-i) as nat)
    } else {
        dec(i as nat)
    }
}

/// `s` padded on the left with `c` up to `width` characters.
pub open spec fn pad_left(s: Seq<char>, width: nat, c: char) -> Seq<char> {
    if s.len() >= width {
        s
    } else {
        Seq::new((width - s.len()) as nat, |_i: int| c) + s
    }
}

/// `s` padded on the right with spaces up to `width` characters.
pub open spec fn pad_right(s: Seq<char>, width: nat) -> Seq<char> {
    if s.len() >= width {
        s
    } else {
        s + Seq::new((width - s.len()) as nat, |_i: int| ' ')
    }
}

fn digit(d: u64) -> (r: char)
    requires
        d < 10,
    ensures
        r == digit_char(d as nat),
{
    char_from_ascii(48 + d as u32)
}

/// `format!("{}", n)`.
pub fn fmt_u64(n: u64) -> (r: String)
    ensures
        r@ == dec(n as nat),
    decreases n,
{
    if n < 10 {
        let mut s = String::new();
        push_char(&mut s, digit(n));
        assert(s@ =~= seq![digit_char(n as nat)]);
        s
    } else {
        let mut s = fmt_u64(n / 10);
        push_char(&mut s, digit(n % 10));
        s
    }
}

/// `format!("{}", n)`.
pub fn fmt_i64(n: i64) -> (r: String)
    ensures
        r@ == dec_int(n as int),
{
    if n < 0 {
        let m: u64 = if n == i64::MIN {
            9223372036854775808u64
        } else {
            (-n) as u64
        };
        let digits = fmt_u64(m);
        let mut s = String::new();
        push_char(&mut s, '-');
        s.append(digits.as_str());
        assert(s@ =~= seq!['-'] + dec((-n) as nat));
        s
    } else {
        fmt_u64(n as u64)
    }
}

/// `s` padded on the left with `c` to `width` characters.
pub fn left_pad(s: &str, width: usize, c: char) -> (r: String)
    ensures
        r@ == pad_left(s@, width as nat, c),
{
    let n = s.unicode_len();
    if n >= width {
        return s.to_owned();
    }
    let mut out = String::new();
    let mut i: usize = 0;
    while i < width - n
        invariant
            n < width,
            n == s@.len(),
            i <= width - n,
            out@ == Seq::new(i as nat, |_i: int| c),
        decreases width - n - i,
    {
        push_char(&mut out, c);
        assert(out@ =~= Seq::new((i + 1) as nat, |_i: int| c));
        i += 1;
    }
    out.append(s);
    out
}

/// `format!("{:<width}", s)`.
pub fn right_pad(s: &str, width: usize) -> (r: String)
    ensures
        r@ == pad_right(s@, width as nat),
{
    let n = s.unicode_len();
    let mut out = s.to_owned();
    if n >= width {
        return out;
    }
    let mut i: usize = 0;
    while i < width - n
        invariant
            n < width,
            n == s@.len(),
            i <= width - n,
            out@ == s@ + Seq::new(i as nat, |_i: int| ' '),
        decreases width - n - i,
    {
        push_char(&mut out, ' ');
        assert(out@ =~= s@ + Seq::new((i + 1) as nat, |_i: int| ' '));
        i += 1;
    }
    out
}

/// `format!("{:0width$}", n)` for a non-negative value.
pub fn fmt_zero_padded(n: u64, width: usize) -> (r: String)
    ensures
        r@ == pad_left(dec(n as nat), width as nat, '0'),
{
    let s = fmt_u64(n);
    left_pad(s.as_str(), width, '0')
}

// ---------------------------------------------------------------- parsing

pub open spec fn is_digit(c: char) -> bool {
    '0' <= c && c <= '9'
}

pub open spec fn digit_value(c: char) -> nat {
    ((c as u32) - ('0' as u32)) as nat
}

/// Value of a run of decimal digits.
pub open spec fn digits_value(s: Seq<char>) -> nat
    decreases s.len(),
{
    if s.len() == 0 {
        0
    } else {
        digits_value(s.drop_last()) * 10 + digit_value(s.last())
    }
}

pub open spec fn all_digits(s: Seq<char>) -> bool {
    forall|i: int| 0 <= i < s.len() ==> is_digit(#[trigger] s[i])
}

/// The integer an optional `+`/`-` sign and one or more decimal digits
/// denote (the grammar `str::parse::<i64>` accepts), before range checks.
pub open spec fn signed_value(s: Seq<char>) -> Option<int> {
    if s.len() > 0 && (s[0] == '+' || s[0] == '-') {
        let body = s.drop_first();
        if body.len() > 0 && all_digits(body) {
            if s[0] == '-' {
                Some(-(digits_value(body) as int))
            } else {
                Some(digits_value(body) as int)
            }
        } else {
            None
        }
    } else if s.len() > 0 && all_digits(s) {
        Some(digits_value(s) as int)
    } else {
        None
    }
}

/// `str::parse::<i64>`: the value, or `None` when the text is not a signed
/// decimal integer or the value does not fit.
pub open spec fn parse_i64_spec(s: Seq<char>) -> Option<i64> {
    match signed_value(s) {
        Some(v) => if i64::MIN <= v <= i64::MAX {
            Some(v as i64)
        } else {
            None
        },
        None => None,
    }
}

proof fn lemma_digits_value_push(s: Seq<char>, c: char)
    ensures
        digits_value(s.push(c)) == digits_value(s) * 10 + digit_value(c),
{
    assert(s.push(c).drop_last() =~= s);
}

/// `str::parse::<i64>` on the characters `cs[from..to]`.
pub fn parse_i64_range(cs: &Vec<char>, from: usize, to: usize) -> (r: Option<i64>)
    requires
        from <= to <= cs.len(),
    ensures
        r == parse_i64_spec(cs@.subrange(from as int, to as int)),
{
    let ghost s = cs@.subrange(from as int, to as int);
    if from == to {
        return None;
    }
    let neg = cs[from] == '-';
    let signed = cs[from] == '-' || cs[from] == '+';
    let start = if signed { from + 1 } else { from };
    let ghost body = cs@.subrange(start as int, to as int);
    assert(s[0] == cs@[from as int]);
    assert(signed ==> body =~= s.drop_first());
    assert(!signed ==> body =~= s);
    if start == to {
        return None;
    }
    // Accumulate toward the sign so that i64::MIN is representable.
    let mut acc: i64 = 0;
    let mut i = start;
    let mut overflow = false;
    while i < to
        invariant
            from <= start < to <= cs.len(),
            start <= i <= to,
            body == cs@.subrange(start as int, to as int),
            s == cs@.subrange(from as int, to as int),
            s.len() > 0,
            signed == (s[0] == '+' || s[0] == '-'),
            neg == (s[0] == '-'),
            start == if signed { from + 1 } else { from as int },
            signed ==> body == s.drop_first(),
            !signed ==> body == s,
            all_digits(cs@.subrange(start as int, i as int)),
            !overflow ==> (if neg {
                acc == -(digits_value(cs@.subrange(start as int, i as int)) as int)
            } else {
                acc == digits_value(cs@.subrange(start as int, i as int)) as int
            }),
            overflow && neg ==> digits_value(cs@.subrange(start as int, i as int)) > i64::MAX + 1,
            overflow && !neg ==> digits_value(cs@.subrange(start as int, i as int)) > i64::MAX,
        decreases to - i,
    {
        let c = cs[i];
        if !('0' <= c && c <= '9') {
            assert(body[i - start] == c);
            assert(!is_digit(body[i - start]));
            assert(!all_digits(body));
            return None;
        }
        let d: i64 = (c as u32 - 48) as i64;
        proof {
            assert(cs@.subrange(start as int, i + 1) =~= cs@.subrange(start as int, i as int).push(c));
            lemma_digits_value_push(cs@.subrange(start as int, i as int), c);
        }
        if !overflow {
            if neg {
                if acc < -922337203685477580 || (acc == -922337203685477580 && d > 8) {
                    overflow = true;
                    assert(digits_value(cs@.subrange(start as int, i + 1)) > i64::MAX + 1) by (nonlinear_arith)
                        requires
                            digits_value(cs@.subrange(start as int, i + 1)) == digits_value(cs@.subrange(start as int, i as int)) * 10 + d,
                            acc == -(digits_value(cs@.subrange(start as int, i as int)) as int),
                            acc < -922337203685477580 || (acc == -922337203685477580 && d > 8),
                            0 <= d < 10,
                    ;
                } else {
                    acc = acc * 10 - d;
                }
            } else {
                if acc > 922337203685477580 || (acc == 922337203685477580 && d > 7) {
                    overflow = true;
                    assert(digits_value(cs@.subrange(start as int, i + 1)) > i64::MAX) by (nonlinear_arith)
                        requires
                            digits_value(cs@.subrange(start as int, i + 1)) == digits_value(cs@.subrange(start as int, i as int)) * 10 + d,
                            acc == digits_value(cs@.subrange(start as int, i as int)) as int,
                            acc > 922337203685477580 || (acc == 922337203685477580 && d > 7),
                            0 <= d < 10,
                    ;
                } else {
                    acc = acc * 10 + d;
                }
            }
        } else {
            assert(digits_value(cs@.subrange(start as int, i + 1)) >= digits_value(cs@.subrange(start as int, i as int))) by (nonlinear_arith)
                requires
                    digits_value(cs@.subrange(start as int, i + 1)) == digits_value(cs@.subrange(start as int, i as int)) * 10 + d,
                    0 <= d < 10,
            ;
        }
        i += 1;
    }
    assert(cs@.subrange(start as int, to as int) == body);
    if overflow {
        None
    } else {
        Some(acc)
    }
}

/// `str::parse::<i64>`.
pub fn parse_i64(s: &str) -> (r: Option<i64>)
    ensures
        r == parse_i64_spec(s@),
{
    let cs = chars_of(s);
    assert(cs@.subrange(0, cs@.len() as int) =~= cs@);
    parse_i64_range(&cs, 0, cs.len())
}

} // verus!

verus! {

/// The full Unicode lowercase mapping of a string (`str::to_lowercase`).
pub uninterp spec fn unicode_lowercase(s: Seq<char>) -> Seq<char>;

/// `str::to_lowercase`: the Unicode lowercase form of `s`. Its result is a
/// function of `s` alone; on all-ASCII text it is the ASCII lowercase (the
/// Unicode mapping sends `A`..`Z` to `a`..`z` and keeps every other ASCII
/// character). Beyond ASCII the mapping (the Unicode tables) is not stated.
#[verifier::external_body]
pub fn to_lowercase(s: &str) -> (r: String)
    ensures
        r@ == unicode_lowercase(s@),
        (forall|i: int| 0 <= i < s@.len() ==> (#[trigger] s@[i] as u32) < 128) ==> r@ == lower(s@),
{
    s.to_lowercase()
}

/// `char::is_alphanumeric`: alphabetic or numeric by the Unicode tables.
pub uninterp spec fn unicode_alphanumeric(c: char) -> bool;

/// `char::is_alphanumeric`. Whether `c` is alphanumeric is a function of
/// `c` alone; the Unicode tables that decide it are not stated here.
#[verifier::external_body]
pub fn is_alphanumeric(c: char) -> (r: bool)
    ensures
        r == unicode_alphanumeric(c),
{
    c.is_alphanumeric()
}

/// `s` with every `a` replaced by `b`.
pub open spec fn replace_char(s: Seq<char>, a: char, b: char) -> Seq<char> {
    s.map_values(|c: char| if c == a { b } else { c })
}

/// `str::replace` of one character by another.
pub fn replace_char_in(s: &str, a: char, b: char) -> (r: String)
    ensures
        r@ == replace_char(s@, a, b),
{
    let cs = chars_of(s);
    let mut out = String::new();
    let mut i: usize = 0;
    while i < cs.len()
        invariant
            i <= cs.len(),
            cs@ == s@,
            out@ == replace_char(cs@.take(i as int), a, b),
        decreases cs.len() - i,
    {
        let c = if cs[i] == a { b } else { cs[i] };
        push_char(&mut out, c);
        assert(replace_char(cs@.take(i + 1), a, b) =~= replace_char(cs@.take(i as int), a, b).push(c));
        i += 1;
    }
    assert(cs@.take(cs.len() as int) =~= cs@);
    out
}

} // verus!

verus! {

/// `s.split(sep)`: the pieces between separators, in order (always at least
/// one piece; an empty input gives one empty piece).
pub open spec fn split_seq<A>(s: Seq<A>, sep: A) -> Seq<Seq<A>>
    decreases s.len(),
{
    if s.len() == 0 {
        seq![Seq::empty()]
    } else {
        let init = split_seq(s.drop_last(), sep);
        if s.last() == sep {
            init.push(Seq::empty())
        } else {
            init.update(init.len() - 1, init.last().push(s.last()))
        }
    }
}

pub proof fn lemma_split_nonempty<A>(s: Seq<A>, sep: A)
    ensures
        split_seq(s, sep).len() >= 1,
    decreases s.len(),
{
    if s.len() > 0 {
        lemma_split_nonempty(s.drop_last(), sep);
    }
}

/// Splitting yields at most one more part than there are elements.
pub proof fn lemma_split_len_bound<A>(s: Seq<A>, sep: A)
    ensures
        1 <= split_seq(s, sep).len() <= s.len() + 1,
    decreases s.len(),
{
    if s.len() > 0 {
        lemma_split_len_bound(s.drop_last(), sep);
    }
}

pub open spec fn views_u8(v: Seq<Vec<u8>>) -> Seq<Seq<u8>> {
    v.map_values(|x: Vec<u8>| x@)
}

pub open spec fn views_char(v: Seq<Vec<char>>) -> Seq<Seq<char>> {
    v.map_values(|x: Vec<char>| x@)
}

/// `bytes.split(|b| *b == sep)`.
pub fn split_bytes(b: &[u8], sep: u8) -> (r: Vec<Vec<u8>>)
    ensures
        views_u8(r@) == split_seq(b@, sep),
{
    let mut done: Vec<Vec<u8>> = Vec::new();
    let mut cur: Vec<u8> = Vec::new();
    let mut i: usize = 0;
    while i < b.len()
        invariant
            i <= b.len(),
            views_u8(done@) + seq![cur@] == split_seq(b@.take(i as int), sep),
        decreases b.len() - i,
    {
        let c = b[i];
        proof {
            assert(b@.take(i + 1).drop_last() =~= b@.take(i as int));
            assert(b@.take(i + 1).last() == c);
            lemma_split_nonempty(b@.take(i as int), sep);
        }
        let ghost before = split_seq(b@.take(i as int), sep);
        if c == sep {
            let finished = cur;
            done.push(finished);
            cur = Vec::new();
            assert(views_u8(done@) + seq![cur@] =~= before.push(Seq::empty()));
        } else {
            cur.push(c);
            assert(views_u8(done@) + seq![cur@] =~= before.update(before.len() - 1, before.last().push(c)));
        }
        i += 1;
    }
    assert(b@.take(b.len() as int) =~= b@);
    done.push(cur);
    assert(views_u8(done@) =~= split_seq(b@, sep));
    done
}

/// `chars.split(sep)` over a character vector.
pub fn split_chars(s: &Vec<char>, sep: char) -> (r: Vec<Vec<char>>)
    ensures
        views_char(r@) == split_seq(s@, sep),
{
    let mut done: Vec<Vec<char>> = Vec::new();
    let mut cur: Vec<char> = Vec::new();
    let mut i: usize = 0;
    while i < s.len()
        invariant
            i <= s.len(),
            views_char(done@) + seq![cur@] == split_seq(s@.take(i as int), sep),
        decreases s.len() - i,
    {
        let c = s[i];
        proof {
            assert(s@.take(i + 1).drop_last() =~= s@.take(i as int));
            assert(s@.take(i + 1).last() == c);
            lemma_split_nonempty(s@.take(i as int), sep);
        }
        let ghost before = split_seq(s@.take(i as int), sep);
        if c == sep {
            let finished = cur;
            done.push(finished);
            cur = Vec::new();
            assert(views_char(done@) + seq![cur@] =~= before.push(Seq::empty()));
        } else {
            cur.push(c);
            assert(views_char(done@) + seq![cur@] =~= before.update(before.len() - 1, before.last().push(c)));
        }
        i += 1;
    }
    assert(s@.take(s.len() as int) =~= s@);
    done.push(cur);
    assert(views_char(done@) =~= split_seq(s@, sep));
    done
}

/// The text `String::from_utf8_lossy` decodes from `b`.
pub uninterp spec fn utf8_lossy(b: Seq<u8>) -> Seq<char>;

/// `String::from_utf8_lossy(b).into_owned()`: the bytes decoded as UTF-8,
/// each invalid sequence replaced by U+FFFD. Stated: valid UTF-8 decodes
/// exactly, and a leading run of ASCII bytes decodes to the same characters.
/// Not stated: how many replacement characters an invalid sequence yields.
#[verifier::external_body]
pub fn lossy_utf8(b: &[u8]) -> (r: String)
    ensures
        r@ == utf8_lossy(b@),
        vstd::utf8::valid_utf8(b@) ==> r@ == vstd::utf8::decode_utf8(b@),
        forall|i: int| 0 <= i < b@.len() && (forall|j: int| 0 <= j <= i ==> #[trigger] b@[j] < 0x80)
            ==> i < r@.len() && r@[i] == (b@[i] as char),
{
    String::from_utf8_lossy(b).into_owned()
}

/// UTF-8 length in bytes of some text (`str::len`).
pub open spec fn utf8_len(s: Seq<char>) -> nat {
    vstd::utf8::encode_utf8(s).len()
}

} // verus!

verus! {

/// `std::str::from_utf8`: the text the bytes encode when they are valid
/// UTF-8, else none.
#[verifier::external_body]
pub fn utf8_text(b: &[u8]) -> (r: Option<String>)
    ensures
        r is Some <==> vstd::utf8::valid_utf8(b@),
        r matches Some(s) ==> s@ == vstd::utf8::decode_utf8(b@),
{
    std::str::from_utf8(b).ok().map(|s| s.to_owned())
}

} // verus!
