//! The one JSON string representation: every non-ASCII scalar is written as
//! a `\uXXXX` escape (astral scalars as a UTF-16 surrogate pair), ASCII is
//! written verbatim. The serializer that frames documents lives with the
//! program; this module owns the character-level policy it applies to every
//! run of string bytes.

use crate::text::push_char;
use vstd::prelude::*;

verus! {

broadcast use vstd::string::group_string_axioms;

pub open spec fn is_ascii_char(c: char) -> bool {
    (c as u32) < 0x80
}

/// Lowercase hexadecimal digit of `d` (`0 <= d < 16`).
pub open spec fn hex_char(d: nat) -> char {
    if d < 10 {
        (('0' as nat) + d) as char
    } else {
        (('a' as nat) + (d - 10)) as char
    }
}

/// `format!("{:04x}", n)` for `n <= 0xFFFF`.
pub open spec fn hex4(n: nat) -> Seq<char> {
    seq![hex_char((n / 4096) % 16), hex_char((n / 256) % 16), hex_char((n / 16) % 16), hex_char(n % 16)]
}

/// `\u` followed by the four hex digits of `n`.
pub open spec fn unicode_escape(n: nat) -> Seq<char> {
    seq!['\\', 'u'] + hex4(n)
}

/// How one scalar is written inside a JSON string fragment.
pub open spec fn escape_char(c: char) -> Seq<char> {
    let cp = c as u32 as nat;
    if cp < 0x80 {
        seq![c]
    } else if cp <= 0xFFFF {
        unicode_escape(cp)
    } else {
        let v = (cp - 0x1_0000) as nat;
        unicode_escape(0xD800 + v / 1024) + unicode_escape(0xDC00 + v % 1024)
    }
}

/// How a whole fragment is written: each scalar escaped in turn.
pub open spec fn escape_seq(s: Seq<char>) -> Seq<char>
    decreases s.len(),
{
    if s.len() == 0 {
        Seq::empty()
    } else {
        escape_seq(s.drop_last()) + escape_char(s.last())
    }
}

fn hex_digit(d: u32) -> (r: char)
    requires
        d < 16,
    ensures
        r == hex_char(d as nat),
        is_ascii_char(r),
{
    if d < 10 {
        ((48 + d) as u8) as char
    } else {
        ((97 + (d - 10)) as u8) as char
    }
}

fn push_unicode_escape(out: &mut String, n: u32)
    requires
        n <= 0xFFFF,
    ensures
        final(out)@ == old(out)@ + unicode_escape(n as nat),
{
    push_char(out, '\\');
    push_char(out, 'u');
    push_char(out, hex_digit((n / 4096) % 16));
    push_char(out, hex_digit((n / 256) % 16));
    push_char(out, hex_digit((n / 16) % 16));
    push_char(out, hex_digit(n % 16));
    assert(final(out)@ =~= old(out)@ + unicode_escape(n as nat));
}

/// Write `fragment` in the ASCII-only representation: ASCII verbatim, every
/// scalar from U+0080 up as `\uXXXX`, and astral scalars as a surrogate pair.
pub fn escape_fragment(fragment: &str) -> (r: String)
    ensures
        r@ == escape_seq(fragment@),
{
    let mut out = String::new();
    let ghost mut seen: Seq<char> = Seq::empty();
    for ch in it: fragment.chars()
        invariant
            it.seq() == fragment@,
            seen == it.seq().take(it.index() as int),
            out@ == escape_seq(seen),
    {
        proof {
            assert(it.seq().take(it.index() + 1) =~= seen.push(ch));
            assert(seen.push(ch).drop_last() =~= seen);
        }
        let cp = ch as u32;
        if cp < 0x80 {
            push_char(&mut out, ch);
        } else if cp <= 0xFFFF {
            push_unicode_escape(&mut out, cp);
        } else {
            proof { vstd::utf8::char_is_scalar(ch); }
            let v = cp - 0x1_0000;
            push_unicode_escape(&mut out, 0xD800 + v / 1024);
            push_unicode_escape(&mut out, 0xDC00 + v % 1024);
            assert(out@ =~= escape_seq(seen) + escape_char(ch));
        }
        proof {
            seen = seen.push(ch);
        }
    }
    proof {
        assert(seen =~= fragment@);
    }
    out
}

/// Every character of the escaped form is ASCII, whatever the input.
pub proof fn escaped_is_ascii(s: Seq<char>)
    ensures
        forall|i: int| 0 <= i < escape_seq(s).len() ==> is_ascii_char(#[trigger] escape_seq(s)[i]),
    decreases s.len(),
{
    if s.len() > 0 {
        escaped_is_ascii(s.drop_last());
        let c = s.last();
        let e = escape_char(c);
        assert forall|i: int| 0 <= i < e.len() implies is_ascii_char(#[trigger] e[i]) by {
            let cp = c as u32 as nat;
            if cp >= 0x80 {
                if cp <= 0xFFFF {
                    assert(hex4(cp)[0] == hex_char((cp / 4096) % 16));
                } else {
                    let v = (cp - 0x1_0000) as nat;
                    assert(unicode_escape(0xD800 + v / 1024).len() == 6);
                }
            }
        }
        let prev = escape_seq(s.drop_last());
        assert forall|i: int| 0 <= i < escape_seq(s).len() implies is_ascii_char(#[trigger] escape_seq(s)[i]) by {
            if i < prev.len() {
                assert(escape_seq(s)[i] == prev[i]);
            } else {
                assert(escape_seq(s)[i] == e[i - prev.len()]);
            }
        }
    }
}

/// Text that is already ASCII is written unchanged.
pub proof fn ascii_is_unchanged(s: Seq<char>)
    requires
        forall|i: int| 0 <= i < s.len() ==> is_ascii_char(#[trigger] s[i]),
    ensures
        escape_seq(s) == s,
    decreases s.len(),
{
    if s.len() > 0 {
        ascii_is_unchanged(s.drop_last());
        assert(s.drop_last().push(s.last()) =~= s);
    }
}

} // verus!
