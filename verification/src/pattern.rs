//! Structural-pattern search: the literal words a pattern can be located by,
//! and where in a multi-line match the reader is sent.

use crate::facts::Match;
use crate::text::{chars_of, is_alphanumeric, push_char, unicode_alphanumeric};
use vstd::prelude::*;
use vstd::utf8::encode_utf8;

verus! {

broadcast use vstd::string::group_string_axioms;

pub open spec fn is_word_char(c: char) -> bool {
    unicode_alphanumeric(c) || c == '_'
}

/// The first position from `i` on that does not hold `c`.
pub open spec fn skip_char(p: Seq<char>, i: int, c: char) -> int
    decreases p.len() - i,
{
    if 0 <= i < p.len() && p[i] == c {
        skip_char(p, i + 1, c)
    } else {
        i
    }
}

/// The first position from `i` on that does not hold a word character.
pub open spec fn skip_word(p: Seq<char>, i: int) -> int
    decreases p.len() - i,
{
    if 0 <= i < p.len() && is_word_char(p[i]) {
        skip_word(p, i + 1)
    } else {
        i
    }
}

/// A finished word is kept when it is longer than one byte.
pub open spec fn flush(word: Seq<char>, out: Seq<Seq<char>>) -> Seq<Seq<char>> {
    if encode_utf8(word).len() > 1 {
        out.push(word)
    } else {
        out
    }
}

/// The literal words of `p` from position `i` on, given the word being
/// read and the words found so far. A `$` starts a metavariable (`$X`,
/// `$$$ARGS`), which is skipped whole and ends the current word unkept.
pub open spec fn scan(p: Seq<char>, i: int, word: Seq<char>, out: Seq<Seq<char>>) -> Seq<Seq<char>>
    decreases p.len() - i,
{
    if i < 0 || i >= p.len() {
        flush(word, out)
    } else if p[i] == '$' {
        let j = skip_word(p, skip_char(p, i + 1, '$'));
        if i < j <= p.len() {
            scan(p, j, Seq::empty(), out)
        } else {
            out
        }
    } else if is_word_char(p[i]) {
        scan(p, i + 1, word.push(p[i]), out)
    } else {
        scan(p, i + 1, Seq::empty(), flush(word, out))
    }
}

/// The literal words of a pattern: everything that is not a metavariable or
/// punctuation, words of one byte left out.
pub open spec fn literal_words(p: Seq<char>) -> Seq<Seq<char>> {
    scan(p, 0, Seq::empty(), Seq::empty())
}

fn keep_word(word: String, out: &mut Vec<String>)
    ensures
        crate::ordered::text_views(final(out)@) == flush(word@, crate::ordered::text_views(old(out)@)),
{
    let n = word.as_str().as_bytes().len();
    if n > 1 {
        let ghost ov = crate::ordered::text_views(out@);
        out.push(word);
        assert(crate::ordered::text_views(out@) =~= ov.push(word@));
    }
}

/// The literal words in a structural pattern: `dispatch($$$A)` yields
/// `dispatch`, `$X->save($$$A)` yields `save`.
pub fn literals(pattern: &str) -> (r: Vec<String>)
    ensures
        crate::ordered::text_views(r@) == literal_words(pattern@),
{
    let p = chars_of(pattern);
    let mut out: Vec<String> = Vec::new();
    let mut word = String::new();
    let mut i: usize = 0;
    assert(word@ =~= Seq::<char>::empty());
    assert(crate::ordered::text_views(out@) =~= Seq::<Seq<char>>::empty());
    while i < p.len()
        invariant
            p@ == pattern@,
            i <= p@.len(),
            scan(p@, i as int, word@, crate::ordered::text_views(out@)) == literal_words(pattern@),
        decreases p@.len() - i,
    {
        let c = p[i];
        if c == '$' {
            let mut j = i + 1;
            while j < p.len() && p[j] == '$'
                invariant
                    i < j <= p@.len(),
                    skip_char(p@, i + 1, '$') == skip_char(p@, j as int, '$'),
                decreases p@.len() - j,
            {
                j += 1;
            }
            assert(skip_char(p@, j as int, '$') == j);
            let ghost j0 = j;
            while j < p.len() && (is_alphanumeric(p[j]) || p[j] == '_')
                invariant
                    i < j0 <= j <= p@.len(),
                    skip_word(p@, j0 as int) == skip_word(p@, j as int),
                decreases p@.len() - j,
            {
                j += 1;
            }
            assert(skip_word(p@, j as int) == j);
            word = String::new();
            assert(word@ =~= Seq::<char>::empty());
            i = j;
        } else if is_alphanumeric(c) || c == '_' {
            push_char(&mut word, c);
            i += 1;
        } else {
            let w = word;
            keep_word(w, &mut out);
            word = String::new();
            assert(word@ =~= Seq::<char>::empty());
            i += 1;
        }
    }
    keep_word(word, &mut out);
    out
}

/// The index of the first line holding `a`.
pub open spec fn first_with(lines: Seq<Seq<char>>, a: Seq<char>) -> Option<int>
    decreases lines.len(),
{
    if lines.len() == 0 {
        None
    } else if crate::text::contains(lines[0], a) {
        Some(0)
    } else {
        match first_with(lines.drop_first(), a) {
            Some(k) => Some(k + 1),
            None => None,
        }
    }
}

/// The line of a multi-line match the reader is sent to: the first holding
/// the anchor word, else the first.
pub open spec fn anchored_line(lines: Seq<Seq<char>>, anchor: Option<Seq<char>>) -> int {
    match anchor {
        Some(a) => match first_with(lines, a) {
            Some(k) => k,
            None => 0,
        },
        None => 0,
    }
}

/// How many lines below the match's start its reported line lies.
pub open spec fn anchor_offset(text: Seq<char>, anchor: Option<Seq<char>>) -> int {
    if text.contains('\n') {
        anchored_line(crate::changes::text_lines(text), anchor)
    } else {
        0
    }
}

/// A match as reported: its file, its line (1-based, at the anchored line
/// of a multi-line match), and that line's text without trailing
/// whitespace; a one-line match is reported whole.
pub open spec fn anchored_view(file: Seq<char>, start: int, text: Seq<char>, anchor: Option<Seq<char>>) -> (Seq<char>, int, Seq<char>) {
    if text.contains('\n') {
        let lines = crate::changes::text_lines(text);
        let k = anchored_line(lines, anchor);
        (file, start + k + 1, crate::digest::trim_end(lines[k]))
    } else {
        (file, start + 1, text)
    }
}

proof fn lemma_first_with(lines: Seq<Seq<char>>, a: Seq<char>, k: int)
    requires
        0 <= k <= lines.len(),
        forall|j: int| 0 <= j < k ==> !crate::text::contains(#[trigger] lines[j], a),
    ensures
        k < lines.len() && crate::text::contains(lines[k], a) ==> first_with(lines, a) == Some(k),
        k == lines.len() ==> first_with(lines, a) is None,
    decreases k,
{
    if k > 0 {
        assert forall|j: int| 0 <= j < k - 1 implies !crate::text::contains(#[trigger] lines.drop_first()[j], a) by {
            assert(lines.drop_first()[j] == lines[j + 1]);
        }
        lemma_first_with(lines.drop_first(), a, k - 1);
    }
}

proof fn lemma_split_two(s: Seq<char>, sep: char)
    requires
        s.contains(sep),
    ensures
        crate::text::split_seq(s, sep).len() >= 2,
    decreases s.len(),
{
    crate::text::lemma_split_nonempty(s.drop_last(), sep);
    if s.last() != sep {
        let i = choose|i: int| 0 <= i < s.len() && s[i] == sep;
        assert(s.drop_last()[i] == sep);
        lemma_split_two(s.drop_last(), sep);
    }
}

proof fn lemma_text_lines_nonempty(text: Seq<char>)
    requires
        text.contains('\n'),
    ensures
        crate::changes::text_lines(text).len() >= 1,
{
    lemma_split_two(text, '\n');
}

pub open spec fn opt_text(o: Option<&str>) -> Option<Seq<char>> {
    match o {
        Some(s) => Some(s@),
        None => None,
    }
}

/// The reported form of one structural match.
pub fn anchored_match(file: String, start: i64, text: &str, anchor: Option<&str>) -> (r: Match)
    requires
        start + anchor_offset(text@, opt_text(anchor)) + 1 <= i64::MAX,
    ensures
        (r.file@, r.line as int, r.snippet@) == anchored_view(file@, start as int, text@, opt_text(anchor)),
{
    let cs = chars_of(text);
    if !crate::text::has_char(&cs, '\n') {
        return Match { file, line: start + 1, snippet: text.to_owned() };
    }
    let lines = crate::changes::text_lines_of(text);
    let ghost lv = crate::text::views_char(lines@);
    proof {
        lemma_text_lines_nonempty(text@);
    }
    let mut index: usize = 0;
    match anchor {
        Some(a) => {
            let ac = chars_of(a);
            let mut k: usize = 0;
            let mut found = false;
            while k < lines.len() && !found
                invariant
                    k <= lines@.len(),
                    lv == crate::text::views_char(lines@),
                    ac@ == a@,
                    found ==> k < lines@.len() && crate::text::contains(lv[k as int], a@),
                    forall|j: int| 0 <= j < k ==> !crate::text::contains(#[trigger] lv[j], a@),
                decreases lines@.len() - k + if found { 0int } else { 1int },
            {
                assert(lv[k as int] == lines@[k as int]@);
                if crate::text::seq_contains(&lines[k], &ac) {
                    found = true;
                } else {
                    k += 1;
                }
            }
            proof {
                lemma_first_with(lv, a@, k as int);
            }
            if found {
                index = k;
            }
        },
        None => {},
    }
    assert(lv == crate::changes::text_lines(text@));
    assert(index as int == anchored_line(lv, opt_text(anchor)));
    assert(index < lines@.len());
    assert(lv[index as int] == lines@[index as int]@);
    let trimmed = crate::digest::trim_end_text(&lines[index]);
    let wide: i128 = start as i128 + index as i128 + 1;
    Match { file, line: wide as i64, snippet: crate::text::string_of(&trimmed) }
}

} // verus!
