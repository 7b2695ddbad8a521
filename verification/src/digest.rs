//! The leading comment of a source file: a `/* */` block, a triple-quoted
//! docstring, or a run of `#`, `//` or `*` line comments, after any blank
//! lines, a shebang, and a `<?php` opener.

use crate::text::{chars_of, occurs_at, seq_ends_with, seq_starts_with, ends_with, starts_with, lossy_utf8, utf8_lossy};
use vstd::prelude::*;

verus! {

/// `char::is_whitespace`: the Unicode White_Space characters.
pub open spec fn is_ws(c: char) -> bool {
    ||| (9 <= c as int && c as int <= 13)
    ||| c as int == 32
    ||| c as int == 0x85
    ||| c as int == 0xa0
    ||| c as int == 0x1680
    ||| (0x2000 <= c as int && c as int <= 0x200a)
    ||| c as int == 0x2028
    ||| c as int == 0x2029
    ||| c as int == 0x202f
    ||| c as int == 0x205f
    ||| c as int == 0x3000
}

pub fn ws(c: char) -> (r: bool)
    ensures
        r == is_ws(c),
{
    let v = c as u32;
    (9 <= v && v <= 13) || v == 32 || v == 0x85 || v == 0xa0 || v == 0x1680 || (0x2000 <= v && v <= 0x200a)
        || v == 0x2028 || v == 0x2029 || v == 0x202f || v == 0x205f || v == 0x3000
}

pub open spec fn trim_start(s: Seq<char>) -> Seq<char>
    decreases s.len(),
{
    if s.len() > 0 && is_ws(s[0]) {
        trim_start(s.drop_first())
    } else {
        s
    }
}

pub open spec fn trim_end(s: Seq<char>) -> Seq<char>
    decreases s.len(),
{
    if s.len() > 0 && is_ws(s.last()) {
        trim_end(s.drop_last())
    } else {
        s
    }
}

pub open spec fn trim(s: Seq<char>) -> Seq<char> {
    trim_end(trim_start(s))
}

proof fn lemma_trim_start_at(s: Seq<char>, k: int)
    requires
        0 <= k <= s.len(),
        forall|j: int| 0 <= j < k ==> is_ws(#[trigger] s[j]),
        k == s.len() || !is_ws(s[k]),
    ensures
        trim_start(s) == s.skip(k),
    decreases k,
{
    if k > 0 {
        lemma_trim_start_at(s.drop_first(), k - 1);
        assert(s.drop_first().skip(k - 1) =~= s.skip(k));
    } else {
        assert(s.skip(0) =~= s);
    }
}

proof fn lemma_trim_end_at(s: Seq<char>, k: int)
    requires
        0 <= k <= s.len(),
        forall|j: int| k <= j < s.len() ==> is_ws(#[trigger] s[j]),
        k == 0 || !is_ws(s[k - 1]),
    ensures
        trim_end(s) == s.take(k),
    decreases s.len() - k,
{
    if k < s.len() {
        lemma_trim_end_at(s.drop_last(), k);
        assert(s.drop_last().take(k) =~= s.take(k));
    } else {
        assert(s.take(k) =~= s);
    }
}

fn slice_of(s: &Vec<char>, from: usize, to: usize) -> (r: Vec<char>)
    requires
        from <= to <= s.len(),
    ensures
        r@ == s@.subrange(from as int, to as int),
{
    let mut r: Vec<char> = Vec::new();
    let mut i: usize = from;
    while i < to
        invariant
            from <= i <= to <= s.len(),
            r@ == s@.subrange(from as int, i as int),
        decreases to - i,
    {
        r.push(s[i]);
        assert(r@ =~= s@.subrange(from as int, i + 1));
        i += 1;
    }
    r
}

fn trim_start_of(s: &Vec<char>) -> (r: Vec<char>)
    ensures
        r@ == trim_start(s@),
{
    let mut k: usize = 0;
    while k < s.len() && ws(s[k])
        invariant
            k <= s.len(),
            forall|j: int| 0 <= j < k ==> is_ws(#[trigger] s@[j]),
        decreases s.len() - k,
    {
        k += 1;
    }
    proof {
        lemma_trim_start_at(s@, k as int);
    }
    let r = slice_of(s, k, s.len());
    assert(r@ =~= s@.skip(k as int));
    r
}

/// `s` without trailing whitespace.
pub fn trim_end_text(s: &Vec<char>) -> (r: Vec<char>)
    ensures
        r@ == trim_end(s@),
{
    trim_end_of(s)
}

fn trim_end_of(s: &Vec<char>) -> (r: Vec<char>)
    ensures
        r@ == trim_end(s@),
{
    let mut k: usize = s.len();
    while k > 0 && ws(s[k - 1])
        invariant
            k <= s.len(),
            forall|j: int| k <= j < s.len() ==> is_ws(#[trigger] s@[j]),
        decreases k,
    {
        k -= 1;
    }
    proof {
        lemma_trim_end_at(s@, k as int);
    }
    let r = slice_of(s, 0, k);
    assert(r@ =~= s@.take(k as int));
    r
}

/// `s` without leading and trailing whitespace.
pub fn trim_text(s: &Vec<char>) -> (r: Vec<char>)
    ensures
        r@ == trim(s@),
{
    trim_of(s)
}

fn trim_of(s: &Vec<char>) -> (r: Vec<char>)
    ensures
        r@ == trim(s@),
{
    let a = trim_start_of(s);
    trim_end_of(&a)
}

/// `split_inclusive('\n')`: the lines, each with its newline; a last line
/// without one is kept; no text, no lines.
pub open spec fn lines_of(s: Seq<char>) -> Seq<Seq<char>>
    decreases s.len(),
{
    if s.len() == 0 {
        Seq::empty()
    } else {
        match crate::history::index_of(s, '\n') {
            None => seq![s],
            Some(k) => {
                proof {
                    lemma_index_of_bounds(s, '\n');
                }
                seq![s.take(k + 1)] + lines_of(s.skip(k + 1))
            },
        }
    }
}

/// `index_of` is the first position holding `c`.
pub proof fn lemma_index_of_at_pub(s: Seq<char>, c: char, k: int)
    requires
        0 <= k <= s.len(),
        forall|j: int| 0 <= j < k ==> s[j] != c,
    ensures
        k < s.len() && s[k] == c ==> crate::history::index_of(s, c) == Some(k),
        k == s.len() ==> crate::history::index_of(s, c) is None,
{
    lemma_index_of_at(s, c, k);
}

proof fn lemma_index_of_at(s: Seq<char>, c: char, k: int)
    requires
        0 <= k <= s.len(),
        forall|j: int| 0 <= j < k ==> s[j] != c,
    ensures
        k < s.len() && s[k] == c ==> crate::history::index_of(s, c) == Some(k),
        k == s.len() ==> crate::history::index_of(s, c) is None,
    decreases k,
{
    if k > 0 {
        lemma_index_of_at(s.drop_first(), c, k - 1);
    }
}

pub proof fn lemma_index_of_bounds(s: Seq<char>, c: char)
    ensures
        crate::history::index_of(s, c) matches Some(k) ==> 0 <= k < s.len(),
    decreases s.len(),
{
    if s.len() > 0 {
        lemma_index_of_bounds(s.drop_first(), c);
    }
}

fn lines_in(s: &Vec<char>) -> (r: Vec<Vec<char>>)
    ensures
        crate::text::views_char(r@) == lines_of(s@),
{
    let mut out: Vec<Vec<char>> = Vec::new();
    let mut st: usize = 0;
    assert(s@.skip(0) =~= s@);
    while st < s.len()
        invariant
            st <= s.len(),
            crate::text::views_char(out@) + lines_of(s@.skip(st as int)) == lines_of(s@),
        decreases s.len() - st,
    {
        let ghost rest = s@.skip(st as int);
        let ghost ov = crate::text::views_char(out@);
        let mut k: usize = st;
        while k < s.len() && s[k] != '\n'
            invariant
                st <= k <= s.len(),
                forall|j: int| st <= j < k ==> s@[j] != '\n',
            decreases s.len() - k,
        {
            k += 1;
        }
        proof {
            lemma_index_of_at(rest, '\n', k - st);
        }
        if k == s.len() {
            let line = slice_of(s, st, s.len());
            assert(line@ =~= rest);
            out.push(line);
            assert(crate::text::views_char(out@) =~= ov + seq![rest]);
            assert(s@.skip(s.len() as int) =~= Seq::<char>::empty());
            st = s.len();
        } else {
            let line = slice_of(s, st, k + 1);
            assert(line@ =~= rest.take(k - st + 1));
            assert(rest.skip(k - st + 1) =~= s@.skip(k + 1));
            out.push(line);
            assert(crate::text::views_char(out@) =~= ov + seq![rest.take(k - st + 1)]);
            st = k + 1;
        }
    }
    assert(lines_of(s@.skip(st as int)) =~= Seq::<Seq<char>>::empty()) by {
        assert(s@.skip(st as int).len() == 0);
    }
    assert(crate::text::views_char(out@) + Seq::<Seq<char>>::empty() =~= crate::text::views_char(out@));
    out
}

pub open spec fn is_blank(line: Seq<char>) -> bool {
    trim(line).len() == 0
}

/// Past blank lines and shebangs from line `i`.
pub open spec fn skip_preamble(ls: Seq<Seq<char>>, i: int) -> int
    decreases ls.len() - i,
{
    if 0 <= i < ls.len() && (is_blank(ls[i]) || starts_with(ls[i], "#!"@)) {
        skip_preamble(ls, i + 1)
    } else {
        i
    }
}

/// Past blank lines from line `i`.
pub open spec fn skip_blank(ls: Seq<Seq<char>>, i: int) -> int
    decreases ls.len() - i,
{
    if 0 <= i < ls.len() && is_blank(ls[i]) {
        skip_blank(ls, i + 1)
    } else {
        i
    }
}

/// The line a leading comment would start on: after blank lines and
/// shebangs, one `<?` opener, and more blank lines.
pub open spec fn comment_start(ls: Seq<Seq<char>>) -> int {
    let i1 = skip_preamble(ls, 0);
    let i2 = if i1 < ls.len() && starts_with(trim_start(ls[i1]), "<?"@) { i1 + 1 } else { i1 };
    skip_blank(ls, i2)
}

pub open spec fn strip_star(c: Seq<char>) -> Seq<char> {
    if starts_with(c, "*"@) {
        trim_start(c.skip(1))
    } else {
        c
    }
}

pub open spec fn strip_opener(c: Seq<char>) -> Seq<char> {
    let c1 = if starts_with(c, "/**"@) { trim_start(c.skip(3)) } else { c };
    if starts_with(c1, "/*"@) {
        trim_start(c1.skip(2))
    } else {
        c1
    }
}

/// The lines of a block comment from line `i`, through the one that closes
/// it.
pub open spec fn block_lines(ls: Seq<Seq<char>>, i: int) -> Seq<Seq<char>>
    decreases ls.len() - i,
{
    if i < 0 || i >= ls.len() {
        Seq::empty()
    } else {
        let c = strip_opener(trim(ls[i]));
        if ends_with(c, "*/"@) {
            let c2 = strip_star(trim_end(c.take(c.len() - 2)));
            if c2.len() > 0 {
                seq![c2]
            } else {
                Seq::empty()
            }
        } else {
            seq![strip_star(c)] + block_lines(ls, i + 1)
        }
    }
}

/// The first place `q` occurs in `s` at or after `k`.
pub open spec fn find_from(s: Seq<char>, q: Seq<char>, k: int) -> Option<int>
    decreases s.len() + 1 - k,
{
    if k < 0 || k > s.len() || k + q.len() > s.len() {
        None
    } else if s.subrange(k, k + q.len()) == q {
        Some(k)
    } else {
        find_from(s, q, k + 1)
    }
}

/// Lines of a docstring from line `i` up to the one holding the closing
/// quote `q`.
pub open spec fn quote_lines(ls: Seq<Seq<char>>, i: int, q: Seq<char>) -> Seq<Seq<char>>
    decreases ls.len() - i,
{
    if i < 0 || i >= ls.len() {
        Seq::empty()
    } else {
        let st = trim_end(ls[i]);
        match find_from(st, q, 0) {
            Some(k) => seq![trim_end(st.take(k))],
            None => seq![st] + quote_lines(ls, i + 1, q),
        }
    }
}

/// The comment marker a line starts with, by its length.
pub open spec fn marker_len(l: Seq<char>) -> Option<int> {
    if starts_with(l, "# "@) {
        Some(2)
    } else if starts_with(l, "#"@) {
        Some(1)
    } else if starts_with(l, "// "@) {
        Some(3)
    } else if starts_with(l, "//"@) {
        Some(2)
    } else if starts_with(l, "*"@) {
        Some(1)
    } else {
        None
    }
}

/// The run of line comments from line `i`, each without its marker.
pub open spec fn marked_lines(ls: Seq<Seq<char>>, i: int) -> Seq<Seq<char>>
    decreases ls.len() - i,
{
    if i < 0 || i >= ls.len() {
        Seq::empty()
    } else {
        let st = trim_end(ls[i]);
        if st.len() == 0 {
            Seq::empty()
        } else {
            let l = trim_start(st);
            match marker_len(l) {
                Some(n) => seq![trim(l.skip(n))] + marked_lines(ls, i + 1),
                None => Seq::empty(),
            }
        }
    }
}

pub open spec fn nonempty(v: Seq<Seq<char>>) -> Seq<Seq<char>> {
    v.filter(|l: Seq<char>| l.len() > 0)
}

pub open spec fn joined(v: Seq<Seq<char>>) -> Option<Seq<char>> {
    let j = crate::lang::join_with(v, "\n"@);
    if j.len() == 0 {
        None
    } else {
        Some(j)
    }
}

/// A docstring opened by `q` on line `i`, whose trimmed text is `head`.
pub open spec fn quoted(ls: Seq<Seq<char>>, i: int, head: Seq<char>, q: Seq<char>) -> Option<Seq<char>> {
    let first_after = head.skip(3);
    match find_from(first_after, q, 0) {
        Some(k) => {
            let single = trim(first_after.take(k));
            if single.len() == 0 {
                None
            } else {
                Some(single)
            }
        },
        None => joined((if first_after.len() > 0 { seq![first_after] } else { Seq::empty() }) + quote_lines(ls, i + 1, q)),
    }
}

/// The leading comment of `text` within its first `max_lines` lines.
pub open spec fn leading_comment_spec(text: Seq<char>, max_lines: nat) -> Option<Seq<char>> {
    let all = lines_of(text);
    let ls = if all.len() > max_lines { all.take(max_lines as int) } else { all };
    let i = comment_start(ls);
    if ls.len() == 0 || i >= ls.len() {
        None
    } else {
        let head = trim(ls[i]);
        if starts_with(head, "/*"@) {
            joined(nonempty(block_lines(ls, i)))
        } else if starts_with(head, "\"\"\""@) {
            quoted(ls, i, head, "\"\"\""@)
        } else if starts_with(head, "'''"@) {
            quoted(ls, i, head, "'''"@)
        } else if starts_with(head, "#"@) || starts_with(head, "//"@) || starts_with(head, "*"@) {
            joined(nonempty(marked_lines(ls, i)))
        } else {
            None
        }
    }
}

pub open spec fn line_views(v: Seq<Vec<char>>) -> Seq<Seq<char>> {
    crate::text::views_char(v)
}

fn blank(line: &Vec<char>) -> (r: bool)
    ensures
        r == is_blank(line@),
{
    trim_of(line).len() == 0
}

fn skip_preamble_at(ls: &Vec<Vec<char>>) -> (r: usize)
    ensures
        r as int == skip_preamble(line_views(ls@), 0),
        r <= ls.len(),
{
    let shebang = chars_of("#!");
    let ghost lv = line_views(ls@);
    let mut j: usize = 0;
    while j < ls.len() && (blank(&ls[j]) || seq_starts_with(&ls[j], &shebang))
        invariant
            j <= ls.len(),
            lv == line_views(ls@),
            shebang@ == "#!"@,
            skip_preamble(lv, 0) == skip_preamble(lv, j as int),
        decreases ls.len() - j,
    {
        assert(lv[j as int] == ls@[j as int]@);
        j += 1;
    }
    proof {
        if j < ls.len() {
            assert(lv[j as int] == ls@[j as int]@);
        }
    }
    j
}

fn skip_blank_at(ls: &Vec<Vec<char>>, i: usize) -> (r: usize)
    requires
        i <= ls.len(),
    ensures
        r as int == skip_blank(line_views(ls@), i as int),
        r <= ls.len(),
{
    let ghost lv = line_views(ls@);
    let mut j: usize = i;
    while j < ls.len() && blank(&ls[j])
        invariant
            i <= j <= ls.len(),
            lv == line_views(ls@),
            skip_blank(lv, i as int) == skip_blank(lv, j as int),
        decreases ls.len() - j,
    {
        assert(lv[j as int] == ls@[j as int]@);
        j += 1;
    }
    proof {
        if j < ls.len() {
            assert(lv[j as int] == ls@[j as int]@);
        }
    }
    j
}

fn comment_start_of(ls: &Vec<Vec<char>>) -> (r: usize)
    ensures
        r as int == comment_start(line_views(ls@)),
        r <= ls.len(),
{
    let i1 = skip_preamble_at(ls);
    let opener = chars_of("<?");
    let mut i2 = i1;
    if i1 < ls.len() {
        assert(line_views(ls@)[i1 as int] == ls@[i1 as int]@);
        let t = trim_start_of(&ls[i1]);
        if seq_starts_with(&t, &opener) {
            i2 = i1 + 1;
        }
    }
    skip_blank_at(ls, i2)
}

fn skip_chars(c: &Vec<char>, n: usize) -> (r: Vec<char>)
    ensures
        r@ == c@.skip(n as int) || (n > c.len() && r@.len() == 0),
        n <= c.len() ==> r@ == c@.skip(n as int),
{
    if n > c.len() {
        Vec::new()
    } else {
        let r = slice_of(c, n, c.len());
        assert(r@ =~= c@.skip(n as int));
        r
    }
}

fn strip_star_of(c: &Vec<char>) -> (r: Vec<char>)
    ensures
        r@ == strip_star(c@),
{
    let star = chars_of("*");
    proof {
        reveal_strlit("*");
    }
    if seq_starts_with(c, &star) {
        let rest = skip_chars(c, 1);
        trim_start_of(&rest)
    } else {
        slice_of(c, 0, c.len())
    }
}

fn strip_opener_of(c: &Vec<char>) -> (r: Vec<char>)
    ensures
        r@ == strip_opener(c@),
{
    let o3 = chars_of("/**");
    let o2 = chars_of("/*");
    proof {
        reveal_strlit("/**");
        reveal_strlit("/*");
    }
    let c1 = if seq_starts_with(c, &o3) {
        let rest = skip_chars(c, 3);
        trim_start_of(&rest)
    } else {
        let same = slice_of(c, 0, c.len());
        assert(same@ =~= c@);
        same
    };
    if seq_starts_with(&c1, &o2) {
        let rest = skip_chars(&c1, 2);
        trim_start_of(&rest)
    } else {
        let same = slice_of(&c1, 0, c1.len());
        assert(same@ =~= c1@);
        same
    }
}

fn block_lines_of(ls: &Vec<Vec<char>>, i: usize) -> (r: Vec<Vec<char>>)
    ensures
        line_views(r@) == block_lines(line_views(ls@), i as int),
{
    let ghost lv = line_views(ls@);
    let close = chars_of("*/");
    proof {
        reveal_strlit("*/");
    }
    let mut out: Vec<Vec<char>> = Vec::new();
    let mut j: usize = i;
    let mut done = false;
    while !done && j < ls.len()
        invariant
            i <= j,
            lv == line_views(ls@),
            close@ == "*/"@,
            close@.len() == 2,
            done ==> line_views(out@) == block_lines(lv, i as int),
            !done ==> line_views(out@) + block_lines(lv, j as int) == block_lines(lv, i as int),
        decreases (if done { 0int } else { 1int }), ls.len() - j,
    {
        assert(lv[j as int] == ls@[j as int]@);
        let ghost ov = line_views(out@);
        let t = trim_of(&ls[j]);
        let c = strip_opener_of(&t);
        if seq_ends_with(&c, &close) {
            let inner = slice_of(&c, 0, c.len() - 2);
            assert(inner@ =~= c@.take(c@.len() - 2));
            let e = trim_end_of(&inner);
            let c2 = strip_star_of(&e);
            if c2.len() > 0 {
                out.push(c2);
                assert(line_views(out@) =~= ov + block_lines(lv, j as int));
            } else {
                assert(line_views(out@) =~= ov + block_lines(lv, j as int));
            }
            done = true;
        } else {
            let c2 = strip_star_of(&c);
            out.push(c2);
            assert(line_views(out@) =~= ov + seq![strip_star(c@)]);
            j += 1;
        }
    }
    if !done {
        assert(block_lines(lv, j as int) =~= Seq::<Seq<char>>::empty());
        assert(line_views(out@) + Seq::<Seq<char>>::empty() =~= line_views(out@));
    }
    out
}

fn find_in(s: &Vec<char>, q: &Vec<char>) -> (r: Option<usize>)
    ensures
        match r {
            Some(k) => find_from(s@, q@, 0) == Some(k as int) && k + q.len() <= s.len(),
            None => find_from(s@, q@, 0) is None,
        },
{
    if q.len() > s.len() {
        return None;
    }
    let last = s.len() - q.len();
    let mut k: usize = 0;
    while k < last
        invariant
            last == s.len() - q.len(),
            k <= last,
            find_from(s@, q@, 0) == find_from(s@, q@, k as int),
        decreases last - k,
    {
        if occurs_at(s, q, k) {
            return Some(k);
        }
        k += 1;
    }
    if occurs_at(s, q, last) {
        return Some(last);
    }
    assert(find_from(s@, q@, last + 1) is None);
    None
}

fn quote_lines_of(ls: &Vec<Vec<char>>, i: usize, q: &Vec<char>) -> (r: Vec<Vec<char>>)
    ensures
        line_views(r@) == quote_lines(line_views(ls@), i as int, q@),
{
    let ghost lv = line_views(ls@);
    let mut out: Vec<Vec<char>> = Vec::new();
    let mut j: usize = i;
    let mut done = false;
    while !done && j < ls.len()
        invariant
            i <= j,
            lv == line_views(ls@),
            done ==> line_views(out@) == quote_lines(lv, i as int, q@),
            !done ==> line_views(out@) + quote_lines(lv, j as int, q@) == quote_lines(lv, i as int, q@),
        decreases (if done { 0int } else { 1int }), ls.len() - j,
    {
        assert(lv[j as int] == ls@[j as int]@);
        let ghost ov = line_views(out@);
        let st = trim_end_of(&ls[j]);
        match find_in(&st, q) {
            Some(k) => {
                let head = slice_of(&st, 0, k);
                assert(head@ =~= st@.take(k as int));
                let e = trim_end_of(&head);
                out.push(e);
                assert(line_views(out@) =~= ov + quote_lines(lv, j as int, q@));
                done = true;
            },
            None => {
                out.push(st);
                assert(line_views(out@) =~= ov + seq![trim_end(lv[j as int])]);
                j += 1;
            },
        }
    }
    if !done {
        assert(quote_lines(lv, j as int, q@) =~= Seq::<Seq<char>>::empty());
        assert(line_views(out@) + Seq::<Seq<char>>::empty() =~= line_views(out@));
    }
    out
}

fn marker_len_of(l: &Vec<char>) -> (r: Option<usize>)
    ensures
        match r {
            Some(n) => marker_len(l@) == Some(n as int),
            None => marker_len(l@) is None,
        },
{
    let h2 = chars_of("# ");
    let h1 = chars_of("#");
    let s3 = chars_of("// ");
    let s2 = chars_of("//");
    let st = chars_of("*");
    if seq_starts_with(l, &h2) {
        Some(2)
    } else if seq_starts_with(l, &h1) {
        Some(1)
    } else if seq_starts_with(l, &s3) {
        Some(3)
    } else if seq_starts_with(l, &s2) {
        Some(2)
    } else if seq_starts_with(l, &st) {
        Some(1)
    } else {
        None
    }
}

fn marked_lines_of(ls: &Vec<Vec<char>>, i: usize) -> (r: Vec<Vec<char>>)
    ensures
        line_views(r@) == marked_lines(line_views(ls@), i as int),
{
    let ghost lv = line_views(ls@);
    let mut out: Vec<Vec<char>> = Vec::new();
    let mut j: usize = i;
    let mut done = false;
    while !done && j < ls.len()
        invariant
            i <= j,
            lv == line_views(ls@),
            done ==> line_views(out@) == marked_lines(lv, i as int),
            !done ==> line_views(out@) + marked_lines(lv, j as int) == marked_lines(lv, i as int),
        decreases (if done { 0int } else { 1int }), ls.len() - j,
    {
        assert(lv[j as int] == ls@[j as int]@);
        let ghost ov = line_views(out@);
        let st = trim_end_of(&ls[j]);
        if st.len() == 0 {
            assert(line_views(out@) =~= ov + marked_lines(lv, j as int));
            done = true;
        } else {
            let l = trim_start_of(&st);
            match marker_len_of(&l) {
                Some(n) => {
                    proof {
                        reveal_strlit("# ");
                        reveal_strlit("#");
                        reveal_strlit("// ");
                        reveal_strlit("//");
                        reveal_strlit("*");
                    }
                    let rest = skip_chars(&l, n);
                    let t = trim_of(&rest);
                    out.push(t);
                    assert(line_views(out@) =~= ov + seq![trim(l@.skip(n as int))]);
                    j += 1;
                },
                None => {
                    assert(line_views(out@) =~= ov + marked_lines(lv, j as int));
                    done = true;
                },
            }
        }
    }
    if !done {
        assert(marked_lines(lv, j as int) =~= Seq::<Seq<char>>::empty());
        assert(line_views(out@) + Seq::<Seq<char>>::empty() =~= line_views(out@));
    }
    out
}

fn nonempty_of(v: &Vec<Vec<char>>) -> (r: Vec<Vec<char>>)
    ensures
        line_views(r@) == nonempty(line_views(v@)),
{
    let ghost lv = line_views(v@);
    let mut out: Vec<Vec<char>> = Vec::new();
    let mut i: usize = 0;
    while i < v.len()
        invariant
            i <= v.len(),
            lv == line_views(v@),
            line_views(out@) == nonempty(lv.take(i as int)),
        decreases v.len() - i,
    {
        assert(lv.take(i + 1) =~= lv.take(i as int).push(lv[i as int]));
        proof {
            lv.take(i as int).lemma_filter_push(lv[i as int], |l: Seq<char>| l.len() > 0);
        }
        assert(lv[i as int] == v@[i as int]@);
        if v[i].len() > 0 {
            let c = slice_of(&v[i], 0, v[i].len());
            assert(c@ =~= v@[i as int]@);
            let ghost ov = line_views(out@);
            out.push(c);
            assert(line_views(out@) =~= ov.push(lv[i as int]));
        }
        i += 1;
    }
    assert(lv.take(i as int) =~= lv);
    out
}

fn joined_of(v: &Vec<Vec<char>>) -> (r: Option<String>)
    ensures
        match r {
            Some(s) => joined(line_views(v@)) == Some(s@),
            None => joined(line_views(v@)) is None,
        },
{
    let ghost lv = line_views(v@);
    let mut out = String::new();
    let mut i: usize = 0;
    while i < v.len()
        invariant
            i <= v.len(),
            lv == line_views(v@),
            out@ == crate::lang::join_with(lv.take(i as int), "\n"@),
        decreases v.len() - i,
    {
        assert(lv.take(i + 1).drop_last() =~= lv.take(i as int));
        assert(lv[i as int] == v@[i as int]@);
        if i == 0 {
            assert(lv.take(1) =~= seq![lv[0]]);
        } else {
            crate::text::push_char(&mut out, '\n');
            proof {
                reveal_strlit("\n");
            }
        }
        let mut k: usize = 0;
        let ghost base = out@;
        while k < v[i].len()
            invariant
                i < v@.len(),
                k <= v@[i as int].len(),
                out@ == base + v@[i as int]@.take(k as int),
            decreases v@[i as int].len() - k,
        {
            crate::text::push_char(&mut out, v[i][k]);
            assert(out@ =~= base + v@[i as int]@.take(k + 1));
            k += 1;
        }
        assert(v@[i as int]@.take(k as int) =~= v@[i as int]@);
        i += 1;
    }
    assert(lv.take(i as int) =~= lv);
    if chars_of(out.as_str()).len() > 0 {
        Some(out)
    } else {
        None
    }
}

fn quoted_of(ls: &Vec<Vec<char>>, i: usize, head: &Vec<char>, q: &Vec<char>) -> (r: Option<String>)
    requires
        i < ls.len(),
        head@.len() >= 3,
    ensures
        crate::blame::opt_view(r) == quoted(line_views(ls@), i as int, head@, q@),
{
    let first_after = skip_chars(head, 3);
    match find_in(&first_after, q) {
        Some(k) => {
            let part = slice_of(&first_after, 0, k);
            assert(part@ =~= first_after@.take(k as int));
            let single = trim_of(&part);
            if single.len() == 0 {
                None
            } else {
                Some(crate::text::string_of(&single))
            }
        },
        None => {
            let mut body: Vec<Vec<char>> = Vec::new();
            let had = first_after.len() > 0;
            if had {
                body.push(first_after);
            }
            let ghost first = line_views(body@);
            assert(first =~= (if had { seq![head@.skip(3)] } else { Seq::<Seq<char>>::empty() }));
            let rest = quote_lines_of(ls, i + 1, q);
            let mut k: usize = 0;
            while k < rest.len()
                invariant
                    k <= rest.len(),
                    body@.len() == first.len() + k,
                    line_views(body@) == first + line_views(rest@).take(k as int),
                decreases rest.len() - k,
            {
                let c = slice_of(&rest[k], 0, rest[k].len());
                assert(c@ =~= rest@[k as int]@);
                assert(line_views(rest@)[k as int] == rest@[k as int]@);
                let ghost bv = line_views(body@);
                body.push(c);
                assert(line_views(body@) =~= bv.push(c@));
                assert(line_views(body@) =~= first + line_views(rest@).take(k + 1));
                k += 1;
            }
            assert(line_views(rest@).take(k as int) =~= line_views(rest@));
            joined_of(&body)
        },
    }
}

/// The leading comment of a file whose bytes are `content`, looking at its
/// first `max_lines` lines: nothing when no recognizable comment block
/// opens the file.
pub fn leading_comment(content: &[u8], max_lines: usize) -> (r: Option<String>)
    ensures
        crate::blame::opt_view(r) == leading_comment_spec(utf8_lossy(content@), max_lines as nat),
{
    let text = lossy_utf8(content);
    let cs = chars_of(text.as_str());
    let all = lines_in(&cs);
    let ghost av = line_views(all@);
    let mut ls: Vec<Vec<char>> = Vec::new();
    let mut j: usize = 0;
    while j < all.len() && j < max_lines
        invariant
            j <= all.len(),
            j <= max_lines,
            av == line_views(all@),
            ls@.len() == j,
            line_views(ls@) == av.take(j as int),
        decreases all.len() - j,
    {
        let c = slice_of(&all[j], 0, all[j].len());
        assert(c@ =~= av[j as int]);
        ls.push(c);
        assert(line_views(ls@) =~= av.take(j + 1));
        j += 1;
    }
    proof {
        if av.len() <= max_lines {
            assert(av.take(j as int) =~= av);
        }
    }
    let ghost lv = line_views(ls@);
    assert(lv == (if av.len() > max_lines { av.take(max_lines as int) } else { av }));
    if ls.len() == 0 {
        return None;
    }
    let i = comment_start_of(&ls);
    if i >= ls.len() {
        return None;
    }
    assert(lv[i as int] == ls@[i as int]@);
    let head = trim_of(&ls[i]);
    let block = chars_of("/*");
    let dq = chars_of("\"\"\"");
    let sq = chars_of("'''");
    let hash = chars_of("#");
    let slashes = chars_of("//");
    let star = chars_of("*");
    proof {
        reveal_strlit("\"\"\"");
        reveal_strlit("'''");
    }
    if seq_starts_with(&head, &block) {
        let b = block_lines_of(&ls, i);
        let ne = nonempty_of(&b);
        joined_of(&ne)
    } else if seq_starts_with(&head, &dq) {
        quoted_of(&ls, i, &head, &dq)
    } else if seq_starts_with(&head, &sq) {
        quoted_of(&ls, i, &head, &sq)
    } else if seq_starts_with(&head, &hash) || seq_starts_with(&head, &slashes) || seq_starts_with(&head, &star) {
        let m = marked_lines_of(&ls, i);
        let ne = nonempty_of(&m);
        joined_of(&ne)
    } else {
        None
    }
}

/// The normal components left of a path's `/`-separated segments once `.`
/// and empty segments are dropped and each `..` removes the component
/// before it (none at the start).
pub open spec fn norm_stack(segs: Seq<Seq<char>>) -> Seq<Seq<char>>
    decreases segs.len(),
{
    if segs.len() == 0 {
        Seq::empty()
    } else {
        let st = norm_stack(segs.drop_last());
        let g = segs.last();
        if g.len() == 0 || g == "."@ {
            st
        } else if g == ".."@ {
            if st.len() > 0 {
                st.drop_last()
            } else {
                st
            }
        } else {
            st.push(g)
        }
    }
}

/// A path with its `.` and `..` components collapsed lexically, rooted when
/// it was.
pub open spec fn normalized(p: Seq<char>) -> Seq<char> {
    let body = crate::lang::join_with(norm_stack(crate::text::split_seq(p, '/')), "/"@);
    if p.len() > 0 && p[0] == '/' {
        "/"@ + body
    } else {
        body
    }
}

/// Collapse `.` and `..` components without touching the filesystem.
pub fn normalize_dots(p: &str) -> (r: String)
    ensures
        r@ == normalized(p@),
{
    let cs = chars_of(p);
    let segs = crate::text::split_chars(&cs, '/');
    let ghost sv = crate::text::views_char(segs@);
    let mut stack: Vec<String> = Vec::new();
    let mut i: usize = 0;
    assert(sv.take(0) =~= Seq::<Seq<char>>::empty());
    while i < segs.len()
        invariant
            i <= segs@.len(),
            sv == crate::text::views_char(segs@),
            crate::ordered::text_views(stack@) == norm_stack(sv.take(i as int)),
        decreases segs@.len() - i,
    {
        assert(sv.take(i + 1).drop_last() =~= sv.take(i as int));
        assert(sv.take(i + 1).last() == segs@[i as int]@);
        let g = &segs[i];
        let ghost before = crate::ordered::text_views(stack@);
        proof {
            reveal_strlit(".");
            reveal_strlit("..");
        }
        if g.len() == 0 || (g.len() == 1 && g[0] == '.') {
            assert(g@.len() == 0 || g@ =~= "."@);
        } else if g.len() == 2 && g[0] == '.' && g[1] == '.' {
            assert(g@ =~= ".."@);
            assert(g@ != "."@);
            if stack.len() > 0 {
                stack.pop();
                assert(crate::ordered::text_views(stack@) =~= before.drop_last());
            }
        } else {
            assert(g@ != "."@) by {
                if g@ == "."@ {
                    assert(g@.len() == 1 && g@[0] == '.');
                }
            }
            assert(g@ != ".."@) by {
                if g@ == ".."@ {
                    assert(g@.len() == 2 && g@[0] == '.' && g@[1] == '.');
                }
            }
            stack.push(crate::text::string_of(g));
            assert(crate::ordered::text_views(stack@) =~= before.push(g@));
        }
        i += 1;
    }
    assert(sv.take(i as int) =~= sv);
    let body = crate::passive::join_texts(&stack, "/");
    if cs.len() > 0 && cs[0] == '/' {
        crate::text::concat("/", body.as_str())
    } else {
        body
    }
}

/// `/` and the first `n` components joined by `/`.
fn dir_of_prefix(comps: &Vec<String>, n: usize) -> (r: String)
    requires
        n <= comps@.len(),
    ensures
        r@ == "/"@ + crate::lang::join_with(crate::ordered::text_views(comps@).take(n as int), "/"@),
{
    let ghost cv = crate::ordered::text_views(comps@);
    let mut prefix: Vec<String> = Vec::new();
    let mut j: usize = 0;
    while j < n
        invariant
            j <= n <= comps@.len(),
            cv == crate::ordered::text_views(comps@),
            crate::ordered::text_views(prefix@) == cv.take(j as int),
        decreases n - j,
    {
        let ghost pv = crate::ordered::text_views(prefix@);
        prefix.push(comps[j].clone());
        assert(crate::ordered::text_views(prefix@) =~= pv.push(cv[j as int]));
        assert(cv.take(j + 1) =~= cv.take(j as int).push(cv[j as int]));
        j += 1;
    }
    let body = crate::passive::join_texts(&prefix, "/");
    crate::text::concat("/", body.as_str())
}

/// Append `dir/name`, collapsed, for each of `names` in turn.
fn push_probes(out: &mut Vec<String>, dir: &str, names: &Vec<String>)
    ensures
        crate::ordered::text_views(final(out)@) == crate::ordered::text_views(old(out)@)
            + crate::ordered::text_views(names@).map_values(|x: Seq<char>| normalized(dir@ + "/"@ + x)),
{
    let ghost ov = crate::ordered::text_views(out@);
    let ghost here = crate::ordered::text_views(names@).map_values(|x: Seq<char>| normalized(dir@ + "/"@ + x));
    let mut k: usize = 0;
    while k < names.len()
        invariant
            k <= names@.len(),
            ov == crate::ordered::text_views(old(out)@),
            here == crate::ordered::text_views(names@).map_values(|x: Seq<char>| normalized(dir@ + "/"@ + x)),
            crate::ordered::text_views(out@) == ov + here.take(k as int),
        decreases names@.len() - k,
    {
        let a = crate::text::concat(dir, "/");
        let b = crate::text::concat(a.as_str(), names[k].as_str());
        let c = normalize_dots(b.as_str());
        let ghost ow = crate::ordered::text_views(out@);
        out.push(c);
        assert(here.take(k + 1) =~= here.take(k as int).push(here[k as int]));
        assert(crate::ordered::text_views(out@) =~= ow.push(c@));
        k += 1;
    }
    assert(here.take(names@.len() as int) =~= here);
}

/// The components of an absolute path: its `/`-separated segments without
/// the empty ones and `.`; `..` stays a component.
pub open spec fn path_components(p: Seq<char>) -> Seq<Seq<char>> {
    crate::text::split_seq(p, '/').filter(|g: Seq<char>| g.len() > 0 && g != "."@)
}

/// The documents `names` probed in the directory made of the first `i`
/// components, then in each directory above it, the root left out; each
/// path with its `.` and `..` collapsed.
pub open spec fn doc_probes(names: Seq<Seq<char>>, comps: Seq<Seq<char>>, i: nat) -> Seq<Seq<char>>
    decreases i,
{
    if i == 0 || i > comps.len() {
        Seq::empty()
    } else {
        let dir = "/"@ + crate::lang::join_with(comps.take(i as int), "/"@);
        names.map_values(|n: Seq<char>| normalized(dir + "/"@ + n)) + doc_probes(names, comps, (i - 1) as nat)
    }
}

/// Where the nearest project document of absolute path `path` may be, in
/// the order to look: from the path's own directory (its parent when it
/// names a file) up to, but not including, the root; in each directory the
/// document names `names` in turn. The first that exists is the one.
pub fn doc_candidates(path: &str, is_file: bool, names: &Vec<String>) -> (r: Vec<String>)
    ensures
        crate::ordered::text_views(r@) == doc_probes(
            crate::ordered::text_views(names@),
            path_components(path@),
            if is_file && path_components(path@).len() > 0 { (path_components(path@).len() - 1) as nat } else { path_components(path@).len() },
        ),
{
    let cs = chars_of(path);
    let segs = crate::text::split_chars(&cs, '/');
    let ghost sv = crate::text::views_char(segs@);
    let ghost keep = |g: Seq<char>| g.len() > 0 && g != "."@;
    let mut comps: Vec<String> = Vec::new();
    let mut i: usize = 0;
    proof {
        reveal_strlit(".");
    }
    assert(sv.take(0).filter(keep) =~= Seq::<Seq<char>>::empty());
    while i < segs.len()
        invariant
            i <= segs@.len(),
            sv == crate::text::views_char(segs@),
            keep == (|g: Seq<char>| g.len() > 0 && g != "."@),
            crate::ordered::text_views(comps@) == sv.take(i as int).filter(keep),
        decreases segs@.len() - i,
    {
        let g = &segs[i];
        proof {
            reveal_strlit(".");
        }
        assert(sv.take(i + 1) =~= sv.take(i as int).push(g@));
        proof {
            sv.take(i as int).lemma_filter_push(g@, keep);
        }
        let ghost before = crate::ordered::text_views(comps@);
        if g.len() > 0 && !(g.len() == 1 && g[0] == '.') {
            assert(g@ != "."@) by {
                if g@ == "."@ {
                    assert(g@.len() == 1 && g@[0] == '.');
                }
            }
            comps.push(crate::text::string_of(g));
            assert(crate::ordered::text_views(comps@) =~= before.push(g@));
        } else {
            assert(!keep(g@)) by {
                if g@.len() == 1 {
                    assert(g@ =~= "."@);
                }
            }
        }
        i += 1;
    }
    assert(sv.take(i as int) =~= sv);
    let ghost cv = crate::ordered::text_views(comps@);
    let ghost nv = crate::ordered::text_views(names@);
    let mut n: usize = if is_file && comps.len() > 0 { comps.len() - 1 } else { comps.len() };
    let ghost start = n as nat;
    let mut out: Vec<String> = Vec::new();
    while n > 0
        invariant
            n <= comps@.len(),
            cv == crate::ordered::text_views(comps@),
            nv == crate::ordered::text_views(names@),
            start <= comps@.len(),
            n <= start,
            crate::ordered::text_views(out@) + doc_probes(nv, cv, n as nat) == doc_probes(nv, cv, start),
        decreases n,
    {
        let dir = dir_of_prefix(&comps, n);
        let ghost ov = crate::ordered::text_views(out@);
        push_probes(&mut out, dir.as_str(), names);
        assert(doc_probes(nv, cv, n as nat) == nv.map_values(|x: Seq<char>| normalized(dir@ + "/"@ + x)) + doc_probes(nv, cv, (n - 1) as nat));
        assert(crate::ordered::text_views(out@) + doc_probes(nv, cv, (n - 1) as nat) =~= ov + doc_probes(nv, cv, n as nat));
        n -= 1;
    }
    assert(crate::ordered::text_views(out@) =~= crate::ordered::text_views(out@) + doc_probes(nv, cv, 0));
    out
}

/// The first of `candidates` whose `present` flag is set.
pub open spec fn first_present_spec(candidates: Seq<Seq<char>>, present: Seq<bool>) -> Option<Seq<char>>
    decreases candidates.len(),
{
    if candidates.len() == 0 || present.len() == 0 {
        None
    } else if present[0] {
        Some(candidates[0])
    } else {
        first_present_spec(candidates.drop_first(), present.drop_first())
    }
}

/// The nearest document: the first probed candidate that exists on disk
/// (`present[i]` says whether `candidates[i]` does).
pub fn nearest_doc_of(candidates: &Vec<String>, present: &Vec<bool>) -> (r: Option<String>)
    ensures
        crate::blame::opt_view(r) == first_present_spec(crate::ordered::text_views(candidates@), present@),
{
    let ghost cv = crate::ordered::text_views(candidates@);
    let mut i: usize = 0;
    assert(cv.skip(0) =~= cv);
    assert(present@.skip(0) =~= present@);
    while i < candidates.len() && i < present.len()
        invariant
            i <= candidates@.len(),
            i <= present@.len(),
            cv == crate::ordered::text_views(candidates@),
            first_present_spec(cv, present@) == first_present_spec(cv.skip(i as int), present@.skip(i as int)),
        decreases candidates@.len() - i,
    {
        assert(cv.skip(i as int)[0] == candidates@[i as int]@);
        assert(present@.skip(i as int)[0] == present@[i as int]);
        if present[i] {
            return Some(candidates[i].clone());
        }
        assert(cv.skip(i as int).drop_first() =~= cv.skip(i + 1));
        assert(present@.skip(i as int).drop_first() =~= present@.skip(i + 1));
        i += 1;
    }
    None
}

proof fn lemma_join_starts_with_first(parts: Seq<Seq<char>>, sep: Seq<char>)
    requires
        parts.len() >= 1,
    ensures
        crate::lang::join_with(parts, sep).len() >= parts[0].len(),
        crate::lang::join_with(parts, sep).take(parts[0].len() as int) == parts[0],
    decreases parts.len(),
{
    if parts.len() > 1 {
        lemma_join_starts_with_first(parts.drop_last(), sep);
        let a = crate::lang::join_with(parts.drop_last(), sep);
        assert(parts.drop_last()[0] == parts[0]);
        assert((a + sep + parts.last()).take(parts[0].len() as int) =~= a.take(parts[0].len() as int));
    } else {
        assert(parts[0].take(parts[0].len() as int) =~= parts[0]);
    }
}

/// A docstring that opens with `"""` or `'''` and carries text after the
/// opening quotes on its first line, without closing there, is the leading
/// comment, and that text begins it.
pub proof fn docstring_keeps_its_first_line(text: Seq<char>, max_lines: nat, q: Seq<char>)
    requires
        q == "\"\"\""@ || q == "'''"@,
        ({
            let all = lines_of(text);
            let ls = if all.len() > max_lines { all.take(max_lines as int) } else { all };
            let i = comment_start(ls);
            &&& 0 <= i < ls.len()
            &&& starts_with(trim(ls[i]), q)
            &&& trim(ls[i]).skip(3).len() > 0
            &&& find_from(trim(ls[i]).skip(3), q, 0) is None
        }),
    ensures
        ({
            let all = lines_of(text);
            let ls = if all.len() > max_lines { all.take(max_lines as int) } else { all };
            let after = trim(ls[comment_start(ls)]).skip(3);
            leading_comment_spec(text, max_lines) matches Some(r) && r.len() >= after.len() && r.take(after.len() as int) == after
        }),
{
    reveal_strlit("\"\"\"");
    reveal_strlit("'''");
    reveal_strlit("/*");
    let all = lines_of(text);
    let ls = if all.len() > max_lines { all.take(max_lines as int) } else { all };
    let i = comment_start(ls);
    let head = trim(ls[i]);
    let after = head.skip(3);
    assert(head[0] == q[0]);
    assert(!starts_with(head, "/*"@)) by {
        if starts_with(head, "/*"@) {
            assert(head.take(2)[0] == '/');
        }
    }
    if q == "'''"@ {
        assert(!starts_with(head, "\"\"\""@)) by {
            if starts_with(head, "\"\"\""@) {
                assert(head.take(3)[0] == '"');
            }
        }
    }
    let parts = seq![after] + quote_lines(ls, i + 1, q);
    assert(parts[0] == after);
    lemma_join_starts_with_first(parts, "\n"@);
}

/// A docstring closed on its opening line is the trimmed text between the
/// quotes, and none when that text is blank.
pub proof fn one_line_docstring_is_its_text(text: Seq<char>, max_lines: nat, q: Seq<char>, k: int)
    requires
        q == "\"\"\""@ || q == "'''"@,
        ({
            let all = lines_of(text);
            let ls = if all.len() > max_lines { all.take(max_lines as int) } else { all };
            let i = comment_start(ls);
            &&& 0 <= i < ls.len()
            &&& starts_with(trim(ls[i]), q)
            &&& find_from(trim(ls[i]).skip(3), q, 0) == Some(k)
        }),
    ensures
        ({
            let all = lines_of(text);
            let ls = if all.len() > max_lines { all.take(max_lines as int) } else { all };
            let inner = trim(trim(ls[comment_start(ls)]).skip(3).take(k));
            leading_comment_spec(text, max_lines) == if inner.len() > 0 { Some(inner) } else { None::<Seq<char>> }
        }),
{
    reveal_strlit("\"\"\"");
    reveal_strlit("'''");
    reveal_strlit("/*");
    let all = lines_of(text);
    let ls = if all.len() > max_lines { all.take(max_lines as int) } else { all };
    let i = comment_start(ls);
    let head = trim(ls[i]);
    assert(head[0] == q[0]);
    assert(!starts_with(head, "/*"@)) by {
        if starts_with(head, "/*"@) {
            assert(head.take(2)[0] == '/');
        }
    }
    if q == "'''"@ {
        assert(!starts_with(head, "\"\"\""@)) by {
            if starts_with(head, "\"\"\""@) {
                assert(head.take(3)[0] == '"');
            }
        }
    }
}

} // verus!
