//! `blame`: parse `git blame --line-porcelain`, collapse consecutive lines of
//! one commit into regions, and render each region as one row.

use crate::civil::{date_of_secs, unix_to_ymd, ymd_text};
use crate::text::{
    chars_of, concat, dec_int, fmt_i64, pad_right, parse_i64, parse_i64_range, parse_i64_spec,
    push_char, right_pad, split_chars, split_seq, str_eq, string_of, string_of_range, utf8_len,
    views_char,
};
use vstd::prelude::*;

verus! {

broadcast use vstd::string::group_string_axioms;

/// Why a `--lines` value was refused.
#[derive(PartialEq, Eq, Structural, Clone, Copy, Debug)]
pub enum LinesError {
    /// No `:` between the two numbers.
    NotARange,
    /// A side is not an integer.
    NotIntegers,
    /// The start is below 1 or after the end.
    BadBounds,
}

impl LinesError {
    pub fn message(&self) -> (r: &'static str)
        ensures
            r@ == (match *self {
                LinesError::NotARange => "--lines must be in form L1:L2"@,
                LinesError::NotIntegers => "--lines must be integers, e.g. 10:42"@,
                LinesError::BadBounds => "--lines start must be >= 1 and <= end"@,
            }),
    {
        match self {
            LinesError::NotARange => "--lines must be in form L1:L2",
            LinesError::NotIntegers => "--lines must be integers, e.g. 10:42",
            LinesError::BadBounds => "--lines start must be >= 1 and <= end",
        }
    }
}

/// Position of the first `c` in `s`, if any.
pub open spec fn first_index(s: Seq<char>, c: char) -> Option<int> {
    let parts = split_seq(s, c);
    if parts.len() >= 2 {
        Some(parts[0].len() as int)
    } else {
        None
    }
}

/// The result of parsing `L1:L2`.
pub open spec fn parse_lines_spec(spec: Seq<char>) -> Result<(i64, i64), LinesError> {
    match first_index(spec, ':') {
        None => Err(LinesError::NotARange),
        Some(k) => match (parse_i64_spec(spec.take(k)), parse_i64_spec(spec.skip(k + 1))) {
            (Some(a), Some(b)) => if a < 1 || b < a {
                Err(LinesError::BadBounds)
            } else {
                Ok((a, b))
            },
            _ => Err(LinesError::NotIntegers),
        },
    }
}

proof fn lemma_split_first(s: Seq<char>, c: char, k: int)
    requires
        0 <= k < s.len(),
        s[k] == c,
        forall|j: int| 0 <= j < k ==> s[j] != c,
    ensures
        split_seq(s, c).len() >= 2,
        split_seq(s, c)[0] == s.take(k),
    decreases s.len(),
{
    if s.len() - 1 == k {
        lemma_split_no_sep(s.drop_last(), c);
        assert(s.drop_last() =~= s.take(k));
    } else {
        lemma_split_first(s.drop_last(), c, k);
        crate::text::lemma_split_nonempty(s.drop_last(), c);
    }
}

proof fn lemma_split_no_sep(s: Seq<char>, c: char)
    requires
        forall|j: int| 0 <= j < s.len() ==> s[j] != c,
    ensures
        split_seq(s, c) == seq![s],
    decreases s.len(),
{
    if s.len() > 0 {
        lemma_split_no_sep(s.drop_last(), c);
        assert(s.drop_last().push(s.last()) =~= s);
    } else {
        assert(s =~= Seq::<char>::empty());
    }
}

/// Parse a `--lines L1:L2` value.
pub fn parse_lines(spec: &str) -> (r: Result<(i64, i64), LinesError>)
    ensures
        r == parse_lines_spec(spec@),
{
    let cs = chars_of(spec);
    let mut k: usize = 0;
    while k < cs.len() && cs[k] != ':'
        invariant
            k <= cs.len(),
            forall|j: int| 0 <= j < k ==> cs@[j] != ':',
        decreases cs.len() - k,
    {
        k += 1;
    }
    if k == cs.len() {
        proof { lemma_split_no_sep(cs@, ':'); }
        return Err(LinesError::NotARange);
    }
    proof {
        lemma_split_first(cs@, ':', k as int);
        assert(cs@.subrange(0, k as int) =~= cs@.take(k as int));
        assert(cs@.subrange(k + 1, cs@.len() as int) =~= cs@.skip(k + 1));
    }
    let a = parse_i64_range(&cs, 0, k);
    let b = parse_i64_range(&cs, k + 1, cs.len());
    match (a, b) {
        (Some(start), Some(end)) => {
            if start < 1 || end < start {
                Err(LinesError::BadBounds)
            } else {
                Ok((start, end))
            }
        },
        _ => Err(LinesError::NotIntegers),
    }
}

/// One blamed line and the attributes of the commit it came from.
pub struct BlameLine {
    pub line: i64,
    pub sha: String,
    pub author: String,
    pub author_time: i64,
    pub author_tz: String,
    pub summary: String,
}

/// A run of consecutive lines from one commit.
pub struct Region {
    pub line_start: i64,
    pub line_end: i64,
    pub sha: String,
    pub author: String,
    pub author_time: i64,
    pub author_tz: String,
    pub subject: String,
}

/// A region as values: start, end, sha, author, author time, author time
/// zone, subject.
pub type RegionView = (i64, i64, Seq<char>, Seq<char>, i64, Seq<char>, Seq<char>);

/// Regions of `lines`: a line extends the last region when it carries the
/// same commit and directly follows it; otherwise it opens a new region,
/// which takes that line's author, time, zone and summary.
pub open spec fn collapse_spec(lines: Seq<BlameLine>) -> Seq<RegionView>
    decreases lines.len(),
{
    if lines.len() == 0 {
        Seq::empty()
    } else {
        let prev = collapse_spec(lines.drop_last());
        let e = lines.last();
        if prev.len() > 0 && prev.last().2 == e.sha@ && prev.last().1 + 1 == e.line {
            let p = prev.last();
            prev.update(prev.len() - 1, (p.0, e.line, p.2, p.3, p.4, p.5, p.6))
        } else {
            prev.push((e.line, e.line, e.sha@, e.author@, e.author_time, e.author_tz@, e.summary@))
        }
    }
}

pub open spec fn region_view(r: Region) -> RegionView {
    (r.line_start, r.line_end, r.sha@, r.author@, r.author_time, r.author_tz@, r.subject@)
}

/// Collapse blamed lines into regions. Each region keeps the attributes of
/// the line that opened it.
pub fn collapse_regions(lines: &Vec<BlameLine>) -> (r: Vec<Region>)
    ensures
        r@.map_values(|x: Region| region_view(x)) == collapse_spec(lines@),
{
    let mut regions: Vec<Region> = Vec::new();
    let mut i: usize = 0;
    while i < lines.len()
        invariant
            i <= lines.len(),
            regions@.map_values(|x: Region| region_view(x)) == collapse_spec(lines@.take(i as int)),
        decreases lines.len() - i,
    {
        let entry = &lines[i];
        proof {
            assert(lines@.take(i + 1).drop_last() =~= lines@.take(i as int));
            assert(lines@.take(i + 1).last() == *entry);
        }
        let ghost before = regions@;
        let n = regions.len();
        let mut extended = false;
        if n > 0 {
            if regions[n - 1].sha == entry.sha && regions[n - 1].line_end < i64::MAX && regions[n - 1].line_end + 1 == entry.line {
                let mut last = regions.pop().unwrap();
                last.line_end = entry.line;
                regions.push(last);
                extended = true;
                proof {
                    assert(before.map_values(|x: Region| region_view(x)).last() == region_view(before[n - 1]));
                    assert(regions@ =~= before.update(n - 1, regions@[n - 1]));
                    assert(regions@.map_values(|x: Region| region_view(x)) =~= collapse_spec(lines@.take(i + 1)));
                }
            } else {
                proof {
                    assert(before.map_values(|x: Region| region_view(x)).last() == region_view(before[n - 1]));
                }
            }
        }
        if !extended {
            regions.push(Region {
                line_start: entry.line,
                line_end: entry.line,
                sha: entry.sha.clone(),
                author: entry.author.clone(),
                author_time: entry.author_time,
                author_tz: entry.author_tz.clone(),
                subject: entry.summary.clone(),
            });
            proof {
                assert(regions@.map_values(|x: Region| region_view(x)) =~= before.map_values(|x: Region| region_view(x)).push(
                    (entry.line, entry.line, entry.sha@, entry.author@, entry.author_time, entry.author_tz@, entry.summary@),
                ));
            }
        }
        i += 1;
    }
    assert(lines@.take(lines.len() as int) =~= lines@);
    regions
}

/// A region's start never passes its end.
proof fn lemma_regions_ordered(lines: Seq<BlameLine>)
    ensures
        forall|k: int| 0 <= k < collapse_spec(lines).len() ==> (#[trigger] collapse_spec(lines)[k]).0 <= collapse_spec(lines)[k].1,
    decreases lines.len(),
{
    if lines.len() > 0 {
        lemma_regions_ordered(lines.drop_last());
        let prev = collapse_spec(lines.drop_last());
        let cur = collapse_spec(lines);
        let e = lines.last();
        assert forall|k: int| 0 <= k < cur.len() implies (#[trigger] cur[k]).0 <= cur[k].1 by {
            if k < prev.len() {
                assert(prev[k].0 <= prev[k].1);
            }
        }
    }
}

/// Every blamed line lies inside a region of its own commit: some region
/// spans its line number and carries its sha. So lines of two different
/// commits never make up one region.
pub proof fn every_line_lies_in_a_region_of_its_commit(lines: Seq<BlameLine>, j: int)
    requires
        0 <= j < lines.len(),
    ensures
        exists|k: int| 0 <= k < collapse_spec(lines).len() && {
            let r = #[trigger] collapse_spec(lines)[k];
            &&& r.0 <= lines[j].line <= r.1
            &&& r.2 == lines[j].sha@
        },
    decreases lines.len(),
{
    let prev = collapse_spec(lines.drop_last());
    let cur = collapse_spec(lines);
    let e = lines.last();
    lemma_regions_ordered(lines.drop_last());
    let extend = prev.len() > 0 && prev.last().2 == e.sha@ && prev.last().1 + 1 == e.line;
    if j == lines.len() - 1 {
        if extend {
            let k = prev.len() - 1;
            assert(cur[k].0 == prev[k].0 && cur[k].1 == e.line && cur[k].2 == prev[k].2);
            assert(prev[k].0 <= prev[k].1);
        } else {
            let k = prev.len() as int;
            assert(cur[k] == (e.line, e.line, e.sha@, e.author@, e.author_time, e.author_tz@, e.summary@));
        }
    } else {
        assert(lines.drop_last()[j] == lines[j]);
        every_line_lies_in_a_region_of_its_commit(lines.drop_last(), j);
        let k = choose|k: int| 0 <= k < prev.len() && {
            let r = #[trigger] prev[k];
            &&& r.0 <= lines[j].line <= r.1
            &&& r.2 == lines[j].sha@
        };
        if extend && k == prev.len() - 1 {
            assert(cur[k].0 == prev[k].0 && cur[k].1 == e.line && cur[k].2 == prev[k].2);
        } else {
            assert(cur[k] == prev[k]);
        }
    }
}

proof fn lemma_last_region(lines: Seq<BlameLine>)
    requires
        lines.len() > 0,
    ensures
        collapse_spec(lines).len() > 0,
        collapse_spec(lines).last().1 == lines.last().line,
        collapse_spec(lines).last().2 == lines.last().sha@,
{
}

/// A blamed line opens a new region exactly when it does not directly
/// follow the previous line within the same commit; otherwise it extends
/// the region before it.
pub proof fn new_region_exactly_on_commit_or_gap(lines: Seq<BlameLine>, j: int)
    requires
        0 <= j < lines.len(),
    ensures
        collapse_spec(lines.take(j + 1)).len() == collapse_spec(lines.take(j)).len() + (if j > 0
            && lines[j].sha@ == lines[j - 1].sha@ && lines[j].line == lines[j - 1].line + 1 {
            0int
        } else {
            1int
        }),
{
    let a = lines.take(j + 1);
    assert(a.drop_last() =~= lines.take(j));
    assert(a.last() == lines[j]);
    if j > 0 {
        let b = lines.take(j);
        assert(b.last() == lines[j - 1]);
        lemma_last_region(b);
    }
}

pub open spec fn is_uncommitted_spec(sha: Seq<char>) -> bool {
    crate::text::starts_with(sha, "00000000"@)
}

/// The all-zero sha git gives lines not yet committed.
pub fn is_uncommitted(sha: &str) -> (r: bool)
    ensures
        r == is_uncommitted_spec(sha@),
{
    let cs = chars_of(sha);
    let zeros = chars_of("00000000");
    crate::text::seq_starts_with(&cs, &zeros)
}

/// The first eight characters of a sha, or `uncommitted`.
pub fn short_sha(sha: &str) -> (r: String)
    ensures
        r@ == if is_uncommitted_spec(sha@) {
            "uncommitted"@
        } else if sha@.len() <= 8 {
            sha@
        } else {
            sha@.take(8)
        },
{
    if is_uncommitted(sha) {
        return "uncommitted".to_owned();
    }
    let cs = chars_of(sha);
    let n = if cs.len() < 8 { cs.len() } else { 8 };
    let r = string_of_range(&cs, 0, n);
    assert(cs@.len() <= 8 ==> cs@.subrange(0, n as int) =~= sha@);
    assert(cs@.len() > 8 ==> cs@.subrange(0, n as int) =~= sha@.take(8));
    r
}

/// The subject a region shows.
pub fn subject(region: &Region) -> (r: String)
    ensures
        r@ == if is_uncommitted_spec(region.sha@) {
            "(uncommitted change)"@
        } else if region.subject@.len() == 0 {
            "(no subject)"@
        } else {
            region.subject@
        },
{
    if is_uncommitted(region.sha.as_str()) {
        return "(uncommitted change)".to_owned();
    }
    if region.subject.as_str().is_empty() {
        "(no subject)".to_owned()
    } else {
        region.subject.clone()
    }
}

/// The UTC date of a commit, or an em dash for an uncommitted line.
pub fn isoformat_date(author_time: i64) -> (r: String)
    ensures
        r@ == if author_time == 0 {
            "\u{2014}"@
        } else {
            let d = date_of_secs(author_time as int);
            ymd_text(d.0, d.1, d.2)
        },
{
    if author_time == 0 {
        return "\u{2014}".to_owned();
    }
    unix_to_ymd(author_time)
}

/// How long ago `author_time` was, at time `now`: seconds, minutes, hours,
/// days below 30, months of 30 days below 12, else years of 365 days.
pub open spec fn humanize_age_spec(author_time: int, now: int) -> Seq<char> {
    if author_time == 0 {
        "uncommitted"@
    } else {
        let seconds = now - author_time;
        if seconds < 60 {
            dec_int(seconds) + "s ago"@
        } else if seconds / 60 < 60 {
            dec_int(seconds / 60) + "m ago"@
        } else if seconds / 3600 < 24 {
            dec_int(seconds / 3600) + "h ago"@
        } else if seconds / 86400 < 30 {
            dec_int(seconds / 86400) + "d ago"@
        } else if seconds / 86400 / 30 < 12 {
            dec_int(seconds / 86400 / 30) + "mo ago"@
        } else {
            dec_int(seconds / 86400 / 365) + "y ago"@
        }
    }
}

fn with_suffix(n: i64, suffix: &str) -> (r: String)
    ensures
        r@ == dec_int(n as int) + suffix@,
{
    let s = fmt_i64(n);
    concat(s.as_str(), suffix)
}

/// Age of a commit at time `now` (unix seconds).
pub fn humanize_age(author_time: i64, now: i64) -> (r: String)
    requires
        i64::MIN <= now - author_time <= i64::MAX,
    ensures
        r@ == humanize_age_spec(author_time as int, now as int),
{
    if author_time == 0 {
        return "uncommitted".to_owned();
    }
    let seconds = now - author_time;
    if seconds < 60 {
        return with_suffix(seconds, "s ago");
    }
    let minutes = seconds / 60;
    if minutes < 60 {
        return with_suffix(minutes, "m ago");
    }
    let hours = minutes / 60;
    assert(hours == seconds / 3600) by {
        vstd::arithmetic::div_mod::lemma_div_denominator(seconds as int, 60, 60);
    }
    if hours < 24 {
        return with_suffix(hours, "h ago");
    }
    let days = hours / 24;
    assert(days == seconds / 86400) by {
        vstd::arithmetic::div_mod::lemma_div_denominator(seconds as int, 3600, 24);
    }
    if days < 30 {
        return with_suffix(days, "d ago");
    }
    let months = days / 30;
    if months < 12 {
        return with_suffix(months, "mo ago");
    }
    let years = days / 365;
    with_suffix(years, "y ago")
}

/// The span column: `L<n>` or `L<a>-L<b>`.
pub open spec fn span_text(start: i64, end: i64) -> Seq<char> {
    if start == end {
        "L"@ + dec_int(start as int)
    } else {
        "L"@ + dec_int(start as int) + "-L"@ + dec_int(end as int)
    }
}

fn span(start: i64, end: i64) -> (r: String)
    ensures
        r@ == span_text(start, end),
{
    let a = fmt_i64(start);
    let first = concat("L", a.as_str());
    if start == end {
        return first;
    }
    let b = fmt_i64(end);
    let mid = concat(first.as_str(), "-L");
    concat(mid.as_str(), b.as_str())
}

/// One region row at time `now`:
/// `  {span:<14} {sha:<11} {date}  {age:<10}  {author:<22} {subject}`.
pub fn format_region(region: &Region, now: i64) -> (r: String)
    requires
        i64::MIN <= now - region.author_time <= i64::MAX,
    ensures
        exists|sha: String, date: String, subj: String| {
            &&& sha@ == short_sha_view(region.sha@)
            &&& date@ == (if region.author_time == 0 { "\u{2014}"@ } else {
                let d = date_of_secs(region.author_time as int);
                ymd_text(d.0, d.1, d.2)
            })
            &&& subj@ == subject_view(region.sha@, region.subject@)
            &&& r@ == "  "@ + pad_right(span_text(region.line_start, region.line_end), 14) + " "@
                + pad_right(sha@, 11) + " "@ + date@ + "  "@
                + pad_right(humanize_age_spec(region.author_time as int, now as int), 10) + "  "@
                + pad_right(region.author@, 22) + " "@ + subj@
        },
{
    let sp = span(region.line_start, region.line_end);
    let sha = short_sha(region.sha.as_str());
    let date = isoformat_date(region.author_time);
    let age = humanize_age(region.author_time, now);
    let subj = subject(region);
    let mut out = "  ".to_owned();
    out.append(right_pad(sp.as_str(), 14).as_str());
    out.append(" ");
    out.append(right_pad(sha.as_str(), 11).as_str());
    out.append(" ");
    out.append(date.as_str());
    out.append("  ");
    out.append(right_pad(age.as_str(), 10).as_str());
    out.append("  ");
    out.append(right_pad(region.author.as_str(), 22).as_str());
    out.append(" ");
    out.append(subj.as_str());
    out
}

pub open spec fn short_sha_view(sha: Seq<char>) -> Seq<char> {
    if is_uncommitted_spec(sha) {
        "uncommitted"@
    } else if sha.len() <= 8 {
        sha
    } else {
        sha.take(8)
    }
}

pub open spec fn subject_view(sha: Seq<char>, subject: Seq<char>) -> Seq<char> {
    if is_uncommitted_spec(sha) {
        "(uncommitted change)"@
    } else if subject.len() == 0 {
        "(no subject)"@
    } else {
        subject
    }
}

} // verus!

verus! {

pub type BlameView = (i64, Seq<char>, Seq<char>, i64, Seq<char>, Seq<char>);

/// The map a keyed table of text pairs denotes.
pub open spec fn text_map(v: Seq<(String, String)>) -> Map<Seq<char>, Seq<char>> {
    Map::new(|k: Seq<char>| crate::keyed::lookup(v, k) is Some, |k: Seq<char>| crate::keyed::lookup(v, k)->0@)
}

pub open spec fn attr_or(attrs: Map<Seq<char>, Seq<char>>, k: Seq<char>, default: Seq<char>) -> Seq<char> {
    if attrs.contains_key(k) {
        attrs[k]
    } else {
        default
    }
}

/// A blamed line as its commit attributes describe it: author (`unknown`
/// when absent), author time (0 when absent or not an integer), time zone
/// (`+0000` when absent) and summary (empty when absent).
pub open spec fn line_view(line: i64, sha: Seq<char>, attrs: Map<Seq<char>, Seq<char>>) -> BlameView {
    (
        line,
        sha,
        attr_or(attrs, "author"@, "unknown"@),
        if attrs.contains_key("author-time"@) && parse_i64_spec(attrs["author-time"@]) is Some {
            parse_i64_spec(attrs["author-time"@])->0
        } else {
            0
        },
        attr_or(attrs, "author-tz"@, "+0000"@),
        attr_or(attrs, "summary"@, Seq::empty()),
    )
}

/// Parser state: the header being read (sha, line), the attributes seen since
/// it, the attributes remembered per commit, and the lines emitted.
pub type BlameState = (
    Option<Seq<char>>,
    Option<i64>,
    Map<Seq<char>, Seq<char>>,
    Map<Seq<char>, Map<Seq<char>, Seq<char>>>,
    Seq<BlameView>,
);

pub open spec fn blame_init() -> BlameState {
    (None, None, Map::empty(), Map::empty(), Seq::empty())
}

/// One porcelain line. A tab line is a line's content: it closes the header
/// and emits the line, remembering the commit's attributes (attributes seen
/// earlier for the commit win). A header `<sha> <orig> <final> ...` opens a
/// line when none is open. Any other `key value` line is an attribute.
pub open spec fn blame_step(st: BlameState, raw: Seq<char>) -> BlameState {
    let (sha, line, pending, commits, out) = st;
    if raw.len() > 0 && raw[0] == '\t' {
        match (sha, line) {
            (Some(s), Some(l)) => {
                let old = if commits.contains_key(s) { commits[s] } else { Map::empty() };
                let merged = pending.union_prefer_right(old);
                (None, None, Map::empty(), commits.insert(s, merged), out.push(line_view(l, s, merged)))
            },
            _ => st,
        }
    } else {
        let parts = split_seq(raw, ' ');
        if sha is None && parts.len() >= 3 && utf8_len(parts[0]) >= 7 {
            match parse_i64_spec(parts[2]) {
                Some(n) => (Some(parts[0]), Some(n), pending, commits, out),
                None => (None, None, pending, commits, out),
            }
        } else if parts.len() >= 2 {
            (sha, line, pending.insert(parts[0], raw.skip(parts[0].len() as int + 1)), commits, out)
        } else {
            st
        }
    }
}

pub open spec fn blame_fold(lines: Seq<Seq<char>>) -> BlameState
    decreases lines.len(),
{
    if lines.len() == 0 {
        blame_init()
    } else {
        blame_step(blame_fold(lines.drop_last()), lines.last())
    }
}

pub open spec fn blame_line_view(b: BlameLine) -> BlameView {
    (b.line, b.sha@, b.author@, b.author_time, b.author_tz@, b.summary@)
}

/// `k` is a key of the first part of the split, and the rest is the value.
proof fn lemma_split_at_first(raw: Seq<char>, k: int)
    requires
        0 <= k < raw.len(),
        raw[k] == ' ',
        forall|j: int| 0 <= j < k ==> raw[j] != ' ',
    ensures
        split_seq(raw, ' ').len() >= 2,
        split_seq(raw, ' ')[0] == raw.take(k),
{
    lemma_split_first(raw, ' ', k);
}

fn get_attr(attrs: &Vec<(String, String)>, key: &str, default: &str) -> (r: String)
    requires
        crate::keyed::keys_unique(attrs@),
    ensures
        r@ == attr_or(text_map(attrs@), key@, default@),
{
    let k = key.to_owned();
    match crate::keyed::get(attrs, &k) {
        Some(v) => v.clone(),
        None => default.to_owned(),
    }
}

fn make_line(line: i64, sha: &String, attrs: &Vec<(String, String)>) -> (r: BlameLine)
    requires
        crate::keyed::keys_unique(attrs@),
    ensures
        blame_line_view(r) == line_view(line, sha@, text_map(attrs@)),
{
    let author = get_attr(attrs, "author", "unknown");
    let tz = get_attr(attrs, "author-tz", "+0000");
    let summary = get_attr(attrs, "summary", "");
    let tk = "author-time".to_owned();
    let time = match crate::keyed::get(attrs, &tk) {
        Some(v) => {
            assert(text_map(attrs@).contains_key(tk@));
            assert(text_map(attrs@)[tk@] == v@);
            match parse_i64(v.as_str()) {
                Some(t) => t,
                None => 0,
            }
        },
        None => {
            assert(!text_map(attrs@).contains_key(tk@));
            0
        },
    };
    let r = BlameLine { line, sha: sha.clone(), author, author_time: time, author_tz: tz, summary };
    proof {
        reveal_strlit("");
    }
    r
}

/// Fold `pending` into `attrs`, keeping every attribute `attrs` already has.
fn merge_attrs(attrs: &mut Vec<(String, String)>, pending: &Vec<(String, String)>)
    requires
        crate::keyed::keys_unique(old(attrs)@),
        crate::keyed::keys_unique(pending@),
    ensures
        crate::keyed::keys_unique(final(attrs)@),
        text_map(final(attrs)@) == text_map(pending@).union_prefer_right(text_map(old(attrs)@)),
{
    let ghost a0 = text_map(attrs@);
    let mut i: usize = 0;
    while i < pending.len()
        invariant
            i <= pending.len(),
            crate::keyed::keys_unique(attrs@),
            crate::keyed::keys_unique(pending@),
            text_map(attrs@) == text_map(pending@.take(i as int)).union_prefer_right(a0),
        decreases pending.len() - i,
    {
        let ghost before = attrs@;
        let k = pending[i].0.clone();
        let v = pending[i].1.clone();
        proof {
            lemma_text_map_push(pending@, i as int);
        }
        let found = crate::keyed::find_key(attrs, &k);
        if found.is_none() {
            assert(!text_map(before).contains_key(k@));
            crate::keyed::insert(attrs, k, v);
            assert(text_map(attrs@) =~= text_map(before).insert(pending@[i as int].0@, pending@[i as int].1@));
            assert(!a0.contains_key(pending@[i as int].0@));
        } else {
            assert(text_map(before).contains_key(k@));
            assert(a0.contains_key(k@));
        }
        assert(text_map(attrs@) =~= text_map(pending@.take(i + 1)).union_prefer_right(a0));
        i += 1;
    }
    assert(pending@.take(pending.len() as int) =~= pending@);
}

/// Adding the entry at index `i` to a prefix of a table with unique keys
/// adds that key with its value.
proof fn lemma_text_map_push(v: Seq<(String, String)>, i: int)
    requires
        0 <= i < v.len(),
        crate::keyed::keys_unique(v),
    ensures
        text_map(v.take(i + 1)) == text_map(v.take(i)).insert(v[i].0@, v[i].1@),
        !text_map(v.take(i)).contains_key(v[i].0@),
{
    let a = v.take(i);
    let b = v.take(i + 1);
    assert(b =~= a.push(v[i]));
    assert(!crate::keyed::has_key(a, v[i].0@)) by {
        if crate::keyed::has_key(a, v[i].0@) {
            let j = choose|j: int| 0 <= j < a.len() && #[trigger] a[j].0@ == v[i].0@;
            assert(v[j].0@ != v[i].0@);
        }
    }
    crate::keyed::lemma_has_key_lookup(a, v[i].0@);
    assert forall|q: Seq<char>| #[trigger] crate::keyed::lookup(b, q) == if q == v[i].0@ && crate::keyed::lookup(a, q) is None { Some(v[i].1) } else { crate::keyed::lookup(a, q) } by {
        crate::keyed::lemma_lookup_push(a, v[i].0, v[i].1, q);
    }
    assert(text_map(b) =~= text_map(a).insert(v[i].0@, v[i].1@));
}

/// The parser's working state: header sha and line, pending attributes,
/// attributes per commit, and the lines emitted so far.
type Porcelain = (
    Option<String>,
    Option<i64>,
    Vec<(String, String)>,
    Vec<(String, Vec<(String, String)>)>,
    Vec<BlameLine>,
);

pub open spec fn opt_view(o: Option<String>) -> Option<Seq<char>> {
    match o {
        Some(s) => Some(s@),
        None => None,
    }
}

pub open spec fn commits_map(c: Seq<(String, Vec<(String, String)>)>) -> Map<Seq<char>, Map<Seq<char>, Seq<char>>> {
    Map::new(|k: Seq<char>| crate::keyed::lookup(c, k) is Some, |k: Seq<char>| text_map(crate::keyed::lookup(c, k)->0@))
}

spec fn porcelain_view(st: Porcelain) -> BlameState {
    (opt_view(st.0), st.1, text_map(st.2@), commits_map(st.3@), st.4@.map_values(|b: BlameLine| blame_line_view(b)))
}

spec fn porcelain_ok(st: Porcelain) -> bool {
    &&& crate::keyed::keys_unique(st.2@)
    &&& crate::keyed::keys_unique(st.3@)
    &&& forall|k: Seq<char>| #[trigger] crate::keyed::lookup(st.3@, k) is Some ==> crate::keyed::keys_unique(crate::keyed::lookup(st.3@, k)->0@)
}

/// Read one porcelain line.
fn porcelain_step(raw: &Vec<char>, st: Porcelain) -> (r: Porcelain)
    requires
        porcelain_ok(st),
    ensures
        porcelain_ok(r),
        porcelain_view(r) == blame_step(porcelain_view(st), raw@),
{
    let ghost v0 = porcelain_view(st);
    let (sha, line, mut pending, mut commits, mut lines) = st;
    if raw.len() > 0 && raw[0] == '\t' {
        match (sha, line) {
            (Some(s), Some(l)) => {
                let mut attrs: Vec<(String, String)> = Vec::new();
                match crate::keyed::get(&commits, &s) {
                    Some(old) => {
                        merge_attrs(&mut attrs, old);
                    },
                    None => {},
                }
                let ghost old_map = attrs@;
                assert(text_map(old_map) =~= (if v0.3.contains_key(s@) { v0.3[s@] } else { Map::empty() }));
                merge_attrs(&mut attrs, &pending);
                let b = make_line(l, &s, &attrs);
                let ghost lines0 = lines@;
                lines.push(b);
                let ghost commits0 = commits@;
                let ghost merged = text_map(attrs@);
                crate::keyed::insert(&mut commits, s, attrs);
                let r = (None, None, Vec::new(), commits, lines);
                proof {
                    assert(lines0.push(b).map_values(|x: BlameLine| blame_line_view(x))
                        =~= lines0.map_values(|x: BlameLine| blame_line_view(x)).push(blame_line_view(b)));
                    assert(commits_map(r.3@) =~= commits_map(commits0).insert(s@, merged));
                    assert(text_map(r.2@) =~= Map::empty());
                    assert forall|k: Seq<char>| #[trigger] crate::keyed::lookup(r.3@, k) is Some implies crate::keyed::keys_unique(crate::keyed::lookup(r.3@, k)->0@) by {
                        if k != s@ {
                            assert(crate::keyed::lookup(r.3@, k) == crate::keyed::lookup(commits0, k));
                        }
                    }
                }
                r
            },
            (sha, line) => (sha, line, pending, commits, lines),
        }
    } else {
        let parts = split_chars(raw, ' ');
        proof {
            assert(parts@.len() == split_seq(raw@, ' ').len());
        }
        if sha.is_none() && parts.len() >= 3 && string_of(&parts[0]).as_str().as_bytes().len() >= 7 {
            proof {
                assert(parts@[0]@ == split_seq(raw@, ' ')[0]);
                assert(parts@[2]@ == split_seq(raw@, ' ')[2]);
            }
            let head = string_of(&parts[0]);
            let num = string_of(&parts[2]);
            match parse_i64(num.as_str()) {
                Some(n) => (Some(head), Some(n), pending, commits, lines),
                None => (None, None, pending, commits, lines),
            }
        } else {
            let mut k: usize = 0;
            while k < raw.len() && raw[k] != ' '
                invariant
                    k <= raw.len(),
                    forall|j: int| 0 <= j < k ==> raw@[j] != ' ',
                decreases raw.len() - k,
            {
                k += 1;
            }
            if k < raw.len() {
                proof {
                    lemma_split_first(raw@, ' ', k as int);
                    assert(raw@.subrange(0, k as int) =~= raw@.take(k as int));
                    assert(raw@.subrange(k + 1, raw@.len() as int) =~= raw@.skip(k + 1));
                }
                let key = string_of_range(raw, 0, k);
                let val = string_of_range(raw, k + 1, raw.len());
                let ghost p0 = pending@;
                crate::keyed::insert(&mut pending, key, val);
                assert(text_map(pending@) =~= text_map(p0).insert(key@, val@));
                (sha, line, pending, commits, lines)
            } else {
                proof {
                    lemma_split_no_sep(raw@, ' ');
                }
                (sha, line, pending, commits, lines)
            }
        }
    }
}

/// Parse `git blame --line-porcelain` output into its blamed lines.
pub fn parse_porcelain(output: &str) -> (r: Vec<BlameLine>)
    ensures
        r@.map_values(|b: BlameLine| blame_line_view(b)) == blame_fold(split_seq(output@, '\n')).4,
{
    let all = chars_of(output);
    let raws = split_chars(&all, '\n');
    let ghost ls = split_seq(output@, '\n');
    let mut st: Porcelain = (None, None, Vec::new(), Vec::new(), Vec::new());
    proof {
        assert(ls.take(0) =~= Seq::<Seq<char>>::empty());
        assert(text_map(st.2@) =~= Map::empty());
        assert(commits_map(st.3@) =~= Map::empty());
        assert(st.4@.map_values(|b: BlameLine| blame_line_view(b)) =~= Seq::empty());
    }
    let mut i: usize = 0;
    while i < raws.len()
        invariant
            views_char(raws@) == ls,
            i <= raws.len(),
            porcelain_ok(st),
            porcelain_view(st) == blame_fold(ls.take(i as int)),
        decreases raws.len() - i,
    {
        proof {
            assert(ls.take(i + 1).drop_last() =~= ls.take(i as int));
            assert(raws@[i as int]@ == ls[i as int]);
        }
        st = porcelain_step(&raws[i], st);
        i += 1;
    }
    assert(ls.take(ls.len() as int) =~= ls);
    st.4
}

} // verus!
