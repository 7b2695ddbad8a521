//! The passive-context shoulder: one bracketed line with a file's lifecycle,
//! ages, churn, presence, complexity, owner and last subject. `render` and
//! its dense variant `render_compact` come from one field builder.

use crate::blame::opt_view;
use crate::civil::{days_from_civil, days_from_civil_spec, field_in_range};
use crate::digest::trim_end;
use crate::facts::FileFacts;
use crate::lang::join_with;
use crate::ordered::text_views;
use crate::text::{chars_of, concat, dec, dec_int, fmt_i64, parse_i64, parse_i64_spec, split_chars, split_seq, string_of, views_char};
use vstd::prelude::*;

verus! {

/// The three `-`-separated integers of a `YYYY-MM-DD` date.
pub open spec fn date_parts(s: Seq<char>) -> Option<(int, int, int)> {
    let p = split_seq(s, '-');
    if p.len() != 3 {
        None
    } else {
        match (parse_i64_spec(p[0]), parse_i64_spec(p[1]), parse_i64_spec(p[2])) {
            (Some(y), Some(m), Some(d)) => Some((y as int, m as int, d as int)),
            _ => None,
        }
    }
}

/// A date whose fields, when it parses, lie in the range the civil
/// arithmetic computes with.
pub open spec fn date_ok(s: Seq<char>) -> bool {
    match date_parts(s) {
        Some((y, m, d)) => field_in_range(y) && field_in_range(m) && field_in_range(d),
        None => true,
    }
}

pub open spec fn opt_date_ok(o: Option<String>) -> bool {
    match o {
        Some(s) => date_ok(s@),
        None => true,
    }
}

/// Days from the date `s` to the day `today` (both as days since the epoch).
pub open spec fn days_since_spec(s: Seq<char>, today: int) -> Option<int> {
    match date_parts(s) {
        Some((y, m, d)) => Some(today - days_from_civil_spec(y, m, d)),
        None => None,
    }
}

/// An age in days as its bucketed token.
pub open spec fn age_bucket(days: int) -> Seq<char> {
    if days == 0 {
        "today"@
    } else if days == 1 {
        "1d"@
    } else if days < 14 {
        dec_int(days) + "d"@
    } else if days < 60 {
        dec_int(days / 7) + "w"@
    } else if days < 365 {
        dec_int(days / 30) + "mo"@
    } else if (days % 365) / 30 != 0 {
        dec_int(days / 365) + "y"@ + dec_int((days % 365) / 30) + "mo"@
    } else {
        dec_int(days / 365) + "y"@
    }
}

pub open spec fn age_token_spec(s: Seq<char>, today: int) -> Option<Seq<char>> {
    match days_since_spec(s, today) {
        Some(days) => if days < 0 { None } else { Some(age_bucket(days)) },
        None => None,
    }
}

/// Days from `last_modified` to `today`, when it is a date.
pub fn days_since(last_modified: &str, today: i64) -> (r: Option<i64>)
    requires
        date_ok(last_modified@),
        field_in_range(today as int),
    ensures
        match r {
            Some(n) => days_since_spec(last_modified@, today as int) == Some(n as int),
            None => days_since_spec(last_modified@, today as int) is None,
        },
{
    let cs = chars_of(last_modified);
    let parts = split_chars(&cs, '-');
    let ghost pv = views_char(parts@);
    if parts.len() != 3 {
        return None;
    }
    assert(pv[0] == parts@[0]@ && pv[1] == parts@[1]@ && pv[2] == parts@[2]@);
    let ys = string_of(&parts[0]);
    let ms = string_of(&parts[1]);
    let ds = string_of(&parts[2]);
    match (parse_i64(ys.as_str()), parse_i64(ms.as_str()), parse_i64(ds.as_str())) {
        (Some(y), Some(m), Some(d)) => {
            let last = days_from_civil(y, m, d);
            proof {
                assert(-1_000_000_000_000_000 * 400 <= last <= 1_000_000_000_000_000 * 400) by (nonlinear_arith)
                    requires
                        last == days_from_civil_spec(y as int, m as int, d as int),
                        field_in_range(y as int),
                        field_in_range(m as int),
                        field_in_range(d as int);
            }
            Some(today - last)
        },
        _ => None,
    }
}

fn bucket(days: i64) -> (r: String)
    requires
        days >= 0,
    ensures
        r@ == age_bucket(days as int),
{
    if days == 0 {
        "today".to_owned()
    } else if days == 1 {
        "1d".to_owned()
    } else if days < 14 {
        let n = fmt_i64(days);
        concat(n.as_str(), "d")
    } else if days < 60 {
        let n = fmt_i64(days / 7);
        concat(n.as_str(), "w")
    } else if days < 365 {
        let n = fmt_i64(days / 30);
        concat(n.as_str(), "mo")
    } else {
        let years = fmt_i64(days / 365);
        let months = (days % 365) / 30;
        if months != 0 {
            let a = concat(years.as_str(), "y");
            let b = fmt_i64(months);
            let c = concat(a.as_str(), b.as_str());
            concat(c.as_str(), "mo")
        } else {
            concat(years.as_str(), "y")
        }
    }
}

/// A date as its age token relative to `today`: `today`, `Nd`, `Nw`, `Nmo`,
/// `NyNmo` or `Ny`; nothing for a date in the future or no date at all.
pub fn age_token(date: &str, today: i64) -> (r: Option<String>)
    requires
        date_ok(date@),
        field_in_range(today as int),
    ensures
        opt_view(r) == age_token_spec(date@, today as int),
{
    match days_since(date, today) {
        Some(days) => {
            if days < 0 {
                None
            } else {
                Some(bucket(days))
            }
        },
        None => None,
    }
}

/// `first→last` when the two ages differ, else the one age; nothing when
/// the last change has no age.
pub open spec fn age_spec(f: FileFacts, today: int) -> Option<Seq<char>> {
    match f.last_modified {
        None => None,
        Some(lm) => match age_token_spec(lm@, today) {
            None => None,
            Some(modified) => match f.first_seen {
                Some(fs) => match age_token_spec(fs@, today) {
                    Some(created) => if created != modified {
                        Some(created + "\u{2192}"@ + modified)
                    } else {
                        Some(modified)
                    },
                    None => Some(modified),
                },
                None => Some(modified),
            },
        },
    }
}

/// The lifecycle label: the working-tree state when the file is dirty,
/// else what its history says.
pub open spec fn state_label_spec(f: FileFacts) -> Seq<char> {
    let ws = opt_view(f.working_state);
    let cc = f.commit_count as int;
    if ws == Some("untracked"@) {
        "untracked"@
    } else if ws == Some("added"@) {
        "added (uncommitted)"@
    } else if ws == Some("renamed"@) {
        "renamed (uncommitted)"@
    } else if ws == Some("modified"@) {
        if cc <= 1 {
            "modified (new file)"@
        } else {
            "modified ("@ + dec_int(cc) + " commits)"@
        }
    } else {
        match f.rename_from {
            Some(rf) => "renamed-from "@ + rf@,
            None => if cc == 0 {
                "no-history"@
            } else if cc == 1 {
                "new (1 commit)"@
            } else {
                dec_int(cc) + " commits"@
            },
        }
    }
}

/// `s` cut to `max` characters, the cut marked with an ellipsis.
pub open spec fn clip_spec(s: Seq<char>, max: nat) -> Seq<char> {
    if s.len() <= max {
        s
    } else {
        trim_end(s.take(max - 1)) + "\u{2026}"@
    }
}

pub open spec fn churn_spec(f: FileFacts) -> Seq<char> {
    "churn: "@ + dec_int(f.commit_count as int) + (if f.commit_count == 1 { " commit"@ } else { " commits"@ }) + ", "@
        + dec_int(f.commits_30d as int) + "/30d"@
}

/// The last component of a path, or the path itself when it has none.
pub open spec fn base_name(p: Seq<char>) -> Seq<char> {
    match crate::paths::file_name_range(p) {
        Some((a, b)) => p.subrange(a, b),
        None => p,
    }
}

pub open spec fn partner_names(co: Seq<(String, i64)>) -> Seq<Seq<char>> {
    co.map_values(|e: (String, i64)| base_name(e.0@))
}

/// The base names of the first `max` co-change partners.
pub open spec fn together_spec(co: Seq<(String, i64)>, max: nat) -> Option<Seq<char>> {
    if co.len() == 0 {
        None
    } else {
        let shown = if co.len() > max { co.take(max as int) } else { co };
        Some("together: "@ + join_with(partner_names(shown), ", "@))
    }
}

pub open spec fn ccn_spec(f: FileFacts) -> Seq<char> {
    "ccn: "@ + dec_int(f.cyclomatic_complexity_total as int) + " "@ + f.rank@
}

pub open spec fn presence_spec(f: FileFacts) -> Seq<char> {
    if f.present_in@.len() > 0 {
        "presence: "@ + join_with(text_views(f.present_in@), ", "@)
    } else {
        "presence: local-only"@
    }
}

/// The fields every shoulder starts with: state, then age when known.
pub open spec fn head_parts(f: FileFacts, today: int) -> Seq<Seq<char>> {
    let head = seq!["git: "@ + state_label_spec(f)];
    match age_spec(f, today) {
        Some(a) => head.push("age: "@ + a),
        None => head,
    }
}

/// The fields after the head: the full set, or the dense headline (churn
/// and complexity only).
pub open spec fn tail_parts(f: FileFacts, graph: Option<(i64, i64)>, dense: bool) -> Seq<Seq<char>> {
    if dense {
        seq![churn_spec(f), ccn_spec(f)]
    } else {
        let p2 = seq![presence_spec(f), churn_spec(f)];
        let p3 = match graph {
            Some((c, d)) => p2.push("callers: "@ + dec_int(c as int) + " \u{b7} dependents: "@ + dec_int(d as int)),
            None => p2,
        };
        let p4 = p3.push(ccn_spec(f));
        let p5 = match together_spec(f.co_changed@, 3) {
            Some(t) => p4.push(t),
            None => p4,
        };
        let p6 = match f.top_author {
            Some(ta) => p5.push("owner: "@ + ta@),
            None => p5,
        };
        match f.last_subject {
            Some(ls) => p6.push("last: "@ + clip_spec(ls@, 60)),
            None => p6,
        }
    }
}

pub open spec fn parts_spec(f: FileFacts, graph: Option<(i64, i64)>, dense: bool, today: int) -> Seq<Seq<char>> {
    head_parts(f, today) + tail_parts(f, graph, dense)
}

pub open spec fn bracketed(parts: Seq<Seq<char>>) -> Seq<char> {
    "["@ + join_with(parts, " \u{b7} "@) + "]"@
}

/// What the facts a shoulder is rendered from must satisfy: dates whose
/// fields fit the civil arithmetic.
pub open spec fn facts_ok(f: FileFacts, today: i64) -> bool {
    &&& opt_date_ok(f.last_modified)
    &&& opt_date_ok(f.first_seen)
    &&& field_in_range(today as int)
}

fn age_of(f: &FileFacts, today: i64) -> (r: Option<String>)
    requires
        facts_ok(*f, today),
    ensures
        opt_view(r) == age_spec(*f, today as int),
{
    let modified = match &f.last_modified {
        Some(lm) => match age_token(lm.as_str(), today) {
            Some(m) => m,
            None => return None,
        },
        None => return None,
    };
    match &f.first_seen {
        Some(fs) => match age_token(fs.as_str(), today) {
            Some(created) => {
                if crate::text::str_eq(created.as_str(), modified.as_str()) {
                    Some(modified)
                } else {
                    let a = concat(created.as_str(), "\u{2192}");
                    Some(concat(a.as_str(), modified.as_str()))
                }
            },
            None => Some(modified),
        },
        None => Some(modified),
    }
}

fn is_text(o: &Option<String>, t: &str) -> (r: bool)
    ensures
        r == (opt_view(*o) == Some(t@)),
{
    match o {
        Some(s) => crate::text::str_eq(s.as_str(), t),
        None => false,
    }
}

/// The lifecycle label of a file.
pub fn state_label(f: &FileFacts) -> (r: String)
    ensures
        r@ == state_label_spec(*f),
{
    if is_text(&f.working_state, "untracked") {
        return "untracked".to_owned();
    }
    if is_text(&f.working_state, "added") {
        return "added (uncommitted)".to_owned();
    }
    if is_text(&f.working_state, "renamed") {
        return "renamed (uncommitted)".to_owned();
    }
    if is_text(&f.working_state, "modified") {
        if f.commit_count <= 1 {
            return "modified (new file)".to_owned();
        }
        let n = fmt_i64(f.commit_count);
        let a = concat("modified (", n.as_str());
        return concat(a.as_str(), " commits)");
    }
    match &f.rename_from {
        Some(rf) => concat("renamed-from ", rf.as_str()),
        None => {
            if f.commit_count == 0 {
                "no-history".to_owned()
            } else if f.commit_count == 1 {
                "new (1 commit)".to_owned()
            } else {
                let n = fmt_i64(f.commit_count);
                concat(n.as_str(), " commits")
            }
        },
    }
}

/// A commit subject cut to `max_chars` characters, ending in an ellipsis
/// when cut.
pub fn clip_subject(subject: &str, max_chars: usize) -> (r: String)
    requires
        max_chars >= 1,
    ensures
        r@ == clip_spec(subject@, max_chars as nat),
{
    let cs = chars_of(subject);
    if cs.len() <= max_chars {
        return subject.to_owned();
    }
    let mut head: Vec<char> = Vec::new();
    let mut i: usize = 0;
    while i < max_chars - 1
        invariant
            i <= max_chars - 1,
            max_chars - 1 < cs.len(),
            head@ == cs@.take(i as int),
        decreases max_chars - 1 - i,
    {
        head.push(cs[i]);
        assert(head@ =~= cs@.take(i + 1));
        i += 1;
    }
    let t = crate::digest::trim_end_text(&head);
    let s = string_of(&t);
    concat(s.as_str(), "\u{2026}")
}

/// Total commits and commits in the last thirty days.
pub fn churn(f: &FileFacts) -> (r: String)
    ensures
        r@ == churn_spec(*f),
{
    let total = fmt_i64(f.commit_count);
    let a = concat("churn: ", total.as_str());
    let b = if f.commit_count == 1 { concat(a.as_str(), " commit") } else { concat(a.as_str(), " commits") };
    let c = concat(b.as_str(), ", ");
    let d = fmt_i64(f.commits_30d);
    let e = concat(c.as_str(), d.as_str());
    concat(e.as_str(), "/30d")
}

fn base_name_of(p: &str) -> (r: String)
    ensures
        r@ == base_name(p@),
{
    let cs = chars_of(p);
    match crate::paths::file_name_bounds(&cs) {
        Some((a, b)) => crate::text::string_of_range(&cs, a, b),
        None => p.to_owned(),
    }
}

/// `parts` joined with `sep`.
pub fn join_texts(parts: &Vec<String>, sep: &str) -> (r: String)
    ensures
        r@ == join_with(text_views(parts@), sep@),
{
    let ghost pv = text_views(parts@);
    let mut out = String::new();
    let mut i: usize = 0;
    while i < parts.len()
        invariant
            i <= parts.len(),
            pv == text_views(parts@),
            out@ == join_with(pv.take(i as int), sep@),
        decreases parts.len() - i,
    {
        assert(pv.take(i + 1).drop_last() =~= pv.take(i as int));
        assert(pv[i as int] == parts@[i as int]@);
        if i == 0 {
            assert(pv.take(1) =~= seq![pv[0]]);
            out = concat(out.as_str(), parts[i].as_str());
        } else {
            let with_sep = concat(out.as_str(), sep);
            out = concat(with_sep.as_str(), parts[i].as_str());
        }
        i += 1;
    }
    assert(pv.take(i as int) =~= pv);
    out
}

/// The base names of the first `max` co-change partners, if there are any.
pub fn changed_together(co_changed: &Vec<(String, i64)>, max: usize) -> (r: Option<String>)
    ensures
        opt_view(r) == together_spec(co_changed@, max as nat),
{
    if co_changed.len() == 0 {
        return None;
    }
    let ghost shown = if co_changed@.len() > max { co_changed@.take(max as int) } else { co_changed@ };
    let mut names: Vec<String> = Vec::new();
    let mut i: usize = 0;
    while i < co_changed.len() && i < max
        invariant
            i <= co_changed.len(),
            i <= max,
            names@.len() == i,
            text_views(names@) == partner_names(co_changed@.take(i as int)),
        decreases co_changed.len() - i,
    {
        let n = base_name_of(co_changed[i].0.as_str());
        let ghost nv = text_views(names@);
        names.push(n);
        assert(text_views(names@) =~= nv.push(base_name(co_changed@[i as int].0@)));
        assert(partner_names(co_changed@.take(i + 1)) =~= partner_names(co_changed@.take(i as int)).push(base_name(co_changed@[i as int].0@)));
        i += 1;
    }
    assert(co_changed@.take(i as int) =~= shown);
    let joined = join_texts(&names, ", ");
    Some(concat("together: ", joined.as_str()))
}

fn ccn_text(f: &FileFacts) -> (r: String)
    ensures
        r@ == ccn_spec(*f),
{
    let n = fmt_i64(f.cyclomatic_complexity_total);
    let a = concat("ccn: ", n.as_str());
    let b = concat(a.as_str(), " ");
    concat(b.as_str(), f.rank.as_str())
}

/// The shoulder's fields: the full set, or (`dense`) the headline state,
/// age, churn and complexity. `graph` carries the caller and dependent
/// counts when the caller has them.
pub fn parts(f: &FileFacts, graph: Option<(i64, i64)>, dense: bool, today: i64) -> (r: Vec<String>)
    requires
        facts_ok(*f, today),
    ensures
        text_views(r@) == parts_spec(*f, graph, dense, today as int),
{
    let mut out: Vec<String> = Vec::new();
    let label = state_label(f);
    out.push(concat("git: ", label.as_str()));
    match age_of(f, today) {
        Some(a) => {
            out.push(concat("age: ", a.as_str()));
        },
        None => {},
    }
    assert(text_views(out@) =~= head_parts(*f, today as int));
    let ghost head = text_views(out@);
    if dense {
        out.push(churn(f));
        out.push(ccn_text(f));
        assert(text_views(out@) =~= head + tail_parts(*f, graph, dense));
        return out;
    }
    if f.present_in.len() > 0 {
        let j = join_texts(&f.present_in, ", ");
        out.push(concat("presence: ", j.as_str()));
    } else {
        out.push("presence: local-only".to_owned());
    }
    out.push(churn(f));
    match graph {
        Some((c, d)) => {
            let cs = fmt_i64(c);
            let ds = fmt_i64(d);
            let a = concat("callers: ", cs.as_str());
            let b = concat(a.as_str(), " \u{b7} dependents: ");
            out.push(concat(b.as_str(), ds.as_str()));
        },
        None => {},
    }
    out.push(ccn_text(f));
    match changed_together(&f.co_changed, 3) {
        Some(t) => {
            out.push(t);
        },
        None => {},
    }
    match &f.top_author {
        Some(ta) => {
            out.push(concat("owner: ", ta.as_str()));
        },
        None => {},
    }
    match &f.last_subject {
        Some(ls) => {
            let c = clip_subject(ls.as_str(), 60);
            out.push(concat("last: ", c.as_str()));
        },
        None => {},
    }
    assert(text_views(out@) =~= head + tail_parts(*f, graph, dense));
    out
}

/// The one-line shoulder with the full field set.
pub fn render(f: &FileFacts, graph: Option<(i64, i64)>, today: i64) -> (r: String)
    requires
        facts_ok(*f, today),
    ensures
        r@ == bracketed(parts_spec(*f, graph, false, today as int)),
{
    let p = parts(f, graph, false, today);
    let j = join_texts(&p, " \u{b7} ");
    let a = concat("[", j.as_str());
    concat(a.as_str(), "]")
}

/// The dense shoulder: state, age, churn and complexity from the same
/// builder, bracketed alike.
pub fn render_compact(f: &FileFacts, today: i64) -> (r: String)
    requires
        facts_ok(*f, today),
    ensures
        r@ == bracketed(parts_spec(*f, None, true, today as int)),
{
    let p = parts(f, None, true, today);
    let j = join_texts(&p, " \u{b7} ");
    let a = concat("[", j.as_str());
    concat(a.as_str(), "]")
}

/// `idx` places each item of `a`, in order, at an equal item of `b`.
pub open spec fn embeds(a: Seq<Seq<char>>, b: Seq<Seq<char>>, idx: Seq<int>) -> bool {
    &&& idx.len() == a.len()
    &&& forall|i: int, j: int| 0 <= i < j < idx.len() ==> idx[i] < idx[j]
    &&& forall|i: int| 0 <= i < idx.len() ==> 0 <= #[trigger] idx[i] < b.len() && b[idx[i]] == a[i]
}

/// `a` occurs in `b` in order, possibly with other items between.
pub open spec fn in_order(a: Seq<Seq<char>>, b: Seq<Seq<char>>) -> bool {
    exists|idx: Seq<int>| embeds(a, b, idx)
}

/// The dense shoulder's fields are fields of the full shoulder, in the same
/// order, whatever graph counts the full one carries: both come from one
/// builder.
pub proof fn compact_fields_are_full_fields(f: FileFacts, graph: Option<(i64, i64)>, today: int)
    ensures
        in_order(parts_spec(f, None, true, today), parts_spec(f, graph, false, today)),
{
    let h = head_parts(f, today);
    let n = h.len() as int;
    let dense = parts_spec(f, None, true, today);
    let full = parts_spec(f, graph, false, today);
    let cpos: int = if graph is Some { 3 } else { 2 };
    let tail = tail_parts(f, graph, false);
    assert(tail[1] == churn_spec(f));
    assert(tail[cpos] == ccn_spec(f));
    assert(tail.len() > cpos);
    let idx = Seq::new((n + 2) as nat, |i: int| if i < n { i } else if i == n { n + 1 } else { n + cpos });
    assert(dense =~= h + seq![churn_spec(f), ccn_spec(f)]);
    assert(full =~= h + tail);
    assert(embeds(dense, full, idx));
}

} // verus!
