//! `trace callers`: the use sites of a symbol, ranked resolved before
//! ambiguous and then by file and line, cut at the limit with the total and
//! whether anything was held back.

use crate::dirlist::{ins, lemma_ins_at, stable_sort};
use crate::labels::{confidence_rank, confidence_rank_spec};
use crate::ordered::{text_less, text_lt};
use crate::text::str_eq;
use vstd::prelude::*;

verus! {

/// A use site as (file, line, confidence).
pub type SiteView = (Seq<char>, int, Seq<char>);

pub open spec fn site_view(s: (String, i64, String)) -> SiteView {
    (s.0@, s.1 as int, s.2@)
}

pub open spec fn sites_view(v: Seq<(String, i64, String)>) -> Seq<SiteView> {
    v.map_values(|s: (String, i64, String)| site_view(s))
}

/// By confidence rank, then file, then line.
pub open spec fn site_before() -> spec_fn(SiteView, SiteView) -> bool {
    |a: SiteView, b: SiteView| {
        let ra = confidence_rank_spec(a.2);
        let rb = confidence_rank_spec(b.2);
        ra < rb || (ra == rb && (text_lt(a.0, b.0) || (a.0 == b.0 && a.1 < b.1)))
    }
}

fn site_less(a: &(String, i64, String), b: &(String, i64, String)) -> (r: bool)
    ensures
        r == (site_before())(site_view(*a), site_view(*b)),
{
    let ra = confidence_rank(a.2.as_str());
    let rb = confidence_rank(b.2.as_str());
    ra < rb || (ra == rb && (text_less(a.0.as_str(), b.0.as_str()) || (str_eq(a.0.as_str(), b.0.as_str()) && a.1 < b.1)))
}

fn insert_site(out: &mut Vec<(String, i64, String)>, x: (String, i64, String))
    ensures
        sites_view(final(out)@) == ins(sites_view(old(out)@), site_view(x), site_before()),
{
    let ghost ov = sites_view(out@);
    let ghost bf = site_before();
    let mut p: usize = out.len();
    while p > 0 && site_less(&x, &out[p - 1])
        invariant
            p <= out@.len(),
            ov == sites_view(out@),
            bf == site_before(),
            forall|j: int| p <= j < ov.len() ==> bf(site_view(x), #[trigger] ov[j]),
        decreases p,
    {
        assert(ov[p - 1] == site_view(out@[p - 1]));
        p -= 1;
    }
    if p > 0 {
        assert(ov[p - 1] == site_view(out@[p - 1]));
    }
    proof {
        lemma_ins_at(ov, site_view(x), bf, p as int);
    }
    let ghost xv = site_view(x);
    out.insert(p, x);
    assert(sites_view(out@) =~= ov.take(p as int) + seq![xv] + ov.skip(p as int));
}

/// The use sites stably ranked, the first `limit` of them, the total
/// before the cut, and whether the cut held any back.
pub fn rank_use_sites(sites: &Vec<(String, i64, String)>, limit: usize) -> (r: (Vec<(String, i64, String)>, usize, bool))
    ensures
        sites_view(r.0@) == {
            let sorted = stable_sort(sites_view(sites@), site_before());
            if sorted.len() > limit { sorted.take(limit as int) } else { sorted }
        },
        r.1 == sites@.len(),
        r.2 == (sites@.len() > limit),
{
    let ghost sv = sites_view(sites@);
    let mut out: Vec<(String, i64, String)> = Vec::new();
    let mut i: usize = 0;
    while i < sites.len()
        invariant
            i <= sites@.len(),
            sv == sites_view(sites@),
            sites_view(out@) == stable_sort(sv.take(i as int), site_before()),
            out@.len() == i,
        decreases sites@.len() - i,
    {
        assert(sv.take(i + 1).drop_last() =~= sv.take(i as int));
        assert(sv.take(i + 1).last() == site_view(sites@[i as int]));
        let s = &sites[i];
        insert_site(&mut out, (s.0.clone(), s.1, s.2.clone()));
        proof {
            lemma_ins_len(stable_sort(sv.take(i as int), site_before()), sv[i as int], site_before());
        }
        i += 1;
    }
    assert(sv.take(i as int) =~= sv);
    let ghost sorted = sites_view(out@);
    let total = out.len();
    if limit < out.len() {
        out.truncate(limit);
        assert(sites_view(out@) =~= sorted.take(limit as int));
    }
    (out, total, total > limit)
}

proof fn lemma_ins_len<A>(s: Seq<A>, x: A, before: spec_fn(A, A) -> bool)
    ensures
        ins(s, x, before).len() == s.len() + 1,
    decreases s.len(),
{
    if s.len() > 0 && before(x, s.last()) {
        lemma_ins_len(s.drop_last(), x, before);
    }
}

} // verus!
