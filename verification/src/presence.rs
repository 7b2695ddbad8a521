//! Which deploy branches hold each path: the remote refs that exist, the
//! cache key their tips make, and the labels each path is present under.

use crate::activity::deploy_branch_list;
use crate::cache::{hex_encode, hex_text, sha256, sha256_of};
use crate::keyed::{keys_unique, lookup};
use crate::ordered::{sorted_unique, strictly_sorted, text_views};
use crate::text::{concat, lossy_utf8, split_bytes, split_seq, utf8_lossy, views_u8};
use vstd::prelude::*;
use vstd::utf8::encode_utf8;

verus! {

/// The full name of a remote ref.
pub open spec fn full_ref(r: Seq<char>) -> Seq<char> {
    "refs/remotes/"@ + r
}

/// The first index of `x` in `s`.
pub open spec fn first_at(s: Seq<u8>, x: u8) -> Option<int>
    decreases s.len(),
{
    if s.len() == 0 {
        None
    } else if s[0] == x {
        Some(0)
    } else {
        match first_at(s.drop_first(), x) {
            Some(i) => Some(i + 1),
            None => None,
        }
    }
}

/// One `for-each-ref` record (`ref NUL tip`): the ref and its tip, when it
/// has a NUL and a non-empty tip.
pub open spec fn ref_tip(rec: Seq<u8>) -> Option<(Seq<char>, Seq<char>)> {
    match first_at(rec, 0) {
        Some(k) => {
            let tip = utf8_lossy(rec.skip(k + 1));
            if tip.len() > 0 {
                Some((utf8_lossy(rec.take(k)), tip))
            } else {
                None
            }
        },
        None => None,
    }
}

/// The tips the records name, a later record for a ref replacing an
/// earlier one.
pub open spec fn tips_of(recs: Seq<Seq<u8>>) -> Map<Seq<char>, Seq<char>>
    decreases recs.len(),
{
    if recs.len() == 0 {
        Map::empty()
    } else {
        let m = tips_of(recs.drop_last());
        match ref_tip(recs.last()) {
            Some((r, t)) => m.insert(r, t),
            None => m,
        }
    }
}

/// The configured deploy branches whose remote ref exists, in configured
/// order, each as (label, ref, tip); each observed ref is taken once.
pub open spec fn present_from(configured: Seq<(Seq<char>, Seq<char>)>, tips: Map<Seq<char>, Seq<char>>) -> Seq<(Seq<char>, Seq<char>, Seq<char>)>
    decreases configured.len(),
{
    if configured.len() == 0 {
        Seq::empty()
    } else {
        let (label, r) = configured[0];
        let full = full_ref(r);
        if tips.contains_key(full) {
            seq![(label, r, tips[full])] + present_from(configured.drop_first(), tips.remove(full))
        } else {
            present_from(configured.drop_first(), tips)
        }
    }
}

/// The deploy branches present in the output of `git for-each-ref
/// --format=%(refname)%00%(objectname)` over their full ref names.
pub open spec fn present_branches(stdout: Seq<u8>) -> Seq<(Seq<char>, Seq<char>, Seq<char>)> {
    present_from(deploy_branch_list(), tips_of(split_seq(stdout, 10u8)))
}

pub open spec fn triple_views(v: Seq<(String, String, String)>) -> Seq<(Seq<char>, Seq<char>, Seq<char>)> {
    v.map_values(|x: (String, String, String)| (x.0@, x.1@, x.2@))
}

pub open spec fn tip_map(v: Seq<(String, String)>) -> Map<Seq<char>, Seq<char>> {
    crate::blame::text_map(v)
}

fn ref_tip_of(rec: &Vec<u8>) -> (r: Option<(String, String)>)
    ensures
        match r {
            Some((a, b)) => ref_tip(rec@) == Some((a@, b@)),
            None => ref_tip(rec@) is None,
        },
{
    let mut k: usize = 0;
    assert(rec@.skip(0) =~= rec@);
    while k < rec.len() && rec[k] != 0
        invariant
            k <= rec@.len(),
            forall|j: int| 0 <= j < k ==> rec@[j] != 0,
        decreases rec@.len() - k,
    {
        k += 1;
    }
    proof {
        lemma_first_at(rec@, 0, k as int);
    }
    if k == rec.len() {
        return None;
    }
    let head = bytes_range(rec, 0, k);
    let tail = bytes_range(rec, k + 1, rec.len());
    assert(head@ =~= rec@.take(k as int));
    assert(tail@ =~= rec@.skip(k + 1));
    let tip = lossy_utf8(tail.as_slice());
    if tip.unicode_len() == 0 {
        return None;
    }
    let name = lossy_utf8(head.as_slice());
    Some((name, tip))
}

fn bytes_range(b: &Vec<u8>, from: usize, to: usize) -> (r: Vec<u8>)
    requires
        from <= to <= b@.len(),
    ensures
        r@ == b@.subrange(from as int, to as int),
{
    let mut r: Vec<u8> = Vec::new();
    let mut i: usize = from;
    while i < to
        invariant
            from <= i <= to <= b@.len(),
            r@ == b@.subrange(from as int, i as int),
        decreases to - i,
    {
        r.push(b[i]);
        assert(r@ =~= b@.subrange(from as int, i + 1));
        i += 1;
    }
    r
}

proof fn lemma_first_at(s: Seq<u8>, x: u8, k: int)
    requires
        0 <= k <= s.len(),
        forall|j: int| 0 <= j < k ==> s[j] != x,
        k == s.len() || s[k] == x,
    ensures
        first_at(s, x) == if k == s.len() { None } else { Some(k) },
    decreases k,
{
    if k > 0 {
        lemma_first_at(s.drop_first(), x, k - 1);
    }
}

/// The deploy branches present in `git for-each-ref` output.
pub fn present_deploy_branches(stdout: &[u8]) -> (r: Vec<(String, String, String)>)
    ensures
        triple_views(r@) == present_branches(stdout@),
{
    let recs = split_bytes(stdout, 10u8);
    let ghost rv = views_u8(recs@);
    let mut tips: Vec<(String, String)> = Vec::new();
    let mut i: usize = 0;
    while i < recs.len()
        invariant
            i <= recs@.len(),
            rv == views_u8(recs@),
            keys_unique(tips@),
            tip_map(tips@) == tips_of(rv.take(i as int)),
        decreases recs@.len() - i,
    {
        assert(rv.take(i + 1).drop_last() =~= rv.take(i as int));
        assert(rv.take(i + 1).last() == recs@[i as int]@);
        match ref_tip_of(&recs[i]) {
            Some((name, tip)) => {
                let ghost before = tips@;
                let ghost nv = name@;
                let ghost tv = tip@;
                crate::keyed::insert(&mut tips, name, tip);
                assert(tip_map(tips@) =~= tip_map(before).insert(nv, tv));
            },
            None => {},
        }
        i += 1;
    }
    assert(rv.take(i as int) =~= rv);
    let configured = crate::activity::deploy_branches();
    let ghost cv = configured@.map_values(|e: (&'static str, &'static str)| (e.0@, e.1@));
    assert(cv == deploy_branch_list());
    let ghost want = present_branches(stdout@);
    let mut out: Vec<(String, String, String)> = Vec::new();
    let mut c: usize = 0;
    assert(cv.skip(0) =~= cv);
    while c < configured.len()
        invariant
            c <= configured@.len(),
            cv == configured@.map_values(|e: (&'static str, &'static str)| (e.0@, e.1@)),
            keys_unique(tips@),
            want == triple_views(out@) + present_from(cv.skip(c as int), tip_map(tips@)),
        decreases configured@.len() - c,
    {
        assert(cv.skip(c as int).drop_first() =~= cv.skip(c + 1));
        assert(cv.skip(c as int)[0] == (configured@[c as int].0@, configured@[c as int].1@));
        let full = concat("refs/remotes/", configured[c].1);
        let ghost m = tip_map(tips@);
        match crate::keyed::get(&tips, &full) {
            Some(t) => {
                let tip = t.clone();
                assert(m.contains_key(full@) && m[full@] == tip@);
                let ghost before = tips@;
                crate::keyed::remove_key(&mut tips, &full);
                assert(tip_map(tips@) =~= tip_map(before).remove(full@));
                let ghost ov = triple_views(out@);
                out.push((configured[c].0.to_owned(), configured[c].1.to_owned(), tip));
                assert(triple_views(out@) =~= ov.push((configured@[c as int].0@, configured@[c as int].1@, m[full@])));
                assert(want == triple_views(out@) + present_from(cv.skip(c + 1), tip_map(tips@)));
            },
            None => {
                assert(!m.contains_key(full@));
            },
        }
        c += 1;
    }
    assert(cv.skip(c as int) =~= Seq::<(Seq<char>, Seq<char>)>::empty());
    assert(triple_views(out@) + Seq::empty() =~= triple_views(out@));
    out
}

/// The bytes the presence cache key hashes: `label NUL ref NUL tip LF` per
/// present branch.
pub open spec fn key_bytes(present: Seq<(Seq<char>, Seq<char>, Seq<char>)>) -> Seq<u8>
    decreases present.len(),
{
    if present.len() == 0 {
        Seq::empty()
    } else {
        let (l, r, t) = present.last();
        key_bytes(present.drop_last()) + encode_utf8(l) + seq![0u8] + encode_utf8(r) + seq![0u8] + encode_utf8(t) + seq![10u8]
    }
}

/// The cache key of a set of present branch tips.
pub open spec fn presence_key_spec(present: Seq<(Seq<char>, Seq<char>, Seq<char>)>) -> Seq<char> {
    "git_presence_v2__"@ + hex_text(sha256_of(key_bytes(present)))
}

fn push_bytes(out: &mut Vec<u8>, s: &str)
    ensures
        final(out)@ == old(out)@ + encode_utf8(s@),
{
    let b = s.as_bytes();
    let ghost base = out@;
    let mut i: usize = 0;
    while i < b.len()
        invariant
            i <= b@.len(),
            b@ == encode_utf8(s@),
            out@ == base + b@.take(i as int),
        decreases b@.len() - i,
    {
        out.push(b[i]);
        assert(out@ =~= base + b@.take(i + 1));
        i += 1;
    }
    assert(b@.take(i as int) =~= b@);
}

/// The cache key the present branches' tips make.
pub fn presence_key(present: &Vec<(String, String, String)>) -> (r: String)
    ensures
        r@ == presence_key_spec(triple_views(present@)),
{
    let ghost pv = triple_views(present@);
    let mut bytes: Vec<u8> = Vec::new();
    let mut i: usize = 0;
    while i < present.len()
        invariant
            i <= present@.len(),
            pv == triple_views(present@),
            bytes@ == key_bytes(pv.take(i as int)),
        decreases present@.len() - i,
    {
        assert(pv.take(i + 1).drop_last() =~= pv.take(i as int));
        assert(pv.take(i + 1).last() == (present@[i as int].0@, present@[i as int].1@, present@[i as int].2@));
        push_bytes(&mut bytes, present[i].0.as_str());
        bytes.push(0u8);
        push_bytes(&mut bytes, present[i].1.as_str());
        bytes.push(0u8);
        push_bytes(&mut bytes, present[i].2.as_str());
        bytes.push(10u8);
        assert(bytes@ =~= key_bytes(pv.take(i + 1)));
        i += 1;
    }
    assert(pv.take(i as int) =~= pv);
    let digest = sha256(bytes.as_slice());
    let hex = hex_encode(digest.as_slice());
    concat("git_presence_v2__", hex.as_str())
}

/// The paths a NUL-separated `ls-tree -rz --name-only` listing names.
pub open spec fn listed_paths(out: Seq<u8>) -> Seq<Seq<char>> {
    split_seq(out, 0u8).filter(|p: Seq<u8>| p.len() > 0).map_values(|p: Seq<u8>| utf8_lossy(p))
}

/// The labels a path is present under, over `(label, listing)` pairs.
pub open spec fn labels_for(listings: Seq<(Seq<char>, Seq<u8>)>, path: Seq<char>) -> Set<Seq<char>> {
    Set::new(|l: Seq<char>| exists|i: int| 0 <= i < listings.len() && (#[trigger] listings[i]).0 == l && listed_paths(listings[i].1).contains(path))
}

/// Every path some listing names.
pub open spec fn all_listed(listings: Seq<(Seq<char>, Seq<u8>)>) -> Set<Seq<char>> {
    Set::new(|p: Seq<char>| exists|i: int| 0 <= i < listings.len() && listed_paths((#[trigger] listings[i]).1).contains(p))
}

pub open spec fn listing_views(v: Seq<(String, Vec<u8>)>) -> Seq<(Seq<char>, Seq<u8>)> {
    v.map_values(|x: (String, Vec<u8>)| (x.0@, x.1@))
}

/// Each path any branch listing names, with the labels of the branches
/// that hold it, sorted and each once. `listings` pairs a present branch's
/// label with its `ls-tree` output.
pub fn presence_from_listings(listings: &Vec<(String, Vec<u8>)>) -> (r: Vec<(String, Vec<String>)>)
    ensures
        keys_unique(r@),
        forall|p: Seq<char>| #[trigger] lookup(r@, p) is Some <==> all_listed(listing_views(listings@)).contains(p),
        forall|k: int| 0 <= k < r@.len() ==> strictly_sorted(text_views(#[trigger] r@[k].1@)) && text_views(r@[k].1@).to_set()
            == labels_for(listing_views(listings@), r@[k].0@),
{
    let ghost lv = listing_views(listings@);
    let mut acc: Vec<(String, Vec<String>)> = Vec::new();
    let mut i: usize = 0;
    while i < listings.len()
        invariant
            i <= listings@.len(),
            lv == listing_views(listings@),
            keys_unique(acc@),
            forall|p: Seq<char>| #[trigger] lookup(acc@, p) is Some <==> all_listed(lv.take(i as int)).contains(p),
            forall|p: Seq<char>| #[trigger] lookup(acc@, p) is Some ==> text_views(lookup(acc@, p)->0@).to_set() == labels_for(lv.take(i as int), p),
        decreases listings@.len() - i,
    {
        let ghost pre = lv.take(i as int);
        let ghost post = lv.take(i + 1);
        assert(post =~= pre.push(lv[i as int]));
        let label = &listings[i].0;
        let parts = split_bytes(listings[i].1.as_slice(), 0u8);
        let ghost pv = views_u8(parts@);
        let ghost names = listed_paths(listings@[i as int].1@);
        let ghost keep = |p: Seq<u8>| p.len() > 0;
        let ghost a0 = acc@;
        let mut j: usize = 0;
        while j < parts.len()
            invariant
                j <= parts@.len(),
                pv == views_u8(parts@),
                pv == split_seq(listings@[i as int].1@, 0u8),
                keep == (|p: Seq<u8>| p.len() > 0),
                keys_unique(acc@),
                forall|p: Seq<char>| #[trigger] lookup(acc@, p) is Some <==> (lookup(a0, p) is Some || pv.take(j as int).filter(keep).map_values(
                    |b: Seq<u8>| utf8_lossy(b),
                ).contains(p)),
                forall|p: Seq<char>| #[trigger] lookup(acc@, p) is Some ==> text_views(lookup(acc@, p)->0@).to_set() == (match lookup(a0, p) {
                    Some(v) => text_views(v@).to_set(),
                    None => Set::empty(),
                }).union(if pv.take(j as int).filter(keep).map_values(|b: Seq<u8>| utf8_lossy(b)).contains(p) {
                    set![label@]
                } else {
                    Set::empty()
                }),
            decreases parts@.len() - j,
        {
            proof {
                pv.take(j as int).lemma_filter_push(pv[j as int], keep);
            }
            assert(pv.take(j + 1) =~= pv.take(j as int).push(pv[j as int]));
            if parts[j].len() > 0 {
                let path = lossy_utf8(parts[j].as_slice());
                let ghost before = acc@;
                let ghost fm = pv.take(j as int).filter(keep).map_values(|b: Seq<u8>| utf8_lossy(b));
                assert(pv.take(j + 1).filter(keep).map_values(|b: Seq<u8>| utf8_lossy(b)) =~= fm.push(path@));
                let ghost pathv = path@;
                add_label(&mut acc, path, label);
                proof {
                    assert(fm.push(pathv)[fm.len() as int] == pathv);
                    assert(fm.push(pathv).contains(pathv));
                    assert forall|p: Seq<char>| #[trigger] lookup(acc@, p) is Some <==> (lookup(a0, p) is Some || fm.push(path@).contains(p)) by {
                        if fm.push(path@).contains(p) && p != path@ {
                            let x = choose|x: int| 0 <= x < fm.push(path@).len() && fm.push(path@)[x] == p;
                            assert(fm[x] == p);
                        }
                        if fm.contains(p) {
                            let x = choose|x: int| 0 <= x < fm.len() && fm[x] == p;
                            assert(fm.push(path@)[x] == p);
                        }
                    }
                    assert forall|p: Seq<char>| #[trigger] lookup(acc@, p) is Some implies text_views(lookup(acc@, p)->0@).to_set() == (match lookup(a0, p) {
                        Some(v) => text_views(v@).to_set(),
                        None => Set::empty(),
                    }).union(if fm.push(path@).contains(p) { set![label@] } else { Set::empty() }) by {
                        if fm.push(path@).contains(p) && p != path@ {
                            let x = choose|x: int| 0 <= x < fm.push(path@).len() && fm.push(path@)[x] == p;
                            assert(fm[x] == p);
                        }
                        if fm.contains(p) {
                            let x = choose|x: int| 0 <= x < fm.len() && fm[x] == p;
                            assert(fm.push(path@)[x] == p);
                        }
                    }
                }
            } else {
                assert(pv.take(j + 1).filter(keep) == pv.take(j as int).filter(keep));
            }
            j += 1;
        }
        assert(pv.take(j as int) =~= pv);
        assert(pv.filter(keep).map_values(|b: Seq<u8>| utf8_lossy(b)) == names);
        proof {
            assert forall|p: Seq<char>| #[trigger] lookup(acc@, p) is Some <==> all_listed(post).contains(p) by {
                if all_listed(post).contains(p) {
                    let x = choose|x: int| 0 <= x < post.len() && listed_paths((#[trigger] post[x]).1).contains(p);
                    if x < i {
                        assert(post[x] == pre[x]);
                        assert(all_listed(pre).contains(p));
                    }
                }
                if all_listed(pre).contains(p) {
                    let x = choose|x: int| 0 <= x < pre.len() && listed_paths((#[trigger] pre[x]).1).contains(p);
                    assert(post[x] == pre[x]);
                }
                if names.contains(p) {
                    assert(post[i as int] == lv[i as int]);
                }
            }
            assert forall|p: Seq<char>| #[trigger] lookup(acc@, p) is Some implies text_views(lookup(acc@, p)->0@).to_set() == labels_for(post, p) by {
                assert(labels_for(post, p) =~= labels_for(pre, p).union(if names.contains(p) { set![label@] } else { Set::empty() })) by {
                    assert forall|l: Seq<char>| labels_for(post, p).contains(l) <==> labels_for(pre, p).union(if names.contains(p) { set![label@] } else { Set::empty() }).contains(l) by {
                        if labels_for(post, p).contains(l) {
                            let x = choose|x: int| 0 <= x < post.len() && (#[trigger] post[x]).0 == l && listed_paths(post[x].1).contains(p);
                            if x < i {
                                assert(post[x] == pre[x]);
                            } else {
                                assert(post[x] == lv[i as int]);
                            }
                        }
                        if labels_for(pre, p).contains(l) {
                            let x = choose|x: int| 0 <= x < pre.len() && (#[trigger] pre[x]).0 == l && listed_paths(pre[x].1).contains(p);
                            assert(post[x] == pre[x]);
                        }
                        if names.contains(p) && l == label@ {
                            assert(post[i as int] == lv[i as int]);
                        }
                    }
                }
                match lookup(a0, p) {
                    Some(v) => {},
                    None => {
                        assert(!all_listed(pre).contains(p));
                        assert(labels_for(pre, p) =~= Set::empty()) by {
                            if exists|l: Seq<char>| labels_for(pre, p).contains(l) {
                                let l = choose|l: Seq<char>| labels_for(pre, p).contains(l);
                                let x = choose|x: int| 0 <= x < pre.len() && (#[trigger] pre[x]).0 == l && listed_paths(pre[x].1).contains(p);
                            }
                        }
                    },
                }
            }
        }
        i += 1;
    }
    assert(lv.take(i as int) =~= lv);
    let mut out: Vec<(String, Vec<String>)> = Vec::new();
    let mut k: usize = 0;
    while k < acc.len()
        invariant
            k <= acc@.len(),
            keys_unique(acc@),
            out@.len() == k,
            forall|q: int| 0 <= q < k ==> (#[trigger] out@[q]).0@ == acc@[q].0@,
            forall|q: int| 0 <= q < k ==> strictly_sorted(text_views((#[trigger] out@[q]).1@)) && text_views(out@[q].1@).to_set()
                == text_views(acc@[q].1@).to_set(),
        decreases acc@.len() - k,
    {
        let labels = sorted_unique(&acc[k].1);
        assert(text_views(labels@).to_set() =~= text_views(acc@[k as int].1@).to_set());
        out.push((acc[k].0.clone(), labels));
        k += 1;
    }
    proof {
        assert forall|a: int, b: int| 0 <= a < b < out@.len() implies #[trigger] out@[a].0@ != #[trigger] out@[b].0@ by {
            assert(acc@[a].0@ != acc@[b].0@);
        }
        lemma_same_keys(out@, acc@);
        assert forall|q: int| 0 <= q < out@.len() implies strictly_sorted(text_views((#[trigger] out@[q]).1@)) && text_views(out@[q].1@).to_set()
            == labels_for(lv, out@[q].0@) by {
            let p = out@[q].0@;
            crate::keyed::lemma_lookup_unique(acc@, q);
            assert(lookup(acc@, p) is Some);
        }
    }
    out
}

/// Same keys at the same positions: the same keys are found.
proof fn lemma_same_keys(a: Seq<(String, Vec<String>)>, b: Seq<(String, Vec<String>)>)
    requires
        a.len() == b.len(),
        forall|q: int| 0 <= q < a.len() ==> (#[trigger] a[q]).0@ == b[q].0@,
    ensures
        forall|p: Seq<char>| #[trigger] lookup(a, p) is Some <==> lookup(b, p) is Some,
    decreases a.len(),
{
    if a.len() > 0 {
        assert forall|q: int| 0 <= q < a.drop_first().len() implies (#[trigger] a.drop_first()[q]).0@ == b.drop_first()[q].0@ by {
            assert(a.drop_first()[q] == a[q + 1] && b.drop_first()[q] == b[q + 1]);
        }
        lemma_same_keys(a.drop_first(), b.drop_first());
        assert(a[0].0@ == b[0].0@);
        assert forall|p: Seq<char>| #[trigger] lookup(a, p) is Some <==> lookup(b, p) is Some by {
            if a[0].0@ != p {
                assert(lookup(a, p) == lookup(a.drop_first(), p));
                assert(lookup(b, p) == lookup(b.drop_first(), p));
            }
        }
    }
}

/// Add `label` to the labels of `path`, once.
fn add_label(acc: &mut Vec<(String, Vec<String>)>, path: String, label: &String)
    requires
        keys_unique(old(acc)@),
    ensures
        keys_unique(final(acc)@),
        forall|p: Seq<char>| #[trigger] lookup(final(acc)@, p) is Some <==> (lookup(old(acc)@, p) is Some || p == path@),
        forall|p: Seq<char>| #[trigger] lookup(final(acc)@, p) is Some ==> text_views(lookup(final(acc)@, p)->0@).to_set() == (match lookup(old(acc)@, p) {
            Some(v) => text_views(v@).to_set(),
            None => Set::empty(),
        }).union(if p == path@ { set![label@] } else { Set::empty() }),
{
    let ghost before = acc@;
    let have = match crate::keyed::get(acc, &path) {
        Some(v) => crate::ordered::contains_text(v, label.as_str()),
        None => false,
    };
    if have {
        proof {
            assert forall|p: Seq<char>| #[trigger] lookup(acc@, p) is Some implies text_views(lookup(acc@, p)->0@).to_set() == (match lookup(before, p) {
                Some(v) => text_views(v@).to_set(),
                None => Set::empty(),
            }).union(if p == path@ { set![label@] } else { Set::empty() }) by {
                if p == path@ {
                    let v = lookup(before, p)->0;
                    assert(text_views(v@).contains(label@));
                    assert(text_views(v@).to_set().union(set![label@]) =~= text_views(v@).to_set());
                } else {
                    assert(text_views(lookup(acc@, p)->0@).to_set().union(Set::empty()) =~= text_views(lookup(acc@, p)->0@).to_set());
                }
            }
        }
    } else {
        let ghost pv = path@;
        let x = label.clone();
        assert(x@ == label@);
        crate::keyed::append_to(acc, path, x);
        proof {
            assert forall|p: Seq<char>| #[trigger] lookup(acc@, p) is Some <==> (lookup(before, p) is Some || p == pv) by {}
            assert forall|p: Seq<char>| #[trigger] lookup(acc@, p) is Some implies text_views(lookup(acc@, p)->0@).to_set() == (match lookup(before, p) {
                Some(v) => text_views(v@).to_set(),
                None => Set::empty(),
            }).union(if p == pv { set![label@] } else { Set::empty() }) by {
                if p == pv {
                    let nv = lookup(acc@, p)->0;
                    let ov: Seq<String> = match lookup(before, p) {
                        Some(o) => o@,
                        None => Seq::empty(),
                    };
                    assert(text_views(nv@) =~= text_views(ov).push(label@));
                    text_views(ov).lemma_push_to_set_commute(label@);
                    assert(text_views(nv@).to_set() =~= text_views(ov).to_set().insert(label@));
                    match lookup(before, p) {
                        Some(o) => {
                            assert(text_views(ov).to_set().insert(label@) =~= text_views(o@).to_set().union(set![label@]));
                        },
                        None => {
                            assert(text_views(ov).to_set() =~= Set::<Seq<char>>::empty());
                            assert(Set::<Seq<char>>::empty().insert(label@) =~= Set::<Seq<char>>::empty().union(set![label@]));
                        },
                    }
                } else {
                    assert(text_views(lookup(acc@, p)->0@).to_set().union(Set::empty()) =~= text_views(lookup(acc@, p)->0@).to_set());
                }
            }
        }
    }
}

} // verus!
