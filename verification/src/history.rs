//! The lifecycle facts one `git log --name-status -z` pass yields per file:
//! dates, authors, commit counts, renames, its most frequent author, and the
//! files it most often changes together with.

use crate::ordered::{sorted_unique, strictly_sorted, text_less, text_lt, text_views};
use crate::blame::{opt_view, text_map};
use crate::text::{chars_of, lossy_utf8, split_bytes, split_seq, starts_with, str_eq, string_of_range, utf8_lossy, views_u8};
use vstd::prelude::*;

verus! {

// ---------------------------------------------------------------- counters

/// An insertion-ordered counter: each key once, with its count.
pub type Counts = Seq<(Seq<char>, int)>;

pub open spec fn counts_view(c: Seq<(String, i64)>) -> Counts {
    c.map_values(|e: (String, i64)| (e.0@, e.1 as int))
}

/// The first index holding `k`.
pub open spec fn key_index(c: Counts, k: Seq<char>) -> Option<int>
    decreases c.len(),
{
    if c.len() == 0 {
        None
    } else if c[0].0 == k {
        Some(0)
    } else {
        match key_index(c.drop_first(), k) {
            Some(i) => Some(i + 1),
            None => None,
        }
    }
}

/// Count `k` once more: a known key is incremented in place, a new one is
/// appended with count 1.
pub open spec fn bump(c: Counts, k: Seq<char>) -> Counts {
    match key_index(c, k) {
        Some(i) => c.update(i, (k, c[i].1 + 1)),
        None => c.push((k, 1)),
    }
}

proof fn lemma_key_index(c: Counts, k: Seq<char>, i: int)
    requires
        0 <= i <= c.len(),
        forall|j: int| 0 <= j < i ==> (#[trigger] c[j]).0 != k,
    ensures
        i < c.len() && c[i].0 == k ==> key_index(c, k) == Some(i),
        i == c.len() ==> key_index(c, k) is None,
    decreases c.len(),
{
    if c.len() > 0 && i > 0 {
        lemma_key_index(c.drop_first(), k, i - 1);
    }
}

proof fn lemma_key_index_none(c: Counts, k: Seq<char>)
    requires
        forall|j: int| 0 <= j < c.len() ==> (#[trigger] c[j]).0 != k,
    ensures
        key_index(c, k) is None,
    decreases c.len(),
{
    if c.len() > 0 {
        lemma_key_index_none(c.drop_first(), k);
    }
}

/// Count `k` in `c`; true when `k` was new.
fn count_key(c: &mut Vec<(String, i64)>, k: &str) -> (fresh: bool)
    requires
        forall|j: int| 0 <= j < old(c)@.len() ==> 0 <= (#[trigger] old(c)@[j]).1 < i64::MAX,
    ensures
        counts_view(final(c)@) == bump(counts_view(old(c)@), k@),
        fresh == (key_index(counts_view(old(c)@), k@) is None),
{
    let ghost c0 = counts_view(c@);
    let mut i: usize = 0;
    while i < c.len()
        invariant
            i <= c.len(),
            c@ == old(c)@,
            c0 == counts_view(c@),
            forall|j: int| 0 <= j < i ==> (#[trigger] c0[j]).0 != k@,
            forall|j: int| 0 <= j < c@.len() ==> 0 <= (#[trigger] c@[j]).1 < i64::MAX,
        decreases c.len() - i,
    {
        assert(c0[i as int] == (c@[i as int].0@, c@[i as int].1 as int));
        if str_eq(c[i].0.as_str(), k) {
            proof {
                lemma_key_index(c0, k@, i as int);
            }
            let n = c[i].1 + 1;
            let key = c[i].0.clone();
            c.set(i, (key, n));
            assert(counts_view(c@) =~= bump(c0, k@));
            return false;
        }
        i += 1;
    }
    proof {
        lemma_key_index_none(c0, k@);
    }
    c.push((k.to_owned(), 1));
    assert(counts_view(c@) =~= bump(c0, k@));
    true
}

/// The first index of a greatest count.
pub open spec fn best_index(c: Counts) -> int
    decreases c.len(),
{
    if c.len() <= 1 {
        0
    } else {
        let j = best_index(c.drop_last());
        if c.last().1 > c[j].1 {
            c.len() - 1
        } else {
            j
        }
    }
}

/// The `n` most counted keys, greatest count first, ties to the key counted
/// first.
pub open spec fn most_common(c: Counts, n: nat) -> Counts
    decreases n,
{
    if n == 0 || c.len() == 0 {
        Seq::empty()
    } else {
        let b = best_index(c);
        seq![c[b]] + most_common(c.remove(b), (n - 1) as nat)
    }
}

proof fn lemma_best_index_bounds(c: Counts)
    requires
        c.len() > 0,
    ensures
        0 <= best_index(c) < c.len(),
    decreases c.len(),
{
    if c.len() > 1 {
        lemma_best_index_bounds(c.drop_last());
    }
}

fn best_of(c: &Vec<(String, i64)>) -> (b: usize)
    requires
        c@.len() > 0,
    ensures
        b as int == best_index(counts_view(c@)),
{
    let ghost cv = counts_view(c@);
    let mut b: usize = 0;
    let mut i: usize = 1;
    while i < c.len()
        invariant
            1 <= i <= c.len(),
            cv == counts_view(c@),
            b as int == best_index(cv.take(i as int)),
            b < i,
        decreases c.len() - i,
    {
        proof {
            assert(cv.take(i + 1).drop_last() =~= cv.take(i as int));
            lemma_best_index_bounds(cv.take(i as int));
        }
        if c[i].1 > c[b].1 {
            b = i;
        }
        i += 1;
    }
    assert(cv.take(i as int) =~= cv);
    b
}

/// The `n` most counted keys of `c`.
fn most_common_n(c: &Vec<(String, i64)>, n: usize) -> (r: Vec<(String, i64)>)
    ensures
        counts_view(r@) == most_common(counts_view(c@), n as nat),
{
    let mut rest: Vec<(String, i64)> = Vec::new();
    let mut i: usize = 0;
    while i < c.len()
        invariant
            i <= c.len(),
            rest@.len() == i,
            counts_view(rest@) == counts_view(c@).take(i as int),
        decreases c.len() - i,
    {
        let e = (c[i].0.clone(), c[i].1);
        assert(counts_view(c@)[i as int] == (e.0@, e.1 as int));
        rest.push(e);
        assert(counts_view(rest@) =~= counts_view(c@).take(i + 1));
        i += 1;
    }
    assert(counts_view(c@).take(i as int) =~= counts_view(c@));
    let ghost whole = most_common(counts_view(c@), n as nat);
    let mut out: Vec<(String, i64)> = Vec::new();
    let mut k: usize = 0;
    while k < n && rest.len() > 0
        invariant
            k <= n,
            counts_view(out@) + most_common(counts_view(rest@), (n - k) as nat) == whole,
        decreases n - k,
    {
        let b = best_of(&rest);
        proof {
            lemma_best_index_bounds(counts_view(rest@));
        }
        let ghost rv = counts_view(rest@);
        let e = rest.remove(b);
        assert(counts_view(rest@) =~= rv.remove(b as int));
        assert(counts_view(out@.push(e)) =~= counts_view(out@) + seq![rv[b as int]]);
        out.push(e);
        k += 1;
    }
    assert(most_common(counts_view(rest@), (n - k) as nat) =~= Seq::<(Seq<char>, int)>::empty());
    assert(counts_view(out@) + Seq::<(Seq<char>, int)>::empty() =~= counts_view(out@));
    out
}


/// How often each item occurs, in first-seen order.
pub open spec fn tally(items: Seq<Seq<char>>) -> Counts
    decreases items.len(),
{
    if items.len() == 0 {
        Seq::empty()
    } else {
        bump(tally(items.drop_last()), items.last())
    }
}

/// Each distinct item with how often it occurs, most frequent first; ties
/// keep first-seen order.
pub fn ranked_by_edge_count(items: &Vec<String>) -> (r: Vec<(String, i64)>)
    requires
        items@.len() < i64::MAX,
    ensures
        counts_view(r@) == most_common(tally(text_views(items@)), tally(text_views(items@)).len()),
{
    let ghost iv = text_views(items@);
    let mut c: Vec<(String, i64)> = Vec::new();
    let mut i: usize = 0;
    assert(iv.take(0) =~= Seq::<Seq<char>>::empty());
    assert(counts_view(c@) =~= Seq::<(Seq<char>, int)>::empty());
    while i < items.len()
        invariant
            i <= items@.len(),
            items@.len() < i64::MAX,
            iv == text_views(items@),
            counts_view(c@) == tally(iv.take(i as int)),
            counts_at_most(counts_view(c@), i as int),
        decreases items@.len() - i,
    {
        assert(iv.take(i + 1).drop_last() =~= iv.take(i as int));
        assert(iv.take(i + 1).last() == items@[i as int]@);
        proof {
            lemma_bump_bound(counts_view(c@), items@[i as int]@, i as int);
            assert forall|j: int| 0 <= j < c@.len() implies 0 <= (#[trigger] c@[j]).1 < i64::MAX by {
                assert(counts_view(c@)[j].1 == c@[j].1 as int);
            }
        }
        count_key(&mut c, items[i].as_str());
        i += 1;
    }
    assert(iv.take(i as int) =~= iv);
    let n = c.len();
    most_common_n(&c, n)
}


// ---------------------------------------------------------------- co-change

/// Count every other path of `bs` as a partner of `a`; also how many of
/// them were new partners.
pub open spec fn add_partners(c: Counts, a: Seq<char>, bs: Seq<Seq<char>>) -> (Counts, nat)
    decreases bs.len(),
{
    if bs.len() == 0 {
        (c, 0)
    } else {
        let (c1, n1) = add_partners(c, a, bs.drop_last());
        let b = bs.last();
        if b == a {
            (c1, n1)
        } else {
            (bump(c1, b), n1 + if key_index(c1, b) is None { 1nat } else { 0nat })
        }
    }
}

/// Pair every path of `as_` with every other path of `all`.
pub open spec fn pair_all(
    co: Map<Seq<char>, Counts>,
    pairs: nat,
    as_: Seq<Seq<char>>,
    all: Seq<Seq<char>>,
) -> (Map<Seq<char>, Counts>, nat)
    decreases as_.len(),
{
    if as_.len() == 0 {
        (co, pairs)
    } else {
        let (co1, p1) = pair_all(co, pairs, as_.drop_last(), all);
        let a = as_.last();
        let c0 = if co1.contains_key(a) { co1[a] } else { Seq::empty() };
        let (c2, n) = add_partners(c0, a, all);
        (co1.insert(a, c2), p1 + n)
    }
}

/// The most paths one commit may have and still count toward co-change.
pub open spec fn commit_cap() -> nat {
    100
}

/// The most distinct pairs the walk retains.
pub open spec fn pair_cap() -> nat {
    1_000_000
}

/// Close a commit: its paths count as changed together, unless it touched
/// one path only or more than the commit cap, or the pair cap is reached.
pub open spec fn flush_spec(co: Map<Seq<char>, Counts>, pairs: nat, paths: Seq<Seq<char>>, files: nat) -> (Map<Seq<char>, Counts>, nat) {
    if paths.len() <= 1 || files > commit_cap() || pairs >= pair_cap() {
        (co, pairs)
    } else {
        pair_all(co, pairs, paths, paths)
    }
}

pub open spec fn counts_at_most(c: Counts, m: int) -> bool {
    forall|j: int| 0 <= j < c.len() ==> 0 <= (#[trigger] c[j]).1 <= m
}

proof fn lemma_bump_bound(c: Counts, k: Seq<char>, m: int)
    requires
        counts_at_most(c, m),
        m >= 0,
    ensures
        counts_at_most(bump(c, k), m + 1),
        forall|j: int| 0 <= j < bump(c, k).len() && (#[trigger] bump(c, k)[j]).0 != k ==> j < c.len() && bump(c, k)[j] == c[j],
        key_index(c, k) matches Some(i) ==> 0 <= i < c.len() && c[i].0 == k && bump(c, k)[i].1 == c[i].1 + 1,
        bump(c, k).len() == c.len() + if key_index(c, k) is None { 1int } else { 0int },
{
    lemma_key_index_found(c, k);
}

proof fn lemma_key_index_found(c: Counts, k: Seq<char>)
    ensures
        key_index(c, k) matches Some(i) ==> 0 <= i < c.len() && c[i].0 == k,
    decreases c.len(),
{
    if c.len() > 0 {
        lemma_key_index_found(c.drop_first(), k);
    }
}

/// Per partner: a key counted in this pass rises by one at most.
proof fn lemma_add_partners_bound(c: Counts, a: Seq<char>, bs: Seq<Seq<char>>, m: int)
    requires
        counts_at_most(c, m),
        m >= 0,
        bs.no_duplicates(),
    ensures
        forall|j: int| 0 <= j < add_partners(c, a, bs).0.len() ==> 0 <= (#[trigger] add_partners(c, a, bs).0[j]).1
            <= m + if bs.contains(add_partners(c, a, bs).0[j].0) { 1int } else { 0int },
        forall|j: int| 0 <= j < add_partners(c, a, bs).0.len() && !bs.contains((#[trigger] add_partners(c, a, bs).0[j]).0)
            ==> j < c.len(),
        add_partners(c, a, bs).1 <= bs.len(),
    decreases bs.len(),
{
    if bs.len() > 0 {
        let bs1 = bs.drop_last();
        assert(bs1.no_duplicates());
        lemma_add_partners_bound(c, a, bs1, m);
        let (c1, n1) = add_partners(c, a, bs1);
        let b = bs.last();
        assert forall|x: Seq<char>| bs1.contains(x) implies bs.contains(x) by {
            let i = choose|i: int| 0 <= i < bs1.len() && bs1[i] == x;
            assert(bs[i] == x);
        }
        assert(bs.contains(b)) by {
            assert(bs[bs.len() - 1] == b);
        }
        assert(!bs1.contains(b)) by {
            if bs1.contains(b) {
                let i = choose|i: int| 0 <= i < bs1.len() && bs1[i] == b;
                assert(bs[i] == bs[bs.len() - 1]);
            }
        }
        assert forall|x: Seq<char>| bs.contains(x) && x != b implies bs1.contains(x) by {
            let i = choose|i: int| 0 <= i < bs.len() && bs[i] == x;
            assert(i != bs.len() - 1);
            assert(bs1[i] == x);
        }
        if b != a {
            lemma_key_index_found(c1, b);
            let c2 = bump(c1, b);
            assert forall|j: int| 0 <= j < c2.len() implies 0 <= (#[trigger] c2[j]).1
                <= m + if bs.contains(c2[j].0) { 1int } else { 0int } by {
                if key_index(c1, b) is None {
                    if j < c1.len() {
                        assert(c2[j] == c1[j]);
                    }
                } else {
                    let i = key_index(c1, b)->0;
                    if j != i {
                        assert(c2[j] == c1[j]);
                    }
                }
            }
            assert forall|j: int| 0 <= j < c2.len() && !bs.contains((#[trigger] c2[j]).0) implies j < c.len() by {
                if key_index(c1, b) is None {
                    if j == c1.len() {
                        assert(c2[j].0 == b);
                    } else {
                        assert(c2[j] == c1[j]);
                    }
                } else {
                    let i = key_index(c1, b)->0;
                    if j != i {
                        assert(c2[j] == c1[j]);
                    }
                }
            }
        }
    }
}

pub open spec fn co_at_most(co: Map<Seq<char>, Counts>, m: int) -> bool {
    forall|k: Seq<char>| #[trigger] co.contains_key(k) ==> counts_at_most(co[k], m)
}

proof fn lemma_pair_all_bound(
    co: Map<Seq<char>, Counts>,
    pairs: nat,
    as_: Seq<Seq<char>>,
    all: Seq<Seq<char>>,
    m: int,
)
    requires
        co_at_most(co, m),
        m >= 0,
        as_.no_duplicates(),
        all.no_duplicates(),
    ensures
        co_at_most(pair_all(co, pairs, as_, all).0, m + 1),
        forall|k: Seq<char>| !as_.contains(k) && #[trigger] pair_all(co, pairs, as_, all).0.contains_key(k) ==> co.contains_key(k) && pair_all(co, pairs, as_, all).0[k] == co[k],
        pair_all(co, pairs, as_, all).1 <= pairs + as_.len() * all.len(),
    decreases as_.len(),
{
    if as_.len() > 0 {
        let as1 = as_.drop_last();
        assert(as1.no_duplicates());
        lemma_pair_all_bound(co, pairs, as1, all, m);
        let (co1, p1) = pair_all(co, pairs, as1, all);
        let a = as_.last();
        assert(!as1.contains(a)) by {
            if as1.contains(a) {
                let i = choose|i: int| 0 <= i < as1.len() && as1[i] == a;
                assert(as_[i] == as_[as_.len() - 1]);
            }
        }
        let c0 = if co1.contains_key(a) { co1[a] } else { Seq::empty() };
        assert(counts_at_most(c0, m));
        lemma_add_partners_bound(c0, a, all, m);
        assert forall|k: Seq<char>| !as_.contains(k) && #[trigger] co1.insert(a, add_partners(c0, a, all).0).contains_key(k) implies co.contains_key(k) && co1.insert(a, add_partners(c0, a, all).0)[k] == co[k] by {
            assert(as_[as_.len() - 1] == a);
            assert(k != a);
            if as1.contains(k) {
                let i = choose|i: int| 0 <= i < as1.len() && as1[i] == k;
                assert(as_[i] == k);
            }
        }
        assert(p1 + add_partners(c0, a, all).1 <= pairs + as_.len() * all.len()) by (nonlinear_arith)
            requires
                p1 <= pairs + as1.len() * all.len(),
                add_partners(c0, a, all).1 <= all.len(),
                as1.len() + 1 == as_.len(),
        ;
    }
}

pub open spec fn counter_map(v: Seq<(String, Vec<(String, i64)>)>) -> Map<Seq<char>, Counts> {
    Map::new(
        |k: Seq<char>| crate::keyed::lookup(v, k) is Some,
        |k: Seq<char>| counts_view(crate::keyed::lookup(v, k)->0@),
    )
}

fn copy_counts(c: &Vec<(String, i64)>) -> (r: Vec<(String, i64)>)
    ensures
        counts_view(r@) == counts_view(c@),
{
    let mut r: Vec<(String, i64)> = Vec::new();
    let mut i: usize = 0;
    while i < c.len()
        invariant
            i <= c.len(),
            r@.len() == i,
            counts_view(r@) == counts_view(c@).take(i as int),
        decreases c.len() - i,
    {
        let e = (c[i].0.clone(), c[i].1);
        assert(counts_view(c@)[i as int] == (e.0@, e.1 as int));
        r.push(e);
        assert(counts_view(r@) =~= counts_view(c@).take(i + 1));
        i += 1;
    }
    assert(counts_view(c@).take(i as int) =~= counts_view(c@));
    r
}

pub open spec fn distinct_texts(v: Seq<String>) -> bool {
    text_views(v).no_duplicates()
}

/// Close the commit whose paths are `paths` (`files` of them in all).
fn flush_co(
    co: &mut Vec<(String, Vec<(String, i64)>)>,
    pairs: &mut usize,
    paths: &Vec<String>,
    files: usize,
    Ghost(m): Ghost<int>,
)
    requires
        crate::keyed::keys_unique(old(co)@),
        co_at_most(counter_map(old(co)@), m),
        0 <= m < i64::MAX - 2,
        distinct_texts(paths@),
        paths@.len() <= commit_cap(),
        *old(pairs) < pair_cap() + commit_cap() * commit_cap(),
    ensures
        crate::keyed::keys_unique(final(co)@),
        (counter_map(final(co)@), *final(pairs) as nat) == flush_spec(counter_map(old(co)@), *old(pairs) as nat, text_views(paths@), files as nat),
        co_at_most(counter_map(final(co)@), m + 1),
        *final(pairs) < pair_cap() + commit_cap() * commit_cap(),
{
    let ghost pv = text_views(paths@);
    let ghost co0 = counter_map(co@);
    let ghost p0 = *pairs as nat;
    if paths.len() <= 1 || files > 100 || *pairs >= 1_000_000 {
        proof {
            assert forall|k: Seq<char>| #[trigger] co0.contains_key(k) implies counts_at_most(co0[k], m + 1) by {
                assert(counts_at_most(co0[k], m));
            }
        }
        return;
    }
    proof {
        lemma_pair_all_bound(co0, p0, pv, pv, m);
    }
    let mut ia: usize = 0;
    while ia < paths.len()
        invariant
            ia <= paths.len(),
            pv == text_views(paths@),
            pv.no_duplicates(),
            pv.len() <= commit_cap(),
            co0 == counter_map(old(co)@),
            co_at_most(co0, m),
            0 <= m < i64::MAX - 2,
            p0 < pair_cap(),
            crate::keyed::keys_unique(co@),
            (counter_map(co@), *pairs as nat) == pair_all(co0, p0, pv.take(ia as int), pv),
            *pairs as nat <= p0 + ia * pv.len(),
        decreases paths.len() - ia,
    {
        let a = &paths[ia];
        let ghost pre = pv.take(ia as int);
        assert(pv.take(ia + 1).drop_last() =~= pre);
        assert(pv.take(ia + 1).last() == a@);
        assert(pre.no_duplicates());
        proof {
            lemma_pair_all_bound(co0, p0, pre, pv, m);
        }
        let mut counter: Vec<(String, i64)> = match crate::keyed::get(co, a) {
            Some(c) => copy_counts(c),
            None => Vec::new(),
        };
        let ghost cm = counter_map(co@);
        let ghost c0 = if cm.contains_key(a@) { cm[a@] } else { Seq::<(Seq<char>, int)>::empty() };
        assert(counts_view(counter@) == c0);
        assert(counts_at_most(c0, m + 1));
        let ghost pairs_a = *pairs as nat;
        let mut ib: usize = 0;
        while ib < paths.len()
            invariant
                ib <= paths.len(),
                pv == text_views(paths@),
                pv.no_duplicates(),
                pv.len() <= commit_cap(),
                0 <= m < i64::MAX - 2,
                counts_at_most(c0, m + 1),
                (counts_view(counter@), (*pairs - pairs_a) as nat) == add_partners(c0, a@, pv.take(ib as int)),
                *pairs >= pairs_a,
                pairs_a <= p0 + ia * pv.len(),
                p0 < pair_cap(),
                ia < pv.len(),
            decreases paths.len() - ib,
        {
            let b = &paths[ib];
            let ghost preb = pv.take(ib as int);
            assert(pv.take(ib + 1).drop_last() =~= preb);
            assert(pv.take(ib + 1).last() == b@);
            proof {
                assert(preb.no_duplicates());
                lemma_add_partners_bound(c0, a@, preb, m + 1);
                assert(add_partners(c0, a@, preb).1 <= ib);
                assert(ia * pv.len() + ib + 1 <= commit_cap() * commit_cap()) by (nonlinear_arith)
                    requires ia < pv.len(), ib < pv.len(), pv.len() <= commit_cap();
            }
            if !str_eq(a.as_str(), b.as_str()) {
                proof {
                    assert forall|j: int| 0 <= j < counter@.len() implies 0 <= (#[trigger] counter@[j]).1 < i64::MAX by {
                        assert(counts_view(counter@)[j].1 == counter@[j].1);
                        assert(add_partners(c0, a@, preb).0[j] == counts_view(counter@)[j]);
                    }
                }
                if count_key(&mut counter, b.as_str()) {
                    *pairs = *pairs + 1;
                }
            }
            ib += 1;
        }
        assert(pv.take(ib as int) =~= pv);
        let ghost before = co@;
        crate::keyed::insert(co, a.clone(), counter);
        proof {
            assert(counter_map(co@) =~= cm.insert(a@, add_partners(c0, a@, pv).0));
            lemma_add_partners_bound(c0, a@, pv, m + 1);
            assert(add_partners(c0, a@, pv).1 <= pv.len());
            assert(p0 + ia * pv.len() + pv.len() == p0 + (ia + 1) * pv.len()) by (nonlinear_arith);
        }
        ia += 1;
    }
    assert(pv.take(ia as int) =~= pv);
    proof {
        assert(p0 + pv.len() * pv.len() < pair_cap() + commit_cap() * commit_cap()) by (nonlinear_arith)
            requires p0 < pair_cap(), pv.len() <= commit_cap();
    }
}


// ---------------------------------------------------------------- the walk

/// What the walk knows of one file so far.
pub struct EntryV {
    pub last_modified: Option<Seq<char>>,
    pub last_author: Option<Seq<char>>,
    pub last_subject: Option<Seq<char>>,
    pub first_seen: Option<Seq<char>>,
    pub commit_count: int,
    pub commits_30d: int,
    pub rename_from: Option<Seq<char>>,
}

/// The walk's state: commits seen, per-file facts, rename aliases, author
/// and co-change counters, pairs held, the commit being read (date, author,
/// subject, its paths and file count, whether it is a graft, whether it is
/// recent).
pub struct Walk {
    pub seen: nat,
    pub out: Map<Seq<char>, EntryV>,
    pub aliases: Map<Seq<char>, Seq<char>>,
    pub authors: Map<Seq<char>, Counts>,
    pub co: Map<Seq<char>, Counts>,
    pub pairs: nat,
    pub date: Option<Seq<char>>,
    pub author: Option<Seq<char>>,
    pub subject: Option<Seq<char>>,
    pub paths: Seq<Seq<char>>,
    pub files: nat,
    pub skip: bool,
    pub recent: bool,
}

pub open spec fn walk_init() -> Walk {
    Walk {
        seen: 0,
        out: Map::empty(),
        aliases: Map::empty(),
        authors: Map::empty(),
        co: Map::empty(),
        pairs: 0,
        date: None,
        author: None,
        subject: None,
        paths: Seq::empty(),
        files: 0,
        skip: false,
        recent: false,
    }
}

/// `s` without its leading newlines.
pub open spec fn trim_newlines(s: Seq<char>) -> Seq<char>
    decreases s.len(),
{
    if s.len() > 0 && s[0] == '\n' {
        trim_newlines(s.drop_first())
    } else {
        s
    }
}

pub open spec fn index_of(s: Seq<char>, c: char) -> Option<int>
    decreases s.len(),
{
    if s.len() == 0 {
        None
    } else if s[0] == c {
        Some(0)
    } else {
        match index_of(s.drop_first(), c) {
            Some(k) => Some(k + 1),
            None => None,
        }
    }
}

/// `s.splitn(n, c)`: at most `n` parts, the last holding the rest.
pub open spec fn splitn(s: Seq<char>, c: char, n: nat) -> Seq<Seq<char>>
    decreases n,
{
    if n <= 1 {
        seq![s]
    } else {
        match index_of(s, c) {
            None => seq![s],
            Some(k) => seq![s.take(k)] + splitn(s.skip(k + 1), c, (n - 1) as nat),
        }
    }
}

/// Close the current commit's co-change.
pub open spec fn close(w: Walk) -> Walk {
    let (co, pairs) = flush_spec(w.co, w.pairs, w.paths, w.files);
    Walk {
        seen: w.seen,
        out: w.out,
        aliases: w.aliases,
        authors: w.authors,
        co,
        pairs,
        date: w.date,
        author: w.author,
        subject: w.subject,
        paths: w.paths,
        files: w.files,
        skip: w.skip,
        recent: w.recent,
    }
}

/// A `COMMIT|<sha>|<date>|<author>|<subject>` header opens a commit: a
/// graft's changes are skipped, and the commit is recent when its date is
/// on or after the cutoff.
pub open spec fn open_commit(w: Walk, rest: Seq<char>, grafts: Seq<Seq<char>>, cutoff: Seq<char>) -> Walk {
    let parts = splitn(rest, '|', 4);
    let (date, author, subject) = if parts.len() == 4 {
        (Some(parts[1]), Some(parts[2]), Some(parts[3]))
    } else if parts.len() == 3 {
        (Some(parts[1]), Some(parts[2]), None)
    } else {
        (w.date, w.author, w.subject)
    };
    Walk {
        seen: w.seen + 1,
        out: w.out,
        aliases: w.aliases,
        authors: w.authors,
        co: w.co,
        pairs: w.pairs,
        date,
        author,
        subject,
        paths: Seq::empty(),
        files: 0,
        skip: grafts.contains(parts[0]),
        recent: match date {
            Some(d) => !text_lt(d, cutoff),
            None => false,
        },
    }
}

pub open spec fn or_empty(o: Option<Seq<char>>) -> Seq<char> {
    match o {
        Some(s) => s,
        None => Seq::empty(),
    }
}

pub open spec fn counts_of(m: Map<Seq<char>, Counts>, k: Seq<char>) -> Counts {
    if m.contains_key(k) {
        m[k]
    } else {
        Seq::empty()
    }
}

/// The current commit changed `path` (renamed from `from`, if given): its
/// count rises, its oldest date moves back, its author is counted, and it
/// joins the commit's paths while the commit is under the cap.
pub open spec fn touch(w: Walk, path: Seq<char>, from: Option<Seq<char>>) -> Walk {
    let date = or_empty(w.date);
    let base = if w.out.contains_key(path) {
        w.out[path]
    } else {
        EntryV {
            last_modified: Some(date),
            last_author: Some(or_empty(w.author)),
            last_subject: w.subject,
            first_seen: Some(date),
            commit_count: 0,
            commits_30d: 0,
            rename_from: None,
        }
    };
    let e = EntryV {
        last_modified: base.last_modified,
        last_author: base.last_author,
        last_subject: base.last_subject,
        first_seen: Some(date),
        commit_count: base.commit_count + 1,
        commits_30d: base.commits_30d + if w.recent { 1int } else { 0int },
        rename_from: if base.rename_from is None { from } else { base.rename_from },
    };
    let files = w.files + 1;
    Walk {
        seen: w.seen,
        out: w.out.insert(path, e),
        aliases: w.aliases,
        authors: match w.author {
            Some(a) => w.authors.insert(path, bump(counts_of(w.authors, path), a)),
            None => w.authors,
        },
        co: w.co,
        pairs: w.pairs,
        date: w.date,
        author: w.author,
        subject: w.subject,
        paths: if files <= commit_cap() && !w.paths.contains(path) { w.paths.push(path) } else { w.paths },
        files,
        skip: w.skip,
        recent: w.recent,
    }
}

/// A rename or copy from `old` to `path`; `old` henceforth means `path`
/// unless it already meant another.
pub open spec fn renamed(w: Walk, old: Seq<char>, path: Seq<char>) -> Walk {
    let t = touch(w, path, Some(old));
    Walk {
        seen: t.seen,
        out: t.out,
        aliases: if t.aliases.contains_key(old) { t.aliases } else { t.aliases.insert(old, path) },
        authors: t.authors,
        co: t.co,
        pairs: t.pairs,
        date: t.date,
        author: t.author,
        subject: t.subject,
        paths: t.paths,
        files: t.files,
        skip: t.skip,
        recent: t.recent,
    }
}

/// Any other change, recorded under the name the file was renamed to.
pub open spec fn changed(w: Walk, path: Seq<char>) -> Walk {
    let target = if w.aliases.contains_key(path) { w.aliases[path] } else { path };
    touch(w, target, None)
}

pub open spec fn field_text(f: Seq<Seq<u8>>, i: int) -> Seq<char> {
    utf8_lossy(f[i])
}

/// The walk over the NUL-separated fields of the log from field `i`.
pub open spec fn walk(f: Seq<Seq<u8>>, i: int, w: Walk, grafts: Seq<Seq<char>>, cutoff: Seq<char>) -> Walk
    decreases f.len() - i,
{
    if i < 0 || i >= f.len() {
        close(w)
    } else {
        let field = trim_newlines(field_text(f, i));
        if starts_with(field, "COMMIT|"@) {
            walk(f, i + 1, open_commit(close(w), field.skip(7), grafts, cutoff), grafts, cutoff)
        } else if field.len() == 0 || w.date is None {
            walk(f, i + 1, w, grafts, cutoff)
        } else {
            let two = field[0] == 'R' || field[0] == 'C';
            let pf: int = if two { 2 } else { 1 };
            if i + pf >= f.len() {
                close(w)
            } else if w.skip {
                walk(f, i + pf + 1, w, grafts, cutoff)
            } else if field_text(f, i + 1).len() == 0 {
                walk(f, i + 1, w, grafts, cutoff)
            } else if two {
                walk(f, i + 3, renamed(w, field_text(f, i + 1), field_text(f, i + 2)), grafts, cutoff)
            } else {
                walk(f, i + 2, changed(w, field_text(f, i + 1)), grafts, cutoff)
            }
        }
    }
}


// ---------------------------------------------------------------- text steps

proof fn lemma_trim_newlines(s: Seq<char>, k: int)
    requires
        0 <= k <= s.len(),
        forall|j: int| 0 <= j < k ==> s[j] == '\n',
        k == s.len() || s[k] != '\n',
    ensures
        trim_newlines(s) == s.skip(k),
    decreases k,
{
    if k > 0 {
        lemma_trim_newlines(s.drop_first(), k - 1);
        assert(s.drop_first().skip(k - 1) =~= s.skip(k));
    } else {
        assert(s.skip(0) =~= s);
    }
}

fn trim_newlines_of(s: &Vec<char>) -> (r: Vec<char>)
    ensures
        r@ == trim_newlines(s@),
{
    let mut k: usize = 0;
    while k < s.len() && s[k] == '\n'
        invariant
            k <= s.len(),
            forall|j: int| 0 <= j < k ==> s@[j] == '\n',
        decreases s.len() - k,
    {
        k += 1;
    }
    proof {
        lemma_trim_newlines(s@, k as int);
    }
    let mut r: Vec<char> = Vec::new();
    let mut i: usize = k;
    while i < s.len()
        invariant
            k <= i <= s.len(),
            r@ == s@.subrange(k as int, i as int),
        decreases s.len() - i,
    {
        r.push(s[i]);
        assert(r@ =~= s@.subrange(k as int, i + 1));
        i += 1;
    }
    assert(s@.subrange(k as int, s.len() as int) =~= s@.skip(k as int));
    r
}

proof fn lemma_index_of(s: Seq<char>, c: char, k: int)
    requires
        0 <= k <= s.len(),
        forall|j: int| 0 <= j < k ==> s[j] != c,
    ensures
        k < s.len() && s[k] == c ==> index_of(s, c) == Some(k),
        k == s.len() ==> index_of(s, c) is None,
    decreases k,
{
    if k > 0 {
        lemma_index_of(s.drop_first(), c, k - 1);
    }
}

fn sub_chars(s: &Vec<char>, from: usize, to: usize) -> (r: Vec<char>)
    requires
        from <= to <= s.len(),
    ensures
        r@ == s@.subrange(from as int, to as int),
{
    let mut r: Vec<char> = Vec::new();
    let mut i: usize = from;
    while i < to
        invariant
            from <= i <= to <= s.len(),
            r@ == s@.subrange(from as int, i as int),
        decreases to - i,
    {
        r.push(s[i]);
        assert(r@ =~= s@.subrange(from as int, i + 1));
        i += 1;
    }
    r
}

/// `s.splitn(n, c)`.
fn splitn_chars(s: &Vec<char>, c: char, n: usize) -> (r: Vec<Vec<char>>)
    requires
        n >= 1,
    ensures
        crate::text::views_char(r@) == splitn(s@, c, n as nat),
        r@.len() >= 1,
{
    let mut parts: Vec<Vec<char>> = Vec::new();
    let mut st: usize = 0;
    let mut done = false;
    assert(s@.skip(0) =~= s@);
    while !done
        invariant
            st <= s.len(),
            parts@.len() < n || done,
            done ==> crate::text::views_char(parts@) == splitn(s@, c, n as nat) && parts@.len() >= 1,
            !done ==> crate::text::views_char(parts@) + splitn(s@.skip(st as int), c, (n - parts@.len()) as nat) == splitn(s@, c, n as nat),
        decreases (if done { 0int } else { 1int }), s.len() - st,
    {
        let ghost rest = s@.skip(st as int);
        let ghost pv = crate::text::views_char(parts@);
        if parts.len() + 1 == n {
            let tail = sub_chars(s, st, s.len());
            assert(tail@ =~= rest);
            parts.push(tail);
            assert(crate::text::views_char(parts@) =~= pv + seq![rest]);
            done = true;
        } else {
            let mut k: usize = st;
            while k < s.len() && s[k] != c
                invariant
                    st <= k <= s.len(),
                    forall|j: int| st <= j < k ==> s@[j] != c,
                decreases s.len() - k,
            {
                k += 1;
            }
            proof {
                lemma_index_of(rest, c, k - st);
            }
            if k == s.len() {
                let tail = sub_chars(s, st, s.len());
                assert(tail@ =~= rest);
                parts.push(tail);
                assert(crate::text::views_char(parts@) =~= pv + seq![rest]);
                done = true;
            } else {
                let head = sub_chars(s, st, k);
                assert(head@ =~= rest.take(k - st));
                assert(rest.skip(k - st + 1) =~= s@.skip(k + 1));
                parts.push(head);
                assert(crate::text::views_char(parts@) =~= pv + seq![rest.take(k - st)]);
                st = k + 1;
            }
        }
    }
    parts
}


// ---------------------------------------------------------------- walk state

/// One file's facts while the walk runs.
struct Entry {
    last_modified: Option<String>,
    last_author: Option<String>,
    last_subject: Option<String>,
    first_seen: Option<String>,
    commit_count: i64,
    commits_30d: i64,
    rename_from: Option<String>,
}

spec fn entry_view(e: Entry) -> EntryV {
    EntryV {
        last_modified: opt_view(e.last_modified),
        last_author: opt_view(e.last_author),
        last_subject: opt_view(e.last_subject),
        first_seen: opt_view(e.first_seen),
        commit_count: e.commit_count as int,
        commits_30d: e.commits_30d as int,
        rename_from: opt_view(e.rename_from),
    }
}

spec fn out_map(v: Seq<(String, Entry)>) -> Map<Seq<char>, EntryV> {
    Map::new(
        |k: Seq<char>| crate::keyed::lookup(v, k) is Some,
        |k: Seq<char>| entry_view(crate::keyed::lookup(v, k)->0),
    )
}

struct WalkExec {
    seen: usize,
    out: Vec<(String, Entry)>,
    aliases: Vec<(String, String)>,
    authors: Vec<(String, Vec<(String, i64)>)>,
    co: Vec<(String, Vec<(String, i64)>)>,
    pairs: usize,
    date: Option<String>,
    author: Option<String>,
    subject: Option<String>,
    paths: Vec<String>,
    files: usize,
    skip: bool,
    recent: bool,
}

spec fn walk_view(s: WalkExec) -> Walk {
    Walk {
        seen: s.seen as nat,
        out: out_map(s.out@),
        aliases: text_map(s.aliases@),
        authors: counter_map(s.authors@),
        co: counter_map(s.co@),
        pairs: s.pairs as nat,
        date: opt_view(s.date),
        author: opt_view(s.author),
        subject: opt_view(s.subject),
        paths: text_views(s.paths@),
        files: s.files as nat,
        skip: s.skip,
        recent: s.recent,
    }
}

/// The state's tables are keyed once per key, and every count it holds is
/// at most `bound` (co-change counts at most the commits seen).
spec fn walk_ok(s: WalkExec, bound: int) -> bool {
    &&& walk_base(s, bound)
    &&& co_at_most(counter_map(s.co@), s.seen as int)
}

/// All of `walk_ok` but the bound on co-change counts.
spec fn walk_base(s: WalkExec, bound: int) -> bool {
    &&& crate::keyed::keys_unique(s.out@)
    &&& crate::keyed::keys_unique(s.aliases@)
    &&& crate::keyed::keys_unique(s.authors@)
    &&& crate::keyed::keys_unique(s.co@)
    &&& forall|k: Seq<char>| #[trigger] out_map(s.out@).contains_key(k) ==>
        0 <= out_map(s.out@)[k].commits_30d <= out_map(s.out@)[k].commit_count <= bound
    &&& co_at_most(counter_map(s.authors@), bound)
    &&& s.seen <= bound
    &&& s.files <= bound
    &&& s.pairs < pair_cap() + commit_cap() * commit_cap()
    &&& distinct_texts(s.paths@)
    &&& s.paths@.len() <= commit_cap()
    &&& s.paths@.len() <= s.files
}

fn copy_text(o: &Option<String>) -> (r: Option<String>)
    ensures
        opt_view(r) == opt_view(*o),
{
    match o {
        Some(t) => Some(t.clone()),
        None => None,
    }
}

fn close_exec(s: &mut WalkExec, Ghost(bound): Ghost<int>)
    requires
        walk_ok(*old(s), bound),
        bound < i64::MAX - 2,
    ensures
        walk_view(*final(s)) == close(walk_view(*old(s))),
        walk_base(*final(s), bound),
        co_at_most(counter_map(final(s).co@), old(s).seen as int + 1),
        final(s).seen == old(s).seen,
{
    let ghost m = s.seen as int;
    flush_co(&mut s.co, &mut s.pairs, &s.paths, s.files, Ghost(m));
}


fn open_commit_exec(s: &mut WalkExec, rest: &Vec<char>, grafts: &Vec<String>, cutoff: &str, Ghost(bound): Ghost<int>)
    requires
        walk_base(*old(s), bound),
        co_at_most(counter_map(old(s).co@), old(s).seen as int + 1),
        old(s).seen + 1 <= bound,
        bound <= usize::MAX,
    ensures
        walk_view(*final(s)) == open_commit(walk_view(*old(s)), rest@, text_views(grafts@), cutoff@),
        walk_ok(*final(s), bound),
{
    let parts = splitn_chars(rest, '|', 4);
    let ghost pv = crate::text::views_char(parts@);
    assert(pv[0] == parts@[0]@);
    let head = crate::text::string_of(&parts[0]);
    s.skip = crate::ordered::contains_text(grafts, head.as_str());
    if parts.len() == 4 {
        assert(pv[1] == parts@[1]@ && pv[2] == parts@[2]@ && pv[3] == parts@[3]@);
        s.date = Some(crate::text::string_of(&parts[1]));
        s.author = Some(crate::text::string_of(&parts[2]));
        s.subject = Some(crate::text::string_of(&parts[3]));
    } else if parts.len() == 3 {
        assert(pv[1] == parts@[1]@ && pv[2] == parts@[2]@);
        s.date = Some(crate::text::string_of(&parts[1]));
        s.author = Some(crate::text::string_of(&parts[2]));
        s.subject = None;
    }
    s.recent = match &s.date {
        Some(d) => !text_less(d.as_str(), cutoff),
        None => false,
    };
    s.paths = Vec::new();
    s.files = 0;
    s.seen = s.seen + 1;
    assert(text_views(s.paths@) =~= Seq::<Seq<char>>::empty());
    assert(walk_view(*s) =~= open_commit(walk_view(*old(s)), rest@, text_views(grafts@), cutoff@));
}

fn copy_entry(e: &Entry) -> (r: Entry)
    ensures
        entry_view(r) == entry_view(*e),
{
    Entry {
        last_modified: copy_text(&e.last_modified),
        last_author: copy_text(&e.last_author),
        last_subject: copy_text(&e.last_subject),
        first_seen: copy_text(&e.first_seen),
        commit_count: e.commit_count,
        commits_30d: e.commits_30d,
        rename_from: copy_text(&e.rename_from),
    }
}

fn touch_exec(s: &mut WalkExec, path: &str, from: Option<String>, Ghost(bound): Ghost<int>)
    requires
        walk_ok(*old(s), bound),
        0 <= bound < i64::MAX - 2,
        bound < usize::MAX,
    ensures
        walk_view(*final(s)) == touch(walk_view(*old(s)), path@, opt_view(from)),
        walk_ok(*final(s), bound + 1),
{
    let ghost w = walk_view(*s);
    let key = path.to_owned();
    let date_text: String = match &s.date {
        Some(d) => d.clone(),
        None => String::new(),
    };
    proof {
        reveal_strlit("");
    }
    assert(date_text@ == or_empty(w.date));
    let base: Entry = match crate::keyed::get(&s.out, &key) {
        Some(e) => copy_entry(e),
        None => Entry {
            last_modified: Some(date_text.clone()),
            last_author: Some(match &s.author {
                Some(a) => a.clone(),
                None => String::new(),
            }),
            last_subject: copy_text(&s.subject),
            first_seen: Some(date_text.clone()),
            commit_count: 0,
            commits_30d: 0,
            rename_from: None,
        },
    };
    proof {
        if w.out.contains_key(path@) {
            assert(out_map(s.out@)[path@] == entry_view(crate::keyed::lookup(s.out@, path@)->0));
        }
    }
    let ghost bv = entry_view(base);
    assert(w.out.contains_key(path@) ==> bv.commit_count <= bound && 0 <= bv.commits_30d <= bv.commit_count);
    let had_rename = base.rename_from.is_some();
    let e = Entry {
        last_modified: base.last_modified,
        last_author: base.last_author,
        last_subject: base.last_subject,
        first_seen: Some(date_text),
        commit_count: base.commit_count + 1,
        commits_30d: base.commits_30d + if s.recent { 1 } else { 0 },
        rename_from: if had_rename { base.rename_from } else { from },
    };
    let ghost ev = entry_view(e);
    let ghost out0 = s.out@;
    crate::keyed::insert(&mut s.out, key.clone(), e);
    assert(out_map(s.out@) =~= out_map(out0).insert(path@, ev));
    let author = copy_text(&s.author);
    match author {
        Some(a) => {
            let mut c: Vec<(String, i64)> = match crate::keyed::get(&s.authors, &key) {
                Some(c0) => copy_counts(c0),
                None => Vec::new(),
            };
            let ghost cv = counts_of(w.authors, path@);
            assert(counts_view(c@) == cv);
            assert(counts_at_most(cv, bound));
            proof {
                assert forall|j: int| 0 <= j < c@.len() implies 0 <= (#[trigger] c@[j]).1 < i64::MAX by {
                    assert(counts_view(c@)[j].1 == c@[j].1);
                }
                lemma_bump_bound(cv, a@, bound);
            }
            count_key(&mut c, a.as_str());
            let ghost au0 = s.authors@;
            crate::keyed::insert(&mut s.authors, key.clone(), c);
            assert(counter_map(s.authors@) =~= counter_map(au0).insert(path@, bump(cv, a@)));
        },
        None => {},
    }
    s.files = s.files + 1;
    if s.files <= 100 && !crate::ordered::contains_text(&s.paths, path) {
        let ghost p0 = text_views(s.paths@);
        s.paths.push(key);
        assert(text_views(s.paths@) =~= p0.push(path@));
        proof {
            assert forall|a: int, b: int| 0 <= a < b < p0.len() + 1 implies text_views(s.paths@)[a] != text_views(s.paths@)[b] by {
                if b == p0.len() {
                    assert(p0.contains(p0[a]));
                } else {
                    assert(p0[a] != p0[b]);
                }
            }
        }
    }
    assert(walk_view(*s) =~= touch(w, path@, opt_view(from)));
    assert forall|k: Seq<char>| #[trigger] counter_map(s.authors@).contains_key(k) implies counts_at_most(counter_map(s.authors@)[k], bound + 1) by {
        if k != path@ || w.author is None {
            assert(counts_at_most(w.authors[k], bound));
        }
    }
}


proof fn lemma_walk_ok_mono(s: WalkExec, b1: int, b2: int)
    requires
        walk_ok(s, b1),
        b1 <= b2,
    ensures
        walk_ok(s, b2),
{
    lemma_walk_base_mono(s, b1, b2);
}

proof fn lemma_walk_base_mono(s: WalkExec, b1: int, b2: int)
    requires
        walk_base(s, b1),
        b1 <= b2,
    ensures
        walk_base(s, b2),
{
    assert forall|k: Seq<char>| #[trigger] counter_map(s.authors@).contains_key(k) implies counts_at_most(counter_map(s.authors@)[k], b2) by {
        assert(counts_at_most(counter_map(s.authors@)[k], b1));
    }
}

fn renamed_exec(s: &mut WalkExec, old_path: String, path: String, Ghost(bound): Ghost<int>)
    requires
        walk_ok(*old(s), bound),
        0 <= bound < i64::MAX - 2,
        bound < usize::MAX,
    ensures
        walk_view(*final(s)) == renamed(walk_view(*old(s)), old_path@, path@),
        walk_ok(*final(s), bound + 1),
{
    let from = old_path.clone();
    touch_exec(s, path.as_str(), Some(from), Ghost(bound));
    let ghost t = walk_view(*s);
    if crate::keyed::find_key(&s.aliases, &old_path).is_none() {
        let ghost a0 = s.aliases@;
        crate::keyed::insert(&mut s.aliases, old_path, path);
        assert(text_map(s.aliases@) =~= text_map(a0).insert(old_path@, path@));
    }
    assert(walk_view(*s) =~= renamed(walk_view(*old(s)), old_path@, path@));
}

fn changed_exec(s: &mut WalkExec, path: String, Ghost(bound): Ghost<int>)
    requires
        walk_ok(*old(s), bound),
        0 <= bound < i64::MAX - 2,
        bound < usize::MAX,
    ensures
        walk_view(*final(s)) == changed(walk_view(*old(s)), path@),
        walk_ok(*final(s), bound + 1),
{
    let target: String = match crate::keyed::get(&s.aliases, &path) {
        Some(t) => t.clone(),
        None => path,
    };
    touch_exec(s, target.as_str(), None, Ghost(bound));
}

// ---------------------------------------------------------------- results

/// What the history says of one file.
#[derive(Debug)]
pub struct HistoryEntry {
    pub last_modified: Option<String>,
    pub last_author: Option<String>,
    pub last_subject: Option<String>,
    pub first_seen: Option<String>,
    pub commit_count: i64,
    pub commits_30d: i64,
    pub rename_from: Option<String>,
    pub top_author: Option<String>,
    pub co_changed: Vec<(String, i64)>,
}

/// Every file's history, in path order, and whether the walk stopped at
/// its cap (so counts and first dates cover only the commits within it).
#[derive(Debug)]
pub struct History {
    pub entries: Vec<(String, HistoryEntry)>,
    pub truncated: bool,
}

pub open spec fn history_entry_view(e: HistoryEntry) -> (EntryV, Option<Seq<char>>, Counts) {
    (
        EntryV {
            last_modified: opt_view(e.last_modified),
            last_author: opt_view(e.last_author),
            last_subject: opt_view(e.last_subject),
            first_seen: opt_view(e.first_seen),
            commit_count: e.commit_count as int,
            commits_30d: e.commits_30d as int,
            rename_from: opt_view(e.rename_from),
        },
        opt_view(e.top_author),
        counts_view(e.co_changed@),
    )
}

/// The most counted key, if any.
pub open spec fn top_of(c: Counts) -> Option<Seq<char>> {
    if most_common(c, 1).len() > 0 {
        Some(most_common(c, 1)[0].0)
    } else {
        None
    }
}

/// A file's final facts: what the walk gathered, its top author, and its
/// five most frequent co-change partners.
pub open spec fn final_entry(w: Walk, k: Seq<char>) -> (EntryV, Option<Seq<char>>, Counts) {
    (
        w.out[k],
        if w.authors.contains_key(k) { top_of(w.authors[k]) } else { None },
        if w.co.contains_key(k) { most_common(w.co[k], 5) } else { Seq::empty() },
    )
}

/// The most commits one walk reads.
pub open spec fn history_cap() -> nat {
    4000
}

/// The walk over a whole log.
pub open spec fn history_of(stdout: Seq<u8>, grafts: Seq<Seq<char>>, cutoff: Seq<char>) -> Walk {
    walk(split_seq(stdout, 0u8), 0, walk_init(), grafts, cutoff)
}

pub open spec fn entry_keys(v: Seq<(String, HistoryEntry)>) -> Seq<Seq<char>> {
    v.map_values(|e: (String, HistoryEntry)| e.0@)
}

fn finish(s: WalkExec, Ghost(w): Ghost<Walk>) -> (r: History)
    requires
        w == walk_view(s),
        crate::keyed::keys_unique(s.out@),
        crate::keyed::keys_unique(s.authors@),
        crate::keyed::keys_unique(s.co@),
    ensures
        strictly_sorted(entry_keys(r.entries@)),
        forall|k: Seq<char>| entry_keys(r.entries@).contains(k) <==> w.out.contains_key(k),
        forall|i: int| 0 <= i < r.entries@.len() ==> history_entry_view(#[trigger] r.entries@[i].1) == final_entry(w, r.entries@[i].0@),
        r.truncated == (w.seen >= history_cap()),
{
    let mut keys: Vec<String> = Vec::new();
    let mut i: usize = 0;
    while i < s.out.len()
        invariant
            i <= s.out.len(),
            keys@.len() == i,
            forall|j: int| 0 <= j < i ==> (#[trigger] keys@[j])@ == s.out@[j].0@,
        decreases s.out.len() - i,
    {
        keys.push(s.out[i].0.clone());
        i += 1;
    }
    proof {
        assert forall|k: Seq<char>| text_views(keys@).contains(k) <==> w.out.contains_key(k) by {
            crate::keyed::lemma_has_key_lookup(s.out@, k);
            if text_views(keys@).contains(k) {
                let j = choose|j: int| 0 <= j < text_views(keys@).len() && text_views(keys@)[j] == k;
                assert(s.out@[j].0@ == k);
            }
            if w.out.contains_key(k) {
                let j = choose|j: int| 0 <= j < s.out@.len() && #[trigger] s.out@[j].0@ == k;
                assert(text_views(keys@)[j] == k);
            }
        }
    }
    let sorted = sorted_unique(&keys);
    let mut entries: Vec<(String, HistoryEntry)> = Vec::new();
    let mut k: usize = 0;
    while k < sorted.len()
        invariant
            k <= sorted.len(),
            entries@.len() == k,
            w == walk_view(s),
            forall|x: Seq<char>| text_views(sorted@).contains(x) <==> w.out.contains_key(x),
            forall|j: int| 0 <= j < k ==> (#[trigger] entries@[j]).0@ == sorted@[j]@,
            forall|j: int| 0 <= j < k ==> history_entry_view(#[trigger] entries@[j].1) == final_entry(w, entries@[j].0@),
        decreases sorted.len() - k,
    {
        let key = &sorted[k];
        assert(text_views(sorted@)[k as int] == key@);
        assert(w.out.contains_key(key@));
        match crate::keyed::get(&s.out, key) {
            Some(e) => {
                let top_author: Option<String> = match crate::keyed::get(&s.authors, key) {
                    Some(c) => {
                        let mc = most_common_n(c, 1);
                        if mc.len() > 0 {
                            assert(counts_view(mc@)[0].0 == mc@[0].0@);
                            Some(mc[0].0.clone())
                        } else {
                            None
                        }
                    },
                    None => None,
                };
                let co_changed: Vec<(String, i64)> = match crate::keyed::get(&s.co, key) {
                    Some(c) => most_common_n(c, 5),
                    None => {
                        let none: Vec<(String, i64)> = Vec::new();
                        assert(counts_view(none@) =~= Seq::<(Seq<char>, int)>::empty());
                        none
                    },
                };
                let h = HistoryEntry {
                    last_modified: copy_text(&e.last_modified),
                    last_author: copy_text(&e.last_author),
                    last_subject: copy_text(&e.last_subject),
                    first_seen: copy_text(&e.first_seen),
                    commit_count: e.commit_count,
                    commits_30d: e.commits_30d,
                    rename_from: copy_text(&e.rename_from),
                    top_author,
                    co_changed,
                };
                assert(history_entry_view(h).0 == w.out[key@]);
                entries.push((key.clone(), h));
            },
            None => {
                assert(false);
            },
        }
        k += 1;
    }
    proof {
        assert forall|x: Seq<char>| entry_keys(entries@).contains(x) <==> w.out.contains_key(x) by {
            if entry_keys(entries@).contains(x) {
                let j = choose|j: int| 0 <= j < entry_keys(entries@).len() && entry_keys(entries@)[j] == x;
                assert(text_views(sorted@)[j] == x);
            }
            if w.out.contains_key(x) {
                let j = choose|j: int| 0 <= j < text_views(sorted@).len() && text_views(sorted@)[j] == x;
                assert(entry_keys(entries@)[j] == x);
            }
        }
        assert(entry_keys(entries@) =~= text_views(sorted@)) by {
            assert forall|j: int| 0 <= j < entries@.len() implies entry_keys(entries@)[j] == text_views(sorted@)[j] by {
                assert(entries@[j].0@ == sorted@[j]@);
            }
        }
    }
    History { entries, truncated: s.seen >= 4000 }
}

/// The largest log the walk takes: its counts and positions must fit the
/// machine's signed word with room to spare.
pub open spec fn fits_walk(len: nat) -> bool {
    len + 8 <= isize::MAX
}

/// Walk `git log -M --diff-merges=first-parent --name-status -z
/// --pretty=format:COMMIT|%H|%ad|%an|%s%x00 --date=short` output, newest
/// commit first: per file its newest date, author and subject, oldest
/// date, commit count (and those on or after `cutoff`), the name it was
/// renamed from, top author and top co-change partners. Commits in `grafts`
/// contribute nothing.
pub fn walk_history(stdout: &[u8], grafts: &Vec<String>, cutoff: &str) -> (r: History)
    requires
        fits_walk(stdout@.len()),
    ensures
        ({
            let w = history_of(stdout@, text_views(grafts@), cutoff@);
            &&& strictly_sorted(entry_keys(r.entries@))
            &&& forall|k: Seq<char>| entry_keys(r.entries@).contains(k) <==> w.out.contains_key(k)
            &&& forall|i: int| 0 <= i < r.entries@.len() ==> history_entry_view(#[trigger] r.entries@[i].1) == final_entry(w, r.entries@[i].0@)
            &&& r.truncated == (w.seen >= history_cap())
        }),
        forall|i: int| 0 <= i < r.entries@.len() ==> 0 <= (#[trigger] r.entries@[i]).1.commits_30d <= r.entries@[i].1.commit_count,
{
    let fields = split_bytes(stdout, 0u8);
    let ghost f = split_seq(stdout@, 0u8);
    let ghost gv = text_views(grafts@);
    proof {
        crate::text::lemma_split_len_bound(stdout@, 0u8);
    }
    let commit = chars_of("COMMIT|");
    proof {
        reveal_strlit("COMMIT|");
    }
    let mut s = WalkExec {
        seen: 0,
        out: Vec::new(),
        aliases: Vec::new(),
        authors: Vec::new(),
        co: Vec::new(),
        pairs: 0,
        date: None,
        author: None,
        subject: None,
        paths: Vec::new(),
        files: 0,
        skip: false,
        recent: false,
    };
    proof {
        assert(walk_view(s) =~= walk_init()) by {
            assert(out_map(s.out@) =~= Map::empty());
            assert(text_map(s.aliases@) =~= Map::empty());
            assert(counter_map(s.authors@) =~= Map::empty());
            assert(counter_map(s.co@) =~= Map::empty());
            assert(text_views(s.paths@) =~= Seq::<Seq<char>>::empty());
        }
    }
    let ghost whole = walk(f, 0, walk_init(), gv, cutoff@);
    let mut i: usize = 0;
    let mut done = false;
    while !done && i < fields.len()
        invariant
            views_u8(fields@) == f,
            f == split_seq(stdout@, 0u8),
            f.len() <= stdout@.len() + 1,
            fits_walk(stdout@.len()),
            commit@ == "COMMIT|"@,
            commit@.len() == 7,
            whole == walk(f, 0, walk_init(), gv, cutoff@),
            gv == text_views(grafts@),
            i <= fields.len(),
            walk_ok(s, i as int),
            !done ==> whole == walk(f, i as int, walk_view(s), gv, cutoff@),
            done ==> whole == close(walk_view(s)),
        decreases (if done { 0int } else { 1int }), fields.len() - i,
    {
        assert(fields@[i as int]@ == f[i as int]);
        let text = lossy_utf8(fields[i].as_slice());
        let raw = chars_of(text.as_str());
        let field = trim_newlines_of(&raw);
        let ghost w0 = walk_view(s);
        if crate::text::seq_starts_with(&field, &commit) {
            let rest = sub_chars(&field, 7, field.len());
            assert(rest@ =~= field@.skip(7));
            close_exec(&mut s, Ghost(i as int));
            open_commit_exec(&mut s, &rest, grafts, cutoff, Ghost(i + 1));
            i += 1;
        } else if field.len() == 0 || s.date.is_none() {
            proof {
                lemma_walk_ok_mono(s, i as int, i + 1);
            }
            i += 1;
        } else {
            let two = field[0] == 'R' || field[0] == 'C';
            let pf: usize = if two { 2 } else { 1 };
            if i + pf >= fields.len() {
                done = true;
            } else if s.skip {
                proof {
                    lemma_walk_ok_mono(s, i as int, (i + pf + 1) as int);
                }
                i += pf + 1;
            } else {
                assert(fields@[i + 1]@ == f[i + 1]);
                let first = lossy_utf8(fields[i + 1].as_slice());
                let first_chars = chars_of(first.as_str());
                if first_chars.len() == 0 {
                    proof {
                        lemma_walk_ok_mono(s, i as int, i + 1);
                    }
                    i += 1;
                } else if two {
                    assert(fields@[i + 2]@ == f[i + 2]);
                    let path = lossy_utf8(fields[i + 2].as_slice());
                    renamed_exec(&mut s, first, path, Ghost(i as int));
                    proof {
                        lemma_walk_ok_mono(s, i + 1, i + 3);
                    }
                    i += 3;
                } else {
                    changed_exec(&mut s, first, Ghost(i as int));
                    proof {
                        lemma_walk_ok_mono(s, i + 1, i + 2);
                    }
                    i += 2;
                }
            }
        }
    }
    let ghost before = walk_view(s);
    if !done {
        proof {
            lemma_walk_ok_mono(s, i as int, i as int);
        }
    }
    close_exec(&mut s, Ghost(i as int));
    assert(whole == walk_view(s));
    let ghost w = walk_view(s);
    let r = finish(s, Ghost(walk_view(s)));
    assert forall|j: int| 0 <= j < r.entries@.len() implies 0 <= (#[trigger] r.entries@[j]).1.commits_30d <= r.entries@[j].1.commit_count by {
        assert(entry_keys(r.entries@)[j] == r.entries@[j].0@);
        assert(entry_keys(r.entries@).contains(r.entries@[j].0@));
        assert(w.out.contains_key(r.entries@[j].0@));
        assert(history_entry_view(r.entries@[j].1) == final_entry(w, r.entries@[j].0@));
    }
    r
}

} // verus!
