//! Text in order: the lexicographic order of strings (by character, which
//! is the order of their UTF-8 bytes), and the sorted, duplicate-free list a
//! set of strings reads as.

use vstd::prelude::*;

verus! {

/// `a` sorts strictly before `b`.
pub open spec fn text_lt(a: Seq<char>, b: Seq<char>) -> bool
    decreases a.len(),
{
    if a.len() == 0 {
        b.len() > 0
    } else if b.len() == 0 {
        false
    } else if a[0] != b[0] {
        (a[0] as int) < (b[0] as int)
    } else {
        text_lt(a.drop_first(), b.drop_first())
    }
}

pub proof fn lemma_text_lt_irreflexive(a: Seq<char>)
    ensures
        !text_lt(a, a),
    decreases a.len(),
{
    if a.len() > 0 {
        lemma_text_lt_irreflexive(a.drop_first());
    }
}

pub proof fn lemma_text_lt_transitive(a: Seq<char>, b: Seq<char>, c: Seq<char>)
    requires
        text_lt(a, b),
        text_lt(b, c),
    ensures
        text_lt(a, c),
    decreases a.len(),
{
    if a.len() > 0 && b.len() > 0 && c.len() > 0 && a[0] == b[0] && b[0] == c[0] {
        lemma_text_lt_transitive(a.drop_first(), b.drop_first(), c.drop_first());
    }
}

pub proof fn lemma_text_lt_total(a: Seq<char>, b: Seq<char>)
    ensures
        a == b || text_lt(a, b) || text_lt(b, a),
    decreases a.len(),
{
    if a.len() == 0 || b.len() == 0 {
        if a.len() == 0 && b.len() == 0 {
            assert(a =~= b);
        }
    } else if a[0] == b[0] {
        lemma_text_lt_total(a.drop_first(), b.drop_first());
        if a.drop_first() == b.drop_first() {
            assert(a =~= seq![a[0]] + a.drop_first());
            assert(b =~= seq![b[0]] + b.drop_first());
        }
    } else {
        assert((a[0] as int) != (b[0] as int));
    }
}

pub proof fn lemma_text_lt_asymmetric(a: Seq<char>, b: Seq<char>)
    requires
        text_lt(a, b),
    ensures
        !text_lt(b, a),
{
    if text_lt(b, a) {
        lemma_text_lt_transitive(a, b, a);
        lemma_text_lt_irreflexive(a);
    }
}

/// Two texts that agree on their first `i` characters compare as their
/// rests do.
proof fn lemma_text_lt_common_prefix(a: Seq<char>, b: Seq<char>, i: int)
    requires
        0 <= i <= a.len(),
        i <= b.len(),
        forall|j: int| 0 <= j < i ==> a[j] == b[j],
    ensures
        text_lt(a, b) == text_lt(a.skip(i), b.skip(i)),
    decreases i,
{
    if i > 0 {
        lemma_text_lt_common_prefix(a.drop_first(), b.drop_first(), i - 1);
        assert(a.drop_first().skip(i - 1) =~= a.skip(i));
        assert(b.drop_first().skip(i - 1) =~= b.skip(i));
    } else {
        assert(a.skip(0) =~= a);
        assert(b.skip(0) =~= b);
    }
}

/// Whether `a` sorts strictly before `b`.
pub fn text_less(a: &str, b: &str) -> (r: bool)
    ensures
        r == text_lt(a@, b@),
{
    let x = crate::text::chars_of(a);
    let y = crate::text::chars_of(b);
    let mut i: usize = 0;
    while i < x.len() && i < y.len() && x[i] == y[i]
        invariant
            i <= x.len(),
            i <= y.len(),
            x@ == a@,
            y@ == b@,
            forall|j: int| 0 <= j < i ==> x@[j] == y@[j],
        decreases x.len() - i,
    {
        i += 1;
    }
    proof {
        lemma_text_lt_common_prefix(x@, y@, i as int);
    }
    if i == x.len() {
        i < y.len()
    } else if i == y.len() {
        false
    } else {
        assert(x@.skip(i as int)[0] == x@[i as int]);
        assert(y@.skip(i as int)[0] == y@[i as int]);
        x[i] < y[i]
    }
}

pub open spec fn text_views(v: Seq<String>) -> Seq<Seq<char>> {
    v.map_values(|s: String| s@)
}

/// Each text sorts strictly before the next (so none occurs twice).
pub open spec fn strictly_sorted(s: Seq<Seq<char>>) -> bool {
    forall|i: int, j: int| 0 <= i < j < s.len() ==> text_lt(#[trigger] s[i], #[trigger] s[j])
}

/// The texts of `items` in order, each once: what a `BTreeSet` of them
/// iterates as.
pub fn sorted_unique(items: &Vec<String>) -> (r: Vec<String>)
    ensures
        strictly_sorted(text_views(r@)),
        forall|x: Seq<char>| text_views(r@).contains(x) <==> text_views(items@).contains(x),
{
    let mut out: Vec<String> = Vec::new();
    let mut k: usize = 0;
    while k < items.len()
        invariant
            k <= items.len(),
            strictly_sorted(text_views(out@)),
            forall|x: Seq<char>| text_views(out@).contains(x) <==> text_views(items@.take(k as int)).contains(x),
        decreases items.len() - k,
    {
        let x = &items[k];
        let ghost xs = text_views(out@);
        let mut p: usize = 0;
        while p < out.len() && text_less(out[p].as_str(), x.as_str())
            invariant
                p <= out.len(),
                xs == text_views(out@),
                forall|j: int| 0 <= j < p ==> text_lt(#[trigger] xs[j], x@),
            decreases out.len() - p,
        {
            assert(xs[p as int] == out@[p as int]@);
            p += 1;
        }
        let ghost before = text_views(items@.take(k as int));
        proof {
            assert(text_views(items@.take(k + 1)) =~= before.push(x@));
            assert forall|y: Seq<char>| #[trigger] before.push(x@).contains(y) <==> before.contains(y) || y == x@ by {
                if before.push(x@).contains(y) {
                    let i = choose|i: int| 0 <= i < before.push(x@).len() && before.push(x@)[i] == y;
                    if i < before.len() {
                        assert(before[i] == y);
                    }
                }
                if before.contains(y) {
                    let i = choose|i: int| 0 <= i < before.len() && before[i] == y;
                    assert(before.push(x@)[i] == y);
                }
                if y == x@ {
                    assert(before.push(x@)[before.len() as int] == y);
                }
            }
        }
        if p < out.len() && crate::text::str_eq(out[p].as_str(), x.as_str()) {
            assert(xs[p as int] == x@);
        } else {
            proof {
                if p < out.len() {
                    assert(xs[p as int] == out@[p as int]@);
                    lemma_text_lt_total(xs[p as int], x@);
                }
                assert forall|j: int| p <= j < xs.len() implies text_lt(x@, #[trigger] xs[j]) by {
                    if j > p {
                        lemma_text_lt_transitive(x@, xs[p as int], xs[j]);
                    }
                }
            }
            out.insert(p, x.clone());
            proof {
                let ys = text_views(out@);
                assert(ys =~= xs.insert(p as int, x@));
                assert forall|i: int, j: int| 0 <= i < j < ys.len() implies text_lt(#[trigger] ys[i], #[trigger] ys[j]) by {
                    if j < p {
                        assert(ys[i] == xs[i]);
                        assert(ys[j] == xs[j]);
                    } else if i < p && j == p {
                    } else if i < p && j > p {
                        assert(ys[j] == xs[j - 1]);
                    } else if i == p {
                        assert(ys[j] == xs[j - 1]);
                    } else {
                        assert(ys[i] == xs[i - 1]);
                        assert(ys[j] == xs[j - 1]);
                    }
                }
                assert forall|y: Seq<char>| ys.contains(y) <==> xs.contains(y) || y == x@ by {
                    if ys.contains(y) {
                        let i = choose|i: int| 0 <= i < ys.len() && ys[i] == y;
                        if i < p {
                            assert(xs[i] == y);
                        } else if i > p {
                            assert(xs[i - 1] == y);
                        }
                    }
                    if xs.contains(y) {
                        let i = choose|i: int| 0 <= i < xs.len() && xs[i] == y;
                        if i < p {
                            assert(ys[i] == y);
                        } else {
                            assert(ys[i + 1] == y);
                        }
                    }
                    if y == x@ {
                        assert(ys[p as int] == y);
                    }
                }
            }
        }
        k += 1;
    }
    assert(items@.take(items.len() as int) =~= items@);
    out
}

/// Whether `x` is one of the texts of `v`.
pub fn contains_text(v: &Vec<String>, x: &str) -> (r: bool)
    ensures
        r == text_views(v@).contains(x@),
{
    let mut i: usize = 0;
    while i < v.len()
        invariant
            i <= v.len(),
            forall|j: int| 0 <= j < i ==> #[trigger] v@[j]@ != x@,
        decreases v.len() - i,
    {
        if crate::text::str_eq(v[i].as_str(), x) {
            assert(text_views(v@)[i as int] == x@);
            return true;
        }
        i += 1;
    }
    proof {
        if text_views(v@).contains(x@) {
            let j = choose|j: int| 0 <= j < text_views(v@).len() && text_views(v@)[j] == x@;
            assert(v@[j]@ == x@);
        }
    }
    false
}

/// The texts of `src` (in its order) that `drop` does not hold; a strictly
/// sorted `src` gives a strictly sorted result.
pub fn without(src: &Vec<String>, drop: &Vec<String>) -> (r: Vec<String>)
    requires
        strictly_sorted(text_views(src@)),
    ensures
        strictly_sorted(text_views(r@)),
        forall|x: Seq<char>| text_views(r@).contains(x) <==> (text_views(src@).contains(x) && !text_views(drop@).contains(x)),
{
    let ghost sv = text_views(src@);
    let mut out: Vec<String> = Vec::new();
    let mut i: usize = 0;
    while i < src.len()
        invariant
            i <= src.len(),
            sv == text_views(src@),
            strictly_sorted(sv),
            strictly_sorted(text_views(out@)),
            forall|k: int| 0 <= k < out@.len() ==> exists|j: int| 0 <= j < i && #[trigger] text_views(out@)[k] == sv[j],
            forall|x: Seq<char>| text_views(out@).contains(x) <==> (sv.take(i as int).contains(x) && !text_views(drop@).contains(x)),
        decreases src.len() - i,
    {
        let ghost ov = text_views(out@);
        let ghost pre = sv.take(i as int);
        assert(sv.take(i + 1) =~= pre.push(sv[i as int]));
        assert(sv[i as int] == src@[i as int]@);
        assert forall|y: Seq<char>| #[trigger] pre.push(sv[i as int]).contains(y) <==> pre.contains(y) || y == sv[i as int] by {
            if pre.push(sv[i as int]).contains(y) {
                let k = choose|k: int| 0 <= k < pre.push(sv[i as int]).len() && pre.push(sv[i as int])[k] == y;
                if k < pre.len() {
                    assert(pre[k] == y);
                }
            }
            if pre.contains(y) {
                let k = choose|k: int| 0 <= k < pre.len() && pre[k] == y;
                assert(pre.push(sv[i as int])[k] == y);
            }
            if y == sv[i as int] {
                assert(pre.push(sv[i as int])[pre.len() as int] == y);
            }
        }
        if !contains_text(drop, src[i].as_str()) {
            let t = src[i].clone();
            out.push(t);
            proof {
                let nv = text_views(out@);
                assert(nv =~= ov.push(sv[i as int]));
                assert forall|a: int, b: int| 0 <= a < b < nv.len() implies text_lt(#[trigger] nv[a], #[trigger] nv[b]) by {
                    if b == ov.len() {
                        let j = choose|j: int| 0 <= j < i && #[trigger] ov[a] == sv[j];
                        assert(ov[a] == sv[j]);
                    } else {
                        assert(nv[a] == ov[a] && nv[b] == ov[b]);
                    }
                }
                assert forall|k: int| 0 <= k < nv.len() implies exists|j: int| 0 <= j < i + 1 && #[trigger] nv[k] == sv[j] by {
                    if k == ov.len() {
                        assert(nv[k] == sv[i as int]);
                    } else {
                        let j = choose|j: int| 0 <= j < i && #[trigger] ov[k] == sv[j];
                        assert(nv[k] == sv[j]);
                    }
                }
                assert forall|y: Seq<char>| nv.contains(y) <==> ov.contains(y) || y == sv[i as int] by {
                    if nv.contains(y) {
                        let k = choose|k: int| 0 <= k < nv.len() && nv[k] == y;
                        if k < ov.len() {
                            assert(ov[k] == y);
                        }
                    }
                    if ov.contains(y) {
                        let k = choose|k: int| 0 <= k < ov.len() && ov[k] == y;
                        assert(nv[k] == y);
                    }
                    if y == sv[i as int] {
                        assert(nv[ov.len() as int] == y);
                    }
                }
            }
        } else {
            proof {
                assert forall|k: int| 0 <= k < ov.len() implies exists|j: int| 0 <= j < i + 1 && #[trigger] ov[k] == sv[j] by {
                    let j = choose|j: int| 0 <= j < i && #[trigger] ov[k] == sv[j];
                    assert(ov[k] == sv[j]);
                }
            }
        }
        i += 1;
    }
    assert(sv.take(src.len() as int) =~= sv);
    out
}

} // verus!
