//! Insertion-ordered string-keyed maps: a `Vec` of `(key, value)` pairs in
//! which no key occurs twice. They stand where a hash map would, and they
//! keep the order keys were first inserted in, which the callers need.

use vstd::prelude::*;

verus! {

/// The value stored under `k`: the first entry whose key is `k`.
pub open spec fn lookup<V>(entries: Seq<(String, V)>, k: Seq<char>) -> Option<V>
    decreases entries.len(),
{
    if entries.len() == 0 {
        None
    } else if entries[0].0@ == k {
        Some(entries[0].1)
    } else {
        lookup(entries.drop_first(), k)
    }
}

/// No key occurs twice.
pub open spec fn keys_unique<V>(entries: Seq<(String, V)>) -> bool {
    forall|i: int, j: int|
        0 <= i < j < entries.len() ==> #[trigger] entries[i].0@ != #[trigger] entries[j].0@
}

pub open spec fn has_key<V>(entries: Seq<(String, V)>, k: Seq<char>) -> bool {
    exists|i: int| 0 <= i < entries.len() && #[trigger] entries[i].0@ == k
}

pub proof fn lemma_lookup_at<V>(entries: Seq<(String, V)>, k: Seq<char>, i: int)
    requires
        0 <= i < entries.len(),
        entries[i].0@ == k,
        forall|j: int| 0 <= j < i ==> #[trigger] entries[j].0@ != k,
    ensures
        lookup(entries, k) == Some(entries[i].1),
    decreases i,
{
    if i > 0 {
        lemma_lookup_at(entries.drop_first(), k, i - 1);
    }
}

pub proof fn lemma_lookup_none<V>(entries: Seq<(String, V)>, k: Seq<char>)
    requires
        forall|j: int| 0 <= j < entries.len() ==> #[trigger] entries[j].0@ != k,
    ensures
        lookup(entries, k) is None,
    decreases entries.len(),
{
    if entries.len() > 0 {
        lemma_lookup_none(entries.drop_first(), k);
    }
}

/// `lookup` finds the entry at some index with key `k`.
pub proof fn lemma_lookup_some<V>(entries: Seq<(String, V)>, k: Seq<char>)
    requires
        lookup(entries, k) is Some,
    ensures
        exists|i: int| 0 <= i < entries.len() && entries[i].0@ == k && lookup(entries, k) == Some(#[trigger] entries[i].1),
    decreases entries.len(),
{
    if entries[0].0@ != k {
        lemma_lookup_some(entries.drop_first(), k);
        let i = choose|i: int| 0 <= i < entries.drop_first().len() && entries.drop_first()[i].0@ == k && lookup(entries.drop_first(), k) == Some(#[trigger] entries.drop_first()[i].1);
        assert(entries[i + 1] == entries.drop_first()[i]);
    }
}

/// Index of the entry whose key is `k`.
pub fn find_key<V>(entries: &Vec<(String, V)>, k: &String) -> (r: Option<usize>)
    ensures
        match r {
            Some(i) => i < entries.len() && entries@[i as int].0@ == k@ && lookup(entries@, k@) == Some(entries@[i as int].1)
                && forall|j: int| 0 <= j < i ==> #[trigger] entries@[j].0@ != k@,
            None => lookup(entries@, k@) is None && !has_key(entries@, k@),
        },
{
    let mut i: usize = 0;
    while i < entries.len()
        invariant
            i <= entries.len(),
            forall|j: int| 0 <= j < i ==> #[trigger] entries@[j].0@ != k@,
        decreases entries.len() - i,
    {
        if entries[i].0 == *k {
            proof { lemma_lookup_at(entries@, k@, i as int); }
            return Some(i);
        }
        i += 1;
    }
    proof { lemma_lookup_none(entries@, k@); }
    None
}

/// The value stored under `k`, by reference.
pub fn get<'a, V>(entries: &'a Vec<(String, V)>, k: &String) -> (r: Option<&'a V>)
    ensures
        match r {
            Some(v) => lookup(entries@, k@) == Some(*v),
            None => lookup(entries@, k@) is None,
        },
{
    match find_key(entries, k) {
        Some(i) => Some(&entries[i].1),
        None => None,
    }
}

pub proof fn lemma_lookup_update<V>(entries: Seq<(String, V)>, i: int, k: String, v: V, q: Seq<char>)
    requires
        0 <= i < entries.len(),
        entries[i].0@ == k@,
        keys_unique(entries),
    ensures
        lookup(entries.update(i, (k, v)), q) == if q == k@ { Some(v) } else { lookup(entries, q) },
    decreases entries.len(),
{
    let u = entries.update(i, (k, v));
    if i > 0 {
        assert(u.drop_first() =~= entries.drop_first().update(i - 1, (k, v)));
        assert(u[0] == entries[0]);
        if entries[0].0@ != q {
            assert(keys_unique(entries.drop_first())) by {
                assert forall|a: int, b: int| 0 <= a < b < entries.drop_first().len() implies
                    #[trigger] entries.drop_first()[a].0@ != #[trigger] entries.drop_first()[b].0@ by {
                    assert(entries.drop_first()[a] == entries[a + 1]);
                    assert(entries.drop_first()[b] == entries[b + 1]);
                }
            }
            lemma_lookup_update(entries.drop_first(), i - 1, k, v, q);
        } else {
            assert(entries[0].0@ != entries[i].0@);
        }
    } else {
        assert(u.drop_first() =~= entries.drop_first());
        assert(u[0] == (k, v));
    }
}

pub proof fn lemma_lookup_push<V>(entries: Seq<(String, V)>, k: String, v: V, q: Seq<char>)
    requires
        !has_key(entries, k@),
    ensures
        lookup(entries.push((k, v)), q) == if q == k@ && lookup(entries, q) is None { Some(v) } else { lookup(entries, q) },
    decreases entries.len(),
{
    if entries.len() == 0 {
        assert(entries.push((k, v))[0] == (k, v));
        assert(entries.push((k, v)).drop_first() =~= Seq::<(String, V)>::empty());
    } else {
        assert(entries.push((k, v)).drop_first() =~= entries.drop_first().push((k, v)));
        assert(entries.push((k, v))[0] == entries[0]);
        if entries[0].0@ != q {
            assert(!has_key(entries.drop_first(), k@)) by {
                if has_key(entries.drop_first(), k@) {
                    let j = choose|j: int| 0 <= j < entries.drop_first().len() && #[trigger] entries.drop_first()[j].0@ == k@;
                    assert(entries[j + 1] == entries.drop_first()[j]);
                }
            }
            lemma_lookup_push(entries.drop_first(), k, v, q);
        }
    }
}

/// Store `v` under `k`: an existing key keeps its position and takes the new
/// value; a new key is appended.
pub fn insert<V>(entries: &mut Vec<(String, V)>, k: String, v: V)
    requires
        keys_unique(old(entries)@),
    ensures
        keys_unique(final(entries)@),
        forall|q: Seq<char>| #[trigger] lookup(final(entries)@, q) == if q == k@ { Some(v) } else { lookup(old(entries)@, q) },
        has_key(old(entries)@, k@) ==> final(entries)@.len() == old(entries)@.len()
            && forall|j: int| 0 <= j < old(entries)@.len() ==> #[trigger] final(entries)@[j].0@ == old(entries)@[j].0@,
        !has_key(old(entries)@, k@) ==> final(entries)@ == old(entries)@.push((k, v)),
{
    match find_key(entries, &k) {
        Some(i) => {
            let ghost before = entries@;
            proof {
                assert forall|q: Seq<char>| #[trigger] lookup(before.update(i as int, (k, v)), q) == if q == k@ { Some(v) } else { lookup(before, q) } by {
                    lemma_lookup_update(before, i as int, k, v, q);
                }
            }
            entries.set(i, (k, v));
        },
        None => {
            let ghost before = entries@;
            proof {
                assert forall|q: Seq<char>| #[trigger] lookup(before.push((k, v)), q) == if q == k@ { Some(v) } else { lookup(before, q) } by {
                    lemma_lookup_push(before, k, v, q);
                    if q == k@ {
                        assert(lookup(before, q) is None);
                    }
                }
            }
            entries.push((k, v));
        },
    }
}

} // verus!

verus! {

/// A key is present exactly when `lookup` finds a value for it.
pub proof fn lemma_has_key_lookup<V>(entries: Seq<(String, V)>, k: Seq<char>)
    ensures
        has_key(entries, k) <==> lookup(entries, k) is Some,
{
    if has_key(entries, k) {
        if lookup(entries, k) is None {
            let i = choose|i: int| 0 <= i < entries.len() && #[trigger] entries[i].0@ == k;
            lemma_lookup_found(entries, k, i);
        }
    }
    if lookup(entries, k) is Some {
        lemma_lookup_some(entries, k);
    }
}

proof fn lemma_lookup_found<V>(entries: Seq<(String, V)>, k: Seq<char>, i: int)
    requires
        0 <= i < entries.len(),
        entries[i].0@ == k,
    ensures
        lookup(entries, k) is Some,
    decreases i,
{
    if i > 0 && entries[0].0@ != k {
        lemma_lookup_found(entries.drop_first(), k, i - 1);
    }
}

} // verus!

verus! {

/// Append `v` to the list stored under `k`, starting an empty list for a new
/// key (`entry(k).or_default().push(v)`).
pub fn append_to(entries: &mut Vec<(String, Vec<String>)>, k: String, v: String)
    requires
        keys_unique(old(entries)@),
    ensures
        keys_unique(final(entries)@),
        forall|q: Seq<char>| q != k@ ==> #[trigger] lookup(final(entries)@, q) == lookup(old(entries)@, q),
        lookup(final(entries)@, k@) matches Some(ids) && ids@ == (match lookup(old(entries)@, k@) {
            Some(o) => o@,
            None => Seq::empty(),
        }).push(v),
{
    match find_key(entries, &k) {
        Some(i) => {
            let ghost before = entries@;
            let (key, mut ids) = entries.remove(i);
            ids.push(v);
            entries.insert(i, (key, ids));
            proof {
                assert(entries@ =~= before.update(i as int, (key, ids)));
                assert forall|q: Seq<char>| #[trigger] lookup(entries@, q) == if q == key@ { Some(ids) } else { lookup(before, q) } by {
                    lemma_lookup_update(before, i as int, key, ids, q);
                }
                assert forall|a: int, b: int| 0 <= a < b < entries@.len() implies
                    #[trigger] entries@[a].0@ != #[trigger] entries@[b].0@ by {
                    assert(before[a].0@ != before[b].0@);
                }
            }
        },
        None => {
            let mut ids = Vec::new();
            ids.push(v);
            let ghost before = entries@;
            let ghost kk = k;
            entries.push((k, ids));
            proof {
                assert forall|q: Seq<char>| #[trigger] lookup(entries@, q) == if q == kk@ && lookup(before, q) is None { Some(ids) } else { lookup(before, q) } by {
                    lemma_lookup_push(before, kk, ids, q);
                }
                assert(ids@ =~= Seq::<String>::empty().push(v));
                assert forall|a: int, b: int| 0 <= a < b < entries@.len() implies
                    #[trigger] entries@[a].0@ != #[trigger] entries@[b].0@ by {
                    if b == entries@.len() - 1 {
                        assert(!has_key(before, kk@));
                        assert(entries@[a] == before[a]);
                    } else {
                        assert(before[a].0@ != before[b].0@);
                    }
                }
            }
        },
    }
}

} // verus!

verus! {

proof fn lemma_lookup_remove<V>(entries: Seq<(String, V)>, i: int, q: Seq<char>)
    requires
        keys_unique(entries),
        0 <= i < entries.len(),
    ensures
        lookup(entries.remove(i), q) == if q == entries[i].0@ { None } else { lookup(entries, q) },
    decreases i,
{
    if i == 0 {
        assert(entries.remove(0) =~= entries.drop_first());
        if q == entries[0].0@ {
            assert forall|j: int| 0 <= j < entries.drop_first().len() implies #[trigger] entries.drop_first()[j].0@ != q by {
                assert(entries.drop_first()[j] == entries[j + 1]);
            }
            lemma_lookup_none(entries.drop_first(), q);
        }
    } else {
        let rest = entries.drop_first();
        assert(keys_unique(rest)) by {
            assert forall|a: int, b: int| 0 <= a < b < rest.len() implies #[trigger] rest[a].0@ != #[trigger] rest[b].0@ by {
                assert(rest[a] == entries[a + 1] && rest[b] == entries[b + 1]);
            }
        }
        lemma_lookup_remove(rest, i - 1, q);
        assert(entries.remove(i).drop_first() =~= rest.remove(i - 1));
        assert(entries.remove(i)[0] == entries[0]);
        assert(rest[i - 1] == entries[i]);
    }
}

/// Drop the entry stored under `k`, if any; the others keep their order.
pub fn remove_key<V>(entries: &mut Vec<(String, V)>, k: &String)
    requires
        keys_unique(old(entries)@),
    ensures
        keys_unique(final(entries)@),
        forall|q: Seq<char>| #[trigger] lookup(final(entries)@, q) == if q == k@ { None } else { lookup(old(entries)@, q) },
        final(entries)@ == old(entries)@ || exists|i: int| 0 <= i < old(entries)@.len() && final(entries)@ == old(entries)@.remove(i),
{
    match find_key(entries, k) {
        Some(i) => {
            let ghost before = entries@;
            proof {
                assert forall|q: Seq<char>| #[trigger] lookup(before.remove(i as int), q) == if q == k@ { None } else { lookup(before, q) } by {
                    lemma_lookup_remove(before, i as int, q);
                }
            }
            entries.remove(i);
            assert(entries@ =~= before.remove(i as int));
            assert forall|a: int, b: int| 0 <= a < b < entries@.len() implies #[trigger] entries@[a].0@ != #[trigger] entries@[b].0@ by {
                let a2 = if a < i { a } else { a + 1 };
                let b2 = if b < i { b } else { b + 1 };
                assert(entries@[a] == before[a2] && entries@[b] == before[b2]);
            }
        },
        None => {
            assert forall|q: Seq<char>| #[trigger] lookup(entries@, q) == if q == k@ { None } else { lookup(entries@, q) } by {}
        },
    }
}

} // verus!

verus! {

/// With unique keys, each entry is what its key looks up.
pub proof fn lemma_lookup_unique<V>(entries: Seq<(String, V)>, i: int)
    requires
        keys_unique(entries),
        0 <= i < entries.len(),
    ensures
        lookup(entries, entries[i].0@) == Some(entries[i].1),
{
    assert forall|j: int| 0 <= j < i implies #[trigger] entries[j].0@ != entries[i].0@ by {}
    lemma_lookup_at(entries, entries[i].0@, i);
}

} // verus!
