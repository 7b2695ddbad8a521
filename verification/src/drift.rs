//! Drift between the documents the context primer predicted and the ones
//! the harness reports it actually loaded.

use crate::ordered::{contains_text, sorted_unique, strictly_sorted, text_views, without};
use crate::text::{concat, starts_with};
use vstd::prelude::*;

verus! {

/// One document the harness loaded.
#[derive(Debug, Clone, PartialEq, Eq)]
pub struct ObservedDoc {
    pub path: String,
    pub content_hash: String,
    pub size: usize,
}

/// The observed set, as the hook reports it.
#[derive(Debug, Clone, PartialEq, Eq)]
pub struct Observed {
    pub paths: Vec<ObservedDoc>,
}

/// The two sets in order, and what each lacks of the other: `missing` was
/// predicted and not observed, `extra` observed and not predicted.
#[derive(Debug, Clone)]
pub struct Report {
    pub predicted: Vec<String>,
    pub observed: Vec<String>,
    pub missing: Vec<String>,
    pub extra: Vec<String>,
}

pub open spec fn observed_paths(o: Observed) -> Seq<Seq<char>> {
    o.paths@.map_values(|d: ObservedDoc| d.path@)
}

/// `r` lists, in strict order, exactly the texts `holds` accepts.
pub open spec fn lists_exactly(r: Seq<Seq<char>>, holds: spec_fn(Seq<char>) -> bool) -> bool {
    &&& strictly_sorted(r)
    &&& forall|x: Seq<char>| #[trigger] r.contains(x) <==> holds(x)
}

/// Compare the predicted paths with the observed ones: nothing when the two
/// sets agree, else both sets and their two differences, each sorted.
pub fn detect(predicted: &Vec<String>, observed: &Observed) -> (r: Option<Report>)
    ensures
        r is None <==> forall|x: Seq<char>| text_views(predicted@).contains(x) <==> observed_paths(*observed).contains(x),
        r matches Some(rep) ==> {
            let p = text_views(predicted@);
            let o = observed_paths(*observed);
            &&& lists_exactly(text_views(rep.predicted@), |x: Seq<char>| p.contains(x))
            &&& lists_exactly(text_views(rep.observed@), |x: Seq<char>| o.contains(x))
            &&& lists_exactly(text_views(rep.missing@), |x: Seq<char>| p.contains(x) && !o.contains(x))
            &&& lists_exactly(text_views(rep.extra@), |x: Seq<char>| o.contains(x) && !p.contains(x))
        },
{
    let ghost p = text_views(predicted@);
    let ghost o = observed_paths(*observed);
    let mut paths: Vec<String> = Vec::new();
    let mut i: usize = 0;
    while i < observed.paths.len()
        invariant
            i <= observed.paths.len(),
            o == observed_paths(*observed),
            paths@.len() == i,
            text_views(paths@) == o.take(i as int),
        decreases observed.paths.len() - i,
    {
        let t = observed.paths[i].path.clone();
        assert(o[i as int] == observed.paths@[i as int].path@);
        paths.push(t);
        assert(text_views(paths@) =~= o.take(i + 1));
        i += 1;
    }
    assert(o.take(i as int) =~= o);
    let pred = sorted_unique(predicted);
    let obs = sorted_unique(&paths);
    let missing = without(&pred, &obs);
    let extra = without(&obs, &pred);
    if missing.len() == 0 && extra.len() == 0 {
        assert forall|x: Seq<char>| p.contains(x) <==> o.contains(x) by {
            if p.contains(x) && !o.contains(x) {
                assert(text_views(missing@).contains(x));
            }
            if o.contains(x) && !p.contains(x) {
                assert(text_views(extra@).contains(x));
            }
        }
        None
    } else {
        proof {
            if forall|x: Seq<char>| p.contains(x) <==> o.contains(x) {
                if missing.len() > 0 {
                    assert(text_views(missing@).contains(text_views(missing@)[0]));
                } else {
                    assert(text_views(extra@).contains(text_views(extra@)[0]));
                }
            }
        }
        Some(Report { predicted: pred, observed: obs, missing, extra })
    }
}

/// Why an observed set is refused.
#[derive(Debug, Clone, PartialEq, Eq)]
pub enum ObservedError {
    EmptyPath,
    BadHash { path: String, hash: String },
}

impl ObservedError {
    pub fn message(&self) -> (r: String)
        ensures
            r@ == match *self {
                ObservedError::EmptyPath => "--observed-from contains an entry with an empty path"@,
                ObservedError::BadHash { path, hash } => "--observed-from entry for `"@ + path@
                    + "` has content_hash `"@ + hash@ + "` \u{2014} must start with `sha256:`"@,
            },
    {
        match self {
            ObservedError::EmptyPath => "--observed-from contains an entry with an empty path".to_owned(),
            ObservedError::BadHash { path, hash } => {
                let a = concat("--observed-from entry for `", path.as_str());
                let b = concat(a.as_str(), "` has content_hash `");
                let c = concat(b.as_str(), hash.as_str());
                concat(c.as_str(), "` \u{2014} must start with `sha256:`")
            },
        }
    }
}

/// The first document of `docs` the input contract refuses, with why.
pub open spec fn first_refusal(docs: Seq<ObservedDoc>) -> Option<ObservedError>
    decreases docs.len(),
{
    if docs.len() == 0 {
        None
    } else if docs[0].path@.len() == 0 {
        Some(ObservedError::EmptyPath)
    } else if !starts_with(docs[0].content_hash@, "sha256:"@) {
        Some(ObservedError::BadHash { path: docs[0].path, hash: docs[0].content_hash })
    } else {
        first_refusal(docs.drop_first())
    }
}

pub open spec fn error_view(e: ObservedError) -> (bool, Seq<char>, Seq<char>) {
    match e {
        ObservedError::EmptyPath => (true, Seq::empty(), Seq::empty()),
        ObservedError::BadHash { path, hash } => (false, path@, hash@),
    }
}

proof fn lemma_first_refusal_skip(docs: Seq<ObservedDoc>, i: int)
    requires
        0 <= i <= docs.len(),
        forall|j: int| 0 <= j < i ==> (#[trigger] docs[j]).path@.len() > 0 && starts_with(docs[j].content_hash@, "sha256:"@),
    ensures
        first_refusal(docs) == first_refusal(docs.skip(i)),
    decreases i,
{
    if i > 0 {
        lemma_first_refusal_skip(docs.drop_first(), i - 1);
        assert(docs.drop_first().skip(i - 1) =~= docs.skip(i));
    } else {
        assert(docs.skip(0) =~= docs);
    }
}

/// Hold an observed set to its input contract: every path non-empty, every
/// hash a `sha256:` string. The first document that breaks it is named.
pub fn check_observed(docs: Vec<ObservedDoc>) -> (r: Result<Observed, ObservedError>)
    ensures
        match r {
            Ok(o) => first_refusal(docs@) is None && o.paths@ == docs@,
            Err(e) => first_refusal(docs@) matches Some(f) && error_view(e) == error_view(f),
        },
{
    let prefix: Vec<char> = crate::text::chars_of("sha256:");
    let mut i: usize = 0;
    while i < docs.len()
        invariant
            i <= docs.len(),
            prefix@ == "sha256:"@,
            forall|j: int| 0 <= j < i ==> (#[trigger] docs@[j]).path@.len() > 0 && starts_with(docs@[j].content_hash@, "sha256:"@),
        decreases docs.len() - i,
    {
        let path = crate::text::chars_of(docs[i].path.as_str());
        let hash = crate::text::chars_of(docs[i].content_hash.as_str());
        proof {
            lemma_first_refusal_skip(docs@, i as int);
            assert(docs@.skip(i as int)[0] == docs@[i as int]);
            assert(docs@.skip(i as int).drop_first() =~= docs@.skip(i + 1));
        }
        if path.len() == 0 {
            return Err(ObservedError::EmptyPath);
        }
        if !crate::text::seq_starts_with(&hash, &prefix) {
            return Err(ObservedError::BadHash { path: docs[i].path.clone(), hash: docs[i].content_hash.clone() });
        }
        i += 1;
    }
    proof {
        lemma_first_refusal_skip(docs@, i as int);
        assert(docs@.skip(i as int) =~= Seq::<ObservedDoc>::empty());
    }
    Ok(Observed { paths: docs })
}

} // verus!
