//! The module-level imports and exports a per-language extractor reports for
//! one source file, and which files have an extractor at all.

use crate::paths::{extension, extension_of};
use crate::text::{str_eq, to_lowercase, unicode_lowercase};
use vstd::prelude::*;

verus! {

broadcast use vstd::string::group_string_axioms;

/// One import statement: the module named, and the symbol taken from it.
#[derive(Debug)]
pub struct Import {
    pub module: String,
    pub symbol: Option<String>,
    pub line: i64,
}

/// One module-level declaration a file exports.
#[derive(Debug)]
pub struct Export {
    pub name: String,
    pub kind: String,
    pub line: i64,
}

/// Everything one extractor reports for one file.
#[derive(Debug)]
pub struct ExtractionResult {
    pub language: String,
    pub imports: Vec<Import>,
    pub exports: Vec<Export>,
}

/// The extractor that handles a file.
#[derive(PartialEq, Eq, Structural, Clone, Copy, Debug)]
pub enum Extractor {
    Python,
    /// TypeScript/JavaScript; `tsx` selects the JSX-aware grammar.
    TypeScript { tsx: bool },
    Php,
}

/// Extensions with a registered extractor (lowercase, no leading dot).
pub open spec fn supported_extension_list() -> Seq<Seq<char>> {
    seq!["py"@, "ts"@, "tsx"@, "js"@, "jsx"@, "php"@]
}

/// Extensions with a registered extractor (lowercase, no leading dot).
pub fn supported_extensions() -> (r: Vec<&'static str>)
    ensures
        r@.map_values(|s: &str| s@) == supported_extension_list(),
{
    let r = vec!["py", "ts", "tsx", "js", "jsx", "php"];
    assert(r@.map_values(|s: &str| s@) =~= supported_extension_list());
    r
}

/// Whether a lowercased extension has an extractor.
pub fn is_supported_extension(ext: &str) -> (r: bool)
    ensures
        r == supported_extension_list().contains(ext@),
{
    let list = supported_extensions();
    let mut i: usize = 0;
    while i < list.len()
        invariant
            i <= list.len(),
            list@.map_values(|s: &str| s@) == supported_extension_list(),
            forall|j: int| 0 <= j < i ==> supported_extension_list()[j] != ext@,
        decreases list.len() - i,
    {
        assert(list@.map_values(|s: &str| s@)[i as int] == list@[i as int]@);
        if str_eq(list[i], ext) {
            assert(supported_extension_list()[i as int] == ext@);
            return true;
        }
        i += 1;
    }
    false
}

/// A path has an extractor when its extension, lowercased, is supported.
pub open spec fn is_supported_spec(path: Seq<char>) -> bool {
    match extension_of(path) {
        Some(e) => supported_extension_list().contains(unicode_lowercase(e)),
        None => false,
    }
}

/// Whether `path` has a registered extractor.
pub fn is_supported(path: &str) -> (r: bool)
    ensures
        r == is_supported_spec(path@),
{
    match extension(path) {
        Some(ext) => {
            let lower = to_lowercase(ext.as_str());
            is_supported_extension(lower.as_str())
        },
        None => false,
    }
}

/// Which extractor handles `path`, by its lowercased extension.
pub open spec fn extractor_for_spec(path: Seq<char>) -> Option<Extractor> {
    match extension_of(path) {
        Some(e) => {
            let l = unicode_lowercase(e);
            if l == "py"@ {
                Some(Extractor::Python)
            } else if l == "ts"@ || l == "js"@ {
                Some(Extractor::TypeScript { tsx: false })
            } else if l == "tsx"@ || l == "jsx"@ {
                Some(Extractor::TypeScript { tsx: true })
            } else if l == "php"@ {
                Some(Extractor::Php)
            } else {
                None
            }
        },
        None => None,
    }
}

/// The extractor that handles `path`, or `None` for an unsupported file.
pub fn extractor_for(path: &str) -> (r: Option<Extractor>)
    ensures
        r == extractor_for_spec(path@),
{
    match extension(path) {
        Some(ext) => {
            let l = to_lowercase(ext.as_str());
            let l = l.as_str();
            if str_eq(l, "py") {
                Some(Extractor::Python)
            } else if str_eq(l, "ts") || str_eq(l, "js") {
                Some(Extractor::TypeScript { tsx: false })
            } else if str_eq(l, "tsx") || str_eq(l, "jsx") {
                Some(Extractor::TypeScript { tsx: true })
            } else if str_eq(l, "php") {
                Some(Extractor::Php)
            } else {
                None
            }
        },
        None => None,
    }
}

/// Of the `(byte offset, module)` pairs before `symbol_byte`, the one with
/// the greatest offset, the last of equals.
pub open spec fn nearest_before(pending: Seq<(usize, String)>, symbol_byte: int) -> Option<(int, Seq<char>)>
    decreases pending.len(),
{
    if pending.len() == 0 {
        None
    } else {
        let prev = nearest_before(pending.drop_last(), symbol_byte);
        let b = pending.last().0 as int;
        if b < symbol_byte {
            match prev {
                Some(p) => if b >= p.0 {
                    Some((b, pending.last().1@))
                } else {
                    prev
                },
                None => Some((b, pending.last().1@)),
            }
        } else {
            prev
        }
    }
}

/// The module of the pending `from`-import nearest before a symbol: the
/// module that symbol was imported from; `unknown` when none precedes it.
pub fn nearest_pending(pending: &Vec<(usize, String)>, symbol_byte: usize) -> (r: String)
    ensures
        r@ == match nearest_before(pending@, symbol_byte as int) {
            Some(p) => p.1,
            None => "unknown"@,
        },
{
    let mut best: Option<(usize, usize)> = None;
    let mut i: usize = 0;
    while i < pending.len()
        invariant
            i <= pending@.len(),
            match best {
                Some((b, k)) => k < i && nearest_before(pending@.take(i as int), symbol_byte as int) == Some(
                    (b as int, pending@[k as int].1@),
                ),
                None => nearest_before(pending@.take(i as int), symbol_byte as int) is None,
            },
        decreases pending@.len() - i,
    {
        assert(pending@.take(i + 1).drop_last() =~= pending@.take(i as int));
        assert(pending@.take(i + 1).last() == pending@[i as int]);
        let b = pending[i].0;
        if b < symbol_byte {
            match best {
                Some((pb, _)) => {
                    if b >= pb {
                        best = Some((b, i));
                    }
                },
                None => {
                    best = Some((b, i));
                },
            }
        }
        i += 1;
    }
    assert(pending@.take(i as int) =~= pending@);
    match best {
        Some((_, k)) => pending[k].1.clone(),
        None => "unknown".to_owned(),
    }
}

} // verus!

verus! {

/// A file has an extractor exactly when its extension is a supported one.
pub proof fn extractor_exactly_when_supported(path: Seq<char>)
    ensures
        extractor_for_spec(path) is Some <==> is_supported_spec(path),
{
    let l = supported_extension_list();
    assert(l[0] == "py"@ && l[1] == "ts"@ && l[2] == "tsx"@ && l[3] == "js"@ && l[4] == "jsx"@ && l[5] == "php"@);
    match extension_of(path) {
        Some(e) => {
            let x = crate::text::unicode_lowercase(e);
            if l.contains(x) {
                let j = choose|j: int| 0 <= j < l.len() && l[j] == x;
            }
        },
        None => {},
    }
}

} // verus!
