//! `trace structure`: a file's symbols, each joined to its complexity and
//! signature, in source order.

use crate::facts::FunctionFact;
use crate::signatures::{copy_extra, extra_view, sig_view, sigs_view, ExtraView, SigView, Signature};
use crate::text::str_eq;
use vstd::prelude::*;

verus! {

/// One symbol of a file.
#[derive(Debug)]
pub struct Symbol {
    pub name: String,
    pub kind: String,
    pub line: Option<i64>,
    pub scope: Option<String>,
    pub scope_kind: Option<String>,
    pub signature: Option<String>,
    pub cyclomatic_complexity: Option<i64>,
    pub extra: Option<crate::signatures::Extra>,
}

pub struct SymbolView {
    pub name: Seq<char>,
    pub kind: Seq<char>,
    pub line: Option<int>,
    pub scope: Option<Seq<char>>,
    pub scope_kind: Option<Seq<char>>,
    pub signature: Option<Seq<char>>,
    pub ccn: Option<int>,
    pub extra: Option<ExtraView>,
}

pub open spec fn opt_text(o: Option<String>) -> Option<Seq<char>> {
    match o {
        Some(s) => Some(s@),
        None => None,
    }
}

pub open spec fn symbol_view(s: Symbol) -> SymbolView {
    SymbolView {
        name: s.name@,
        kind: s.kind@,
        line: match s.line {
            Some(l) => Some(l as int),
            None => None,
        },
        scope: opt_text(s.scope),
        scope_kind: opt_text(s.scope_kind),
        signature: opt_text(s.signature),
        ccn: match s.cyclomatic_complexity {
            Some(c) => Some(c as int),
            None => None,
        },
        extra: match s.extra {
            Some(e) => Some(extra_view(e)),
            None => None,
        },
    }
}

pub open spec fn symbols_view(v: Seq<Symbol>) -> Seq<SymbolView> {
    v.map_values(|s: Symbol| symbol_view(s))
}

/// The complexity of the function starting at `line`: the last one listed
/// there.
pub open spec fn ccn_at(fs: Seq<FunctionFact>, line: int) -> Option<int>
    decreases fs.len(),
{
    if fs.len() == 0 {
        None
    } else if fs.last().start_line == line {
        Some(fs.last().cyclomatic_complexity as int)
    } else {
        ccn_at(fs.drop_last(), line)
    }
}

/// The first signature declared at `line` under `name`.
pub open spec fn sig_for(sigs: Seq<SigView>, line: int, name: Seq<char>) -> Option<int>
    decreases sigs.len(),
{
    if sigs.len() == 0 {
        None
    } else if sigs[0].2 == line && sigs[0].0 == name {
        Some(0)
    } else {
        match sig_for(sigs.drop_first(), line, name) {
            Some(i) => Some(i + 1),
            None => None,
        }
    }
}

/// A symbol with its complexity and signature fields joined by line (and,
/// for the signature, name); a symbol without a line is left as it is.
pub open spec fn annotate(s: SymbolView, sigs: Seq<SigView>, fs: Seq<FunctionFact>) -> SymbolView {
    match s.line {
        Some(l) => SymbolView {
            ccn: match ccn_at(fs, l) {
                Some(c) => Some(c),
                None => s.ccn,
            },
            extra: match sig_for(sigs, l, s.name) {
                Some(i) => Some(sigs[i].3),
                None => s.extra,
            },
            ..s
        },
        None => s,
    }
}

/// Whether some symbol took signature `i`.
pub open spec fn taken(syms: Seq<SymbolView>, sigs: Seq<SigView>, i: int) -> bool {
    exists|k: int|
        0 <= k < syms.len() && (match (#[trigger] syms[k]).line {
            Some(l) => sig_for(sigs, l, syms[k].name) == Some(i),
            None => false,
        })
}

/// A symbol made from a signature no symbol took.
pub open spec fn from_sig(s: SigView, fs: Seq<FunctionFact>) -> SymbolView {
    SymbolView {
        name: s.0,
        kind: s.1,
        line: Some(s.2),
        scope: None,
        scope_kind: None,
        signature: None,
        ccn: ccn_at(fs, s.2),
        extra: Some(s.3),
    }
}

/// The signatures no symbol took, as symbols, in signature order.
pub open spec fn backfill(syms: Seq<SymbolView>, sigs: Seq<SigView>, fs: Seq<FunctionFact>, n: int) -> Seq<SymbolView>
    decreases n,
{
    if n <= 0 {
        Seq::empty()
    } else {
        let prev = backfill(syms, sigs, fs, n - 1);
        if taken(syms, sigs, n - 1) {
            prev
        } else {
            prev.push(from_sig(sigs[n - 1], fs))
        }
    }
}

/// The key symbols are ordered by: their line, 0 without one.
pub open spec fn line_key(s: SymbolView) -> int {
    match s.line {
        Some(l) => l,
        None => 0,
    }
}

/// `x` placed into the line-ordered `s` after every symbol on its line or
/// before it.
pub open spec fn insert_by_line(s: Seq<SymbolView>, x: SymbolView) -> Seq<SymbolView>
    decreases s.len(),
{
    if s.len() == 0 || line_key(s.last()) <= line_key(x) {
        s.push(x)
    } else {
        insert_by_line(s.drop_last(), x).push(s.last())
    }
}

/// `s` ordered by line; symbols on one line keep their order.
pub open spec fn sort_by_line(s: Seq<SymbolView>) -> Seq<SymbolView>
    decreases s.len(),
{
    if s.len() == 0 {
        Seq::empty()
    } else {
        insert_by_line(sort_by_line(s.drop_last()), s.last())
    }
}

/// The file's symbols: each joined to the complexity of the function that
/// starts on its line and to the signature declared there under its name;
/// then every signature no symbol took, as a symbol of its own; all in line
/// order, symbols on one line in that order.
pub open spec fn merged(syms: Seq<SymbolView>, sigs: Seq<SigView>, fs: Seq<FunctionFact>) -> Seq<SymbolView> {
    sort_by_line(syms.map_values(|s: SymbolView| annotate(s, sigs, fs)) + backfill(syms, sigs, fs, sigs.len() as int))
}

fn ccn_at_of(fs: &Vec<FunctionFact>, line: i64) -> (r: Option<i64>)
    ensures
        match r {
            Some(c) => ccn_at(fs@, line as int) == Some(c as int),
            None => ccn_at(fs@, line as int) is None,
        },
{
    let mut r: Option<i64> = None;
    let mut i: usize = 0;
    while i < fs.len()
        invariant
            i <= fs@.len(),
            match r {
                Some(c) => ccn_at(fs@.take(i as int), line as int) == Some(c as int),
                None => ccn_at(fs@.take(i as int), line as int) is None,
            },
        decreases fs@.len() - i,
    {
        assert(fs@.take(i + 1).drop_last() =~= fs@.take(i as int));
        assert(fs@.take(i + 1).last() == fs@[i as int]);
        if fs[i].start_line == line {
            r = Some(fs[i].cyclomatic_complexity);
        }
        i += 1;
    }
    assert(fs@.take(i as int) =~= fs@);
    r
}

proof fn lemma_sig_for_at(sigs: Seq<SigView>, line: int, name: Seq<char>, i: int)
    requires
        0 <= i <= sigs.len(),
        forall|j: int| 0 <= j < i ==> !(sigs[j].2 == line && #[trigger] sigs[j].0 == name),
    ensures
        i < sigs.len() && sigs[i].2 == line && sigs[i].0 == name ==> sig_for(sigs, line, name) == Some(i),
        i == sigs.len() ==> sig_for(sigs, line, name) is None,
    decreases i,
{
    if i > 0 {
        assert forall|j: int| 0 <= j < i - 1 implies !(sigs.drop_first()[j].2 == line && #[trigger] sigs.drop_first()[j].0
            == name) by {
            assert(sigs.drop_first()[j] == sigs[j + 1]);
        }
        lemma_sig_for_at(sigs.drop_first(), line, name, i - 1);
    } else if sigs.len() == 0 {
    }
}

fn sig_for_of(sigs: &Vec<Signature>, line: i64, name: &str) -> (r: Option<usize>)
    ensures
        match r {
            Some(i) => i < sigs@.len() && sig_for(sigs_view(sigs@), line as int, name@) == Some(i as int),
            None => sig_for(sigs_view(sigs@), line as int, name@) is None,
        },
{
    let ghost sv = sigs_view(sigs@);
    let mut i: usize = 0;
    while i < sigs.len()
        invariant
            i <= sigs@.len(),
            sv == sigs_view(sigs@),
            forall|j: int| 0 <= j < i ==> !(sv[j].2 == line && #[trigger] sv[j].0 == name@),
        decreases sigs@.len() - i,
    {
        assert(sv[i as int] == sig_view(sigs@[i as int]));
        if sigs[i].line == line && str_eq(sigs[i].name.as_str(), name) {
            proof {
                lemma_sig_for_at(sv, line as int, name@, i as int);
            }
            return Some(i);
        }
        i += 1;
    }
    proof {
        lemma_sig_for_at(sv, line as int, name@, i as int);
    }
    None
}

proof fn lemma_insert_at(s: Seq<SymbolView>, x: SymbolView, p: int)
    requires
        0 <= p <= s.len(),
        forall|j: int| p <= j < s.len() ==> line_key(#[trigger] s[j]) > line_key(x),
        p == 0 || line_key(s[p - 1]) <= line_key(x),
    ensures
        insert_by_line(s, x) == s.take(p) + seq![x] + s.skip(p),
    decreases s.len(),
{
    if s.len() == p {
        assert(s.take(p) + seq![x] + s.skip(p) =~= s.push(x));
    } else {
        lemma_insert_at(s.drop_last(), x, p);
        assert(s.drop_last().take(p) + seq![x] + s.drop_last().skip(p) + seq![s.last()] =~= s.take(p) + seq![x] + s.skip(
            p,
        ));
    }
}

fn key_of(s: &Symbol) -> (r: i64)
    ensures
        r as int == line_key(symbol_view(*s)),
{
    match s.line {
        Some(l) => l,
        None => 0,
    }
}

/// Insert `x` by line into the line-ordered `out`.
fn insert_symbol(out: &mut Vec<Symbol>, x: Symbol)
    ensures
        symbols_view(final(out)@) == insert_by_line(symbols_view(old(out)@), symbol_view(x)),
{
    let ghost ov = symbols_view(out@);
    let key: i64 = match x.line {
        Some(l) => l,
        None => 0,
    };
    let mut p: usize = out.len();
    while p > 0 && key_of(&out[p - 1]) > key
        invariant
            p <= out@.len(),
            ov == symbols_view(out@),
            key as int == line_key(symbol_view(x)),
            forall|j: int| p <= j < ov.len() ==> line_key(#[trigger] ov[j]) > key,
        decreases p,
    {
        assert(ov[p - 1] == symbol_view(out@[p - 1]));
        p -= 1;
    }
    if p > 0 {
        assert(ov[p - 1] == symbol_view(out@[p - 1]));
    }
    proof {
        lemma_insert_at(ov, symbol_view(x), p as int);
    }
    let ghost xv = symbol_view(x);
    out.insert(p, x);
    assert(symbols_view(out@) =~= ov.take(p as int) + seq![xv] + ov.skip(p as int));
}

fn copy_symbol_fields(s: &Symbol) -> (r: Symbol)
    ensures
        symbol_view(r) == symbol_view(*s),
{
    Symbol {
        name: s.name.clone(),
        kind: s.kind.clone(),
        line: s.line,
        scope: s.scope.clone(),
        scope_kind: s.scope_kind.clone(),
        signature: s.signature.clone(),
        cyclomatic_complexity: s.cyclomatic_complexity,
        extra: match &s.extra {
            Some(e) => Some(copy_extra(e)),
            None => None,
        },
    }
}

/// Join the symbols to their complexity and signatures, add the signatures
/// no symbol took, and order everything by line.
pub fn merge_symbols(syms: &Vec<Symbol>, sigs: &Vec<Signature>, functions: &Vec<FunctionFact>) -> (r: Vec<Symbol>)
    ensures
        symbols_view(r@) == merged(symbols_view(syms@), sigs_view(sigs@), functions@),
{
    let ghost yv = symbols_view(syms@);
    let ghost sv = sigs_view(sigs@);
    let ghost fv = functions@;
    let ghost ann = yv.map_values(|s: SymbolView| annotate(s, sv, fv));
    let mut taken_by: Vec<bool> = Vec::new();
    let mut t: usize = 0;
    while t < sigs.len()
        invariant
            t <= sigs@.len(),
            taken_by@.len() == t,
            forall|j: int| 0 <= j < t ==> !taken_by@[j],
        decreases sigs@.len() - t,
    {
        taken_by.push(false);
        t += 1;
    }
    let mut all: Vec<Symbol> = Vec::new();
    let mut i: usize = 0;
    while i < syms.len()
        invariant
            i <= syms@.len(),
            yv == symbols_view(syms@),
            sv == sigs_view(sigs@),
            fv == functions@,
            ann == yv.map_values(|s: SymbolView| annotate(s, sv, fv)),
            taken_by@.len() == sigs@.len(),
            forall|j: int| 0 <= j < sigs@.len() ==> taken_by@[j] == taken(yv.take(i as int), sv, j),
            symbols_view(all@) == sort_by_line(ann.take(i as int)),
        decreases syms@.len() - i,
    {
        let s = &syms[i];
        let ghost y = yv[i as int];
        assert(y == symbol_view(*s));
        let mut x = copy_symbol_fields(s);
        match s.line {
            Some(l) => {
                match ccn_at_of(functions, l) {
                    Some(c) => {
                        x.cyclomatic_complexity = Some(c);
                    },
                    None => {},
                }
                match sig_for_of(sigs, l, s.name.as_str()) {
                    Some(k) => {
                        x.extra = Some(copy_extra(&sigs[k].extra));
                        assert(sv[k as int] == sig_view(sigs@[k as int]));
                        taken_by.set(k, true);
                    },
                    None => {},
                }
            },
            None => {},
        }
        assert(symbol_view(x) == annotate(y, sv, fv));
        proof {
            assert forall|j: int| 0 <= j < sigs@.len() implies taken_by@[j] == taken(yv.take(i + 1), sv, j) by {
                let pre = yv.take(i as int);
                let post = yv.take(i + 1);
                assert(post[i as int] == y);
                if taken(pre, sv, j) {
                    let k = choose|k: int|
                        0 <= k < pre.len() && (match (#[trigger] pre[k]).line {
                            Some(l) => sig_for(sv, l, pre[k].name) == Some(j),
                            None => false,
                        });
                    assert(post[k] == pre[k]);
                }
                if taken(post, sv, j) {
                    let k = choose|k: int|
                        0 <= k < post.len() && (match (#[trigger] post[k]).line {
                            Some(l) => sig_for(sv, l, post[k].name) == Some(j),
                            None => false,
                        });
                    if k < i {
                        assert(pre[k] == post[k]);
                    }
                }
            }
        }
        assert(ann.take(i + 1).drop_last() =~= ann.take(i as int));
        assert(ann.take(i + 1).last() == annotate(y, sv, fv));
        insert_symbol(&mut all, x);
        i += 1;
    }
    assert(yv.take(i as int) =~= yv);
    assert(ann.take(i as int) =~= ann);
    let ghost head = ann;
    let mut k: usize = 0;
    while k < sigs.len()
        invariant
            k <= sigs@.len(),
            yv == symbols_view(syms@),
            sv == sigs_view(sigs@),
            fv == functions@,
            head == yv.map_values(|s: SymbolView| annotate(s, sv, fv)),
            taken_by@.len() == sigs@.len(),
            forall|j: int| 0 <= j < sigs@.len() ==> taken_by@[j] == taken(yv, sv, j),
            symbols_view(all@) == sort_by_line(head + backfill(yv, sv, fv, k as int)),
        decreases sigs@.len() - k,
    {
        let ghost before = head + backfill(yv, sv, fv, k as int);
        if !taken_by[k] {
            let sig = &sigs[k];
            assert(sv[k as int] == sig_view(*sig));
            let x = Symbol {
                name: sig.name.clone(),
                kind: sig.kind.clone(),
                line: Some(sig.line),
                scope: None,
                scope_kind: None,
                signature: None,
                cyclomatic_complexity: ccn_at_of(functions, sig.line),
                extra: Some(copy_extra(&sig.extra)),
            };
            assert(symbol_view(x) == from_sig(sv[k as int], fv));
            insert_symbol(&mut all, x);
            assert(head + backfill(yv, sv, fv, k + 1) =~= before.push(from_sig(sv[k as int], fv)));
            assert((before.push(from_sig(sv[k as int], fv))).drop_last() =~= before);
        } else {
            assert(backfill(yv, sv, fv, k + 1) == backfill(yv, sv, fv, k as int));
        }
        k += 1;
    }
    all
}

/// `L` and the line, left-aligned in five columns.
pub open spec fn line_tag(l: int) -> Seq<char> {
    "L"@ + crate::text::pad_right(crate::text::dec_int(l), 5)
}

pub open spec fn import_line(i: crate::extraction::Import) -> Seq<char> {
    "  "@ + line_tag(i.line as int) + " "@ + i.module@ + nonempty_suffix(opt_text(i.symbol), " -> "@, ""@)
}

pub open spec fn export_line(e: crate::extraction::Export) -> Seq<char> {
    "  "@ + line_tag(e.line as int) + " ["@ + e.kind@ + "] "@ + e.name@
}

pub open spec fn nonempty_suffix(o: Option<Seq<char>>, pre: Seq<char>, post: Seq<char>) -> Seq<char> {
    match o {
        Some(x) => if x.len() > 0 {
            pre + x + post
        } else {
            ""@
        },
        None => ""@,
    }
}

pub open spec fn symbol_line(s: SymbolView) -> Seq<char> {
    "  "@ + line_tag(line_key(s)) + " "@ + s.name + nonempty_suffix(s.signature, " "@, ""@) + nonempty_suffix(
        s.scope,
        " [in "@,
        "]"@,
    ) + match s.ccn {
        Some(c) => " cyclomatic_complexity="@ + crate::text::dec_int(c),
        None => ""@,
    }
}

/// The lines of the symbols of kind `k`, in order.
pub open spec fn kind_lines(syms: Seq<SymbolView>, k: Seq<char>) -> Seq<Seq<char>>
    decreases syms.len(),
{
    if syms.len() == 0 {
        Seq::empty()
    } else {
        let prev = kind_lines(syms.drop_last(), k);
        if syms.last().kind == k {
            prev.push(symbol_line(syms.last()))
        } else {
            prev
        }
    }
}

/// One block per kind of `ks`, in that order.
pub open spec fn kind_blocks(syms: Seq<SymbolView>, ks: Seq<Seq<char>>) -> Seq<Seq<char>>
    decreases ks.len(),
{
    if ks.len() == 0 {
        Seq::empty()
    } else {
        kind_blocks(syms, ks.drop_last()) + seq![ks.last() + "s:"@] + kind_lines(syms, ks.last()) + seq![""@]
    }
}

/// The printed structure report, its kinds in the order `ks` gives.
pub open spec fn report(
    file: Seq<char>,
    language: Option<Seq<char>>,
    imports: Seq<crate::extraction::Import>,
    exports: Seq<crate::extraction::Export>,
    syms: Seq<SymbolView>,
    ks: Seq<Seq<char>>,
) -> Seq<Seq<char>> {
    seq![
        "File: "@ + file,
        "Language: "@ + match language {
            Some(l) => l,
            None => "(unknown)"@,
        },
        "Symbols: "@ + crate::text::dec(syms.len()) + "  Imports: "@ + crate::text::dec(imports.len()) + "  Exports: "@
            + crate::text::dec(exports.len()),
        ""@,
    ] + (if imports.len() > 0 {
        seq!["Imports:"@] + imports.map_values(|i: crate::extraction::Import| import_line(i)) + seq![""@]
    } else {
        Seq::empty()
    }) + (if exports.len() > 0 {
        seq!["Exports:"@] + exports.map_values(|e: crate::extraction::Export| export_line(e)) + seq![""@]
    } else {
        Seq::empty()
    }) + kind_blocks(syms, ks)
}

fn tag_of(l: i64) -> (r: String)
    ensures
        r@ == line_tag(l as int),
{
    let n = crate::text::fmt_i64(l);
    let p = crate::text::right_pad(n.as_str(), 5);
    crate::text::concat("L", p.as_str())
}

fn suffix_of(o: &Option<String>, pre: &str, post: &str) -> (r: String)
    ensures
        r@ == nonempty_suffix(opt_text(*o), pre@, post@),
{
    proof {
        reveal_strlit("");
    }
    match o {
        Some(x) => {
            if x.unicode_len() > 0 {
                let a = crate::text::concat(pre, x.as_str());
                crate::text::concat(a.as_str(), post)
            } else {
                "".to_owned()
            }
        },
        None => "".to_owned(),
    }
}

fn symbol_line_of(s: &Symbol) -> (r: String)
    ensures
        r@ == symbol_line(symbol_view(*s)),
{
    proof {
        reveal_strlit("");
    }
    let a = crate::text::concat("  ", tag_of(key_of(s)).as_str());
    let b = crate::text::concat(a.as_str(), " ");
    let c = crate::text::concat(b.as_str(), s.name.as_str());
    let d = crate::text::concat(c.as_str(), suffix_of(&s.signature, " ", "").as_str());
    let e = crate::text::concat(d.as_str(), suffix_of(&s.scope, " [in ", "]").as_str());
    let tail = match s.cyclomatic_complexity {
        Some(cc) => crate::text::concat(" cyclomatic_complexity=", crate::text::fmt_i64(cc).as_str()),
        None => "".to_owned(),
    };
    crate::text::concat(e.as_str(), tail.as_str())
}

fn push_all(out: &mut Vec<String>, more: &Vec<String>)
    ensures
        crate::ordered::text_views(final(out)@) == crate::ordered::text_views(old(out)@) + crate::ordered::text_views(more@),
{
    let ghost base = crate::ordered::text_views(out@);
    let ghost mv = crate::ordered::text_views(more@);
    let mut j: usize = 0;
    while j < more.len()
        invariant
            j <= more@.len(),
            mv == crate::ordered::text_views(more@),
            crate::ordered::text_views(out@) == base + mv.take(j as int),
        decreases more@.len() - j,
    {
        let ghost ov = crate::ordered::text_views(out@);
        let x = more[j].clone();
        out.push(x);
        assert(crate::ordered::text_views(out@) =~= ov.push(mv[j as int]));
        assert(mv.take(j + 1) =~= mv.take(j as int).push(mv[j as int]));
        j += 1;
    }
    assert(mv.take(j as int) =~= mv);
}

/// The lines `trace structure` prints for a file: header, imports, exports,
/// then the symbols grouped by kind, kinds in text order.
pub fn report_lines(
    file: &str,
    language: &Option<String>,
    imports: &Vec<crate::extraction::Import>,
    exports: &Vec<crate::extraction::Export>,
    syms: &Vec<Symbol>,
) -> (r: Vec<String>)
    ensures
        exists|ks: Seq<Seq<char>>|
            {
                &&& crate::ordered::strictly_sorted(ks)
                &&& forall|k: Seq<char>| #[trigger] ks.contains(k) <==> exists|j: int| 0 <= j < syms@.len() && (#[trigger] syms@[j]).kind@ == k
                &&& crate::ordered::text_views(r@) == report(
                    file@,
                    opt_text(*language),
                    imports@,
                    exports@,
                    symbols_view(syms@),
                    ks,
                )
            },
{
    proof {
        reveal_strlit("");
    }
    let ghost yv = symbols_view(syms@);
    let mut out: Vec<String> = Vec::new();
    out.push(crate::text::concat("File: ", file));
    let lang = match language {
        Some(l) => l.clone(),
        None => "(unknown)".to_owned(),
    };
    out.push(crate::text::concat("Language: ", lang.as_str()));
    let a = crate::text::concat("Symbols: ", crate::text::fmt_u64(syms.len() as u64).as_str());
    let b = crate::text::concat(a.as_str(), "  Imports: ");
    let c = crate::text::concat(b.as_str(), crate::text::fmt_u64(imports.len() as u64).as_str());
    let d = crate::text::concat(c.as_str(), "  Exports: ");
    out.push(crate::text::concat(d.as_str(), crate::text::fmt_u64(exports.len() as u64).as_str()));
    out.push("".to_owned());
    let ghost head = crate::ordered::text_views(out@);
    if imports.len() > 0 {
        let mut block: Vec<String> = Vec::new();
        block.push("Imports:".to_owned());
        let mut i: usize = 0;
        while i < imports.len()
            invariant
                i <= imports@.len(),
                crate::ordered::text_views(block@) == seq!["Imports:"@] + imports@.take(i as int).map_values(
                    |x: crate::extraction::Import| import_line(x),
                ),
            decreases imports@.len() - i,
        {
            let im = &imports[i];
            let x1 = crate::text::concat("  ", tag_of(im.line).as_str());
            let x2 = crate::text::concat(x1.as_str(), " ");
            let x3 = crate::text::concat(x2.as_str(), im.module.as_str());
            let line = crate::text::concat(x3.as_str(), suffix_of(&im.symbol, " -> ", "").as_str());
            let ghost ov = crate::ordered::text_views(block@);
            block.push(line);
            assert(line@ == import_line(imports@[i as int]));
            assert(crate::ordered::text_views(block@) =~= ov.push(line@));
            assert(imports@.take(i + 1).map_values(|x: crate::extraction::Import| import_line(x)) =~= imports@.take(
                i as int,
            ).map_values(|x: crate::extraction::Import| import_line(x)).push(line@));
            i += 1;
        }
        assert(imports@.take(i as int) =~= imports@);
        block.push("".to_owned());
        push_all(&mut out, &block);
    }
    let ghost head2 = crate::ordered::text_views(out@);
    if exports.len() > 0 {
        let mut block: Vec<String> = Vec::new();
        block.push("Exports:".to_owned());
        let mut i: usize = 0;
        while i < exports.len()
            invariant
                i <= exports@.len(),
                crate::ordered::text_views(block@) == seq!["Exports:"@] + exports@.take(i as int).map_values(
                    |x: crate::extraction::Export| export_line(x),
                ),
            decreases exports@.len() - i,
        {
            let ex = &exports[i];
            let x1 = crate::text::concat("  ", tag_of(ex.line).as_str());
            let x2 = crate::text::concat(x1.as_str(), " [");
            let x3 = crate::text::concat(x2.as_str(), ex.kind.as_str());
            let x4 = crate::text::concat(x3.as_str(), "] ");
            let line = crate::text::concat(x4.as_str(), ex.name.as_str());
            let ghost ov = crate::ordered::text_views(block@);
            block.push(line);
            assert(line@ == export_line(exports@[i as int]));
            assert(crate::ordered::text_views(block@) =~= ov.push(line@));
            assert(exports@.take(i + 1).map_values(|x: crate::extraction::Export| export_line(x)) =~= exports@.take(
                i as int,
            ).map_values(|x: crate::extraction::Export| export_line(x)).push(line@));
            i += 1;
        }
        assert(exports@.take(i as int) =~= exports@);
        block.push("".to_owned());
        push_all(&mut out, &block);
    }
    let ghost head3 = crate::ordered::text_views(out@);
    let mut kinds: Vec<String> = Vec::new();
    let mut q: usize = 0;
    while q < syms.len()
        invariant
            q <= syms@.len(),
            crate::ordered::text_views(kinds@) == syms@.take(q as int).map_values(|s: Symbol| s.kind@),
        decreases syms@.len() - q,
    {
        let ghost ov = crate::ordered::text_views(kinds@);
        kinds.push(syms[q].kind.clone());
        assert(crate::ordered::text_views(kinds@) =~= ov.push(syms@[q as int].kind@));
        assert(syms@.take(q + 1).map_values(|s: Symbol| s.kind@) =~= syms@.take(q as int).map_values(|s: Symbol| s.kind@).push(
            syms@[q as int].kind@,
        ));
        q += 1;
    }
    assert(syms@.take(q as int) =~= syms@);
    let ks = crate::ordered::sorted_unique(&kinds);
    let ghost kv = crate::ordered::text_views(ks@);
    let mut k: usize = 0;
    while k < ks.len()
        invariant
            k <= ks@.len(),
            yv == symbols_view(syms@),
            kv == crate::ordered::text_views(ks@),
            crate::ordered::text_views(out@) == head3 + kind_blocks(yv, kv.take(k as int)),
        decreases ks@.len() - k,
    {
        let kind = &ks[k];
        let ghost ov = crate::ordered::text_views(out@);
        out.push(crate::text::concat(kind.as_str(), "s:"));
        let ghost mid = crate::ordered::text_views(out@);
        let mut j: usize = 0;
        while j < syms.len()
            invariant
                j <= syms@.len(),
                yv == symbols_view(syms@),
                crate::ordered::text_views(out@) == mid + kind_lines(yv.take(j as int), kind@),
            decreases syms@.len() - j,
        {
            assert(yv.take(j + 1).drop_last() =~= yv.take(j as int));
            assert(yv.take(j + 1).last() == symbol_view(syms@[j as int]));
            if str_eq(syms[j].kind.as_str(), kind.as_str()) {
                let ghost o2 = crate::ordered::text_views(out@);
                let line = symbol_line_of(&syms[j]);
                out.push(line);
                assert(crate::ordered::text_views(out@) =~= o2.push(line@));
            }
            j += 1;
        }
        assert(yv.take(j as int) =~= yv);
        let ghost pre_push = crate::ordered::text_views(out@);
        assert(pre_push == mid + kind_lines(yv, kind@));
        out.push("".to_owned());
        assert(crate::ordered::text_views(out@) =~= pre_push.push(""@));
        assert(kv.take(k + 1).drop_last() =~= kv.take(k as int));
        assert(kv[k as int] == kind@);
        assert(kv.take(k + 1).last() == kind@);
        let ghost kl = kind_lines(yv, kind@);
        assert(mid =~= ov.push(kind@ + "s:"@));
        assert(crate::ordered::text_views(out@) =~= ov + seq![kind@ + "s:"@] + kl + seq![""@]);
        assert(kind_blocks(yv, kv.take(k + 1)) == kind_blocks(yv, kv.take(k as int)) + seq![kind@ + "s:"@] + kl + seq![""@]);
        assert(crate::ordered::text_views(out@) =~= head3 + kind_blocks(yv, kv.take(k + 1)));
        k += 1;
    }
    assert(kv.take(k as int) =~= kv);
    proof {
        let kinds_v = syms@.map_values(|s: Symbol| s.kind@);
        assert forall|x: Seq<char>| #[trigger] kv.contains(x) <==> exists|j: int| 0 <= j < syms@.len() && (#[trigger] syms@[j]).kind@ == x by {
            if kv.contains(x) {
                assert(kinds_v.contains(x));
                let j = choose|j: int| 0 <= j < kinds_v.len() && kinds_v[j] == x;
                assert(syms@[j].kind@ == x);
            }
            if exists|j: int| 0 <= j < syms@.len() && (#[trigger] syms@[j]).kind@ == x {
                let j = choose|j: int| 0 <= j < syms@.len() && (#[trigger] syms@[j]).kind@ == x;
                assert(kinds_v[j] == x);
                assert(kinds_v.contains(x));
            }
        }
        assert(crate::ordered::text_views(out@) =~= report(file@, opt_text(*language), imports@, exports@, yv, kv));
    }
    out
}

} // verus!
