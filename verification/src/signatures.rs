//! Per-symbol signatures for `trace structure`: from a parsed file, every
//! declared class, interface, trait, enum, function, method and property
//! with its visibility, modifiers, parameters, return type, attributes or
//! decorators, and heritage.

use crate::ccn::{function_nodes, function_order, node_ok, strs, tree_ok, SyntaxNode};
use crate::text::str_eq;
use vstd::prelude::*;

verus! {

// ---------- reading the tree ----------

pub open spec fn kind_of(t: Seq<SyntaxNode>, i: int) -> Seq<char> {
    t[i].kind@
}

pub open spec fn text_of(t: Seq<SyntaxNode>, i: int) -> Seq<char> {
    t[i].text@
}

pub open spec fn fills(t: Seq<SyntaxNode>, c: int, f: Seq<char>) -> bool {
    match t[c].field {
        Some(x) => x@ == f,
        None => false,
    }
}

/// The first of `cs` that fills the field `f`.
pub open spec fn field_in(t: Seq<SyntaxNode>, cs: Seq<usize>, f: Seq<char>) -> Option<usize>
    decreases cs.len(),
{
    if cs.len() == 0 {
        None
    } else if fills(t, cs[0] as int, f) {
        Some(cs[0])
    } else {
        field_in(t, cs.drop_first(), f)
    }
}

/// `child_by_field_name`: the first child of `n` that fills field `f`.
pub open spec fn field_child(t: Seq<SyntaxNode>, n: int, f: Seq<char>) -> Option<usize> {
    field_in(t, t[n].children@, f)
}

/// The text of the field child `f` of `n`, if there is one.
pub open spec fn field_text(t: Seq<SyntaxNode>, n: int, f: Seq<char>) -> Option<Seq<char>> {
    match field_child(t, n, f) {
        Some(c) => Some(text_of(t, c as int)),
        None => None,
    }
}

/// The first of `cs` whose kind is in `ks`.
pub open spec fn kind_first(t: Seq<SyntaxNode>, cs: Seq<usize>, ks: Seq<Seq<char>>) -> Option<usize>
    decreases cs.len(),
{
    if cs.len() == 0 {
        None
    } else if ks.contains(kind_of(t, cs[0] as int)) {
        Some(cs[0])
    } else {
        kind_first(t, cs.drop_first(), ks)
    }
}

/// The texts of those of `cs` whose kind is in `ks` (or, when `inside` is
/// false, is not), in order.
pub open spec fn kind_texts(t: Seq<SyntaxNode>, cs: Seq<usize>, ks: Seq<Seq<char>>, inside: bool) -> Seq<Seq<char>>
    decreases cs.len(),
{
    if cs.len() == 0 {
        Seq::empty()
    } else {
        let prev = kind_texts(t, cs.drop_last(), ks, inside);
        let c = cs.last() as int;
        if ks.contains(kind_of(t, c)) == inside {
            prev.push(text_of(t, c))
        } else {
            prev
        }
    }
}

/// The text of the last of `cs` whose kind is in `ks`.
pub open spec fn kind_last_text(t: Seq<SyntaxNode>, cs: Seq<usize>, ks: Seq<Seq<char>>) -> Option<Seq<char>> {
    let all = kind_texts(t, cs, ks, true);
    if all.len() == 0 {
        None
    } else {
        Some(all.last())
    }
}

/// Whether any of `cs` is of kind `k`.
pub open spec fn any_kind(t: Seq<SyntaxNode>, cs: Seq<usize>, k: Seq<char>) -> bool {
    exists|j: int| 0 <= j < cs.len() && kind_of(t, #[trigger] cs[j] as int) == k
}

pub open spec fn opt_text(o: Option<String>) -> Option<Seq<char>> {
    match o {
        Some(s) => Some(s@),
        None => None,
    }
}

pub open spec fn texts(v: Seq<String>) -> Seq<Seq<char>> {
    v.map_values(|s: String| s@)
}

fn node_at(t: &Vec<SyntaxNode>, n: usize)
    requires
        tree_ok(t@),
        n < t@.len(),
    ensures
        node_ok(t@, n as int),
        forall|k: int| 0 <= k < t@[n as int].children@.len() ==> n < #[trigger] t@[n as int].children@[k] < t@.len(),
{
    assert(node_ok(t@, n as int));
}

/// `child_by_field_name`.
pub fn field_child_of(t: &Vec<SyntaxNode>, n: usize, f: &str) -> (r: Option<usize>)
    requires
        tree_ok(t@),
        n < t@.len(),
    ensures
        r == field_child(t@, n as int, f@),
        r matches Some(c) ==> n < c < t@.len(),
{
    node_at(t, n);
    let ghost cs = t@[n as int].children@;
    assert(cs.skip(0) =~= cs);
    let mut i: usize = 0;
    while i < t[n].children.len()
        invariant
            n < t@.len(),
            cs == t@[n as int].children@,
            i <= cs.len(),
            field_in(t@, cs, f@) == field_in(t@, cs.skip(i as int), f@),
            forall|k: int| 0 <= k < cs.len() ==> n < #[trigger] cs[k] < t@.len(),
        decreases cs.len() - i,
    {
        let c = t[n].children[i];
        assert(cs.skip(i as int).drop_first() =~= cs.skip(i + 1));
        assert(cs.skip(i as int)[0] == c);
        match &t[c].field {
            Some(x) => {
                if str_eq(x.as_str(), f) {
                    return Some(c);
                }
            },
            None => {},
        }
        i += 1;
    }
    assert(cs.skip(i as int) =~= Seq::<usize>::empty());
    None
}

/// The text of a field child, if any.
pub fn field_text_of(t: &Vec<SyntaxNode>, n: usize, f: &str) -> (r: Option<String>)
    requires
        tree_ok(t@),
        n < t@.len(),
    ensures
        opt_text(r) == field_text(t@, n as int, f@),
{
    match field_child_of(t, n, f) {
        Some(c) => Some(t[c].text.clone()),
        None => None,
    }
}

/// Whether `k` is one of `ks`.
fn kind_among(ks: &Vec<&'static str>, k: &str) -> (r: bool)
    ensures
        r == strs(ks@).contains(k@),
{
    let mut i: usize = 0;
    while i < ks.len()
        invariant
            i <= ks@.len(),
            forall|j: int| 0 <= j < i ==> strs(ks@)[j] != k@,
        decreases ks@.len() - i,
    {
        if str_eq(ks[i], k) {
            assert(strs(ks@)[i as int] == k@);
            return true;
        }
        i += 1;
    }
    proof {
        if strs(ks@).contains(k@) {
            let j = choose|j: int| 0 <= j < strs(ks@).len() && strs(ks@)[j] == k@;
        }
    }
    false
}

/// The first child of `n` whose kind is in `ks`.
pub fn kind_child_of(t: &Vec<SyntaxNode>, n: usize, ks: &Vec<&'static str>) -> (r: Option<usize>)
    requires
        tree_ok(t@),
        n < t@.len(),
    ensures
        r == kind_first(t@, t@[n as int].children@, strs(ks@)),
        r matches Some(c) ==> n < c < t@.len(),
{
    node_at(t, n);
    let ghost cs = t@[n as int].children@;
    assert(cs.skip(0) =~= cs);
    let mut i: usize = 0;
    while i < t[n].children.len()
        invariant
            n < t@.len(),
            cs == t@[n as int].children@,
            i <= cs.len(),
            kind_first(t@, cs, strs(ks@)) == kind_first(t@, cs.skip(i as int), strs(ks@)),
            forall|k: int| 0 <= k < cs.len() ==> n < #[trigger] cs[k] < t@.len(),
        decreases cs.len() - i,
    {
        let c = t[n].children[i];
        assert(cs.skip(i as int).drop_first() =~= cs.skip(i + 1));
        assert(cs.skip(i as int)[0] == c);
        if kind_among(ks, t[c].kind.as_str()) {
            return Some(c);
        }
        i += 1;
    }
    assert(cs.skip(i as int) =~= Seq::<usize>::empty());
    None
}

/// The texts of the children of `n` whose kind is (or, with `inside`
/// false, is not) in `ks`.
pub fn kind_texts_of(t: &Vec<SyntaxNode>, n: usize, ks: &Vec<&'static str>, inside: bool) -> (r: Vec<String>)
    requires
        tree_ok(t@),
        n < t@.len(),
    ensures
        texts(r@) == kind_texts(t@, t@[n as int].children@, strs(ks@), inside),
{
    node_at(t, n);
    let ghost cs = t@[n as int].children@;
    let mut out: Vec<String> = Vec::new();
    let mut i: usize = 0;
    while i < t[n].children.len()
        invariant
            n < t@.len(),
            cs == t@[n as int].children@,
            i <= cs.len(),
            texts(out@) == kind_texts(t@, cs.take(i as int), strs(ks@), inside),
            forall|k: int| 0 <= k < cs.len() ==> n < #[trigger] cs[k] < t@.len(),
        decreases cs.len() - i,
    {
        let c = t[n].children[i];
        assert(cs.take(i + 1).drop_last() =~= cs.take(i as int));
        assert(cs.take(i + 1).last() == c);
        if kind_among(ks, t[c].kind.as_str()) == inside {
            let ghost ov = texts(out@);
            out.push(t[c].text.clone());
            assert(texts(out@) =~= ov.push(text_of(t@, c as int)));
        }
        i += 1;
    }
    assert(cs.take(i as int) =~= cs);
    out
}

/// The text of the last child of `n` whose kind is in `ks`.
pub fn kind_last_text_of(t: &Vec<SyntaxNode>, n: usize, ks: &Vec<&'static str>) -> (r: Option<String>)
    requires
        tree_ok(t@),
        n < t@.len(),
    ensures
        opt_text(r) == kind_last_text(t@, t@[n as int].children@, strs(ks@)),
{
    let mut all = kind_texts_of(t, n, ks, true);
    let ghost av = texts(all@);
    if all.len() == 0 {
        None
    } else {
        let last = all.pop().unwrap();
        assert(last@ == av.last());
        Some(last)
    }
}

/// Whether some child of `n` is of kind `k`.
pub fn has_kind_child(t: &Vec<SyntaxNode>, n: usize, k: &str) -> (r: bool)
    requires
        tree_ok(t@),
        n < t@.len(),
    ensures
        r == any_kind(t@, t@[n as int].children@, k@),
{
    node_at(t, n);
    let ghost cs = t@[n as int].children@;
    let mut i: usize = 0;
    while i < t[n].children.len()
        invariant
            n < t@.len(),
            cs == t@[n as int].children@,
            i <= cs.len(),
            forall|j: int| 0 <= j < i ==> kind_of(t@, #[trigger] cs[j] as int) != k@,
            forall|j: int| 0 <= j < cs.len() ==> n < #[trigger] cs[j] < t@.len(),
        decreases cs.len() - i,
    {
        let c = t[n].children[i];
        if str_eq(t[c].kind.as_str(), k) {
            assert(kind_of(t@, cs[i as int] as int) == k@);
            return true;
        }
        i += 1;
    }
    false
}

// ---------- records ----------

/// A PHP attribute: its name, when it has one, and its source text.
#[derive(Debug)]
pub struct Attribute {
    pub name: Option<String>,
    pub source: String,
}

/// A PHP 8.4 property hook: its accessor name, when it has one, and its
/// source text.
#[derive(Debug)]
pub struct Hook {
    pub accessor: Option<String>,
    pub source: String,
}

/// One parameter.
#[derive(Debug)]
pub struct Param {
    pub name: Option<String>,
    pub type_text: Option<String>,
    pub default: Option<String>,
    pub visibility: Option<String>,
    pub modifiers: Vec<String>,
    pub attributes: Vec<Attribute>,
    pub decorators: Vec<String>,
    pub variadic: bool,
    pub keyword_variadic: bool,
    pub by_reference: bool,
    pub optional: bool,
}

/// The signature fields of a symbol; those a language does not have stay
/// empty.
#[derive(Debug)]
pub struct Extra {
    pub attributes: Vec<Attribute>,
    pub decorators: Vec<String>,
    pub modifiers: Vec<String>,
    pub visibility: Option<String>,
    /// A class's superclass.
    pub extends: Option<String>,
    /// An interface's extended interfaces.
    pub extends_list: Vec<String>,
    pub implements: Vec<String>,
    pub bases: Vec<String>,
    pub type_parameters: Option<String>,
    pub parameters: Option<Vec<Param>>,
    pub return_type: Option<String>,
    pub is_async: bool,
    pub is_abstract: bool,
    pub type_text: Option<String>,
    pub default: Option<String>,
    pub hooks: Vec<Hook>,
}

/// One declared symbol.
#[derive(Debug)]
pub struct Signature {
    pub name: String,
    pub kind: String,
    pub line: i64,
    pub extra: Extra,
}

pub type AttrView = (Option<Seq<char>>, Seq<char>);

pub open spec fn attr_view(a: Attribute) -> AttrView {
    (opt_text(a.name), a.source@)
}

pub open spec fn attrs_view(v: Seq<Attribute>) -> Seq<AttrView> {
    v.map_values(|a: Attribute| attr_view(a))
}

pub open spec fn hooks_view(v: Seq<Hook>) -> Seq<AttrView> {
    v.map_values(|h: Hook| (opt_text(h.accessor), h.source@))
}

#[verifier::ext_equal]
pub struct ParamView {
    pub name: Option<Seq<char>>,
    pub type_text: Option<Seq<char>>,
    pub default: Option<Seq<char>>,
    pub visibility: Option<Seq<char>>,
    pub modifiers: Seq<Seq<char>>,
    pub attributes: Seq<AttrView>,
    pub decorators: Seq<Seq<char>>,
    pub variadic: bool,
    pub keyword_variadic: bool,
    pub by_reference: bool,
    pub optional: bool,
}

pub open spec fn param_view(p: Param) -> ParamView {
    ParamView {
        name: opt_text(p.name),
        type_text: opt_text(p.type_text),
        default: opt_text(p.default),
        visibility: opt_text(p.visibility),
        modifiers: texts(p.modifiers@),
        attributes: attrs_view(p.attributes@),
        decorators: texts(p.decorators@),
        variadic: p.variadic,
        keyword_variadic: p.keyword_variadic,
        by_reference: p.by_reference,
        optional: p.optional,
    }
}

pub open spec fn params_view(v: Seq<Param>) -> Seq<ParamView> {
    v.map_values(|p: Param| param_view(p))
}

/// A parameter with nothing known of it.
pub open spec fn no_param() -> ParamView {
    ParamView {
        name: None,
        type_text: None,
        default: None,
        visibility: None,
        modifiers: Seq::empty(),
        attributes: Seq::empty(),
        decorators: Seq::empty(),
        variadic: false,
        keyword_variadic: false,
        by_reference: false,
        optional: false,
    }
}

fn new_param() -> (r: Param)
    ensures
        param_view(r) == no_param(),
{
    let r = Param {
        name: None,
        type_text: None,
        default: None,
        visibility: None,
        modifiers: Vec::new(),
        attributes: Vec::new(),
        decorators: Vec::new(),
        variadic: false,
        keyword_variadic: false,
        by_reference: false,
        optional: false,
    };
    assert(param_view(r) =~= no_param());
    r
}

#[verifier::ext_equal]
pub struct ExtraView {
    pub attributes: Seq<AttrView>,
    pub decorators: Seq<Seq<char>>,
    pub modifiers: Seq<Seq<char>>,
    pub visibility: Option<Seq<char>>,
    pub extends: Option<Seq<char>>,
    pub extends_list: Seq<Seq<char>>,
    pub implements: Seq<Seq<char>>,
    pub bases: Seq<Seq<char>>,
    pub type_parameters: Option<Seq<char>>,
    pub parameters: Option<Seq<ParamView>>,
    pub return_type: Option<Seq<char>>,
    pub is_async: bool,
    pub is_abstract: bool,
    pub type_text: Option<Seq<char>>,
    pub default: Option<Seq<char>>,
    pub hooks: Seq<AttrView>,
}

pub open spec fn extra_view(e: Extra) -> ExtraView {
    ExtraView {
        attributes: attrs_view(e.attributes@),
        decorators: texts(e.decorators@),
        modifiers: texts(e.modifiers@),
        visibility: opt_text(e.visibility),
        extends: opt_text(e.extends),
        extends_list: texts(e.extends_list@),
        implements: texts(e.implements@),
        bases: texts(e.bases@),
        type_parameters: opt_text(e.type_parameters),
        parameters: match e.parameters {
            Some(ps) => Some(params_view(ps@)),
            None => None,
        },
        return_type: opt_text(e.return_type),
        is_async: e.is_async,
        is_abstract: e.is_abstract,
        type_text: opt_text(e.type_text),
        default: opt_text(e.default),
        hooks: hooks_view(e.hooks@),
    }
}

/// Signature fields with nothing in them.
pub open spec fn no_extra() -> ExtraView {
    ExtraView {
        attributes: Seq::empty(),
        decorators: Seq::empty(),
        modifiers: Seq::empty(),
        visibility: None,
        extends: None,
        extends_list: Seq::empty(),
        implements: Seq::empty(),
        bases: Seq::empty(),
        type_parameters: None,
        parameters: None,
        return_type: None,
        is_async: false,
        is_abstract: false,
        type_text: None,
        default: None,
        hooks: Seq::empty(),
    }
}

fn new_extra() -> (r: Extra)
    ensures
        extra_view(r) == no_extra(),
{
    let r = Extra {
        attributes: Vec::new(),
        decorators: Vec::new(),
        modifiers: Vec::new(),
        visibility: None,
        extends: None,
        extends_list: Vec::new(),
        implements: Vec::new(),
        bases: Vec::new(),
        type_parameters: None,
        parameters: None,
        return_type: None,
        is_async: false,
        is_abstract: false,
        type_text: None,
        default: None,
        hooks: Vec::new(),
    };
    assert(extra_view(r) =~= no_extra());
    r
}

pub type SigView = (Seq<char>, Seq<char>, int, ExtraView);

pub open spec fn sig_view(s: Signature) -> SigView {
    (s.name@, s.kind@, s.line as int, extra_view(s.extra))
}

pub open spec fn sigs_view(v: Seq<Signature>) -> Seq<SigView> {
    v.map_values(|s: Signature| sig_view(s))
}

fn one_kind(k: &'static str) -> (r: Vec<&'static str>)
    ensures
        strs(r@) == seq![k@],
{
    let r = vec![k];
    assert(strs(r@) =~= seq![k@]);
    r
}

/// The position of a node's name: its row, counted from 1.
fn line_of(t: &Vec<SyntaxNode>, i: usize) -> (r: i64)
    requires
        tree_ok(t@),
        i < t@.len(),
    ensures
        r == t@[i as int].start_row + 1,
{
    node_at(t, i);
    t[i].start_row + 1
}

// ---------- Python ----------

/// The decorators of a Python definition: those of the
/// `decorated_definition` that wraps it.
pub open spec fn py_decorators(t: Seq<SyntaxNode>, n: int) -> Seq<Seq<char>> {
    match t[n].parent {
        Some(p) => if kind_of(t, p as int) == "decorated_definition"@ {
            kind_texts(t, t[p as int].children@, seq!["decorator"@], true)
        } else {
            Seq::empty()
        },
        None => Seq::empty(),
    }
}

/// One Python parameter, if `c` is one.
pub open spec fn py_param(t: Seq<SyntaxNode>, c: int) -> Option<ParamView> {
    let k = kind_of(t, c);
    let kids = t[c].children@;
    if k == "identifier"@ {
        Some(ParamView { name: Some(text_of(t, c)), ..no_param() })
    } else if k == "typed_parameter"@ {
        Some(
            ParamView {
                name: kind_last_text(t, kids, seq!["identifier"@]),
                type_text: kind_last_text(t, kids, seq!["type"@]),
                ..no_param()
            },
        )
    } else if k == "default_parameter"@ {
        Some(ParamView { name: field_text(t, c, "name"@), default: field_text(t, c, "value"@), ..no_param() })
    } else if k == "typed_default_parameter"@ {
        Some(
            ParamView {
                name: field_text(t, c, "name"@),
                type_text: field_text(t, c, "type"@),
                default: field_text(t, c, "value"@),
                ..no_param()
            },
        )
    } else if k == "list_splat_pattern"@ {
        Some(ParamView { name: Some(text_of(t, c)), variadic: true, ..no_param() })
    } else if k == "dictionary_splat_pattern"@ {
        Some(ParamView { name: Some(text_of(t, c)), keyword_variadic: true, ..no_param() })
    } else {
        None
    }
}

/// The parameters among `cs`, in order.
pub open spec fn py_params(t: Seq<SyntaxNode>, cs: Seq<usize>) -> Seq<ParamView>
    decreases cs.len(),
{
    if cs.len() == 0 {
        Seq::empty()
    } else {
        let prev = py_params(t, cs.drop_last());
        match py_param(t, cs.last() as int) {
            Some(p) => prev.push(p),
            None => prev,
        }
    }
}

pub open spec fn py_function_extra(t: Seq<SyntaxNode>, n: int) -> ExtraView {
    ExtraView {
        decorators: py_decorators(t, n),
        type_parameters: field_text(t, n, "type_parameters"@),
        parameters: match field_child(t, n, "parameters"@) {
            Some(p) => Some(py_params(t, t[p as int].children@)),
            None => None,
        },
        return_type: field_text(t, n, "return_type"@),
        is_async: any_kind(t, t[n].children@, "async"@),
        ..no_extra()
    }
}

pub open spec fn py_class_extra(t: Seq<SyntaxNode>, n: int) -> ExtraView {
    ExtraView {
        decorators: py_decorators(t, n),
        type_parameters: field_text(t, n, "type_parameters"@),
        bases: match field_child(t, n, "superclasses"@) {
            Some(s) => kind_texts(t, t[s as int].children@, seq!["("@, ")"@, ","@], false),
            None => Seq::empty(),
        },
        ..no_extra()
    }
}

/// The signature of a Python function or class node, when it has a name.
pub open spec fn py_sig(t: Seq<SyntaxNode>, m: int) -> Seq<SigView> {
    match field_child(t, m, "name"@) {
        Some(nm) => seq![
            (
                text_of(t, nm as int),
                if kind_of(t, m) == "function_definition"@ { "function"@ } else { "class"@ },
                t[nm as int].start_row + 1,
                if kind_of(t, m) == "function_definition"@ { py_function_extra(t, m) } else { py_class_extra(t, m) },
            ),
        ],
        None => Seq::empty(),
    }
}

pub open spec fn py_rows(t: Seq<SyntaxNode>, ms: Seq<int>) -> Seq<SigView>
    decreases ms.len(),
{
    if ms.len() == 0 {
        Seq::empty()
    } else {
        py_rows(t, ms.drop_last()) + py_sig(t, ms.last())
    }
}

pub open spec fn py_kinds() -> Seq<Seq<char>> {
    seq!["function_definition"@, "class_definition"@]
}

/// The signatures of a Python file: each function and class with a name,
/// in the order a stack walk from the root meets them.
pub open spec fn py_signatures(t: Seq<SyntaxNode>) -> Seq<SigView> {
    py_rows(t, function_order(t, py_kinds()))
}

fn py_decorators_of(t: &Vec<SyntaxNode>, n: usize) -> (r: Vec<String>)
    requires
        tree_ok(t@),
        n < t@.len(),
    ensures
        texts(r@) == py_decorators(t@, n as int),
{
    node_at(t, n);
    match t[n].parent {
        Some(p) => {
            if str_eq(t[p].kind.as_str(), "decorated_definition") {
                kind_texts_of(t, p, &one_kind("decorator"), true)
            } else {
                Vec::new()
            }
        },
        None => Vec::new(),
    }
}

fn py_param_of(t: &Vec<SyntaxNode>, c: usize) -> (r: Option<Param>)
    requires
        tree_ok(t@),
        c < t@.len(),
    ensures
        match r {
            Some(p) => py_param(t@, c as int) == Some(param_view(p)),
            None => py_param(t@, c as int) is None,
        },
{
    let k = t[c].kind.as_str();
    let mut p = new_param();
    if str_eq(k, "identifier") {
        p.name = Some(t[c].text.clone());
    } else if str_eq(k, "typed_parameter") {
        p.name = kind_last_text_of(t, c, &one_kind("identifier"));
        p.type_text = kind_last_text_of(t, c, &one_kind("type"));
    } else if str_eq(k, "default_parameter") {
        p.name = field_text_of(t, c, "name");
        p.default = field_text_of(t, c, "value");
    } else if str_eq(k, "typed_default_parameter") {
        p.name = field_text_of(t, c, "name");
        p.type_text = field_text_of(t, c, "type");
        p.default = field_text_of(t, c, "value");
    } else if str_eq(k, "list_splat_pattern") {
        p.name = Some(t[c].text.clone());
        p.variadic = true;
    } else if str_eq(k, "dictionary_splat_pattern") {
        p.name = Some(t[c].text.clone());
        p.keyword_variadic = true;
    } else {
        return None;
    }
    assert(py_param(t@, c as int) == Some(param_view(p)));
    Some(p)
}

fn py_params_of(t: &Vec<SyntaxNode>, n: usize) -> (r: Vec<Param>)
    requires
        tree_ok(t@),
        n < t@.len(),
    ensures
        params_view(r@) == py_params(t@, t@[n as int].children@),
{
    node_at(t, n);
    let ghost cs = t@[n as int].children@;
    let mut out: Vec<Param> = Vec::new();
    let mut i: usize = 0;
    while i < t[n].children.len()
        invariant
            tree_ok(t@),
            n < t@.len(),
            cs == t@[n as int].children@,
            i <= cs.len(),
            params_view(out@) == py_params(t@, cs.take(i as int)),
            forall|k: int| 0 <= k < cs.len() ==> n < #[trigger] cs[k] < t@.len(),
        decreases cs.len() - i,
    {
        let c = t[n].children[i];
        assert(cs.take(i + 1).drop_last() =~= cs.take(i as int));
        assert(cs.take(i + 1).last() == c);
        match py_param_of(t, c) {
            Some(p) => {
                let ghost ov = params_view(out@);
                let ghost pv = param_view(p);
                out.push(p);
                assert(params_view(out@) =~= ov.push(pv));
            },
            None => {},
        }
        i += 1;
    }
    assert(cs.take(i as int) =~= cs);
    out
}

fn py_function_extra_of(t: &Vec<SyntaxNode>, n: usize) -> (r: Extra)
    requires
        tree_ok(t@),
        n < t@.len(),
    ensures
        extra_view(r) == py_function_extra(t@, n as int),
{
    let mut e = new_extra();
    e.decorators = py_decorators_of(t, n);
    e.type_parameters = field_text_of(t, n, "type_parameters");
    e.parameters = match field_child_of(t, n, "parameters") {
        Some(p) => Some(py_params_of(t, p)),
        None => None,
    };
    e.return_type = field_text_of(t, n, "return_type");
    e.is_async = has_kind_child(t, n, "async");
    assert(extra_view(e) =~= py_function_extra(t@, n as int));
    e
}

fn py_class_extra_of(t: &Vec<SyntaxNode>, n: usize) -> (r: Extra)
    requires
        tree_ok(t@),
        n < t@.len(),
    ensures
        extra_view(r) == py_class_extra(t@, n as int),
{
    let mut e = new_extra();
    e.decorators = py_decorators_of(t, n);
    e.type_parameters = field_text_of(t, n, "type_parameters");
    match field_child_of(t, n, "superclasses") {
        Some(s) => {
            let ks = vec!["(", ")", ","];
            assert(strs(ks@) =~= seq!["("@, ")"@, ","@]);
            e.bases = kind_texts_of(t, s, &ks, false);
        },
        None => {},
    }
    assert(extra_view(e) =~= py_class_extra(t@, n as int));
    e
}

/// The signatures of a parsed Python file.
pub fn py_signatures_of(t: &Vec<SyntaxNode>) -> (r: Vec<Signature>)
    requires
        tree_ok(t@),
    ensures
        sigs_view(r@) == py_signatures(t@),
{
    let kinds = vec!["function_definition", "class_definition"];
    assert(strs(kinds@) =~= py_kinds());
    let ms = function_nodes(t, &kinds);
    let ghost mv = ms@.map_values(|u: usize| u as int);
    let mut out: Vec<Signature> = Vec::new();
    let mut i: usize = 0;
    while i < ms.len()
        invariant
            tree_ok(t@),
            i <= ms@.len(),
            mv == ms@.map_values(|u: usize| u as int),
            forall|k: int| 0 <= k < ms@.len() ==> #[trigger] ms@[k] < t@.len(),
            sigs_view(out@) == py_rows(t@, mv.take(i as int)),
        decreases ms@.len() - i,
    {
        let m = ms[i];
        assert(mv.take(i + 1).drop_last() =~= mv.take(i as int));
        assert(mv.take(i + 1).last() == m as int);
        let ghost ov = sigs_view(out@);
        match field_child_of(t, m, "name") {
            Some(nm) => {
                let is_fn = str_eq(t[m].kind.as_str(), "function_definition");
                let extra = if is_fn { py_function_extra_of(t, m) } else { py_class_extra_of(t, m) };
                let sig = Signature {
                    name: t[nm].text.clone(),
                    kind: if is_fn { "function".to_owned() } else { "class".to_owned() },
                    line: line_of(t, nm),
                    extra,
                };
                let ghost sv = sig_view(sig);
                out.push(sig);
                assert(sigs_view(out@) =~= ov + py_sig(t@, m as int));
            },
            None => {
                assert(sigs_view(out@) =~= ov + py_sig(t@, m as int));
            },
        }
        i += 1;
    }
    assert(mv.take(i as int) =~= mv);
    out
}

// ---------- PHP ----------

/// PHP's type-shaped node kinds.
pub open spec fn php_type_kinds() -> Seq<Seq<char>> {
    seq!["primitive_type"@, "named_type"@, "nullable_type"@, "union_type"@, "intersection_type"@, "optional_type"@]
}

fn php_type_kind_list() -> (r: Vec<&'static str>)
    ensures
        strs(r@) == php_type_kinds(),
{
    let r = vec!["primitive_type", "named_type", "nullable_type", "union_type", "intersection_type", "optional_type"];
    assert(strs(r@) =~= php_type_kinds());
    r
}

pub open spec fn name_kinds() -> Seq<Seq<char>> {
    seq!["name"@, "qualified_name"@]
}

fn name_kind_list() -> (r: Vec<&'static str>)
    ensures
        strs(r@) == name_kinds(),
{
    let r = vec!["name", "qualified_name"];
    assert(strs(r@) =~= name_kinds());
    r
}

/// An attribute node as its name (the first `name` or `qualified_name`
/// child) and its source.
pub open spec fn attr_of(t: Seq<SyntaxNode>, a: int) -> AttrView {
    (
        match kind_first(t, t[a].children@, name_kinds()) {
            Some(c) => Some(text_of(t, c as int)),
            None => None,
        },
        text_of(t, a),
    )
}

/// The attributes at or below `n`, in document order, none looked into.
pub open spec fn attrs_at(t: Seq<SyntaxNode>, n: int) -> Seq<AttrView>
    decreases t.len() - n, 1int, 0int,
{
    if 0 <= n < t.len() {
        if kind_of(t, n) == "attribute"@ {
            seq![attr_of(t, n)]
        } else {
            attrs_below(t, n, t[n].children@)
        }
    } else {
        Seq::empty()
    }
}

pub open spec fn attrs_below(t: Seq<SyntaxNode>, p: int, cs: Seq<usize>) -> Seq<AttrView>
    decreases t.len() - p, 0int, cs.len(),
{
    if cs.len() == 0 {
        Seq::empty()
    } else {
        attrs_below(t, p, cs.drop_last()) + if p < cs.last() < t.len() {
            attrs_at(t, cs.last() as int)
        } else {
            Seq::empty()
        }
    }
}

fn attr_of_node(t: &Vec<SyntaxNode>, a: usize) -> (r: Attribute)
    requires
        tree_ok(t@),
        a < t@.len(),
    ensures
        attr_view(r) == attr_of(t@, a as int),
{
    let name = match kind_child_of(t, a, &name_kind_list()) {
        Some(c) => Some(t[c].text.clone()),
        None => None,
    };
    Attribute { name, source: t[a].text.clone() }
}

/// Append the attributes at or below `n`.
fn collect_attrs(t: &Vec<SyntaxNode>, n: usize, out: &mut Vec<Attribute>)
    requires
        tree_ok(t@),
        n < t@.len(),
    ensures
        attrs_view(final(out)@) == attrs_view(old(out)@) + attrs_at(t@, n as int),
    decreases t@.len() - n,
{
    let ghost base = attrs_view(out@);
    if str_eq(t[n].kind.as_str(), "attribute") {
        let a = attr_of_node(t, n);
        let ghost av = attr_view(a);
        out.push(a);
        assert(attrs_view(out@) =~= base.push(av));
        assert(attrs_at(t@, n as int) == seq![attr_of(t@, n as int)]);
        assert(attrs_view(out@) =~= base + attrs_at(t@, n as int));
        return;
    }
    node_at(t, n);
    let ghost cs = t@[n as int].children@;
    let mut i: usize = 0;
    while i < t[n].children.len()
        invariant
            tree_ok(t@),
            n < t@.len(),
            cs == t@[n as int].children@,
            i <= cs.len(),
            forall|k: int| 0 <= k < cs.len() ==> n < #[trigger] cs[k] < t@.len(),
            attrs_view(out@) == base + attrs_below(t@, n as int, cs.take(i as int)),
        decreases cs.len() - i,
    {
        let c = t[n].children[i];
        assert(cs.take(i + 1).drop_last() =~= cs.take(i as int));
        assert(cs.take(i + 1).last() == c);
        collect_attrs(t, c, out);
        assert(attrs_view(out@) =~= base + attrs_below(t@, n as int, cs.take(i + 1)));
        i += 1;
    }
    assert(cs.take(i as int) =~= cs);
}

pub open spec fn php_mod_kinds() -> Seq<Seq<char>> {
    seq!["abstract_modifier"@, "final_modifier"@, "readonly_modifier"@, "visibility_modifier"@, "static_modifier"@]
}

/// The attributes and modifiers among a declaration's children, in order.
pub open spec fn php_attrs_mods(t: Seq<SyntaxNode>, cs: Seq<usize>) -> (Seq<AttrView>, Seq<Seq<char>>)
    decreases cs.len(),
{
    if cs.len() == 0 {
        (Seq::empty(), Seq::empty())
    } else {
        let p = php_attrs_mods(t, cs.drop_last());
        let c = cs.last() as int;
        if kind_of(t, c) == "attribute_list"@ {
            (p.0 + attrs_at(t, c), p.1)
        } else if php_mod_kinds().contains(kind_of(t, c)) {
            (p.0, p.1.push(text_of(t, c)))
        } else {
            p
        }
    }
}

fn php_attrs_mods_of(t: &Vec<SyntaxNode>, n: usize) -> (r: (Vec<Attribute>, Vec<String>))
    requires
        tree_ok(t@),
        n < t@.len(),
    ensures
        (attrs_view(r.0@), texts(r.1@)) == php_attrs_mods(t@, t@[n as int].children@),
{
    node_at(t, n);
    let mods = vec!["abstract_modifier", "final_modifier", "readonly_modifier", "visibility_modifier", "static_modifier"];
    assert(strs(mods@) =~= php_mod_kinds());
    let ghost cs = t@[n as int].children@;
    let mut attrs: Vec<Attribute> = Vec::new();
    let mut ms: Vec<String> = Vec::new();
    let mut i: usize = 0;
    while i < t[n].children.len()
        invariant
            tree_ok(t@),
            n < t@.len(),
            cs == t@[n as int].children@,
            i <= cs.len(),
            strs(mods@) == php_mod_kinds(),
            forall|k: int| 0 <= k < cs.len() ==> n < #[trigger] cs[k] < t@.len(),
            (attrs_view(attrs@), texts(ms@)) == php_attrs_mods(t@, cs.take(i as int)),
        decreases cs.len() - i,
    {
        let c = t[n].children[i];
        assert(cs.take(i + 1).drop_last() =~= cs.take(i as int));
        assert(cs.take(i + 1).last() == c);
        if str_eq(t[c].kind.as_str(), "attribute_list") {
            collect_attrs(t, c, &mut attrs);
        } else if kind_among(&mods, t[c].kind.as_str()) {
            let ghost ov = texts(ms@);
            ms.push(t[c].text.clone());
            assert(texts(ms@) =~= ov.push(text_of(t@, c as int)));
        }
        i += 1;
    }
    assert(cs.take(i as int) =~= cs);
    (attrs, ms)
}

/// A class's superclass (from the last `base_clause` naming one) and
/// interfaces (from every `class_interface_clause`).
pub open spec fn php_heritage(t: Seq<SyntaxNode>, cs: Seq<usize>) -> (Option<Seq<char>>, Seq<Seq<char>>)
    decreases cs.len(),
{
    if cs.len() == 0 {
        (None, Seq::empty())
    } else {
        let p = php_heritage(t, cs.drop_last());
        let c = cs.last() as int;
        if kind_of(t, c) == "base_clause"@ {
            (
                match kind_first(t, t[c].children@, name_kinds()) {
                    Some(x) => Some(text_of(t, x as int)),
                    None => p.0,
                },
                p.1,
            )
        } else if kind_of(t, c) == "class_interface_clause"@ {
            (p.0, p.1 + kind_texts(t, t[c].children@, name_kinds(), true))
        } else {
            p
        }
    }
}

pub open spec fn php_class_extra(t: Seq<SyntaxNode>, n: int) -> ExtraView {
    let am = php_attrs_mods(t, t[n].children@);
    let h = php_heritage(t, t[n].children@);
    ExtraView { attributes: am.0, modifiers: am.1, extends: h.0, implements: h.1, ..no_extra() }
}

fn php_class_extra_of(t: &Vec<SyntaxNode>, n: usize) -> (r: Extra)
    requires
        tree_ok(t@),
        n < t@.len(),
    ensures
        extra_view(r) == php_class_extra(t@, n as int),
{
    let (attrs, mods) = php_attrs_mods_of(t, n);
    node_at(t, n);
    let names = name_kind_list();
    let ghost cs = t@[n as int].children@;
    let mut extends: Option<String> = None;
    let mut implements: Vec<String> = Vec::new();
    let mut i: usize = 0;
    while i < t[n].children.len()
        invariant
            tree_ok(t@),
            n < t@.len(),
            cs == t@[n as int].children@,
            i <= cs.len(),
            strs(names@) == name_kinds(),
            forall|k: int| 0 <= k < cs.len() ==> n < #[trigger] cs[k] < t@.len(),
            (opt_text(extends), texts(implements@)) == php_heritage(t@, cs.take(i as int)),
        decreases cs.len() - i,
    {
        let c = t[n].children[i];
        assert(cs.take(i + 1).drop_last() =~= cs.take(i as int));
        assert(cs.take(i + 1).last() == c);
        if str_eq(t[c].kind.as_str(), "base_clause") {
            match kind_child_of(t, c, &names) {
                Some(x) => {
                    extends = Some(t[x].text.clone());
                },
                None => {},
            }
        } else if str_eq(t[c].kind.as_str(), "class_interface_clause") {
            let more = kind_texts_of(t, c, &names, true);
            let ghost ov = texts(implements@);
            let mut j: usize = 0;
            while j < more.len()
                invariant
                    j <= more@.len(),
                    texts(implements@) == ov + texts(more@).take(j as int),
                decreases more@.len() - j,
            {
                let ghost iv = texts(implements@);
                let x = more[j].clone();
                implements.push(x);
                assert(texts(implements@) =~= iv.push(texts(more@)[j as int]));
                assert(texts(more@).take(j + 1) =~= texts(more@).take(j as int).push(texts(more@)[j as int]));
                j += 1;
            }
            assert(texts(more@).take(j as int) =~= texts(more@));
        }
        i += 1;
    }
    assert(cs.take(i as int) =~= cs);
    let mut e = new_extra();
    e.attributes = attrs;
    e.modifiers = mods;
    e.extends = extends;
    e.implements = implements;
    assert(extra_view(e) =~= php_class_extra(t@, n as int));
    e
}

/// The first modifier that is a visibility.
pub open spec fn first_visibility(ms: Seq<Seq<char>>) -> Option<Seq<char>>
    decreases ms.len(),
{
    if ms.len() == 0 {
        None
    } else if ms[0] == "public"@ || ms[0] == "protected"@ || ms[0] == "private"@ {
        Some(ms[0])
    } else {
        first_visibility(ms.drop_first())
    }
}

fn first_visibility_of(ms: &Vec<String>) -> (r: Option<String>)
    ensures
        opt_text(r) == first_visibility(texts(ms@)),
{
    let ghost mv = texts(ms@);
    assert(mv.skip(0) =~= mv);
    let mut i: usize = 0;
    while i < ms.len()
        invariant
            i <= ms@.len(),
            mv == texts(ms@),
            first_visibility(mv) == first_visibility(mv.skip(i as int)),
        decreases ms@.len() - i,
    {
        assert(mv.skip(i as int).drop_first() =~= mv.skip(i + 1));
        assert(mv.skip(i as int)[0] == ms@[i as int]@);
        let m = ms[i].as_str();
        if str_eq(m, "public") || str_eq(m, "protected") || str_eq(m, "private") {
            return Some(ms[i].clone());
        }
        i += 1;
    }
    assert(mv.skip(i as int) =~= Seq::<Seq<char>>::empty());
    None
}

/// A method's return type: the first type-shaped child after
/// `formal_parameters`, unless the body or `;` comes first.
pub open spec fn ret_scan(t: Seq<SyntaxNode>, cs: Seq<usize>, seen: bool) -> Option<usize>
    decreases cs.len(),
{
    if cs.len() == 0 {
        None
    } else {
        let c = cs[0] as int;
        let k = kind_of(t, c);
        if k == "formal_parameters"@ {
            ret_scan(t, cs.drop_first(), true)
        } else if !seen {
            ret_scan(t, cs.drop_first(), false)
        } else if php_type_kinds().contains(k) {
            Some(cs[0])
        } else if k == "compound_statement"@ || k == ";"@ {
            None
        } else {
            ret_scan(t, cs.drop_first(), true)
        }
    }
}

fn ret_scan_of(t: &Vec<SyntaxNode>, n: usize) -> (r: Option<usize>)
    requires
        tree_ok(t@),
        n < t@.len(),
    ensures
        r == ret_scan(t@, t@[n as int].children@, false),
        r matches Some(c) ==> c < t@.len(),
{
    node_at(t, n);
    let types = php_type_kind_list();
    let ghost cs = t@[n as int].children@;
    assert(cs.skip(0) =~= cs);
    let mut seen = false;
    let mut i: usize = 0;
    while i < t[n].children.len()
        invariant
            n < t@.len(),
            cs == t@[n as int].children@,
            i <= cs.len(),
            strs(types@) == php_type_kinds(),
            forall|k: int| 0 <= k < cs.len() ==> n < #[trigger] cs[k] < t@.len(),
            ret_scan(t@, cs, false) == ret_scan(t@, cs.skip(i as int), seen),
        decreases cs.len() - i,
    {
        let c = t[n].children[i];
        assert(cs.skip(i as int).drop_first() =~= cs.skip(i + 1));
        assert(cs.skip(i as int)[0] == c);
        let k = t[c].kind.as_str();
        if str_eq(k, "formal_parameters") {
            seen = true;
        } else if seen {
            if kind_among(&types, k) {
                return Some(c);
            }
            if str_eq(k, "compound_statement") || str_eq(k, ";") {
                return None;
            }
        }
        i += 1;
    }
    assert(cs.skip(i as int) =~= Seq::<usize>::empty());
    None
}

/// A `variable_name`'s bare name: its `name` field, or its text without
/// leading `$`.
pub open spec fn strip_lead(s: Seq<char>, c: char) -> Seq<char>
    decreases s.len(),
{
    if s.len() > 0 && s[0] == c {
        strip_lead(s.drop_first(), c)
    } else {
        s
    }
}

/// `s` without its leading `c`s.
fn strip_lead_of(cs: &Vec<char>, c: char) -> (r: Vec<char>)
    ensures
        r@ == strip_lead(cs@, c),
{
    let mut k: usize = 0;
    assert(cs@.skip(0) =~= cs@);
    while k < cs.len() && cs[k] == c
        invariant
            k <= cs@.len(),
            strip_lead(cs@, c) == strip_lead(cs@.skip(k as int), c),
        decreases cs@.len() - k,
    {
        assert(cs@.skip(k as int).drop_first() =~= cs@.skip(k + 1));
        k += 1;
    }
    let mut r: Vec<char> = Vec::new();
    let mut j: usize = k;
    while j < cs.len()
        invariant
            k <= j <= cs@.len(),
            r@ == cs@.subrange(k as int, j as int),
        decreases cs@.len() - j,
    {
        r.push(cs[j]);
        assert(r@ =~= cs@.subrange(k as int, j + 1));
        j += 1;
    }
    assert(r@ =~= cs@.skip(k as int));
    r
}

pub open spec fn bare_var(t: Seq<SyntaxNode>, v: int) -> Seq<char> {
    match field_text(t, v, "name"@) {
        Some(x) => x,
        None => strip_lead(text_of(t, v), '$'),
    }
}

fn bare_var_of(t: &Vec<SyntaxNode>, v: usize) -> (r: String)
    requires
        tree_ok(t@),
        v < t@.len(),
    ensures
        r@ == bare_var(t@, v as int),
{
    match field_text_of(t, v, "name") {
        Some(x) => x,
        None => {
            let cs = crate::text::chars_of(t[v].text.as_str());
            let r = strip_lead_of(&cs, '$');
            crate::text::string_of(&r)
        },
    }
}

/// The expression after the first `=` among `cs`.
pub open spec fn after_eq(t: Seq<SyntaxNode>, cs: Seq<usize>, seen: bool) -> Option<Seq<char>>
    decreases cs.len(),
{
    if cs.len() == 0 {
        None
    } else if kind_of(t, cs[0] as int) == "="@ {
        after_eq(t, cs.drop_first(), true)
    } else if seen {
        Some(text_of(t, cs[0] as int))
    } else {
        after_eq(t, cs.drop_first(), false)
    }
}

fn after_eq_of(t: &Vec<SyntaxNode>, n: usize) -> (r: Option<String>)
    requires
        tree_ok(t@),
        n < t@.len(),
    ensures
        opt_text(r) == after_eq(t@, t@[n as int].children@, false),
{
    node_at(t, n);
    let ghost cs = t@[n as int].children@;
    assert(cs.skip(0) =~= cs);
    let mut seen = false;
    let mut i: usize = 0;
    while i < t[n].children.len()
        invariant
            n < t@.len(),
            cs == t@[n as int].children@,
            i <= cs.len(),
            forall|k: int| 0 <= k < cs.len() ==> n < #[trigger] cs[k] < t@.len(),
            after_eq(t@, cs, false) == after_eq(t@, cs.skip(i as int), seen),
        decreases cs.len() - i,
    {
        let c = t[n].children[i];
        assert(cs.skip(i as int).drop_first() =~= cs.skip(i + 1));
        assert(cs.skip(i as int)[0] == c);
        if str_eq(t[c].kind.as_str(), "=") {
            seen = true;
        } else if seen {
            return Some(t[c].text.clone());
        }
        i += 1;
    }
    assert(cs.skip(i as int) =~= Seq::<usize>::empty());
    None
}

/// What a PHP parameter's children say of it.
pub open spec fn php_param_acc(t: Seq<SyntaxNode>, cs: Seq<usize>) -> ParamView
    decreases cs.len(),
{
    if cs.len() == 0 {
        no_param()
    } else {
        let p = php_param_acc(t, cs.drop_last());
        let c = cs.last() as int;
        let k = kind_of(t, c);
        if k == "attribute_list"@ {
            ParamView { attributes: p.attributes + attrs_at(t, c), ..p }
        } else if k == "visibility_modifier"@ {
            ParamView { visibility: Some(text_of(t, c)), modifiers: p.modifiers.push(text_of(t, c)), ..p }
        } else if k == "readonly_modifier"@ {
            ParamView { modifiers: p.modifiers.push(text_of(t, c)), ..p }
        } else if php_type_kinds().contains(k) {
            ParamView { type_text: Some(text_of(t, c)), ..p }
        } else if k == "variable_name"@ {
            ParamView { name: Some(bare_var(t, c)), ..p }
        } else if k == "..."@ {
            ParamView { variadic: true, ..p }
        } else if k == "&"@ {
            ParamView { by_reference: true, ..p }
        } else {
            p
        }
    }
}

/// A PHP parameter; its default is its `default_value` field, or what
/// follows its `=`.
pub open spec fn php_param(t: Seq<SyntaxNode>, p: int) -> ParamView {
    ParamView {
        default: match field_text(t, p, "default_value"@) {
            Some(d) => Some(d),
            None => after_eq(t, t[p].children@, false),
        },
        ..php_param_acc(t, t[p].children@)
    }
}

fn php_param_of(t: &Vec<SyntaxNode>, n: usize) -> (r: Param)
    requires
        tree_ok(t@),
        n < t@.len(),
    ensures
        param_view(r) == php_param(t@, n as int),
{
    node_at(t, n);
    let types = php_type_kind_list();
    let ghost cs = t@[n as int].children@;
    let mut p = new_param();
    let mut i: usize = 0;
    while i < t[n].children.len()
        invariant
            tree_ok(t@),
            n < t@.len(),
            cs == t@[n as int].children@,
            i <= cs.len(),
            strs(types@) == php_type_kinds(),
            forall|k: int| 0 <= k < cs.len() ==> n < #[trigger] cs[k] < t@.len(),
            param_view(p) == php_param_acc(t@, cs.take(i as int)),
        decreases cs.len() - i,
    {
        let c = t[n].children[i];
        assert(cs.take(i + 1).drop_last() =~= cs.take(i as int));
        assert(cs.take(i + 1).last() == c);
        let ghost pv = param_view(p);
        let k = t[c].kind.as_str();
        if str_eq(k, "attribute_list") {
            collect_attrs(t, c, &mut p.attributes);
        } else if str_eq(k, "visibility_modifier") {
            p.visibility = Some(t[c].text.clone());
            p.modifiers.push(t[c].text.clone());
            assert(texts(p.modifiers@) =~= pv.modifiers.push(text_of(t@, c as int)));
        } else if str_eq(k, "readonly_modifier") {
            p.modifiers.push(t[c].text.clone());
            assert(texts(p.modifiers@) =~= pv.modifiers.push(text_of(t@, c as int)));
        } else if kind_among(&types, k) {
            p.type_text = Some(t[c].text.clone());
        } else if str_eq(k, "variable_name") {
            p.name = Some(bare_var_of(t, c));
        } else if str_eq(k, "...") {
            p.variadic = true;
        } else if str_eq(k, "&") {
            p.by_reference = true;
        }
        assert(param_view(p) =~= php_param_acc(t@, cs.take(i + 1)));
        i += 1;
    }
    assert(cs.take(i as int) =~= cs);
    p.default = match field_text_of(t, n, "default_value") {
        Some(d) => Some(d),
        None => after_eq_of(t, n),
    };
    assert(param_view(p) =~= php_param(t@, n as int));
    p
}

pub open spec fn php_param_kinds() -> Seq<Seq<char>> {
    seq!["simple_parameter"@, "variadic_parameter"@, "property_promotion_parameter"@]
}

/// The parameters among a parameter list's children.
pub open spec fn php_params(t: Seq<SyntaxNode>, cs: Seq<usize>) -> Seq<ParamView>
    decreases cs.len(),
{
    if cs.len() == 0 {
        Seq::empty()
    } else {
        let prev = php_params(t, cs.drop_last());
        if php_param_kinds().contains(kind_of(t, cs.last() as int)) {
            prev.push(php_param(t, cs.last() as int))
        } else {
            prev
        }
    }
}

fn php_params_of(t: &Vec<SyntaxNode>, n: usize) -> (r: Vec<Param>)
    requires
        tree_ok(t@),
        n < t@.len(),
    ensures
        params_view(r@) == php_params(t@, t@[n as int].children@),
{
    node_at(t, n);
    let kinds = vec!["simple_parameter", "variadic_parameter", "property_promotion_parameter"];
    assert(strs(kinds@) =~= php_param_kinds());
    let ghost cs = t@[n as int].children@;
    let mut out: Vec<Param> = Vec::new();
    let mut i: usize = 0;
    while i < t[n].children.len()
        invariant
            tree_ok(t@),
            n < t@.len(),
            cs == t@[n as int].children@,
            i <= cs.len(),
            strs(kinds@) == php_param_kinds(),
            forall|k: int| 0 <= k < cs.len() ==> n < #[trigger] cs[k] < t@.len(),
            params_view(out@) == php_params(t@, cs.take(i as int)),
        decreases cs.len() - i,
    {
        let c = t[n].children[i];
        assert(cs.take(i + 1).drop_last() =~= cs.take(i as int));
        assert(cs.take(i + 1).last() == c);
        if kind_among(&kinds, t[c].kind.as_str()) {
            let p = php_param_of(t, c);
            let ghost ov = params_view(out@);
            let ghost pv = param_view(p);
            out.push(p);
            assert(params_view(out@) =~= ov.push(pv));
        }
        i += 1;
    }
    assert(cs.take(i as int) =~= cs);
    out
}

pub open spec fn php_function_extra(t: Seq<SyntaxNode>, n: int) -> ExtraView {
    let am = php_attrs_mods(t, t[n].children@);
    let params = match field_child(t, n, "parameters"@) {
        Some(p) => Some(p),
        None => kind_first(t, t[n].children@, seq!["formal_parameters"@]),
    };
    let ret = match field_child(t, n, "return_type"@) {
        Some(r) => Some(r),
        None => ret_scan(t, t[n].children@, false),
    };
    ExtraView {
        attributes: am.0,
        visibility: first_visibility(am.1),
        modifiers: am.1,
        parameters: match params {
            Some(p) => Some(php_params(t, t[p as int].children@)),
            None => None,
        },
        return_type: match ret {
            Some(r) => Some(text_of(t, r as int)),
            None => None,
        },
        ..no_extra()
    }
}

fn php_function_extra_of(t: &Vec<SyntaxNode>, n: usize) -> (r: Extra)
    requires
        tree_ok(t@),
        n < t@.len(),
    ensures
        extra_view(r) == php_function_extra(t@, n as int),
{
    let (attrs, mods) = php_attrs_mods_of(t, n);
    let vis = first_visibility_of(&mods);
    let params = match field_child_of(t, n, "parameters") {
        Some(p) => Some(p),
        None => kind_child_of(t, n, &one_kind("formal_parameters")),
    };
    let ret = match field_child_of(t, n, "return_type") {
        Some(r) => Some(r),
        None => ret_scan_of(t, n),
    };
    let mut e = new_extra();
    e.attributes = attrs;
    e.visibility = vis;
    e.modifiers = mods;
    e.parameters = match params {
        Some(p) => Some(php_params_of(t, p)),
        None => None,
    };
    e.return_type = match ret {
        Some(r) => Some(t[r].text.clone()),
        None => None,
    };
    assert(extra_view(e) =~= php_function_extra(t@, n as int));
    e
}

/// A hook list's hooks: each `property_hook` with its last `name` child as
/// accessor.
pub open spec fn php_hooks(t: Seq<SyntaxNode>, cs: Seq<usize>) -> Seq<AttrView>
    decreases cs.len(),
{
    if cs.len() == 0 {
        Seq::empty()
    } else {
        let prev = php_hooks(t, cs.drop_last());
        let c = cs.last() as int;
        if kind_of(t, c) == "property_hook"@ {
            prev.push((kind_last_text(t, t[c].children@, seq!["name"@]), text_of(t, c)))
        } else {
            prev
        }
    }
}

fn php_hooks_of(t: &Vec<SyntaxNode>, n: usize) -> (r: Vec<Hook>)
    requires
        tree_ok(t@),
        n < t@.len(),
    ensures
        hooks_view(r@) == php_hooks(t@, t@[n as int].children@),
{
    node_at(t, n);
    let ghost cs = t@[n as int].children@;
    let mut out: Vec<Hook> = Vec::new();
    let mut i: usize = 0;
    while i < t[n].children.len()
        invariant
            tree_ok(t@),
            n < t@.len(),
            cs == t@[n as int].children@,
            i <= cs.len(),
            forall|k: int| 0 <= k < cs.len() ==> n < #[trigger] cs[k] < t@.len(),
            hooks_view(out@) == php_hooks(t@, cs.take(i as int)),
        decreases cs.len() - i,
    {
        let c = t[n].children[i];
        assert(cs.take(i + 1).drop_last() =~= cs.take(i as int));
        assert(cs.take(i + 1).last() == c);
        if str_eq(t[c].kind.as_str(), "property_hook") {
            let h = Hook { accessor: kind_last_text_of(t, c, &one_kind("name")), source: t[c].text.clone() };
            let ghost ov = hooks_view(out@);
            out.push(h);
            assert(hooks_view(out@) =~= ov.push((opt_text(h.accessor), h.source@)));
        }
        i += 1;
    }
    assert(cs.take(i as int) =~= cs);
    out
}

/// What a property declaration's children say of all its properties.
pub open spec fn php_prop_acc(t: Seq<SyntaxNode>, cs: Seq<usize>) -> (ExtraView, Option<usize>)
    decreases cs.len(),
{
    if cs.len() == 0 {
        (no_extra(), None)
    } else {
        let (e, h) = php_prop_acc(t, cs.drop_last());
        let c = cs.last() as int;
        let k = kind_of(t, c);
        if k == "attribute_list"@ {
            (ExtraView { attributes: e.attributes + attrs_at(t, c), ..e }, h)
        } else if k == "visibility_modifier"@ {
            (ExtraView { visibility: Some(text_of(t, c)), modifiers: e.modifiers.push(text_of(t, c)), ..e }, h)
        } else if k == "static_modifier"@ || k == "readonly_modifier"@ || k == "abstract_modifier"@ || k == "final_modifier"@ {
            (ExtraView { modifiers: e.modifiers.push(text_of(t, c)), ..e }, h)
        } else if php_type_kinds().contains(k) {
            (ExtraView { type_text: Some(text_of(t, c)), ..e }, h)
        } else if k == "property_hook_list"@ {
            (e, Some(cs.last()))
        } else {
            (e, h)
        }
    }
}

/// A property element's default: the text of the last non-`=` child of
/// its last `property_initializer` that has one.
pub open spec fn php_default(t: Seq<SyntaxNode>, cs: Seq<usize>) -> Option<Seq<char>>
    decreases cs.len(),
{
    if cs.len() == 0 {
        None
    } else {
        let prev = php_default(t, cs.drop_last());
        let c = cs.last() as int;
        if kind_of(t, c) == "property_initializer"@ {
            let inits = kind_texts(t, t[c].children@, seq!["="@], false);
            if inits.len() > 0 {
                Some(inits.last())
            } else {
                prev
            }
        } else {
            prev
        }
    }
}

/// The properties a declaration declares: each `property_element` with a
/// `variable_name`, sharing the declaration's fields.
pub open spec fn php_prop_rows(t: Seq<SyntaxNode>, cs: Seq<usize>, shared: ExtraView) -> Seq<SigView>
    decreases cs.len(),
{
    if cs.len() == 0 {
        Seq::empty()
    } else {
        let prev = php_prop_rows(t, cs.drop_last(), shared);
        let c = cs.last() as int;
        if kind_of(t, c) == "property_element"@ {
            match kind_last(t, t[c].children@, "variable_name"@) {
                Some(v) => prev.push(
                    (
                        bare_var(t, v as int),
                        "property"@,
                        t[v as int].start_row + 1,
                        ExtraView { default: php_default(t, t[c].children@), ..shared },
                    ),
                ),
                None => prev,
            }
        } else {
            prev
        }
    }
}

/// The last of `cs` of kind `k`.
pub open spec fn kind_last(t: Seq<SyntaxNode>, cs: Seq<usize>, k: Seq<char>) -> Option<usize>
    decreases cs.len(),
{
    if cs.len() == 0 {
        None
    } else if kind_of(t, cs.last() as int) == k {
        Some(cs.last())
    } else {
        kind_last(t, cs.drop_last(), k)
    }
}

pub open spec fn php_properties(t: Seq<SyntaxNode>, n: int) -> Seq<SigView> {
    let (e, h) = php_prop_acc(t, t[n].children@);
    let shared = ExtraView {
        hooks: match h {
            Some(l) => php_hooks(t, t[l as int].children@),
            None => Seq::empty(),
        },
        ..e
    };
    php_prop_rows(t, t[n].children@, shared)
}

fn kind_last_of(t: &Vec<SyntaxNode>, n: usize, k: &str) -> (r: Option<usize>)
    requires
        tree_ok(t@),
        n < t@.len(),
    ensures
        r == kind_last(t@, t@[n as int].children@, k@),
        r matches Some(c) ==> n < c < t@.len(),
{
    node_at(t, n);
    let ghost cs = t@[n as int].children@;
    let mut r: Option<usize> = None;
    let mut i: usize = 0;
    while i < t[n].children.len()
        invariant
            n < t@.len(),
            cs == t@[n as int].children@,
            i <= cs.len(),
            forall|q: int| 0 <= q < cs.len() ==> n < #[trigger] cs[q] < t@.len(),
            r == kind_last(t@, cs.take(i as int), k@),
            r matches Some(c) ==> n < c < t@.len(),
        decreases cs.len() - i,
    {
        let c = t[n].children[i];
        assert(cs.take(i + 1).drop_last() =~= cs.take(i as int));
        assert(cs.take(i + 1).last() == c);
        if str_eq(t[c].kind.as_str(), k) {
            r = Some(c);
        }
        i += 1;
    }
    assert(cs.take(i as int) =~= cs);
    r
}

fn php_default_of(t: &Vec<SyntaxNode>, n: usize) -> (r: Option<String>)
    requires
        tree_ok(t@),
        n < t@.len(),
    ensures
        opt_text(r) == php_default(t@, t@[n as int].children@),
{
    node_at(t, n);
    let ghost cs = t@[n as int].children@;
    let mut d: Option<String> = None;
    let mut i: usize = 0;
    while i < t[n].children.len()
        invariant
            tree_ok(t@),
            n < t@.len(),
            cs == t@[n as int].children@,
            i <= cs.len(),
            forall|q: int| 0 <= q < cs.len() ==> n < #[trigger] cs[q] < t@.len(),
            opt_text(d) == php_default(t@, cs.take(i as int)),
        decreases cs.len() - i,
    {
        let c = t[n].children[i];
        assert(cs.take(i + 1).drop_last() =~= cs.take(i as int));
        assert(cs.take(i + 1).last() == c);
        if str_eq(t[c].kind.as_str(), "property_initializer") {
            let mut inits = kind_texts_of(t, c, &one_kind("="), false);
            if inits.len() > 0 {
                let ghost iv = texts(inits@);
                let x = inits.pop().unwrap();
                assert(x@ == iv.last());
                d = Some(x);
            }
        }
        i += 1;
    }
    assert(cs.take(i as int) =~= cs);
    d
}

fn clone_texts(v: &Vec<String>) -> (r: Vec<String>)
    ensures
        texts(r@) == texts(v@),
{
    let mut out: Vec<String> = Vec::new();
    let mut i: usize = 0;
    while i < v.len()
        invariant
            i <= v@.len(),
            texts(out@) == texts(v@).take(i as int),
        decreases v@.len() - i,
    {
        let ghost ov = texts(out@);
        let x = v[i].clone();
        out.push(x);
        assert(texts(out@) =~= ov.push(texts(v@)[i as int]));
        assert(texts(v@).take(i + 1) =~= texts(v@).take(i as int).push(texts(v@)[i as int]));
        i += 1;
    }
    assert(texts(v@).take(i as int) =~= texts(v@));
    out
}

fn clone_attrs(v: &Vec<Attribute>) -> (r: Vec<Attribute>)
    ensures
        attrs_view(r@) == attrs_view(v@),
{
    let mut out: Vec<Attribute> = Vec::new();
    let mut i: usize = 0;
    while i < v.len()
        invariant
            i <= v@.len(),
            attrs_view(out@) == attrs_view(v@).take(i as int),
        decreases v@.len() - i,
    {
        let ghost ov = attrs_view(out@);
        let a = Attribute { name: v[i].name.clone(), source: v[i].source.clone() };
        assert(attr_view(a) == attrs_view(v@)[i as int]);
        out.push(a);
        assert(attrs_view(out@) =~= ov.push(attrs_view(v@)[i as int]));
        assert(attrs_view(v@).take(i + 1) =~= attrs_view(v@).take(i as int).push(attrs_view(v@)[i as int]));
        i += 1;
    }
    assert(attrs_view(v@).take(i as int) =~= attrs_view(v@));
    out
}

fn clone_hooks(v: &Vec<Hook>) -> (r: Vec<Hook>)
    ensures
        hooks_view(r@) == hooks_view(v@),
{
    let mut out: Vec<Hook> = Vec::new();
    let mut i: usize = 0;
    while i < v.len()
        invariant
            i <= v@.len(),
            hooks_view(out@) == hooks_view(v@).take(i as int),
        decreases v@.len() - i,
    {
        let ghost ov = hooks_view(out@);
        let h = Hook { accessor: v[i].accessor.clone(), source: v[i].source.clone() };
        assert((opt_text(h.accessor), h.source@) == hooks_view(v@)[i as int]);
        out.push(h);
        assert(hooks_view(out@) =~= ov.push(hooks_view(v@)[i as int]));
        assert(hooks_view(v@).take(i + 1) =~= hooks_view(v@).take(i as int).push(hooks_view(v@)[i as int]));
        i += 1;
    }
    assert(hooks_view(v@).take(i as int) =~= hooks_view(v@));
    out
}

/// Fields a property declaration never sets.
pub open spec fn prop_shape(e: ExtraView) -> bool {
    &&& e.decorators.len() == 0
    &&& e.extends is None
    &&& e.extends_list.len() == 0
    &&& e.implements.len() == 0
    &&& e.bases.len() == 0
    &&& e.type_parameters is None
    &&& e.parameters is None
    &&& e.return_type is None
    &&& !e.is_async
    &&& !e.is_abstract
}

proof fn lemma_prop_acc_shape(t: Seq<SyntaxNode>, cs: Seq<usize>)
    ensures
        prop_shape(php_prop_acc(t, cs).0),
        php_prop_acc(t, cs).0.hooks.len() == 0,
        php_prop_acc(t, cs).0.default is None,
    decreases cs.len(),
{
    if cs.len() > 0 {
        lemma_prop_acc_shape(t, cs.drop_last());
    }
}

/// A copy of the shared property fields with this property's default.
fn property_extra(shared: &Extra, default: Option<String>) -> (r: Extra)
    requires
        prop_shape(extra_view(*shared)),
    ensures
        extra_view(r) == (ExtraView { default: opt_text(default), ..extra_view(*shared) }),
{
    let mut e = new_extra();
    e.attributes = clone_attrs(&shared.attributes);
    e.visibility = shared.visibility.clone();
    e.modifiers = clone_texts(&shared.modifiers);
    e.type_text = shared.type_text.clone();
    e.hooks = clone_hooks(&shared.hooks);
    e.default = default;
    assert(extra_view(e) =~= (ExtraView { default: opt_text(e.default), ..extra_view(*shared) }));
    e
}

fn php_properties_of(t: &Vec<SyntaxNode>, n: usize, out: &mut Vec<Signature>)
    requires
        tree_ok(t@),
        n < t@.len(),
    ensures
        sigs_view(final(out)@) == sigs_view(old(out)@) + php_properties(t@, n as int),
{
    node_at(t, n);
    let types = php_type_kind_list();
    let ghost cs = t@[n as int].children@;
    let mut e = new_extra();
    let mut hook_list: Option<usize> = None;
    let mut i: usize = 0;
    while i < t[n].children.len()
        invariant
            tree_ok(t@),
            n < t@.len(),
            cs == t@[n as int].children@,
            i <= cs.len(),
            strs(types@) == php_type_kinds(),
            forall|q: int| 0 <= q < cs.len() ==> n < #[trigger] cs[q] < t@.len(),
            (extra_view(e), hook_list) == php_prop_acc(t@, cs.take(i as int)),
            hook_list matches Some(h) ==> h < t@.len(),
        decreases cs.len() - i,
    {
        let c = t[n].children[i];
        assert(cs.take(i + 1).drop_last() =~= cs.take(i as int));
        assert(cs.take(i + 1).last() == c);
        let ghost ev = extra_view(e);
        let k = t[c].kind.as_str();
        if str_eq(k, "attribute_list") {
            collect_attrs(t, c, &mut e.attributes);
        } else if str_eq(k, "visibility_modifier") {
            e.visibility = Some(t[c].text.clone());
            e.modifiers.push(t[c].text.clone());
            assert(texts(e.modifiers@) =~= ev.modifiers.push(text_of(t@, c as int)));
        } else if str_eq(k, "static_modifier") || str_eq(k, "readonly_modifier") || str_eq(k, "abstract_modifier") || str_eq(
            k,
            "final_modifier",
        ) {
            e.modifiers.push(t[c].text.clone());
            assert(texts(e.modifiers@) =~= ev.modifiers.push(text_of(t@, c as int)));
        } else if kind_among(&types, k) {
            e.type_text = Some(t[c].text.clone());
        } else if str_eq(k, "property_hook_list") {
            hook_list = Some(c);
        }
        assert(extra_view(e) =~= php_prop_acc(t@, cs.take(i + 1)).0);
        i += 1;
    }
    assert(cs.take(i as int) =~= cs);
    proof {
        lemma_prop_acc_shape(t@, cs);
    }
    match hook_list {
        Some(h) => {
            e.hooks = php_hooks_of(t, h);
        },
        None => {},
    }
    let ghost shared = extra_view(e);
    assert(shared =~= (ExtraView {
        hooks: match hook_list {
            Some(l) => php_hooks(t@, t@[l as int].children@),
            None => Seq::empty(),
        },
        ..php_prop_acc(t@, cs).0
    }));
    let ghost base = sigs_view(out@);
    let mut j: usize = 0;
    while j < t[n].children.len()
        invariant
            tree_ok(t@),
            n < t@.len(),
            cs == t@[n as int].children@,
            j <= cs.len(),
            shared == extra_view(e),
            prop_shape(shared),
            forall|q: int| 0 <= q < cs.len() ==> n < #[trigger] cs[q] < t@.len(),
            sigs_view(out@) == base + php_prop_rows(t@, cs.take(j as int), shared),
        decreases cs.len() - j,
    {
        let c = t[n].children[j];
        assert(cs.take(j + 1).drop_last() =~= cs.take(j as int));
        assert(cs.take(j + 1).last() == c);
        if str_eq(t[c].kind.as_str(), "property_element") {
            match kind_last_of(t, c, "variable_name") {
                Some(v) => {
                    let d = php_default_of(t, c);
                    let sig = Signature {
                        name: bare_var_of(t, v),
                        kind: "property".to_owned(),
                        line: line_of(t, v),
                        extra: property_extra(&e, d),
                    };
                    let ghost ov = sigs_view(out@);
                    let ghost sv = sig_view(sig);
                    out.push(sig);
                    assert(sigs_view(out@) =~= ov.push(sv));
                },
                None => {},
            }
        }
        assert(sigs_view(out@) =~= base + php_prop_rows(t@, cs.take(j + 1), shared));
        j += 1;
    }
    assert(cs.take(j as int) =~= cs);
}

/// The symbol kind a PHP declaration node declares.
pub open spec fn php_decl_kind(k: Seq<char>) -> Option<Seq<char>> {
    if k == "class_declaration"@ {
        Some("class"@)
    } else if k == "interface_declaration"@ {
        Some("interface"@)
    } else if k == "trait_declaration"@ {
        Some("trait"@)
    } else if k == "enum_declaration"@ {
        Some("enum"@)
    } else if k == "function_definition"@ || k == "method_declaration"@ {
        Some("function"@)
    } else {
        None
    }
}

pub open spec fn php_sig(t: Seq<SyntaxNode>, m: int) -> Seq<SigView> {
    (match php_decl_kind(kind_of(t, m)) {
        Some(k) => match field_child(t, m, "name"@) {
            Some(nm) => seq![
                (
                    text_of(t, nm as int),
                    k,
                    t[nm as int].start_row + 1,
                    if k == "function"@ { php_function_extra(t, m) } else { php_class_extra(t, m) },
                ),
            ],
            None => Seq::empty(),
        },
        None => Seq::empty(),
    }) + if kind_of(t, m) == "property_declaration"@ {
        php_properties(t, m)
    } else {
        Seq::empty()
    }
}

pub open spec fn php_rows(t: Seq<SyntaxNode>, ms: Seq<int>) -> Seq<SigView>
    decreases ms.len(),
{
    if ms.len() == 0 {
        Seq::empty()
    } else {
        php_rows(t, ms.drop_last()) + php_sig(t, ms.last())
    }
}

pub open spec fn php_kinds() -> Seq<Seq<char>> {
    seq![
        "class_declaration"@,
        "interface_declaration"@,
        "trait_declaration"@,
        "enum_declaration"@,
        "function_definition"@,
        "method_declaration"@,
        "property_declaration"@,
    ]
}

/// The signatures of a PHP file: declarations with a name and declared
/// properties, in the order a stack walk from the root meets them.
pub open spec fn php_signatures(t: Seq<SyntaxNode>) -> Seq<SigView> {
    php_rows(t, function_order(t, php_kinds()))
}

fn php_decl_kind_of(k: &str) -> (r: Option<&'static str>)
    ensures
        match r {
            Some(x) => php_decl_kind(k@) == Some(x@),
            None => php_decl_kind(k@) is None,
        },
{
    if str_eq(k, "class_declaration") {
        Some("class")
    } else if str_eq(k, "interface_declaration") {
        Some("interface")
    } else if str_eq(k, "trait_declaration") {
        Some("trait")
    } else if str_eq(k, "enum_declaration") {
        Some("enum")
    } else if str_eq(k, "function_definition") || str_eq(k, "method_declaration") {
        Some("function")
    } else {
        None
    }
}

/// The signatures of a parsed PHP file.
pub fn php_signatures_of(t: &Vec<SyntaxNode>) -> (r: Vec<Signature>)
    requires
        tree_ok(t@),
    ensures
        sigs_view(r@) == php_signatures(t@),
{
    let kinds = vec![
        "class_declaration",
        "interface_declaration",
        "trait_declaration",
        "enum_declaration",
        "function_definition",
        "method_declaration",
        "property_declaration",
    ];
    assert(strs(kinds@) =~= php_kinds());
    let ms = function_nodes(t, &kinds);
    let ghost mv = ms@.map_values(|u: usize| u as int);
    let mut out: Vec<Signature> = Vec::new();
    let mut i: usize = 0;
    while i < ms.len()
        invariant
            tree_ok(t@),
            i <= ms@.len(),
            mv == ms@.map_values(|u: usize| u as int),
            forall|k: int| 0 <= k < ms@.len() ==> #[trigger] ms@[k] < t@.len(),
            sigs_view(out@) == php_rows(t@, mv.take(i as int)),
        decreases ms@.len() - i,
    {
        let m = ms[i];
        assert(mv.take(i + 1).drop_last() =~= mv.take(i as int));
        assert(mv.take(i + 1).last() == m as int);
        let ghost ov = sigs_view(out@);
        let ghost first: Seq<SigView> = match php_decl_kind(kind_of(t@, m as int)) {
            Some(k) => match field_child(t@, m as int, "name"@) {
                Some(nm) => seq![
                    (
                        text_of(t@, nm as int),
                        k,
                        t@[nm as int].start_row + 1,
                        if k == "function"@ { php_function_extra(t@, m as int) } else { php_class_extra(t@, m as int) },
                    ),
                ],
                None => Seq::empty(),
            },
            None => Seq::empty(),
        };
        match php_decl_kind_of(t[m].kind.as_str()) {
            Some(k) => {
                match field_child_of(t, m, "name") {
                    Some(nm) => {
                        let extra = if str_eq(k, "function") {
                            php_function_extra_of(t, m)
                        } else {
                            php_class_extra_of(t, m)
                        };
                        let sig = Signature { name: t[nm].text.clone(), kind: k.to_owned(), line: line_of(t, nm), extra };
                        let ghost sv = sig_view(sig);
                        out.push(sig);
                        assert(sigs_view(out@) =~= ov.push(sv));
                        assert(sigs_view(out@) =~= ov + first);
                    },
                    None => {
                        assert(sigs_view(out@) =~= ov + first);
                    },
                }
            },
            None => {
                assert(sigs_view(out@) =~= ov + first);
            },
        }
        let ghost mid = sigs_view(out@);
        if str_eq(t[m].kind.as_str(), "property_declaration") {
            php_properties_of(t, m, &mut out);
        } else {
            assert(mid + Seq::<SigView>::empty() =~= mid);
        }
        assert(sigs_view(out@) =~= ov + php_sig(t@, m as int));
        i += 1;
    }
    assert(mv.take(i as int) =~= mv);
    out
}

// ---------- TypeScript / JavaScript ----------

/// A type annotation's text without its leading colons and surrounding
/// whitespace.
pub open spec fn type_annotation(s: Seq<char>) -> Seq<char> {
    crate::digest::trim(strip_lead(s, ':'))
}

fn type_annotation_of(s: &String) -> (r: String)
    ensures
        r@ == type_annotation(s@),
{
    let cs = crate::text::chars_of(s.as_str());
    let a = strip_lead_of(&cs, ':');
    let b = crate::digest::trim_text(&a);
    crate::text::string_of(&b)
}

pub open spec fn field_annotation(t: Seq<SyntaxNode>, n: int, f: Seq<char>) -> Option<Seq<char>> {
    match field_text(t, n, f) {
        Some(x) => Some(type_annotation(x)),
        None => None,
    }
}

fn field_annotation_of(t: &Vec<SyntaxNode>, n: usize, f: &str) -> (r: Option<String>)
    requires
        tree_ok(t@),
        n < t@.len(),
    ensures
        opt_text(r) == field_annotation(t@, n as int, f@),
{
    match field_text_of(t, n, f) {
        Some(x) => Some(type_annotation_of(&x)),
        None => None,
    }
}

/// The children before the first that is `n` (all of them when none is).
pub open spec fn before_node(cs: Seq<usize>, n: int) -> Seq<usize>
    decreases cs.len(),
{
    if cs.len() == 0 || cs[0] == n {
        Seq::empty()
    } else {
        seq![cs[0]] + before_node(cs.drop_first(), n)
    }
}

/// The decorators written before a declaration: the `decorator` siblings
/// that precede it in its parent (an `export_statement` when it is
/// exported).
pub open spec fn ts_decorators(t: Seq<SyntaxNode>, n: int) -> Seq<Seq<char>> {
    match t[n].parent {
        Some(p) => kind_texts(t, before_node(t[p as int].children@, n), seq!["decorator"@], true),
        None => Seq::empty(),
    }
}

proof fn lemma_before_node_prefix(cs: Seq<usize>, n: int, i: int)
    requires
        0 <= i <= cs.len(),
        forall|j: int| 0 <= j < i ==> cs[j] != n,
        i == cs.len() || cs[i] == n,
    ensures
        before_node(cs, n) == cs.take(i),
    decreases cs.len(),
{
    if cs.len() > 0 && cs[0] != n {
        lemma_before_node_prefix(cs.drop_first(), n, i - 1);
        assert(cs.take(i) =~= seq![cs[0]] + cs.drop_first().take(i - 1));
    } else {
        assert(cs.take(i) =~= Seq::<usize>::empty());
    }
}

fn ts_decorators_of(t: &Vec<SyntaxNode>, n: usize) -> (r: Vec<String>)
    requires
        tree_ok(t@),
        n < t@.len(),
    ensures
        texts(r@) == ts_decorators(t@, n as int),
{
    node_at(t, n);
    match t[n].parent {
        Some(p) => {
            node_at(t, p);
            let ghost cs = t@[p as int].children@;
            let dk = one_kind("decorator");
            let ghost ks = strs(dk@);
            let mut out: Vec<String> = Vec::new();
            let mut i: usize = 0;
            while i < t[p].children.len() && t[p].children[i] != n
                invariant
                    p < t@.len(),
                    cs == t@[p as int].children@,
                    i <= cs.len(),
                    forall|k: int| 0 <= k < cs.len() ==> p < #[trigger] cs[k] < t@.len(),
                    forall|j: int| 0 <= j < i ==> cs[j] != n,
                    ks == strs(dk@),
                    ks == seq!["decorator"@],
                    texts(out@) == kind_texts(t@, cs.take(i as int), ks, true),
                decreases cs.len() - i,
            {
                let c = t[p].children[i];
                assert(cs.take(i + 1).drop_last() =~= cs.take(i as int));
                assert(cs.take(i + 1).last() == c);
                if kind_among(&dk, t[c].kind.as_str()) {
                    let ghost ov = texts(out@);
                    out.push(t[c].text.clone());
                    assert(texts(out@) =~= ov.push(text_of(t@, c as int)));
                }
                i += 1;
            }
            proof {
                lemma_before_node_prefix(cs, n as int, i as int);
            }
            out
        },
        None => Vec::new(),
    }
}

pub open spec fn ts_extends_kinds() -> Seq<Seq<char>> {
    seq!["identifier"@, "type_identifier"@, "member_expression"@, "generic_type"@]
}

pub open spec fn ts_type_kinds() -> Seq<Seq<char>> {
    seq!["type_identifier"@, "generic_type"@, "nested_type_identifier"@]
}

fn ts_type_kind_list() -> (r: Vec<&'static str>)
    ensures
        strs(r@) == ts_type_kinds(),
{
    let r = vec!["type_identifier", "generic_type", "nested_type_identifier"];
    assert(strs(r@) =~= ts_type_kinds());
    r
}

/// One `class_heritage`: the superclass of its last `extends_clause` that
/// names one, the interfaces of its last non-empty `implements_clause`.
pub open spec fn ts_heritage_parts(t: Seq<SyntaxNode>, subs: Seq<usize>) -> (Option<Seq<char>>, Option<Seq<Seq<char>>>)
    decreases subs.len(),
{
    if subs.len() == 0 {
        (None, None)
    } else {
        let p = ts_heritage_parts(t, subs.drop_last());
        let c = subs.last() as int;
        if kind_of(t, c) == "extends_clause"@ {
            (
                match kind_first(t, t[c].children@, ts_extends_kinds()) {
                    Some(x) => Some(text_of(t, x as int)),
                    None => p.0,
                },
                p.1,
            )
        } else if kind_of(t, c) == "implements_clause"@ {
            let imps = kind_texts(t, t[c].children@, ts_type_kinds(), true);
            (p.0, if imps.len() > 0 { Some(imps) } else { p.1 })
        } else {
            p
        }
    }
}

/// Every `class_heritage` of a class, later ones overriding.
pub open spec fn ts_heritage(t: Seq<SyntaxNode>, cs: Seq<usize>) -> (Option<Seq<char>>, Option<Seq<Seq<char>>>)
    decreases cs.len(),
{
    if cs.len() == 0 {
        (None, None)
    } else {
        let p = ts_heritage(t, cs.drop_last());
        let c = cs.last() as int;
        if kind_of(t, c) == "class_heritage"@ {
            let h = ts_heritage_parts(t, t[c].children@);
            (
                match h.0 {
                    Some(x) => Some(x),
                    None => p.0,
                },
                match h.1 {
                    Some(x) => Some(x),
                    None => p.1,
                },
            )
        } else {
            p
        }
    }
}

pub open spec fn ts_class_extra(t: Seq<SyntaxNode>, n: int) -> ExtraView {
    let h = ts_heritage(t, t[n].children@);
    ExtraView {
        decorators: ts_decorators(t, n),
        is_abstract: kind_of(t, n) == "abstract_class_declaration"@,
        type_parameters: field_text(t, n, "type_parameters"@),
        extends: h.0,
        implements: match h.1 {
            Some(v) => v,
            None => Seq::empty(),
        },
        ..no_extra()
    }
}

fn ts_heritage_parts_of(t: &Vec<SyntaxNode>, n: usize) -> (r: (Option<String>, Option<Vec<String>>))
    requires
        tree_ok(t@),
        n < t@.len(),
    ensures
        (opt_text(r.0), match r.1 {
            Some(v) => Some(texts(v@)),
            None => None,
        }) == ts_heritage_parts(t@, t@[n as int].children@),
{
    node_at(t, n);
    let ext_kinds = vec!["identifier", "type_identifier", "member_expression", "generic_type"];
    assert(strs(ext_kinds@) =~= ts_extends_kinds());
    let types = ts_type_kind_list();
    let ghost cs = t@[n as int].children@;
    let mut ext: Option<String> = None;
    let mut imps: Option<Vec<String>> = None;
    let mut i: usize = 0;
    while i < t[n].children.len()
        invariant
            tree_ok(t@),
            n < t@.len(),
            cs == t@[n as int].children@,
            i <= cs.len(),
            strs(ext_kinds@) == ts_extends_kinds(),
            strs(types@) == ts_type_kinds(),
            forall|k: int| 0 <= k < cs.len() ==> n < #[trigger] cs[k] < t@.len(),
            (opt_text(ext), match imps {
                Some(v) => Some(texts(v@)),
                None => None,
            }) == ts_heritage_parts(t@, cs.take(i as int)),
        decreases cs.len() - i,
    {
        let c = t[n].children[i];
        assert(cs.take(i + 1).drop_last() =~= cs.take(i as int));
        assert(cs.take(i + 1).last() == c);
        if str_eq(t[c].kind.as_str(), "extends_clause") {
            match kind_child_of(t, c, &ext_kinds) {
                Some(x) => {
                    ext = Some(t[x].text.clone());
                },
                None => {},
            }
        } else if str_eq(t[c].kind.as_str(), "implements_clause") {
            let found = kind_texts_of(t, c, &types, true);
            if found.len() > 0 {
                imps = Some(found);
            }
        }
        i += 1;
    }
    assert(cs.take(i as int) =~= cs);
    (ext, imps)
}

fn ts_class_extra_of(t: &Vec<SyntaxNode>, n: usize) -> (r: Extra)
    requires
        tree_ok(t@),
        n < t@.len(),
    ensures
        extra_view(r) == ts_class_extra(t@, n as int),
{
    node_at(t, n);
    let ghost cs = t@[n as int].children@;
    let mut ext: Option<String> = None;
    let mut imps: Option<Vec<String>> = None;
    let mut i: usize = 0;
    while i < t[n].children.len()
        invariant
            tree_ok(t@),
            n < t@.len(),
            cs == t@[n as int].children@,
            i <= cs.len(),
            forall|k: int| 0 <= k < cs.len() ==> n < #[trigger] cs[k] < t@.len(),
            (opt_text(ext), match imps {
                Some(v) => Some(texts(v@)),
                None => None,
            }) == ts_heritage(t@, cs.take(i as int)),
        decreases cs.len() - i,
    {
        let c = t[n].children[i];
        assert(cs.take(i + 1).drop_last() =~= cs.take(i as int));
        assert(cs.take(i + 1).last() == c);
        if str_eq(t[c].kind.as_str(), "class_heritage") {
            let (e2, i2) = ts_heritage_parts_of(t, c);
            match e2 {
                Some(x) => {
                    ext = Some(x);
                },
                None => {},
            }
            match i2 {
                Some(v) => {
                    imps = Some(v);
                },
                None => {},
            }
        }
        i += 1;
    }
    assert(cs.take(i as int) =~= cs);
    let mut e = new_extra();
    e.decorators = ts_decorators_of(t, n);
    e.is_abstract = str_eq(t[n].kind.as_str(), "abstract_class_declaration");
    e.type_parameters = field_text_of(t, n, "type_parameters");
    e.extends = ext;
    match imps {
        Some(v) => {
            e.implements = v;
        },
        None => {},
    }
    assert(extra_view(e) =~= ts_class_extra(t@, n as int));
    e
}

/// An interface's extended interfaces, over all its `extends_type_clause`s.
pub open spec fn ts_interface_extends(t: Seq<SyntaxNode>, cs: Seq<usize>) -> Seq<Seq<char>>
    decreases cs.len(),
{
    if cs.len() == 0 {
        Seq::empty()
    } else {
        let prev = ts_interface_extends(t, cs.drop_last());
        let c = cs.last() as int;
        if kind_of(t, c) == "extends_type_clause"@ {
            prev + kind_texts(t, t[c].children@, ts_type_kinds(), true)
        } else {
            prev
        }
    }
}

pub open spec fn ts_interface_extra(t: Seq<SyntaxNode>, n: int) -> ExtraView {
    ExtraView {
        type_parameters: field_text(t, n, "type_parameters"@),
        extends_list: ts_interface_extends(t, t[n].children@),
        ..no_extra()
    }
}

fn append_texts(out: &mut Vec<String>, more: Vec<String>)
    ensures
        texts(final(out)@) == texts(old(out)@) + texts(more@),
{
    let ghost base = texts(out@);
    let mut j: usize = 0;
    while j < more.len()
        invariant
            j <= more@.len(),
            texts(out@) == base + texts(more@).take(j as int),
        decreases more@.len() - j,
    {
        let ghost ov = texts(out@);
        let x = more[j].clone();
        out.push(x);
        assert(texts(out@) =~= ov.push(texts(more@)[j as int]));
        assert(texts(more@).take(j + 1) =~= texts(more@).take(j as int).push(texts(more@)[j as int]));
        j += 1;
    }
    assert(texts(more@).take(j as int) =~= texts(more@));
}

fn ts_interface_extra_of(t: &Vec<SyntaxNode>, n: usize) -> (r: Extra)
    requires
        tree_ok(t@),
        n < t@.len(),
    ensures
        extra_view(r) == ts_interface_extra(t@, n as int),
{
    node_at(t, n);
    let types = ts_type_kind_list();
    let ghost cs = t@[n as int].children@;
    let mut ext: Vec<String> = Vec::new();
    let mut i: usize = 0;
    while i < t[n].children.len()
        invariant
            tree_ok(t@),
            n < t@.len(),
            cs == t@[n as int].children@,
            i <= cs.len(),
            strs(types@) == ts_type_kinds(),
            forall|k: int| 0 <= k < cs.len() ==> n < #[trigger] cs[k] < t@.len(),
            texts(ext@) == ts_interface_extends(t@, cs.take(i as int)),
        decreases cs.len() - i,
    {
        let c = t[n].children[i];
        assert(cs.take(i + 1).drop_last() =~= cs.take(i as int));
        assert(cs.take(i + 1).last() == c);
        if str_eq(t[c].kind.as_str(), "extends_type_clause") {
            let more = kind_texts_of(t, c, &types, true);
            append_texts(&mut ext, more);
        }
        i += 1;
    }
    assert(cs.take(i as int) =~= cs);
    let mut e = new_extra();
    e.type_parameters = field_text_of(t, n, "type_parameters");
    e.extends_list = ext;
    assert(extra_view(e) =~= ts_interface_extra(t@, n as int));
    e
}

/// Visibility (the last `accessibility_modifier`) and modifiers (those and
/// the children of a kind in `ks`, in order).
pub open spec fn ts_vis_mods(t: Seq<SyntaxNode>, cs: Seq<usize>, ks: Seq<Seq<char>>) -> (Option<Seq<char>>, Seq<Seq<char>>)
    decreases cs.len(),
{
    if cs.len() == 0 {
        (None, Seq::empty())
    } else {
        let p = ts_vis_mods(t, cs.drop_last(), ks);
        let c = cs.last() as int;
        if kind_of(t, c) == "accessibility_modifier"@ {
            (Some(text_of(t, c)), p.1.push(text_of(t, c)))
        } else if ks.contains(kind_of(t, c)) {
            (p.0, p.1.push(text_of(t, c)))
        } else {
            p
        }
    }
}

fn ts_vis_mods_of(t: &Vec<SyntaxNode>, n: usize, ks: &Vec<&'static str>) -> (r: (Option<String>, Vec<String>))
    requires
        tree_ok(t@),
        n < t@.len(),
    ensures
        (opt_text(r.0), texts(r.1@)) == ts_vis_mods(t@, t@[n as int].children@, strs(ks@)),
{
    node_at(t, n);
    let ghost cs = t@[n as int].children@;
    let mut vis: Option<String> = None;
    let mut mods: Vec<String> = Vec::new();
    let mut i: usize = 0;
    while i < t[n].children.len()
        invariant
            n < t@.len(),
            cs == t@[n as int].children@,
            i <= cs.len(),
            forall|k: int| 0 <= k < cs.len() ==> n < #[trigger] cs[k] < t@.len(),
            (opt_text(vis), texts(mods@)) == ts_vis_mods(t@, cs.take(i as int), strs(ks@)),
        decreases cs.len() - i,
    {
        let c = t[n].children[i];
        assert(cs.take(i + 1).drop_last() =~= cs.take(i as int));
        assert(cs.take(i + 1).last() == c);
        let ghost mv = texts(mods@);
        if str_eq(t[c].kind.as_str(), "accessibility_modifier") {
            vis = Some(t[c].text.clone());
            mods.push(t[c].text.clone());
            assert(texts(mods@) =~= mv.push(text_of(t@, c as int)));
        } else if kind_among(ks, t[c].kind.as_str()) {
            mods.push(t[c].text.clone());
            assert(texts(mods@) =~= mv.push(text_of(t@, c as int)));
        }
        i += 1;
    }
    assert(cs.take(i as int) =~= cs);
    (vis, mods)
}

/// One TypeScript parameter.
pub open spec fn ts_param(t: Seq<SyntaxNode>, p: int) -> ParamView {
    let vm = ts_vis_mods(t, t[p].children@, seq!["readonly"@, "override"@]);
    ParamView {
        decorators: kind_texts(t, t[p].children@, seq!["decorator"@], true),
        visibility: vm.0,
        modifiers: vm.1,
        name: field_text(t, p, "pattern"@),
        type_text: field_annotation(t, p, "type"@),
        default: field_text(t, p, "value"@),
        optional: kind_of(t, p) == "optional_parameter"@,
        ..no_param()
    }
}

fn ts_param_of(t: &Vec<SyntaxNode>, n: usize) -> (r: Param)
    requires
        tree_ok(t@),
        n < t@.len(),
    ensures
        param_view(r) == ts_param(t@, n as int),
{
    let ks = vec!["readonly", "override"];
    assert(strs(ks@) =~= seq!["readonly"@, "override"@]);
    let (vis, mods) = ts_vis_mods_of(t, n, &ks);
    let mut p = new_param();
    p.decorators = kind_texts_of(t, n, &one_kind("decorator"), true);
    p.visibility = vis;
    p.modifiers = mods;
    p.name = field_text_of(t, n, "pattern");
    p.type_text = field_annotation_of(t, n, "type");
    p.default = field_text_of(t, n, "value");
    p.optional = str_eq(t[n].kind.as_str(), "optional_parameter");
    assert(param_view(p) =~= ts_param(t@, n as int));
    p
}

/// The parameters among a parameter list's children.
pub open spec fn ts_params(t: Seq<SyntaxNode>, cs: Seq<usize>) -> Seq<ParamView>
    decreases cs.len(),
{
    if cs.len() == 0 {
        Seq::empty()
    } else {
        let prev = ts_params(t, cs.drop_last());
        let k = kind_of(t, cs.last() as int);
        if k == "required_parameter"@ || k == "optional_parameter"@ {
            prev.push(ts_param(t, cs.last() as int))
        } else {
            prev
        }
    }
}

fn ts_params_of(t: &Vec<SyntaxNode>, n: usize) -> (r: Vec<Param>)
    requires
        tree_ok(t@),
        n < t@.len(),
    ensures
        params_view(r@) == ts_params(t@, t@[n as int].children@),
{
    node_at(t, n);
    let ghost cs = t@[n as int].children@;
    let mut out: Vec<Param> = Vec::new();
    let mut i: usize = 0;
    while i < t[n].children.len()
        invariant
            tree_ok(t@),
            n < t@.len(),
            cs == t@[n as int].children@,
            i <= cs.len(),
            forall|k: int| 0 <= k < cs.len() ==> n < #[trigger] cs[k] < t@.len(),
            params_view(out@) == ts_params(t@, cs.take(i as int)),
        decreases cs.len() - i,
    {
        let c = t[n].children[i];
        assert(cs.take(i + 1).drop_last() =~= cs.take(i as int));
        assert(cs.take(i + 1).last() == c);
        let k = t[c].kind.as_str();
        if str_eq(k, "required_parameter") || str_eq(k, "optional_parameter") {
            let p = ts_param_of(t, c);
            let ghost ov = params_view(out@);
            let ghost pv = param_view(p);
            out.push(p);
            assert(params_view(out@) =~= ov.push(pv));
        }
        i += 1;
    }
    assert(cs.take(i as int) =~= cs);
    out
}

pub open spec fn ts_function_extra(t: Seq<SyntaxNode>, n: int) -> ExtraView {
    ExtraView {
        type_parameters: field_text(t, n, "type_parameters"@),
        parameters: match field_child(t, n, "parameters"@) {
            Some(p) => Some(ts_params(t, t[p as int].children@)),
            None => None,
        },
        return_type: field_annotation(t, n, "return_type"@),
        is_async: any_kind(t, t[n].children@, "async"@),
        ..no_extra()
    }
}

fn ts_function_extra_of(t: &Vec<SyntaxNode>, n: usize) -> (r: Extra)
    requires
        tree_ok(t@),
        n < t@.len(),
    ensures
        extra_view(r) == ts_function_extra(t@, n as int),
{
    let mut e = new_extra();
    e.type_parameters = field_text_of(t, n, "type_parameters");
    e.parameters = match field_child_of(t, n, "parameters") {
        Some(p) => Some(ts_params_of(t, p)),
        None => None,
    };
    e.return_type = field_annotation_of(t, n, "return_type");
    e.is_async = has_kind_child(t, n, "async");
    assert(extra_view(e) =~= ts_function_extra(t@, n as int));
    e
}

pub open spec fn ts_method_mod_kinds() -> Seq<Seq<char>> {
    seq!["static"@, "readonly"@, "abstract"@, "override"@, "async"@]
}

pub open spec fn ts_method_extra(t: Seq<SyntaxNode>, n: int) -> ExtraView {
    let vm = ts_vis_mods(t, t[n].children@, ts_method_mod_kinds());
    ExtraView { decorators: ts_decorators(t, n), visibility: vm.0, modifiers: vm.1, ..ts_function_extra(t, n) }
}

fn ts_method_extra_of(t: &Vec<SyntaxNode>, n: usize) -> (r: Extra)
    requires
        tree_ok(t@),
        n < t@.len(),
    ensures
        extra_view(r) == ts_method_extra(t@, n as int),
{
    let mut e = ts_function_extra_of(t, n);
    let ks = vec!["static", "readonly", "abstract", "override", "async"];
    assert(strs(ks@) =~= ts_method_mod_kinds());
    let (vis, mods) = ts_vis_mods_of(t, n, &ks);
    e.decorators = ts_decorators_of(t, n);
    e.visibility = vis;
    e.modifiers = mods;
    assert(extra_view(e) =~= ts_method_extra(t@, n as int));
    e
}

pub open spec fn ts_field_mod_kinds() -> Seq<Seq<char>> {
    seq!["static"@, "readonly"@, "abstract"@, "override"@, "declare"@]
}

pub open spec fn ts_field_extra(t: Seq<SyntaxNode>, n: int) -> ExtraView {
    let vm = ts_vis_mods(t, t[n].children@, ts_field_mod_kinds());
    ExtraView {
        decorators: ts_decorators(t, n),
        visibility: vm.0,
        modifiers: vm.1,
        type_text: field_annotation(t, n, "type"@),
        default: field_text(t, n, "value"@),
        ..no_extra()
    }
}

fn ts_field_extra_of(t: &Vec<SyntaxNode>, n: usize) -> (r: Extra)
    requires
        tree_ok(t@),
        n < t@.len(),
    ensures
        extra_view(r) == ts_field_extra(t@, n as int),
{
    let ks = vec!["static", "readonly", "abstract", "override", "declare"];
    assert(strs(ks@) =~= ts_field_mod_kinds());
    let (vis, mods) = ts_vis_mods_of(t, n, &ks);
    let mut e = new_extra();
    e.decorators = ts_decorators_of(t, n);
    e.visibility = vis;
    e.modifiers = mods;
    e.type_text = field_annotation_of(t, n, "type");
    e.default = field_text_of(t, n, "value");
    assert(extra_view(e) =~= ts_field_extra(t@, n as int));
    e
}

/// What a TypeScript declaration node declares: its symbol kind and
/// signature fields.
pub open spec fn ts_entry(t: Seq<SyntaxNode>, m: int) -> Option<(Seq<char>, ExtraView)> {
    let k = kind_of(t, m);
    if k == "class_declaration"@ || k == "abstract_class_declaration"@ {
        Some(("class"@, ts_class_extra(t, m)))
    } else if k == "interface_declaration"@ {
        Some(("interface"@, ts_interface_extra(t, m)))
    } else if k == "function_declaration"@ || k == "generator_function_declaration"@ || k == "function_signature"@ {
        Some(("function"@, ts_function_extra(t, m)))
    } else if k == "method_definition"@ || k == "method_signature"@ || k == "abstract_method_signature"@ {
        Some(("function"@, ts_method_extra(t, m)))
    } else if k == "public_field_definition"@ || k == "property_signature"@ {
        Some(("property"@, ts_field_extra(t, m)))
    } else {
        None
    }
}

pub open spec fn ts_sig(t: Seq<SyntaxNode>, m: int) -> Seq<SigView> {
    match ts_entry(t, m) {
        Some((k, e)) => match field_child(t, m, "name"@) {
            Some(nm) => seq![(text_of(t, nm as int), k, t[nm as int].start_row + 1, e)],
            None => Seq::empty(),
        },
        None => Seq::empty(),
    }
}

pub open spec fn ts_rows(t: Seq<SyntaxNode>, ms: Seq<int>) -> Seq<SigView>
    decreases ms.len(),
{
    if ms.len() == 0 {
        Seq::empty()
    } else {
        ts_rows(t, ms.drop_last()) + ts_sig(t, ms.last())
    }
}

pub open spec fn ts_kinds() -> Seq<Seq<char>> {
    seq![
        "class_declaration"@,
        "abstract_class_declaration"@,
        "interface_declaration"@,
        "function_declaration"@,
        "generator_function_declaration"@,
        "function_signature"@,
        "method_definition"@,
        "method_signature"@,
        "abstract_method_signature"@,
        "public_field_definition"@,
        "property_signature"@,
    ]
}

/// The signatures of a TypeScript or JavaScript file, in the order a stack
/// walk from the root meets the declarations.
pub open spec fn ts_signatures(t: Seq<SyntaxNode>) -> Seq<SigView> {
    ts_rows(t, function_order(t, ts_kinds()))
}

fn ts_entry_of(t: &Vec<SyntaxNode>, m: usize) -> (r: Option<(&'static str, Extra)>)
    requires
        tree_ok(t@),
        m < t@.len(),
    ensures
        match r {
            Some((k, e)) => ts_entry(t@, m as int) == Some((k@, extra_view(e))),
            None => ts_entry(t@, m as int) is None,
        },
{
    let k = t[m].kind.as_str();
    if str_eq(k, "class_declaration") || str_eq(k, "abstract_class_declaration") {
        Some(("class", ts_class_extra_of(t, m)))
    } else if str_eq(k, "interface_declaration") {
        Some(("interface", ts_interface_extra_of(t, m)))
    } else if str_eq(k, "function_declaration") || str_eq(k, "generator_function_declaration") || str_eq(k, "function_signature") {
        Some(("function", ts_function_extra_of(t, m)))
    } else if str_eq(k, "method_definition") || str_eq(k, "method_signature") || str_eq(k, "abstract_method_signature") {
        Some(("function", ts_method_extra_of(t, m)))
    } else if str_eq(k, "public_field_definition") || str_eq(k, "property_signature") {
        Some(("property", ts_field_extra_of(t, m)))
    } else {
        None
    }
}

/// The signatures of a parsed TypeScript or JavaScript file.
pub fn ts_signatures_of(t: &Vec<SyntaxNode>) -> (r: Vec<Signature>)
    requires
        tree_ok(t@),
    ensures
        sigs_view(r@) == ts_signatures(t@),
{
    let kinds = vec![
        "class_declaration",
        "abstract_class_declaration",
        "interface_declaration",
        "function_declaration",
        "generator_function_declaration",
        "function_signature",
        "method_definition",
        "method_signature",
        "abstract_method_signature",
        "public_field_definition",
        "property_signature",
    ];
    assert(strs(kinds@) =~= ts_kinds());
    let ms = function_nodes(t, &kinds);
    let ghost mv = ms@.map_values(|u: usize| u as int);
    let mut out: Vec<Signature> = Vec::new();
    let mut i: usize = 0;
    while i < ms.len()
        invariant
            tree_ok(t@),
            i <= ms@.len(),
            mv == ms@.map_values(|u: usize| u as int),
            forall|k: int| 0 <= k < ms@.len() ==> #[trigger] ms@[k] < t@.len(),
            sigs_view(out@) == ts_rows(t@, mv.take(i as int)),
        decreases ms@.len() - i,
    {
        let m = ms[i];
        assert(mv.take(i + 1).drop_last() =~= mv.take(i as int));
        assert(mv.take(i + 1).last() == m as int);
        let ghost ov = sigs_view(out@);
        match ts_entry_of(t, m) {
            Some((k, extra)) => {
                match field_child_of(t, m, "name") {
                    Some(nm) => {
                        let sig = Signature { name: t[nm].text.clone(), kind: k.to_owned(), line: line_of(t, nm), extra };
                        let ghost sv = sig_view(sig);
                        out.push(sig);
                        assert(sigs_view(out@) =~= ov + ts_sig(t@, m as int));
                    },
                    None => {
                        assert(sigs_view(out@) =~= ov + ts_sig(t@, m as int));
                    },
                }
            },
            None => {
                assert(sigs_view(out@) =~= ov + ts_sig(t@, m as int));
            },
        }
        i += 1;
    }
    assert(mv.take(i as int) =~= mv);
    out
}

// ---------- by file ----------

/// The grammars signatures are read with.
#[derive(Debug, Clone, Copy, PartialEq, Eq, Structural)]
pub enum SigGrammar {
    Php,
    TypeScript,
    Tsx,
    Python,
}

/// The grammar for a lowercased extension.
pub open spec fn sig_grammar_of_ext(e: Seq<char>) -> Option<SigGrammar> {
    if e == "php"@ {
        Some(SigGrammar::Php)
    } else if e == "ts"@ || e == "js"@ {
        Some(SigGrammar::TypeScript)
    } else if e == "tsx"@ || e == "jsx"@ {
        Some(SigGrammar::Tsx)
    } else if e == "py"@ {
        Some(SigGrammar::Python)
    } else {
        None
    }
}

/// The grammar a file's signatures are read with, by its lowercased
/// extension; none for other files.
pub fn signature_grammar(path: &str) -> (r: Option<SigGrammar>)
    ensures
        r == match crate::paths::extension_of(path@) {
            Some(e) => sig_grammar_of_ext(crate::text::unicode_lowercase(e)),
            None => None,
        },
{
    match crate::paths::extension(path) {
        Some(e) => {
            let l = crate::text::to_lowercase(e.as_str());
            let s = l.as_str();
            if str_eq(s, "php") {
                Some(SigGrammar::Php)
            } else if str_eq(s, "ts") || str_eq(s, "js") {
                Some(SigGrammar::TypeScript)
            } else if str_eq(s, "tsx") || str_eq(s, "jsx") {
                Some(SigGrammar::Tsx)
            } else if str_eq(s, "py") {
                Some(SigGrammar::Python)
            } else {
                None
            }
        },
        None => None,
    }
}

pub open spec fn signatures_spec(t: Seq<SyntaxNode>, g: SigGrammar) -> Seq<SigView> {
    match g {
        SigGrammar::Php => php_signatures(t),
        SigGrammar::TypeScript | SigGrammar::Tsx => ts_signatures(t),
        SigGrammar::Python => py_signatures(t),
    }
}

/// The signatures of a file parsed with grammar `g`.
pub fn extract(t: &Vec<SyntaxNode>, g: SigGrammar) -> (r: Vec<Signature>)
    requires
        tree_ok(t@),
    ensures
        sigs_view(r@) == signatures_spec(t@, g),
{
    match g {
        SigGrammar::Php => php_signatures_of(t),
        SigGrammar::TypeScript | SigGrammar::Tsx => ts_signatures_of(t),
        SigGrammar::Python => py_signatures_of(t),
    }
}

fn copy_param(p: &Param) -> (r: Param)
    ensures
        param_view(r) == param_view(*p),
{
    let r = Param {
        name: p.name.clone(),
        type_text: p.type_text.clone(),
        default: p.default.clone(),
        visibility: p.visibility.clone(),
        modifiers: clone_texts(&p.modifiers),
        attributes: clone_attrs(&p.attributes),
        decorators: clone_texts(&p.decorators),
        variadic: p.variadic,
        keyword_variadic: p.keyword_variadic,
        by_reference: p.by_reference,
        optional: p.optional,
    };
    assert(param_view(r) =~= param_view(*p));
    r
}

fn copy_params(v: &Vec<Param>) -> (r: Vec<Param>)
    ensures
        params_view(r@) == params_view(v@),
{
    let mut out: Vec<Param> = Vec::new();
    let mut i: usize = 0;
    while i < v.len()
        invariant
            i <= v@.len(),
            params_view(out@) == params_view(v@).take(i as int),
        decreases v@.len() - i,
    {
        let ghost ov = params_view(out@);
        let p = copy_param(&v[i]);
        out.push(p);
        assert(params_view(out@) =~= ov.push(params_view(v@)[i as int]));
        assert(params_view(v@).take(i + 1) =~= params_view(v@).take(i as int).push(params_view(v@)[i as int]));
        i += 1;
    }
    assert(params_view(v@).take(i as int) =~= params_view(v@));
    out
}

/// A copy of a symbol's signature fields.
pub fn copy_extra(e: &Extra) -> (r: Extra)
    ensures
        extra_view(r) == extra_view(*e),
{
    let r = Extra {
        attributes: clone_attrs(&e.attributes),
        decorators: clone_texts(&e.decorators),
        modifiers: clone_texts(&e.modifiers),
        visibility: e.visibility.clone(),
        extends: e.extends.clone(),
        extends_list: clone_texts(&e.extends_list),
        implements: clone_texts(&e.implements),
        bases: clone_texts(&e.bases),
        type_parameters: e.type_parameters.clone(),
        parameters: match &e.parameters {
            Some(ps) => Some(copy_params(ps)),
            None => None,
        },
        return_type: e.return_type.clone(),
        is_async: e.is_async,
        is_abstract: e.is_abstract,
        type_text: e.type_text.clone(),
        default: e.default.clone(),
        hooks: clone_hooks(&e.hooks),
    };
    assert(extra_view(r) =~= extra_view(*e));
    r
}

} // verus!
