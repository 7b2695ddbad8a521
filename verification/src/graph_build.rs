//! Building the architecture graph from per-file extraction facts, in two
//! phases: first every module and exported symbol becomes a node, then every
//! import becomes an edge to the node it resolves to.

use crate::architecture::{
    file_to_module, file_to_module_spec, module_node_id, module_node_id_spec, node_of,
    symbol_node_id, symbol_node_id_spec, Edge, Graph, Node,
};
use crate::extraction::{Export, ExtractionResult, Import};
use crate::keyed::{append_to, find_key, get, has_key, insert, keys_unique, lemma_has_key_lookup, lookup};
use crate::text::{
    chars_of, concat, ends_with, lower, replace_char, replace_char_in, seq_ends_with,
    seq_starts_with, starts_with, str_eq, to_lowercase, unicode_lowercase,
};
use vstd::prelude::*;

verus! {

broadcast use vstd::string::group_string_axioms;

pub const CONFIDENCE_EXTRACTED: &'static str = "EXTRACTED";
pub const CONFIDENCE_INFERRED: &'static str = "INFERRED";
pub const CONFIDENCE_AMBIGUOUS: &'static str = "AMBIGUOUS";

/// What the graph builder reads of one file: its repository-relative path,
/// its language, and its extraction when an extractor handled it.
pub struct SourceFacts {
    pub path: String,
    pub language: Option<String>,
    pub extraction: Option<ExtractionResult>,
}

pub open spec fn is_python_lang(language: Option<String>) -> bool {
    language matches Some(l) && l@ == "python"@
}

pub open spec fn is_php_lang(language: Option<String>) -> bool {
    language matches Some(l) && l@ == "php"@
}

fn lang_is(language: &Option<String>, name: &str) -> (r: bool)
    ensures
        r == (language matches Some(l) && l@ == name@),
{
    match language {
        Some(l) => str_eq(l.as_str(), name),
        None => false,
    }
}

/// Store `node` under its id; a new id is appended to the insertion order.
pub fn insert_node(graph: &mut Graph, node: Node)
    requires
        old(graph).wf(),
    ensures
        final(graph).wf(),
        forall|q: Seq<char>| #[trigger] lookup(final(graph).nodes@, q) == if q == node.id@ { Some(node) } else { lookup(old(graph).nodes@, q) },
        forall|q: Seq<char>| has_key(old(graph).nodes@, q) ==> #[trigger] has_key(final(graph).nodes@, q),
        has_key(final(graph).nodes@, node.id@),
        node_keys(final(graph)) == if has_key(old(graph).nodes@, node.id@) {
            node_keys(old(graph))
        } else {
            node_keys(old(graph)).push(node.id@)
        },
        final(graph).edges == old(graph).edges,
        final(graph).symbol_index == old(graph).symbol_index,
        final(graph).module_index == old(graph).module_index,
        final(graph).file_to_module_id == old(graph).file_to_module_id,
{
    let key = node.id.clone();
    let ghost before = graph.nodes@;
    let ghost g0 = *graph;
    let ghost id = node.id@;
    insert(&mut graph.nodes, key, node);
    proof {
        if has_key(before, id) {
            assert(node_keys(graph) =~= node_keys(&g0));
        } else {
            assert(node_keys(graph) =~= node_keys(&g0).push(id));
        }
        assert forall|q: Seq<char>| has_key(before, q) implies #[trigger] has_key(graph.nodes@, q) by {
            lemma_has_key_lookup(before, q);
            lemma_has_key_lookup(graph.nodes@, q);
        }
        lemma_has_key_lookup(graph.nodes@, id);
    }
}

/// Store `id` under module path `key`; a new key is appended.
pub fn insert_module_index(graph: &mut Graph, key: String, id: String)
    requires
        old(graph).wf(),
    ensures
        final(graph).wf(),
        forall|q: Seq<char>| #[trigger] lookup(final(graph).module_index@, q) == if q == key@ { Some(id) } else { lookup(old(graph).module_index@, q) },
        has_key(old(graph).module_index@, key@) ==> final(graph).module_index@.len() == old(graph).module_index@.len()
            && forall|j: int| 0 <= j < old(graph).module_index@.len() ==> #[trigger] final(graph).module_index@[j].0@ == old(graph).module_index@[j].0@,
        !has_key(old(graph).module_index@, key@) ==> final(graph).module_index@ == old(graph).module_index@.push((key, id)),
        final(graph).edges == old(graph).edges,
        final(graph).symbol_index == old(graph).symbol_index,
        final(graph).nodes == old(graph).nodes,
        final(graph).file_to_module_id == old(graph).file_to_module_id,
{
    insert(&mut graph.module_index, key, id);
}

/// The text of an optional string.
pub open spec fn opt_view(o: Option<String>) -> Option<Seq<char>> {
    match o {
        Some(s) => Some(s@),
        None => None,
    }
}

/// The value of the first pair whose key satisfies `p`.
pub open spec fn first_value(pairs: Seq<(Seq<char>, Seq<char>)>, p: spec_fn(Seq<char>) -> bool) -> Option<Seq<char>>
    decreases pairs.len(),
{
    if pairs.len() == 0 {
        None
    } else if p(pairs[0].0) {
        Some(pairs[0].1)
    } else {
        first_value(pairs.drop_first(), p)
    }
}

proof fn lemma_first_value_at(pairs: Seq<(Seq<char>, Seq<char>)>, p: spec_fn(Seq<char>) -> bool, i: int)
    requires
        0 <= i <= pairs.len(),
        forall|j: int| 0 <= j < i ==> !p(#[trigger] pairs[j].0),
    ensures
        i < pairs.len() && p(pairs[i].0) ==> first_value(pairs, p) == Some(pairs[i].1),
        i == pairs.len() ==> first_value(pairs, p) is None,
    decreases i,
{
    if i > 0 {
        assert forall|j: int| 0 <= j < i - 1 implies !p(#[trigger] pairs.drop_first()[j].0) by {
            assert(pairs.drop_first()[j] == pairs[j + 1]);
        }
        lemma_first_value_at(pairs.drop_first(), p, i - 1);
    }
}

pub open spec fn ends_with_fn(suffix: Seq<char>) -> spec_fn(Seq<char>) -> bool {
    |k: Seq<char>| ends_with(k, suffix)
}

/// The indexed module path ends with the import, or with `.`/`/` and it.
pub open spec fn module_suffix_fn(mp: Seq<char>) -> spec_fn(Seq<char>) -> bool {
    |k: Seq<char>| ends_with(k, mp) || ends_with(k, seq!['.'] + mp) || ends_with(k, seq!['/'] + mp)
}

/// How an import's module path resolves to a module node: an exact
/// module-index hit, else (PHP) the first internal module whose lowercased
/// path ends with the `/`-separated, lowercased import, else (other
/// languages) the first internal module whose path ends with the import, or
/// with `.`/`/` followed by it.
pub open spec fn resolve_module_spec(
    g: &Graph,
    mp: Seq<char>,
    is_php: bool,
    pairs: Seq<(Seq<char>, Seq<char>)>,
    pairs_lower: Seq<(Seq<char>, Seq<char>)>,
) -> Option<Seq<char>> {
    match lookup(g.module_index@, mp) {
        Some(id) => Some(id@),
        None => if is_php {
            first_value(pairs_lower, ends_with_fn(unicode_lowercase(replace_char(mp, '\\', '/'))))
        } else {
            first_value(pairs, module_suffix_fn(mp))
        },
    }
}

pub fn resolve_module(
    graph: &Graph,
    mod_path: &str,
    language: &Option<String>,
    internal_pairs: &Vec<(String, String)>,
    internal_pairs_lower: &Vec<(String, String)>,
) -> (r: Option<String>)
    ensures
        opt_view(r) == resolve_module_spec(graph, mod_path@, is_php_lang(*language), pair_views(internal_pairs@), pair_views(internal_pairs_lower@)),
{
    let key = mod_path.to_owned();
    if let Some(id) = get(&graph.module_index, &key) {
        return Some(id.clone());
    }
    if lang_is(language, "php") {
        let replaced = replace_char_in(mod_path, '\\', '/');
        let slashed = to_lowercase(replaced.as_str());
        let sl = chars_of(slashed.as_str());
        let ghost p = ends_with_fn(slashed@);
        let mut i: usize = 0;
        while i < internal_pairs_lower.len()
            invariant
                i <= internal_pairs_lower.len(),
                sl@ == slashed@,
                p == ends_with_fn(slashed@),
                lookup(graph.module_index@, mod_path@) is None,
                is_php_lang(*language),
                slashed@ == unicode_lowercase(replace_char(mod_path@, '\\', '/')),
                forall|j: int| 0 <= j < i ==> !p(#[trigger] pair_views(internal_pairs_lower@)[j].0),
            decreases internal_pairs_lower.len() - i,
        {
            let k = chars_of(internal_pairs_lower[i].0.as_str());
            assert(pair_views(internal_pairs_lower@)[i as int] == (internal_pairs_lower@[i as int].0@, internal_pairs_lower@[i as int].1@));
            if seq_ends_with(&k, &sl) {
                proof {
                    assert(p(pair_views(internal_pairs_lower@)[i as int].0));
                    lemma_first_value_at(pair_views(internal_pairs_lower@), p, i as int);
                }
                return Some(internal_pairs_lower[i].1.clone());
            }
            i += 1;
        }
        proof { lemma_first_value_at(pair_views(internal_pairs_lower@), p, i as int); }
        return None;
    }
    let mp = chars_of(mod_path);
    let mut dot = Vec::new();
    dot.push('.');
    let mut slash = Vec::new();
    slash.push('/');
    let mut k: usize = 0;
    while k < mp.len()
        invariant
            k <= mp.len(),
            dot@ == seq!['.'] + mp@.take(k as int),
            slash@ == seq!['/'] + mp@.take(k as int),
        decreases mp.len() - k,
    {
        dot.push(mp[k]);
        slash.push(mp[k]);
        assert(mp@.take(k + 1) =~= mp@.take(k as int).push(mp@[k as int]));
        k += 1;
    }
    assert(mp@.take(mp.len() as int) =~= mp@);
    let ghost p = module_suffix_fn(mod_path@);
    let mut i: usize = 0;
    while i < internal_pairs.len()
        invariant
            i <= internal_pairs.len(),
            mp@ == mod_path@,
            dot@ == seq!['.'] + mod_path@,
            slash@ == seq!['/'] + mod_path@,
            p == module_suffix_fn(mod_path@),
            lookup(graph.module_index@, mod_path@) is None,
            !is_php_lang(*language),
            forall|j: int| 0 <= j < i ==> !p(#[trigger] pair_views(internal_pairs@)[j].0),
        decreases internal_pairs.len() - i,
    {
        let kc = chars_of(internal_pairs[i].0.as_str());
        assert(pair_views(internal_pairs@)[i as int] == (internal_pairs@[i as int].0@, internal_pairs@[i as int].1@));
        if seq_ends_with(&kc, &mp) || seq_ends_with(&kc, &dot) || seq_ends_with(&kc, &slash) {
            proof {
                assert(p(pair_views(internal_pairs@)[i as int].0));
                lemma_first_value_at(pair_views(internal_pairs@), p, i as int);
            }
            return Some(internal_pairs[i].1.clone());
        }
        i += 1;
    }
    proof { lemma_first_value_at(pair_views(internal_pairs@), p, i as int); }
    None
}

pub open spec fn same_file(a: Option<String>, b: Option<String>) -> bool {
    match (a, b) {
        (Some(x), Some(y)) => x@ == y@,
        (None, None) => true,
        _ => false,
    }
}

fn opt_str_eq(a: &Option<String>, b: &Option<String>) -> (r: bool)
    ensures
        r == same_file(*a, *b),
{
    match (a, b) {
        (Some(x), Some(y)) => *x == *y,
        (None, None) => true,
        _ => false,
    }
}

/// The first candidate declared in the same source file as the resolved
/// target module.
pub open spec fn same_file_candidate(g: &Graph, candidates: Seq<String>, tn: Node) -> Option<String>
    decreases candidates.len(),
{
    if candidates.len() == 0 {
        None
    } else if (node_of(g, candidates[0]@) matches Some(n) && same_file(n.source_file, tn.source_file)) {
        Some(candidates[0])
    } else {
        same_file_candidate(g, candidates.drop_first(), tn)
    }
}

/// The best symbol among `candidates`: one in the resolved target module's
/// source file, else the sole candidate, else none.
pub open spec fn select_best_symbol_spec(candidates: Seq<String>, target: Option<Seq<char>>, g: &Graph) -> Option<String> {
    if candidates.len() == 0 {
        None
    } else {
        let in_target = match target {
            Some(t) => match node_of(g, t) {
                Some(tn) => same_file_candidate(g, candidates, tn),
                None => None,
            },
            None => None,
        };
        if in_target is Some {
            in_target
        } else if candidates.len() == 1 {
            Some(candidates[0])
        } else {
            None
        }
    }
}

pub fn select_best_symbol(candidates: &Vec<String>, target_module_id: &Option<String>, graph: &Graph) -> (r: Option<String>)
    ensures
        r == select_best_symbol_spec(candidates@, opt_view(*target_module_id), graph),
{
    if candidates.len() == 0 {
        return None;
    }
    if let Some(tmid) = target_module_id {
        if let Some(tn) = get(&graph.nodes, tmid) {
            assert(candidates@.skip(0) =~= candidates@);
            let mut i: usize = 0;
            while i < candidates.len()
                invariant
                    i <= candidates.len(),
                    lookup(graph.nodes@, tmid@) == Some(*tn),
                    *target_module_id == Some(*tmid),
                    candidates@.len() > 0,
                    same_file_candidate(graph, candidates@, *tn) == same_file_candidate(graph, candidates@.skip(i as int), *tn),
                decreases candidates.len() - i,
            {
                assert(candidates@.skip(i as int).drop_first() =~= candidates@.skip(i + 1));
                assert(candidates@.skip(i as int)[0] == candidates@[i as int]);
                if let Some(node) = get(&graph.nodes, &candidates[i]) {
                    if opt_str_eq(&node.source_file, &tn.source_file) {
                        return Some(candidates[i].clone());
                    }
                }
                i += 1;
            }
            assert(candidates@.skip(candidates.len() as int) =~= Seq::<String>::empty());
        }
    }
    if candidates.len() == 1 {
        return Some(candidates[0].clone());
    }
    None
}

/// EXTRACTED when resolved with a target module, INFERRED when resolved
/// without one, AMBIGUOUS when several candidates remained unresolved.
pub open spec fn classify_confidence_spec(resolved: bool, candidate_count: nat, has_target: bool) -> Seq<char> {
    if resolved && has_target {
        "EXTRACTED"@
    } else if resolved {
        "INFERRED"@
    } else if candidate_count > 1 {
        "AMBIGUOUS"@
    } else {
        "EXTRACTED"@
    }
}

pub open spec fn is_confidence_label(c: Seq<char>) -> bool {
    c == "EXTRACTED"@ || c == "INFERRED"@ || c == "AMBIGUOUS"@
}

pub fn classify_confidence(resolved: &Option<String>, candidates: &Vec<String>, target_module_id: &Option<String>) -> (r: String)
    ensures
        r@ == classify_confidence_spec(resolved is Some, candidates@.len(), target_module_id is Some),
        is_confidence_label(r@),
{
    if resolved.is_some() && target_module_id.is_some() {
        return CONFIDENCE_EXTRACTED.to_owned();
    }
    if resolved.is_some() {
        return CONFIDENCE_INFERRED.to_owned();
    }
    if candidates.len() > 1 {
        return CONFIDENCE_AMBIGUOUS.to_owned();
    }
    CONFIDENCE_EXTRACTED.to_owned()
}

/// `external::<path>`, the module-index key of an unresolved import.
pub open spec fn external_key(mp: Seq<char>) -> Seq<char> {
    "external::"@ + mp
}

/// Get or create the `external::<module>` node for an unresolved import,
/// returning its id.
pub fn ensure_external(graph: &mut Graph, mod_path: &str) -> (r: String)
    requires
        old(graph).wf(),
    ensures
        final(graph).wf(),
        r@ == module_node_id_spec(external_key(mod_path@)),
        has_key(final(graph).nodes@, r@),
        forall|q: Seq<char>| has_key(old(graph).nodes@, q) ==> has_key(final(graph).nodes@, q),
        extends_externally(old(graph), final(graph)),
        indexed(old(graph)) ==> indexed(final(graph)),
        node_keys(final(graph)).len() >= node_keys(old(graph)).len(),
        node_keys(final(graph)).take(node_keys(old(graph)).len() as int) == node_keys(old(graph)),
        final(graph).edges == old(graph).edges,
        final(graph).symbol_index == old(graph).symbol_index,
        final(graph).file_to_module_id == old(graph).file_to_module_id,
{
    let key = concat("external::", mod_path);
    let node_id = module_node_id(key.as_str());
    let ghost g0 = *graph;
    proof {
        reveal_strlit("external::");
        assert(key@.take(10) =~= "external::"@);
        assert(starts_with(key@, "external::"@));
    }
    if find_key(&graph.nodes, &node_id).is_none() {
        insert_node(graph, Node {
            id: node_id.clone(),
            label: mod_path.to_owned(),
            kind: "module".to_owned(),
            source_file: None,
            source_line: None,
        });
        let ghost g1 = *graph;
        proof {
            if indexed(&g0) {
                lemma_indexed_mono(&g0, &g1);
            }
        }
        let ghost kv = key@;
        insert_module_index(graph, key, node_id.clone());
        proof {
            let a = g1.module_index@;
            let b = graph.module_index@;
            assert forall|lw: bool| #[trigger] internal_pairs(b, lw) == internal_pairs(a, lw) by {
                if has_key(a, kv) {
                    assert forall|j: int| 0 <= j < a.len() && !starts_with(a[j].0@, "external::"@) implies (#[trigger] a[j]).1@ == b[j].1@ by {
                        assert(a[j].0@ != kv);
                        crate::keyed::lemma_lookup_unique(a, j);
                        crate::keyed::lemma_lookup_unique(b, j);
                    }
                    lemma_internal_pairs_same(a, b, lw);
                } else {
                    assert(b.drop_last() =~= a);
                }
            }
            assert forall|q: Seq<char>| has_key(g0.nodes@, q) implies #[trigger] lookup(graph.nodes@, q) == lookup(g0.nodes@, q) by {
                assert(q != node_id@);
            }
            if indexed(&g0) {
                assert forall|q: Seq<char>| (#[trigger] lookup(graph.module_index@, q) matches Some(v) ==> has_key(graph.nodes@, v@)) by {
                    if q != kv {
                        assert(lookup(g1.module_index@, q) == lookup(graph.module_index@, q));
                    }
                }
            }
        }
    } else {
        proof { lemma_has_key_lookup(graph.nodes@, node_id@); }
    }
    node_id
}

/// The module node id of the file a fact describes.
pub open spec fn importer_id(f: SourceFacts) -> Seq<char> {
    module_node_id_spec(file_to_module_spec(f.path@, is_python_lang(f.language)))
}

/// The source of the edge each import becomes, in order: one per import of
/// every file that has an extraction.
pub open spec fn importer_ids(facts: Seq<SourceFacts>) -> Seq<Seq<char>>
    decreases facts.len(),
{
    if facts.len() == 0 {
        Seq::empty()
    } else {
        let f = facts.last();
        importer_ids(facts.drop_last()) + match f.extraction {
            Some(x) => Seq::new(x.imports@.len(), |_i: int| importer_id(f)),
            None => Seq::empty(),
        }
    }
}

/// The module node of a file, and a node for each symbol it exports.
pub open spec fn fact_nodes_present(g: &Graph, f: SourceFacts) -> bool {
    match f.extraction {
        Some(x) => {
            &&& has_key(g.nodes@, importer_id(f))
            &&& forall|k: int| 0 <= k < x.exports@.len() ==> #[trigger] has_key(g.nodes@, symbol_node_id_spec(f.path@, x.exports@[k].name@))
        },
        None => true,
    }
}

proof fn lemma_present_mono(g1: &Graph, g2: &Graph, f: SourceFacts)
    requires
        fact_nodes_present(g1, f),
        forall|q: Seq<char>| has_key(g1.nodes@, q) ==> #[trigger] has_key(g2.nodes@, q),
    ensures
        fact_nodes_present(g2, f),
{
    if let Some(x) = f.extraction {
        assert forall|k: int| 0 <= k < x.exports@.len() implies #[trigger] has_key(g2.nodes@, symbol_node_id_spec(f.path@, x.exports@[k].name@)) by {
            assert(has_key(g1.nodes@, symbol_node_id_spec(f.path@, x.exports@[k].name@)));
        }
    }
}

fn lang_ref(language: &Option<String>) -> (r: Option<&str>)
    ensures
        crate::architecture::is_python(r) == is_python_lang(*language),
{
    match language {
        Some(l) => Some(l.as_str()),
        None => None,
    }
}

fn imports_edge(source: &String, target: String, confidence: String) -> (e: Edge)
    ensures
        e.source@ == source@,
        e.target == target,
        e.relation@ == "imports"@,
        e.confidence == confidence,
{
    Edge { source: source.clone(), target, relation: "imports".to_owned(), confidence }
}

/// The module-index entries whose key is not an `external::` placeholder,
/// in order, each as (key, module id); with `lower`, keys lowercased.
pub open spec fn internal_pairs(mi: Seq<(String, String)>, lower: bool) -> Seq<(Seq<char>, Seq<char>)>
    decreases mi.len(),
{
    if mi.len() == 0 {
        Seq::empty()
    } else {
        let prev = internal_pairs(mi.drop_last(), lower);
        let (k, v) = mi.last();
        if starts_with(k@, "external::"@) {
            prev
        } else {
            prev.push((if lower { unicode_lowercase(k@) } else { k@ }, v@))
        }
    }
}

pub open spec fn pair_views(v: Seq<(String, String)>) -> Seq<(Seq<char>, Seq<char>)> {
    v.map_values(|e: (String, String)| (e.0@, e.1@))
}

/// The module-index entries that are not `external::` placeholders, and the
/// same entries with lowercased keys.
fn internal_pairs_of(graph: &Graph) -> (r: (Vec<(String, String)>, Vec<(String, String)>))
    ensures
        r.0@.len() == r.1@.len(),
        pair_views(r.0@) == internal_pairs(graph.module_index@, false),
        pair_views(r.1@) == internal_pairs(graph.module_index@, true),
{
    let ext = chars_of("external::");
    let ghost mi = graph.module_index@;
    let mut pairs: Vec<(String, String)> = Vec::new();
    let mut lowered: Vec<(String, String)> = Vec::new();
    let mut i: usize = 0;
    while i < graph.module_index.len()
        invariant
            i <= graph.module_index.len(),
            mi == graph.module_index@,
            ext@ == "external::"@,
            pairs@.len() == lowered@.len(),
            pair_views(pairs@) == internal_pairs(mi.take(i as int), false),
            pair_views(lowered@) == internal_pairs(mi.take(i as int), true),
        decreases graph.module_index.len() - i,
    {
        assert(mi.take(i + 1).drop_last() =~= mi.take(i as int));
        assert(mi.take(i + 1).last() == mi[i as int]);
        let k = chars_of(graph.module_index[i].0.as_str());
        if !seq_starts_with(&k, &ext) {
            let ghost p0 = pair_views(pairs@);
            let ghost l0 = pair_views(lowered@);
            let a = graph.module_index[i].0.clone();
            let b = graph.module_index[i].1.clone();
            pairs.push((a, b));
            assert(pair_views(pairs@) =~= p0.push((mi[i as int].0@, mi[i as int].1@)));
            let la = to_lowercase(graph.module_index[i].0.as_str());
            let lb = graph.module_index[i].1.clone();
            lowered.push((la, lb));
            assert(pair_views(lowered@) =~= l0.push((unicode_lowercase(mi[i as int].0@), mi[i as int].1@)));
        }
        i += 1;
    }
    assert(mi.take(i as int) =~= mi);
    (pairs, lowered)
}

/// Two-phase build of the architecture graph from per-file facts: the node
/// phase (`node_phase`) gives the nodes, the module index, the file-to-module
/// map and the symbol index; then each import becomes an edge
/// (`import_edge_spec`).
pub fn build_from_facts(all_facts: &Vec<SourceFacts>) -> (g: Graph)
    ensures
        g.wf(),
        indexed(&g),
        g.edges@.len() == importer_ids(all_facts@).len(),
        g.edges@.len() == import_list(all_facts@).len(),
        forall|k: int| 0 <= k < g.edges@.len() ==> {
            &&& (#[trigger] g.edges@[k]).source@ == importer_ids(all_facts@)[k]
            &&& g.edges@[k].relation@ == "imports"@
            &&& is_confidence_label(g.edges@[k].confidence@)
            &&& has_key(g.nodes@, g.edges@[k].target@)
        },
        forall|k: int| 0 <= k < g.edges@.len() && internal_import(import_list(all_facts@)[k].0, import_list(all_facts@)[k].1) ==>
            ((#[trigger] g.edges@[k]).target@, g.edges@[k].confidence@) == import_edge_spec(&g, import_list(all_facts@)[k].0, import_list(all_facts@)[k].1),
        forall|j: int| 0 <= j < all_facts@.len() ==> fact_nodes_present(&g, #[trigger] all_facts@[j]),
        forall|q: Seq<char>| node_phase(all_facts@).0.contains_key(q)
            ==> #[trigger] node_opt(lookup(g.nodes@, q)) == Some(node_phase(all_facts@).0[q]),
        internal_pairs(g.module_index@, false) == internal_views(node_phase(all_facts@).1),
        forall|q: Seq<char>| #[trigger] opt_view(lookup(g.file_to_module_id@, q)) == mget(node_phase(all_facts@).2, q),
        forall|q: Seq<char>| #[trigger] ids_opt(lookup(g.symbol_index@, q)) == mget(node_phase(all_facts@).3, q),
        node_keys(&g).len() >= node_phase(all_facts@).4.len(),
        node_keys(&g).take(node_phase(all_facts@).4.len() as int) == node_phase(all_facts@).4,
{
    let mut graph = Graph::new();
    proof {
        assert(all_facts@.take(0) =~= Seq::<SourceFacts>::empty());
        let st0 = node_phase(all_facts@.take(0));
        assert(st0.0 =~= Map::<Seq<char>, NodeView>::empty());
        assert forall|q: Seq<char>| #[trigger] node_opt(lookup(graph.nodes@, q)) == mget(st0.0, q) by {}
        assert(pair_views(graph.module_index@) =~= st0.1);
        assert forall|q: Seq<char>| #[trigger] opt_view(lookup(graph.file_to_module_id@, q)) == mget(st0.2, q) by {}
        assert forall|q: Seq<char>| #[trigger] ids_opt(lookup(graph.symbol_index@, q)) == mget(st0.3, q) by {}
        assert(node_keys(&graph) =~= st0.4);
    }
    let n = all_facts.len();
    // Phase 1: nodes.
    let mut i: usize = 0;
    while i < n
        invariant
            n == all_facts@.len(),
            i <= n,
            graph.wf(),
            indexed(&graph),
            graph.edges@.len() == 0,
            forall|j: int| 0 <= j < i ==> fact_nodes_present(&graph, #[trigger] all_facts@[j]),
            models(&graph, node_phase(all_facts@.take(i as int))),
            modules_consistent(node_phase(all_facts@.take(i as int))),
        decreases n - i,
    {
        let ghost st = node_phase(all_facts@.take(i as int));
        proof {
            assert(all_facts@.take(i + 1).drop_last() =~= all_facts@.take(i as int));
            assert(all_facts@.take(i + 1).last() == all_facts@[i as int]);
        }
        let facts = &all_facts[i];
        let extraction = match &facts.extraction {
            Some(e) => e,
            None => {
                i += 1;
                continue;
            },
        };
        let ghost g0 = graph;
        let ghost f = all_facts@[i as int];
        let module_for_file = file_to_module(facts.path.as_str(), lang_ref(&facts.language));
        let module_id = module_node_id(module_for_file.as_str());
        if find_key(&graph.nodes, &module_id).is_none() {
            proof {
                assert(node_opt(lookup(graph.nodes@, module_id@)) == mget(st.0, module_id@));
                assert(!st.0.contains_key(module_id@));
                assert(!has_key(graph.module_index@, module_for_file@)) by {
                    if has_key(graph.module_index@, module_for_file@) {
                        let j = choose|j: int| 0 <= j < graph.module_index@.len() && #[trigger] graph.module_index@[j].0@ == module_for_file@;
                        assert(pair_views(graph.module_index@)[j] == st.1[j]);
                        assert(st.1[j].1 == module_node_id_spec(st.1[j].0));
                    }
                }
            }
            let node = Node {
                id: module_id.clone(),
                label: module_for_file.clone(),
                kind: "module".to_owned(),
                source_file: Some(facts.path.clone()),
                source_line: Some(1),
            };
            assert(node_view(node) == (module_id@, module_for_file@, "module"@, Some(f.path@), Some(1i64)));
            insert_node(&mut graph, node);
            proof { lemma_indexed_mono(&g0, &graph); }
            let ghost ga = graph;
            insert_module_index(&mut graph, module_for_file.clone(), module_id.clone());
            proof { lemma_indexed_module_insert(&ga, &graph, module_for_file@, module_id); }
            let ghost gb = graph;
            insert(&mut graph.file_to_module_id, facts.path.clone(), module_id.clone());
            proof {
                lemma_indexed_file_insert(&gb, &graph, facts.path@, module_id);
                let s1 = module_step(st, f);
                assert(pair_views(graph.module_index@) =~= st.1.push((module_for_file@, module_id@)));
                assert forall|q: Seq<char>| #[trigger] node_opt(lookup(graph.nodes@, q)) == mget(s1.0, q) by {
                    assert(node_opt(lookup(g0.nodes@, q)) == mget(st.0, q));
                }
                assert forall|q: Seq<char>| #[trigger] opt_view(lookup(graph.file_to_module_id@, q)) == mget(s1.2, q) by {
                    assert(opt_view(lookup(g0.file_to_module_id@, q)) == mget(st.2, q));
                }
                assert forall|q: Seq<char>| #[trigger] ids_opt(lookup(graph.symbol_index@, q)) == mget(s1.3, q) by {
                    assert(ids_opt(lookup(g0.symbol_index@, q)) == mget(st.3, q));
                }
                assert(models(&graph, s1));
                assert forall|j: int| 0 <= j < s1.1.len() implies {
                    &&& (#[trigger] s1.1[j]).1 == module_node_id_spec(s1.1[j].0)
                    &&& s1.0.contains_key(s1.1[j].1)
                } by {
                    if j < st.1.len() {
                        assert(s1.1[j] == st.1[j]);
                    }
                }
            }
        } else {
            proof {
                lemma_has_key_lookup(graph.nodes@, module_id@);
                assert(node_opt(lookup(graph.nodes@, module_id@)) == mget(st.0, module_id@));
                assert(module_step(st, f) == st);
            }
        }
        let ghost s1 = module_step(st, f);
        assert(extraction.exports@.take(0) =~= Seq::<Export>::empty());
        let mut k: usize = 0;
        while k < extraction.exports.len()
            invariant
                n == all_facts@.len(),
                i < n,
                f == all_facts@[i as int],
                all_facts@[i as int].extraction == Some(*extraction),
                *facts == all_facts@[i as int],
                graph.wf(),
                indexed(&graph),
                graph.edges@.len() == 0,
                k <= extraction.exports@.len(),
                forall|q: Seq<char>| has_key(g0.nodes@, q) ==> #[trigger] has_key(graph.nodes@, q),
                has_key(graph.nodes@, importer_id(all_facts@[i as int])),
                forall|m: int| 0 <= m < k ==> #[trigger] has_key(graph.nodes@, symbol_node_id_spec(all_facts@[i as int].path@, extraction.exports@[m].name@)),
                models(&graph, absorb_exports(s1, f, extraction.exports@.take(k as int))),
                modules_consistent(absorb_exports(s1, f, extraction.exports@.take(k as int))),
            decreases extraction.exports.len() - k,
        {
            let ghost s2 = absorb_exports(s1, f, extraction.exports@.take(k as int));
            proof {
                assert(extraction.exports@.take(k + 1).drop_last() =~= extraction.exports@.take(k as int));
                assert(extraction.exports@.take(k + 1).last() == extraction.exports@[k as int]);
            }
            let export = &extraction.exports[k];
            let node_id = symbol_node_id(facts.path.as_str(), export.name.as_str());
            let ghost before = graph;
            let node = Node {
                id: node_id.clone(),
                label: export.name.clone(),
                kind: export.kind.clone(),
                source_file: Some(facts.path.clone()),
                source_line: Some(export.line),
            };
            assert(node_view(node) == (node_id@, export.name@, export.kind@, Some(f.path@), Some(export.line)));
            proof {
                lemma_has_key_lookup(graph.nodes@, node_id@);
                assert(node_opt(lookup(graph.nodes@, node_id@)) == mget(s2.0, node_id@));
            }
            insert_node(&mut graph, node);
            proof { lemma_indexed_mono(&before, &graph); }
            let ghost ga = graph;
            let lname = to_lowercase(export.name.as_str());
            append_to(&mut graph.symbol_index, lname, node_id);
            proof {
                lemma_indexed_symbol_append(&ga, &graph, lname@, node_id);
                let s3 = absorb_exports(s1, f, extraction.exports@.take(k + 1));
                assert forall|q: Seq<char>| #[trigger] node_opt(lookup(graph.nodes@, q)) == mget(s3.0, q) by {
                    assert(node_opt(lookup(before.nodes@, q)) == mget(s2.0, q));
                }
                assert forall|q: Seq<char>| #[trigger] opt_view(lookup(graph.file_to_module_id@, q)) == mget(s3.2, q) by {
                    assert(opt_view(lookup(before.file_to_module_id@, q)) == mget(s2.2, q));
                }
                assert forall|q: Seq<char>| #[trigger] ids_opt(lookup(graph.symbol_index@, q)) == mget(s3.3, q) by {
                    assert(ids_opt(lookup(before.symbol_index@, q)) == mget(s2.3, q));
                    if q == lname@ {
                        let old_ids = lookup(before.symbol_index@, q);
                        let new_ids = lookup(graph.symbol_index@, q);
                        match old_ids {
                            Some(o) => {
                                assert(crate::ordered::text_views(new_ids->0@) =~= crate::ordered::text_views(o@).push(node_id@));
                            },
                            None => {
                                assert(crate::ordered::text_views(new_ids->0@) =~= Seq::<Seq<char>>::empty().push(node_id@));
                            },
                        }
                    }
                }
                assert(models(&graph, s3));
                assert forall|j: int| 0 <= j < s3.1.len() implies {
                    &&& (#[trigger] s3.1[j]).1 == module_node_id_spec(s3.1[j].0)
                    &&& s3.0.contains_key(s3.1[j].1)
                } by {
                    assert(s3.1[j] == s2.1[j]);
                }
                assert forall|m: int| 0 <= m < k + 1 implies #[trigger] has_key(graph.nodes@, symbol_node_id_spec(all_facts@[i as int].path@, extraction.exports@[m].name@)) by {
                    if m < k {
                        assert(has_key(before.nodes@, symbol_node_id_spec(all_facts@[i as int].path@, extraction.exports@[m].name@)));
                    }
                }
            }
            k += 1;
        }
        proof {
            assert(extraction.exports@.take(k as int) =~= extraction.exports@);
            assert forall|j: int| 0 <= j < i + 1 implies fact_nodes_present(&graph, #[trigger] all_facts@[j]) by {
                if j < i {
                    lemma_present_mono(&g0, &graph, all_facts@[j]);
                }
            }
        }
        i += 1;
    }
    assert(all_facts@.take(n as int) =~= all_facts@);

    let ghost g1 = graph;
    assert(node_keys(&graph).take(node_keys(&g1).len() as int) =~= node_keys(&g1));
    let (pairs, pairs_lower) = internal_pairs_of(&graph);

    // Phase 2: edges.
    let mut i: usize = 0;
    while i < n
        invariant
            n == all_facts@.len(),
            i <= n,
            graph.wf(),
            g1.wf(),
            indexed(&g1),
            indexed(&graph),
            extends_externally(&g1, &graph),
            models(&g1, node_phase(all_facts@)),
            graph.file_to_module_id@ == g1.file_to_module_id@,
            node_keys(&graph).len() >= node_keys(&g1).len(),
            node_keys(&graph).take(node_keys(&g1).len() as int) == node_keys(&g1),
            pair_views(pairs@) == internal_pairs(g1.module_index@, false),
            pair_views(pairs_lower@) == internal_pairs(g1.module_index@, true),
            graph.edges@.len() == importer_ids(all_facts@.take(i as int)).len(),
            graph.edges@.len() == import_list(all_facts@.take(i as int)).len(),
            forall|k: int| 0 <= k < graph.edges@.len() ==> {
                &&& (#[trigger] graph.edges@[k]).source@ == importer_ids(all_facts@.take(i as int))[k]
                &&& graph.edges@[k].relation@ == "imports"@
                &&& is_confidence_label(graph.edges@[k].confidence@)
                &&& has_key(graph.nodes@, graph.edges@[k].target@)
            },
            forall|k: int| 0 <= k < graph.edges@.len() && internal_import(import_list(all_facts@.take(i as int))[k].0, import_list(all_facts@.take(i as int))[k].1) ==>
                ((#[trigger] graph.edges@[k]).target@, graph.edges@[k].confidence@) == import_edge_spec(&g1, import_list(all_facts@.take(i as int))[k].0, import_list(all_facts@.take(i as int))[k].1),
            forall|j: int| 0 <= j < n ==> fact_nodes_present(&graph, #[trigger] all_facts@[j]),
        decreases n - i,
    {
        let ghost prefix = importer_ids(all_facts@.take(i as int));
        let ghost plist = import_list(all_facts@.take(i as int));
        proof {
            assert(all_facts@.take(i + 1).drop_last() =~= all_facts@.take(i as int));
            assert(all_facts@.take(i + 1).last() == all_facts@[i as int]);
        }
        let facts = &all_facts[i];
        let extraction = match &facts.extraction {
            Some(e) => e,
            None => {
                proof {
                    assert(importer_ids(all_facts@.take(i + 1)) =~= prefix);
                    assert(import_list(all_facts@.take(i + 1)) =~= plist);
                }
                i += 1;
                continue;
            },
        };
        let lang = lang_ref(&facts.language);
        let python = lang_is(&facts.language, "python");
        let importer_module_id = module_node_id(file_to_module(facts.path.as_str(), lang).as_str());
        let ghost g_start = graph;
        let ghost f = all_facts@[i as int];
        let mut k: usize = 0;
        while k < extraction.imports.len()
            invariant
                n == all_facts@.len(),
                i < n,
                f == all_facts@[i as int],
                f.extraction == Some(*extraction),
                importer_module_id@ == importer_id(f),
                python == is_python_lang(facts.language),
                *facts == f,
                graph.wf(),
                g1.wf(),
                indexed(&g1),
                indexed(&graph),
                extends_externally(&g1, &graph),
                models(&g1, node_phase(all_facts@)),
                graph.file_to_module_id@ == g1.file_to_module_id@,
                node_keys(&graph).len() >= node_keys(&g1).len(),
                node_keys(&graph).take(node_keys(&g1).len() as int) == node_keys(&g1),
                pair_views(pairs@) == internal_pairs(g1.module_index@, false),
                pair_views(pairs_lower@) == internal_pairs(g1.module_index@, true),
                k <= extraction.imports@.len(),
                prefix == importer_ids(all_facts@.take(i as int)),
                plist == import_list(all_facts@.take(i as int)),
                prefix.len() == plist.len(),
                graph.edges@.len() == prefix.len() + k,
                forall|m: int| 0 <= m < graph.edges@.len() ==> {
                    &&& (#[trigger] graph.edges@[m]).source@ == (if m < prefix.len() { prefix[m] } else { importer_id(f) })
                    &&& graph.edges@[m].relation@ == "imports"@
                    &&& is_confidence_label(graph.edges@[m].confidence@)
                    &&& has_key(graph.nodes@, graph.edges@[m].target@)
                },
                forall|m: int| 0 <= m < graph.edges@.len() ==> {
                    let (ff, imp) = if m < plist.len() { plist[m] } else { (f, extraction.imports@[m - plist.len()]) };
                    internal_import(ff, imp) ==> ((#[trigger] graph.edges@[m]).target@, graph.edges@[m].confidence@) == import_edge_spec(&g1, ff, imp)
                },
                forall|q: Seq<char>| has_key(g_start.nodes@, q) ==> #[trigger] has_key(graph.nodes@, q),
                forall|j: int| 0 <= j < n ==> fact_nodes_present(&g_start, #[trigger] all_facts@[j]),
            decreases extraction.imports.len() - k,
        {
            let import_decl = &extraction.imports[k];
            let ghost gc = graph;
            let ghost imp = extraction.imports@[k as int];
            proof {
                assert(internal_pairs(gc.module_index@, false) == internal_pairs(g1.module_index@, false));
                assert(internal_pairs(gc.module_index@, true) == internal_pairs(g1.module_index@, true));
                lemma_resolved_is_node(&gc, imp.module@, is_php_lang(f.language));
            }
            let target_module_id = resolve_module(&graph, import_decl.module.as_str(), &facts.language, &pairs, &pairs_lower);
            let ghost before = graph.edges@;
            match &import_decl.symbol {
                Some(sym) => {
                    let sep = if python { "." } else { "/" };
                    let head = concat(import_decl.module.as_str(), sep);
                    let combined = concat(head.as_str(), sym.as_str());
                    assert(combined@ == combined_path(f, imp.module@, sym@));
                    proof { lemma_resolved_is_node(&gc, combined@, is_php_lang(f.language)); }
                    let module_candidate = resolve_module(&graph, combined.as_str(), &facts.language, &pairs, &pairs_lower);
                    if let Some(mc) = module_candidate {
                        let e = imports_edge(&importer_module_id, mc, CONFIDENCE_EXTRACTED.to_owned());
                        graph.edges.push(e);
                    } else {
                        let lsym = to_lowercase(sym.as_str());
                        let empty: Vec<String> = Vec::new();
                        let candidates: &Vec<String> = match get(&graph.symbol_index, &lsym) {
                            Some(ids) => ids,
                            None => &empty,
                        };
                        let ghost cands = candidates@;
                        let mut target_id = select_best_symbol(candidates, &target_module_id, &graph);
                        let confidence = classify_confidence(&target_id, candidates, &target_module_id);
                        proof {
                            lemma_select_best_in(cands, opt_view(target_module_id), &gc);
                        }
                        if target_id.is_none() && target_module_id.is_some() {
                            target_id = target_module_id.clone();
                        }
                        let final_target = match target_id {
                            Some(t) => t,
                            None => ensure_external(&mut graph, import_decl.module.as_str()),
                        };
                        let e = imports_edge(&importer_module_id, final_target, confidence);
                        graph.edges.push(e);
                    }
                },
                None => {
                    let target = match target_module_id {
                        Some(t) => t,
                        None => ensure_external(&mut graph, import_decl.module.as_str()),
                    };
                    let e = imports_edge(&importer_module_id, target, CONFIDENCE_EXTRACTED.to_owned());
                    graph.edges.push(e);
                },
            }
            proof {
                if node_keys(&graph) == node_keys(&gc) {
                    assert(node_keys(&graph).take(node_keys(&gc).len() as int) =~= node_keys(&gc));
                }
                lemma_prefix_trans(node_keys(&g1), node_keys(&gc), node_keys(&graph));
                let e = graph.edges@[graph.edges@.len() - 1];
                assert((e.target@, e.confidence@) == import_edge_spec(&gc, f, imp));
                assert(has_key(graph.nodes@, e.target@));
                if internal_import(f, imp) {
                    lemma_import_edge_stable(&g1, &gc, f, imp);
                }
                assert forall|m: int| 0 <= m < graph.edges@.len() implies {
                    &&& (#[trigger] graph.edges@[m]).source@ == (if m < prefix.len() { prefix[m] } else { importer_id(f) })
                    &&& graph.edges@[m].relation@ == "imports"@
                    &&& is_confidence_label(graph.edges@[m].confidence@)
                    &&& has_key(graph.nodes@, graph.edges@[m].target@)
                } by {
                    if m < graph.edges@.len() - 1 {
                        assert(graph.edges@[m] == before[m]);
                        assert(has_key(gc.nodes@, before[m].target@));
                    }
                }
                assert forall|m: int| 0 <= m < graph.edges@.len() implies {
                    let (ff, imp2) = if m < plist.len() { plist[m] } else { (f, extraction.imports@[m - plist.len()]) };
                    internal_import(ff, imp2) ==> ((#[trigger] graph.edges@[m]).target@, graph.edges@[m].confidence@) == import_edge_spec(&g1, ff, imp2)
                } by {
                    if m < graph.edges@.len() - 1 {
                        assert(graph.edges@[m] == before[m]);
                    }
                }
            }
            k += 1;
        }
        proof {
            let cur = Seq::new(extraction.imports@.len(), |_i: int| importer_id(f));
            assert(importer_ids(all_facts@.take(i + 1)) =~= prefix + cur);
            let cur2 = extraction.imports@.map_values(|imp: Import| (f, imp));
            assert(import_list(all_facts@.take(i + 1)) =~= plist + cur2);
            assert forall|j: int| 0 <= j < n implies fact_nodes_present(&graph, #[trigger] all_facts@[j]) by {
                lemma_present_mono(&g_start, &graph, all_facts@[j]);
            }
            assert forall|m: int| 0 <= m < graph.edges@.len() && internal_import(import_list(all_facts@.take(i + 1))[m].0, import_list(all_facts@.take(i + 1))[m].1) implies
                ((#[trigger] graph.edges@[m]).target@, graph.edges@[m].confidence@) == import_edge_spec(&g1, import_list(all_facts@.take(i + 1))[m].0, import_list(all_facts@.take(i + 1))[m].1) by {
                if m >= plist.len() {
                    assert(import_list(all_facts@.take(i + 1))[m] == (f, extraction.imports@[m - plist.len()]));
                } else {
                    assert(import_list(all_facts@.take(i + 1))[m] == plist[m]);
                }
            }
        }
        i += 1;
    }
    assert(all_facts@.take(n as int) =~= all_facts@);
    proof {
        let st = node_phase(all_facts@);
        assert forall|q: Seq<char>| st.0.contains_key(q) implies #[trigger] node_opt(lookup(graph.nodes@, q)) == Some(st.0[q]) by {
            assert(node_opt(lookup(g1.nodes@, q)) == mget(st.0, q));
            lemma_has_key_lookup(g1.nodes@, q);
        }
        lemma_internal_pairs_views(g1.module_index@);
        assert(internal_pairs(graph.module_index@, false) == internal_pairs(g1.module_index@, false));
        assert forall|q: Seq<char>| #[trigger] ids_opt(lookup(graph.symbol_index@, q)) == mget(st.3, q) by {
            assert(ids_opt(lookup(g1.symbol_index@, q)) == mget(st.3, q));
        }
        assert forall|q: Seq<char>| #[trigger] opt_view(lookup(graph.file_to_module_id@, q)) == mget(st.2, q) by {
            assert(opt_view(lookup(g1.file_to_module_id@, q)) == mget(st.2, q));
        }
        let l = import_list(all_facts@);
        assert forall|k: int| 0 <= k < graph.edges@.len() && internal_import(l[k].0, l[k].1) implies
            ((#[trigger] graph.edges@[k]).target@, graph.edges@[k].confidence@) == import_edge_spec(&graph, l[k].0, l[k].1) by {
            lemma_import_edge_stable(&g1, &graph, l[k].0, l[k].1);
        }
    }
    graph
}

proof fn lemma_indexed_module_insert(g1: &Graph, g2: &Graph, k: Seq<char>, v: String)
    requires
        indexed(g1),
        has_key(g1.nodes@, v@),
        g2.nodes@ == g1.nodes@,
        g2.file_to_module_id@ == g1.file_to_module_id@,
        g2.symbol_index@ == g1.symbol_index@,
        forall|q: Seq<char>| #[trigger] lookup(g2.module_index@, q) == if q == k { Some(v) } else { lookup(g1.module_index@, q) },
    ensures
        indexed(g2),
{
    assert forall|q: Seq<char>| (#[trigger] lookup(g2.module_index@, q) matches Some(w) ==> has_key(g2.nodes@, w@)) by {
        if q != k {
            assert(lookup(g1.module_index@, q) == lookup(g2.module_index@, q));
        }
    }
    assert forall|q: Seq<char>| (#[trigger] lookup(g2.symbol_index@, q) matches Some(ids) ==> forall|m: int|
        0 <= m < ids@.len() ==> has_key(g2.nodes@, #[trigger] ids@[m]@)) by {
        assert(lookup(g2.symbol_index@, q) == lookup(g1.symbol_index@, q));
    }
}

proof fn lemma_indexed_file_insert(g1: &Graph, g2: &Graph, k: Seq<char>, v: String)
    requires
        indexed(g1),
        has_key(g1.nodes@, v@),
        g2.nodes@ == g1.nodes@,
        g2.module_index@ == g1.module_index@,
        g2.symbol_index@ == g1.symbol_index@,
        forall|q: Seq<char>| #[trigger] lookup(g2.file_to_module_id@, q) == if q == k { Some(v) } else { lookup(g1.file_to_module_id@, q) },
    ensures
        indexed(g2),
{
    assert forall|q: Seq<char>| (#[trigger] lookup(g2.file_to_module_id@, q) matches Some(w) ==> has_key(g2.nodes@, w@)) by {
        if q != k {
            assert(lookup(g1.file_to_module_id@, q) == lookup(g2.file_to_module_id@, q));
        }
    }
    assert forall|q: Seq<char>| (#[trigger] lookup(g2.symbol_index@, q) matches Some(ids) ==> forall|m: int|
        0 <= m < ids@.len() ==> has_key(g2.nodes@, #[trigger] ids@[m]@)) by {
        assert(lookup(g2.symbol_index@, q) == lookup(g1.symbol_index@, q));
    }
}

proof fn lemma_indexed_symbol_append(g1: &Graph, g2: &Graph, k: Seq<char>, v: String)
    requires
        indexed(g1),
        has_key(g1.nodes@, v@),
        g2.nodes@ == g1.nodes@,
        g2.module_index@ == g1.module_index@,
        g2.file_to_module_id@ == g1.file_to_module_id@,
        forall|q: Seq<char>| q != k ==> #[trigger] lookup(g2.symbol_index@, q) == lookup(g1.symbol_index@, q),
        lookup(g2.symbol_index@, k) matches Some(ids) && ids@ == (match lookup(g1.symbol_index@, k) {
            Some(o) => o@,
            None => Seq::empty(),
        }).push(v),
    ensures
        indexed(g2),
{
    assert forall|q: Seq<char>| (#[trigger] lookup(g2.symbol_index@, q) matches Some(ids) ==> forall|m: int|
        0 <= m < ids@.len() ==> has_key(g2.nodes@, #[trigger] ids@[m]@)) by {
        if let Some(ids) = lookup(g2.symbol_index@, q) {
            assert forall|m: int| 0 <= m < ids@.len() implies has_key(g2.nodes@, #[trigger] ids@[m]@) by {
                if q == k {
                    if m < ids@.len() - 1 {
                        if let Some(o) = lookup(g1.symbol_index@, k) {
                            assert(ids@[m] == o@[m]);
                        }
                    }
                } else {
                    assert(lookup(g1.symbol_index@, q) == lookup(g2.symbol_index@, q));
                }
            }
        }
    }
}

proof fn lemma_same_file_candidate_in(g: &Graph, cands: Seq<String>, tn: Node)
    ensures
        same_file_candidate(g, cands, tn) matches Some(c) ==> exists|m: int| 0 <= m < cands.len() && #[trigger] cands[m] == c,
    decreases cands.len(),
{
    if cands.len() > 0 {
        lemma_same_file_candidate_in(g, cands.drop_first(), tn);
        if let Some(c) = same_file_candidate(g, cands, tn) {
            if c != cands[0] {
                let m = choose|m: int| 0 <= m < cands.drop_first().len() && #[trigger] cands.drop_first()[m] == c;
                assert(cands[m + 1] == c);
            } else {
                assert(cands[0] == c);
            }
        }
    }
}

/// The symbol chosen is one of the candidates.
proof fn lemma_select_best_in(cands: Seq<String>, target: Option<Seq<char>>, g: &Graph)
    ensures
        select_best_symbol_spec(cands, target, g) matches Some(c) ==> exists|m: int| 0 <= m < cands.len() && #[trigger] cands[m] == c,
{
    if cands.len() > 0 {
        if let Some(t) = target {
            if let Some(tn) = node_of(g, t) {
                lemma_same_file_candidate_in(g, cands, tn);
            }
        }
        assert(cands[0] == cands[0]);
    }
}

/// Every module-index value, file-to-module value and symbol-index id is
/// the id of a node of the graph.
pub open spec fn indexed(g: &Graph) -> bool {
    &&& forall|q: Seq<char>| #[trigger] lookup(g.module_index@, q) matches Some(v) ==> has_key(g.nodes@, v@)
    &&& forall|q: Seq<char>| #[trigger] lookup(g.file_to_module_id@, q) matches Some(v) ==> has_key(g.nodes@, v@)
    &&& forall|q: Seq<char>| #[trigger] lookup(g.symbol_index@, q) matches Some(ids) ==> forall|m: int|
        0 <= m < ids@.len() ==> has_key(g.nodes@, #[trigger] ids@[m]@)
}

/// `g2` differs from `g1` only by `external::` placeholders: the symbol
/// index, every other module-index lookup, the internal module pairs and
/// every node of `g1` are unchanged.
pub open spec fn extends_externally(g1: &Graph, g2: &Graph) -> bool {
    &&& g2.symbol_index@ == g1.symbol_index@
    &&& forall|q: Seq<char>| !starts_with(q, "external::"@) ==> #[trigger] lookup(g2.module_index@, q) == lookup(g1.module_index@, q)
    &&& forall|b: bool| #[trigger] internal_pairs(g2.module_index@, b) == internal_pairs(g1.module_index@, b)
    &&& forall|q: Seq<char>| has_key(g1.nodes@, q) ==> #[trigger] lookup(g2.nodes@, q) == lookup(g1.nodes@, q)
    &&& forall|q: Seq<char>| has_key(g1.nodes@, q) ==> #[trigger] has_key(g2.nodes@, q)
}

/// The module path an import of `sym` from `mp` names as a whole:
/// `mp.sym` in Python, `mp/sym` elsewhere.
pub open spec fn combined_path(f: SourceFacts, mp: Seq<char>, sym: Seq<char>) -> Seq<char> {
    mp + (if is_python_lang(f.language) { "."@ } else { "/"@ }) + sym
}

/// An import whose paths are not themselves `external::` placeholders.
pub open spec fn internal_import(f: SourceFacts, imp: Import) -> bool {
    &&& !starts_with(imp.module@, "external::"@)
    &&& (imp.symbol matches Some(sym) ==> !starts_with(combined_path(f, imp.module@, sym@), "external::"@))
}

/// The target and confidence of the edge an import of file `f` becomes:
/// an import of a symbol that names a module as a whole points there
/// (EXTRACTED); else at the best exported symbol of that name, else at the
/// resolved module, else at the `external::` node of its module path, with
/// the confidence `classify_confidence_spec` gives. A module import points
/// at its resolved module or its `external::` node (EXTRACTED).
pub open spec fn import_edge_spec(g: &Graph, f: SourceFacts, imp: Import) -> (Seq<char>, Seq<char>) {
    let php = is_php_lang(f.language);
    let pairs = internal_pairs(g.module_index@, false);
    let lowered = internal_pairs(g.module_index@, true);
    let tm = resolve_module_spec(g, imp.module@, php, pairs, lowered);
    let fallback = match tm {
        Some(t) => t,
        None => module_node_id_spec(external_key(imp.module@)),
    };
    match imp.symbol {
        Some(sym) => match resolve_module_spec(g, combined_path(f, imp.module@, sym@), php, pairs, lowered) {
            Some(mc) => (mc, "EXTRACTED"@),
            None => {
                let cands = match lookup(g.symbol_index@, unicode_lowercase(sym@)) {
                    Some(ids) => ids@,
                    None => Seq::empty(),
                };
                let best = select_best_symbol_spec(cands, tm, g);
                let conf = classify_confidence_spec(best is Some, cands.len(), tm is Some);
                match best {
                    Some(b) => (b@, conf),
                    None => (fallback, conf),
                }
            },
        },
        None => (fallback, "EXTRACTED"@),
    }
}

/// Each import of every file with an extraction, with its file, in the
/// order the edges are made.
pub open spec fn import_list(facts: Seq<SourceFacts>) -> Seq<(SourceFacts, Import)>
    decreases facts.len(),
{
    if facts.len() == 0 {
        Seq::empty()
    } else {
        let f = facts.last();
        import_list(facts.drop_last()) + match f.extraction {
            Some(x) => x.imports@.map_values(|imp: Import| (f, imp)),
            None => Seq::empty(),
        }
    }
}

proof fn lemma_first_value_in(pairs: Seq<(Seq<char>, Seq<char>)>, p: spec_fn(Seq<char>) -> bool)
    ensures
        first_value(pairs, p) matches Some(v) ==> exists|j: int| 0 <= j < pairs.len() && #[trigger] pairs[j].1 == v,
    decreases pairs.len(),
{
    if pairs.len() > 0 && !p(pairs[0].0) {
        lemma_first_value_in(pairs.drop_first(), p);
        if first_value(pairs, p) is Some {
            let j = choose|j: int| 0 <= j < pairs.drop_first().len() && #[trigger] pairs.drop_first()[j].1 == first_value(pairs, p)->0;
            assert(pairs[j + 1].1 == first_value(pairs, p)->0);
        }
    } else if pairs.len() > 0 {
        assert(pairs[0].1 == first_value(pairs, p)->0);
    }
}

proof fn lemma_internal_pairs_values(mi: Seq<(String, String)>, lower: bool, j: int)
    requires
        0 <= j < internal_pairs(mi, lower).len(),
    ensures
        exists|i: int| 0 <= i < mi.len() && #[trigger] mi[i].1@ == internal_pairs(mi, lower)[j].1,
    decreases mi.len(),
{
    let prev = internal_pairs(mi.drop_last(), lower);
    if j < prev.len() {
        assert(internal_pairs(mi, lower)[j] == prev[j]);
        lemma_internal_pairs_values(mi.drop_last(), lower, j);
        let i = choose|i: int| 0 <= i < mi.drop_last().len() && #[trigger] mi.drop_last()[i].1@ == prev[j].1;
        assert(mi[i].1@ == internal_pairs(mi, lower)[j].1);
    } else {
        assert(mi[mi.len() - 1].1@ == internal_pairs(mi, lower)[j].1);
    }
}

/// A module that an import resolves to is a node.
proof fn lemma_resolved_is_node(g: &Graph, mp: Seq<char>, php: bool)
    requires
        g.wf(),
        indexed(g),
    ensures
        resolve_module_spec(g, mp, php, internal_pairs(g.module_index@, false), internal_pairs(g.module_index@, true)) matches Some(t)
            ==> has_key(g.nodes@, t),
{
    let mi = g.module_index@;
    if lookup(mi, mp) is None {
        let lower = php;
        let pairs = internal_pairs(mi, lower);
        let p = if php { ends_with_fn(unicode_lowercase(replace_char(mp, '\\', '/'))) } else { module_suffix_fn(mp) };
        lemma_first_value_in(pairs, p);
        if first_value(pairs, p) is Some {
            let j = choose|j: int| 0 <= j < pairs.len() && #[trigger] pairs[j].1 == first_value(pairs, p)->0;
            lemma_internal_pairs_values(mi, lower, j);
            let i = choose|i: int| 0 <= i < mi.len() && #[trigger] mi[i].1@ == pairs[j].1;
            crate::keyed::lemma_lookup_unique(mi, i);
        }
    }
}

proof fn lemma_same_file_candidate_stable(g1: &Graph, g2: &Graph, cands: Seq<String>, tn: Node)
    requires
        forall|m: int| 0 <= m < cands.len() ==> has_key(g1.nodes@, #[trigger] cands[m]@),
        forall|q: Seq<char>| has_key(g1.nodes@, q) ==> #[trigger] lookup(g2.nodes@, q) == lookup(g1.nodes@, q),
    ensures
        same_file_candidate(g1, cands, tn) == same_file_candidate(g2, cands, tn),
    decreases cands.len(),
{
    if cands.len() > 0 {
        assert(has_key(g1.nodes@, cands[0]@));
        assert forall|m: int| 0 <= m < cands.drop_first().len() implies has_key(g1.nodes@, #[trigger] cands.drop_first()[m]@) by {
            assert(cands.drop_first()[m] == cands[m + 1]);
        }
        lemma_same_file_candidate_stable(g1, g2, cands.drop_first(), tn);
    }
}

/// Adding `external::` placeholders changes no internal import's edge.
proof fn lemma_import_edge_stable(g1: &Graph, g2: &Graph, f: SourceFacts, imp: Import)
    requires
        g1.wf(),
        indexed(g1),
        extends_externally(g1, g2),
        internal_import(f, imp),
    ensures
        import_edge_spec(g1, f, imp) == import_edge_spec(g2, f, imp),
{
    let php = is_php_lang(f.language);
    assert(internal_pairs(g2.module_index@, false) == internal_pairs(g1.module_index@, false));
    assert(internal_pairs(g2.module_index@, true) == internal_pairs(g1.module_index@, true));
    assert(lookup(g2.module_index@, imp.module@) == lookup(g1.module_index@, imp.module@));
    let pairs = internal_pairs(g1.module_index@, false);
    let lowered = internal_pairs(g1.module_index@, true);
    let tm = resolve_module_spec(g1, imp.module@, php, pairs, lowered);
    assert(tm == resolve_module_spec(g2, imp.module@, php, pairs, lowered));
    if let Some(sym) = imp.symbol {
        let c = combined_path(f, imp.module@, sym@);
        assert(lookup(g2.module_index@, c) == lookup(g1.module_index@, c));
        assert(resolve_module_spec(g1, c, php, pairs, lowered) == resolve_module_spec(g2, c, php, pairs, lowered));
        let key = unicode_lowercase(sym@);
        let cands = match lookup(g1.symbol_index@, key) {
            Some(ids) => ids@,
            None => Seq::empty(),
        };
        assert(forall|m: int| 0 <= m < cands.len() ==> has_key(g1.nodes@, #[trigger] cands[m]@));
        lemma_resolved_is_node(g1, imp.module@, php);
        if let Some(t) = tm {
            assert(has_key(g1.nodes@, t));
            assert(node_of(g1, t) == node_of(g2, t));
            if let Some(tn) = node_of(g1, t) {
                lemma_same_file_candidate_stable(g1, g2, cands, tn);
            }
        }
        assert(select_best_symbol_spec(cands, tm, g1) == select_best_symbol_spec(cands, tm, g2));
    }
}

proof fn lemma_indexed_mono(g1: &Graph, g2: &Graph)
    requires
        indexed(g1),
        g2.module_index@ == g1.module_index@,
        g2.file_to_module_id@ == g1.file_to_module_id@,
        g2.symbol_index@ == g1.symbol_index@,
        forall|q: Seq<char>| has_key(g1.nodes@, q) ==> #[trigger] has_key(g2.nodes@, q),
    ensures
        indexed(g2),
{
    assert forall|q: Seq<char>| (#[trigger] lookup(g2.symbol_index@, q) matches Some(ids) ==> forall|m: int|
        0 <= m < ids@.len() ==> has_key(g2.nodes@, #[trigger] ids@[m]@)) by {
        if let Some(ids) = lookup(g2.symbol_index@, q) {
            assert forall|m: int| 0 <= m < ids@.len() implies has_key(g2.nodes@, #[trigger] ids@[m]@) by {
                assert(has_key(g1.nodes@, ids@[m]@));
            }
        }
    }
}

proof fn lemma_internal_pairs_same(a: Seq<(String, String)>, b: Seq<(String, String)>, lower: bool)
    requires
        a.len() == b.len(),
        forall|j: int| 0 <= j < a.len() ==> (#[trigger] a[j]).0@ == b[j].0@,
        forall|j: int| 0 <= j < a.len() && !starts_with(a[j].0@, "external::"@) ==> (#[trigger] a[j]).1@ == b[j].1@,
    ensures
        internal_pairs(a, lower) == internal_pairs(b, lower),
    decreases a.len(),
{
    if a.len() > 0 {
        assert(a[a.len() - 1].0@ == b[b.len() - 1].0@);
        lemma_internal_pairs_same(a.drop_last(), b.drop_last(), lower);
    }
}

/// A node as values: id, label, kind, source file, source line.
pub type NodeView = (Seq<char>, Seq<char>, Seq<char>, Option<Seq<char>>, Option<i64>);

pub open spec fn node_view(n: Node) -> NodeView {
    (n.id@, n.label@, n.kind@, opt_view(n.source_file), n.source_line)
}

pub open spec fn node_opt(n: Option<Node>) -> Option<NodeView> {
    match n {
        Some(x) => Some(node_view(x)),
        None => None,
    }
}

pub open spec fn ids_opt(v: Option<Vec<String>>) -> Option<Seq<Seq<char>>> {
    match v {
        Some(ids) => Some(crate::ordered::text_views(ids@)),
        None => None,
    }
}

pub open spec fn mget<V>(m: Map<Seq<char>, V>, k: Seq<char>) -> Option<V> {
    if m.contains_key(k) { Some(m[k]) } else { None }
}

/// What the node phase builds: the nodes by id, the module index as
/// (module path, module id) pairs in insertion order, the file-to-module
/// map, the symbol index (lowercased name to node ids, in insertion order),
/// and the node ids in first-insertion order.
pub type NodePhase = (
    Map<Seq<char>, NodeView>,
    Seq<(Seq<char>, Seq<char>)>,
    Map<Seq<char>, Seq<char>>,
    Map<Seq<char>, Seq<Seq<char>>>,
    Seq<Seq<char>>,
);

/// Each export of `f` becomes a node `<file>::<name>` (replacing one of the
/// same id) and is listed under its lowercased name in the symbol index.
pub open spec fn absorb_exports(st: NodePhase, f: SourceFacts, exports: Seq<Export>) -> NodePhase
    decreases exports.len(),
{
    if exports.len() == 0 {
        st
    } else {
        let s2 = absorb_exports(st, f, exports.drop_last());
        let e = exports.last();
        let id = symbol_node_id_spec(f.path@, e.name@);
        let l = unicode_lowercase(e.name@);
        let prior = match mget(s2.3, l) {
            Some(ids) => ids,
            None => Seq::empty(),
        };
        (
            s2.0.insert(id, (id, e.name@, e.kind@, Some(f.path@), Some(e.line))),
            s2.1,
            s2.2,
            s2.3.insert(l, prior.push(id)),
            if s2.0.contains_key(id) { s2.4 } else { s2.4.push(id) },
        )
    }
}

/// A file's module node, with its module-index and file-to-module
/// entries, unless a node of that id exists.
pub open spec fn module_step(st: NodePhase, f: SourceFacts) -> NodePhase {
    let mff = file_to_module_spec(f.path@, is_python_lang(f.language));
    let mid = module_node_id_spec(mff);
    if st.0.contains_key(mid) {
        st
    } else {
        (
            st.0.insert(mid, (mid, mff, "module"@, Some(f.path@), Some(1i64))),
            st.1.push((mff, mid)),
            st.2.insert(f.path@, mid),
            st.3,
            st.4.push(mid),
        )
    }
}

/// A file with an extraction adds its module node, then its exports.
pub open spec fn absorb_fact(st: NodePhase, f: SourceFacts) -> NodePhase {
    match f.extraction {
        None => st,
        Some(x) => absorb_exports(module_step(st, f), f, x.exports@),
    }
}

/// The node phase over `facts` in order.
pub open spec fn node_phase(facts: Seq<SourceFacts>) -> NodePhase
    decreases facts.len(),
{
    if facts.len() == 0 {
        (Map::empty(), Seq::empty(), Map::empty(), Map::empty(), Seq::empty())
    } else {
        absorb_fact(node_phase(facts.drop_last()), facts.last())
    }
}

/// The (key, value) pairs whose key is not an `external::` placeholder.
pub open spec fn internal_views(s: Seq<(Seq<char>, Seq<char>)>) -> Seq<(Seq<char>, Seq<char>)>
    decreases s.len(),
{
    if s.len() == 0 {
        Seq::empty()
    } else {
        let prev = internal_views(s.drop_last());
        if starts_with(s.last().0, "external::"@) { prev } else { prev.push(s.last()) }
    }
}

pub open spec fn node_keys(g: &Graph) -> Seq<Seq<char>> {
    g.nodes@.map_values(|e: (String, Node)| e.0@)
}

/// `g` holds exactly what the node phase `st` built.
pub open spec fn models(g: &Graph, st: NodePhase) -> bool {
    &&& forall|q: Seq<char>| #[trigger] node_opt(lookup(g.nodes@, q)) == mget(st.0, q)
    &&& pair_views(g.module_index@) == st.1
    &&& forall|q: Seq<char>| #[trigger] opt_view(lookup(g.file_to_module_id@, q)) == mget(st.2, q)
    &&& forall|q: Seq<char>| #[trigger] ids_opt(lookup(g.symbol_index@, q)) == mget(st.3, q)
    &&& node_keys(g) == st.4
}

/// Every module-index entry maps a module path to its module id, a node.
pub open spec fn modules_consistent(st: NodePhase) -> bool {
    forall|j: int| 0 <= j < st.1.len() ==> {
        &&& (#[trigger] st.1[j]).1 == module_node_id_spec(st.1[j].0)
        &&& st.0.contains_key(st.1[j].1)
    }
}

proof fn lemma_prefix_trans(a: Seq<Seq<char>>, b: Seq<Seq<char>>, c: Seq<Seq<char>>)
    requires
        b.len() >= a.len(),
        b.take(a.len() as int) == a,
        c.len() >= b.len(),
        c.take(b.len() as int) == b,
    ensures
        c.take(a.len() as int) == a,
{
    assert forall|j: int| 0 <= j < a.len() implies c.take(a.len() as int)[j] == a[j] by {
        assert(c.take(b.len() as int)[j] == c[j]);
        assert(b.take(a.len() as int)[j] == b[j]);
    }
    assert(c.take(a.len() as int) =~= a);
}

proof fn lemma_internal_pairs_views(mi: Seq<(String, String)>)
    ensures
        internal_pairs(mi, false) == internal_views(pair_views(mi)),
    decreases mi.len(),
{
    if mi.len() > 0 {
        lemma_internal_pairs_views(mi.drop_last());
        assert(pair_views(mi).drop_last() =~= pair_views(mi.drop_last()));
        assert(pair_views(mi).last() == (mi.last().0@, mi.last().1@));
    }
}

proof fn lemma_same_file_candidate_found(g: &Graph, cands: Seq<String>, tn: Node, i: int)
    requires
        0 <= i < cands.len(),
        node_of(g, cands[i]@) matches Some(n) && opt_view(n.source_file) == opt_view(tn.source_file),
    ensures
        same_file_candidate(g, cands, tn) matches Some(c) && exists|j: int| 0 <= j <= i && #[trigger] cands[j] == c
            && (node_of(g, c@) matches Some(n2) && opt_view(n2.source_file) == opt_view(tn.source_file))
            && forall|m: int| 0 <= m < j ==> !(node_of(g, #[trigger] cands[m]@) matches Some(n3)
                && opt_view(n3.source_file) == opt_view(tn.source_file)),
    decreases i,
{
    let c0 = cands[0];
    if node_of(g, c0@) matches Some(n) && same_file(n.source_file, tn.source_file) {
        assert(cands[0] == c0);
    } else {
        assert(!(node_of(g, cands[0]@) matches Some(n3) && opt_view(n3.source_file) == opt_view(tn.source_file)));
        let rest = cands.drop_first();
        assert(rest[i - 1] == cands[i]);
        lemma_same_file_candidate_found(g, rest, tn, i - 1);
        let c = same_file_candidate(g, rest, tn)->0;
        let j = choose|j: int| 0 <= j <= i - 1 && #[trigger] rest[j] == c
            && (node_of(g, c@) matches Some(n2) && opt_view(n2.source_file) == opt_view(tn.source_file))
            && forall|m: int| 0 <= m < j ==> !(node_of(g, #[trigger] rest[m]@) matches Some(n3)
                && opt_view(n3.source_file) == opt_view(tn.source_file));
        assert(cands[j + 1] == c);
        assert forall|m: int| 0 <= m < j + 1 implies !(node_of(g, #[trigger] cands[m]@) matches Some(n3)
            && opt_view(n3.source_file) == opt_view(tn.source_file)) by {
            if m > 0 {
                assert(cands[m] == rest[m - 1]);
            }
        }
    }
}

/// When the import's module resolves to a node and some candidate symbol
/// is declared in that node's file, the chosen symbol is the first such
/// candidate.
pub proof fn symbol_in_target_file_is_chosen(cands: Seq<String>, t: Seq<char>, g: &Graph, i: int)
    requires
        0 <= i < cands.len(),
        node_of(g, t) is Some,
        node_of(g, cands[i]@) matches Some(n) && opt_view(n.source_file) == opt_view(node_of(g, t)->0.source_file),
    ensures
        select_best_symbol_spec(cands, Some(t), g) matches Some(c) && exists|j: int| 0 <= j <= i && #[trigger] cands[j] == c
            && (node_of(g, c@) matches Some(n2) && opt_view(n2.source_file) == opt_view(node_of(g, t)->0.source_file))
            && forall|m: int| 0 <= m < j ==> !(node_of(g, #[trigger] cands[m]@) matches Some(n3)
                && opt_view(n3.source_file) == opt_view(node_of(g, t)->0.source_file)),
{
    lemma_same_file_candidate_found(g, cands, node_of(g, t)->0, i);
}

/// A symbol import whose combined path names no module, whose module
/// resolves to a node, and one of whose candidate symbols is declared in
/// that node's file, becomes an EXTRACTED edge to such a candidate.
pub proof fn symbol_import_into_resolved_module(g: &Graph, f: SourceFacts, imp: Import, i: int)
    requires
        imp.symbol is Some,
        resolve_module_spec(
            g,
            combined_path(f, imp.module@, imp.symbol->0@),
            is_php_lang(f.language),
            internal_pairs(g.module_index@, false),
            internal_pairs(g.module_index@, true),
        ) is None,
        resolve_module_spec(g, imp.module@, is_php_lang(f.language), internal_pairs(g.module_index@, false), internal_pairs(g.module_index@, true))
            matches Some(t) && node_of(g, t) is Some,
        lookup(g.symbol_index@, unicode_lowercase(imp.symbol->0@)) matches Some(ids) && 0 <= i < ids@.len()
            && (node_of(g, ids@[i]@) matches Some(n) && opt_view(n.source_file) == opt_view(node_of(
            g,
            resolve_module_spec(g, imp.module@, is_php_lang(f.language), internal_pairs(g.module_index@, false), internal_pairs(g.module_index@, true))->0,
        )->0.source_file)),
    ensures
        import_edge_spec(g, f, imp).1 == "EXTRACTED"@,
        exists|j: int| 0 <= j <= i && lookup(g.symbol_index@, unicode_lowercase(imp.symbol->0@))->0@[j]@ == import_edge_spec(g, f, imp).0,
{
    let t = resolve_module_spec(g, imp.module@, is_php_lang(f.language), internal_pairs(g.module_index@, false), internal_pairs(g.module_index@, true))->0;
    let ids = lookup(g.symbol_index@, unicode_lowercase(imp.symbol->0@))->0;
    symbol_in_target_file_is_chosen(ids@, t, g, i);
}

proof fn lemma_same_file_candidate_none(g: &Graph, cands: Seq<String>, tn: Node)
    requires
        forall|i: int| 0 <= i < cands.len() ==> !(node_of(g, #[trigger] cands[i]@) matches Some(n)
            && opt_view(n.source_file) == opt_view(tn.source_file)),
    ensures
        same_file_candidate(g, cands, tn) is None,
    decreases cands.len(),
{
    if cands.len() > 0 {
        assert(!(node_of(g, cands[0]@) matches Some(n) && opt_view(n.source_file) == opt_view(tn.source_file)));
        assert forall|i: int| 0 <= i < cands.drop_first().len() implies !(node_of(g, #[trigger] cands.drop_first()[i]@) matches Some(n)
            && opt_view(n.source_file) == opt_view(tn.source_file)) by {
            assert(cands.drop_first()[i] == cands[i + 1]);
        }
        lemma_same_file_candidate_none(g, cands.drop_first(), tn);
    }
}

/// When no candidate is declared in the resolved target module's file (or
/// there is no resolved target), a symbol is chosen only when it is the
/// sole candidate; several leave the choice open.
pub proof fn without_a_target_file_match_only_a_sole_candidate_is_chosen(cands: Seq<String>, target: Option<Seq<char>>, g: &Graph)
    requires
        forall|i: int| 0 <= i < cands.len() ==> !(target matches Some(t) && node_of(g, t) matches Some(tn)
            && node_of(g, #[trigger] cands[i]@) matches Some(n) && opt_view(n.source_file) == opt_view(tn.source_file)),
    ensures
        select_best_symbol_spec(cands, target, g) == if cands.len() == 1 { Some(cands[0]) } else { None::<String> },
{
    if let Some(t) = target {
        if let Some(tn) = node_of(g, t) {
            lemma_same_file_candidate_none(g, cands, tn);
        }
    }
}

/// The confidence of a symbol import's edge: EXTRACTED when a symbol is
/// chosen and the module resolved, INFERRED when a symbol is chosen without
/// it, AMBIGUOUS when several candidates leave the choice open, EXTRACTED
/// otherwise; and EXTRACTED for a symbol naming a module, or a module
/// import.
pub proof fn import_confidence(g: &Graph, f: SourceFacts, imp: Import)
    ensures
        ({
            let php = is_php_lang(f.language);
            let pairs = internal_pairs(g.module_index@, false);
            let lowered = internal_pairs(g.module_index@, true);
            let tm = resolve_module_spec(g, imp.module@, php, pairs, lowered);
            let conf = import_edge_spec(g, f, imp).1;
            match imp.symbol {
                None => conf == "EXTRACTED"@,
                Some(sym) => {
                    let cands = match lookup(g.symbol_index@, unicode_lowercase(sym@)) {
                        Some(ids) => ids@,
                        None => Seq::empty(),
                    };
                    let best = select_best_symbol_spec(cands, tm, g);
                    if resolve_module_spec(g, combined_path(f, imp.module@, sym@), php, pairs, lowered) is Some {
                        conf == "EXTRACTED"@
                    } else if best is Some && tm is Some {
                        conf == "EXTRACTED"@
                    } else if best is Some {
                        conf == "INFERRED"@
                    } else if cands.len() > 1 {
                        conf == "AMBIGUOUS"@
                    } else {
                        conf == "EXTRACTED"@
                    }
                },
            }
        }),
{
}

} // verus!
