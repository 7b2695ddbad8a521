//! The architecture graph: symbols and modules as nodes, cross-file
//! `imports` relations as edges, each labelled with the confidence of its
//! resolution. Queries answer who depends on a node and what it depends on,
//! directly and transitively.

use crate::extraction::{Export, ExtractionResult, Import};
use crate::keyed::{find_key, get, has_key, insert, keys_unique, lookup};
use crate::paths::{strip_extension, without_extension};
use crate::text::{
    concat, replace_char, replace_char_in, str_eq, to_lowercase, unicode_lowercase,
};
use vstd::prelude::*;

verus! {

broadcast use vstd::string::group_string_axioms;

pub struct Node {
    pub id: String,
    pub label: String,
    pub kind: String,
    pub source_file: Option<String>,
    pub source_line: Option<i64>,
}

pub struct Edge {
    pub source: String,
    pub target: String,
    pub relation: String,
    pub confidence: String,
}

/// The graph. Each keyed table keeps its keys unique and in first-insertion
/// order, which is the order `symbols`-style queries walk.
pub struct Graph {
    /// Node id → node, in insertion order.
    pub nodes: Vec<(String, Node)>,
    pub edges: Vec<Edge>,
    /// Lowercased symbol name → ids of the nodes exporting it.
    pub symbol_index: Vec<(String, Vec<String>)>,
    /// Module path → module node id, in insertion order.
    pub module_index: Vec<(String, String)>,
    /// Source file → id of its module node.
    pub file_to_module_id: Vec<(String, String)>,
}

impl Graph {
    /// Every keyed table holds each key once.
    pub open spec fn wf(&self) -> bool {
        &&& keys_unique(self.nodes@)
        &&& keys_unique(self.symbol_index@)
        &&& keys_unique(self.module_index@)
        &&& keys_unique(self.file_to_module_id@)
    }

    pub fn new() -> (g: Graph)
        ensures
            g.wf(),
            g.nodes@.len() == 0,
            g.edges@.len() == 0,
            g.symbol_index@.len() == 0,
            g.module_index@.len() == 0,
            g.file_to_module_id@.len() == 0,
    {
        Graph {
            nodes: Vec::new(),
            edges: Vec::new(),
            symbol_index: Vec::new(),
            module_index: Vec::new(),
            file_to_module_id: Vec::new(),
        }
    }
}

pub open spec fn node_of(g: &Graph, id: Seq<char>) -> Option<Node> {
    lookup(g.nodes@, id)
}

/// The module node owning the file a node was declared in.
pub open spec fn owner_of(g: &Graph, id: Seq<char>) -> Option<String> {
    match node_of(g, id) {
        Some(n) => match n.source_file {
            Some(sf) => lookup(g.file_to_module_id@, sf@),
            None => None,
        },
        None => None,
    }
}

pub open spec fn is_module_node(g: &Graph, id: Seq<char>) -> bool {
    match node_of(g, id) {
        Some(n) => n.kind@ == "module"@,
        None => false,
    }
}

/// The edge resolved to a symbol declared in the file owned by module `id`.
pub open spec fn module_owns_target(g: &Graph, id: Seq<char>, e: Edge) -> bool {
    match node_of(g, e.target@) {
        Some(t) => match t.source_file {
            Some(sf) => match lookup(g.file_to_module_id@, sf@) {
                Some(o) => o@ == id,
                None => false,
            },
            None => false,
        },
        None => false,
    }
}

/// `e` makes its source a direct dependent of node `id`: it points at the
/// node, at the node's owning module, or — when `id` is a module — at a
/// symbol declared in that module's file.
pub open spec fn is_dependent_edge(g: &Graph, id: Seq<char>, e: Edge) -> bool {
    ||| e.target@ == id
    ||| (owner_of(g, id) matches Some(o) && e.target@ == o@)
    ||| (is_module_node(g, id) && module_owns_target(g, id, e))
}

/// `e` is a direct dependency of node `id`: it leaves the node or its owning
/// module. A node the graph does not hold has none.
pub open spec fn is_dependency_edge(g: &Graph, id: Seq<char>, e: Edge) -> bool {
    &&& node_of(g, id) is Some
    &&& (e.source@ == id || (owner_of(g, id) matches Some(o) && e.source@ == o@))
}

pub open spec fn derefs<T>(s: Seq<&T>) -> Seq<T> {
    s.map_values(|x: &T| *x)
}

/// `module::<path>`, the id of a module node.
pub open spec fn module_node_id_spec(mod_path: Seq<char>) -> Seq<char> {
    "module::"@ + mod_path
}

/// `<file>::<symbol>`, the id of a symbol node.
pub open spec fn symbol_node_id_spec(source_file: Seq<char>, symbol: Seq<char>) -> Seq<char> {
    source_file + "::"@ + symbol
}

pub fn module_node_id(mod_path: &str) -> (r: String)
    ensures
        r@ == module_node_id_spec(mod_path@),
{
    concat("module::", mod_path)
}

pub fn symbol_node_id(source_file: &str, symbol: &str) -> (r: String)
    ensures
        r@ == symbol_node_id_spec(source_file@, symbol@),
{
    let a = concat(source_file, "::");
    concat(a.as_str(), symbol)
}

/// Module path of a file: extension stripped, separators turned into `.` for
/// Python and left as `/` for every other language.
pub open spec fn file_to_module_spec(relative_path: Seq<char>, is_python: bool) -> Seq<char> {
    if is_python {
        replace_char(strip_extension(relative_path), '/', '.')
    } else {
        strip_extension(relative_path)
    }
}

pub open spec fn is_python(language: Option<&str>) -> bool {
    language matches Some(l) && l@ == "python"@
}

pub fn file_to_module(relative_path: &str, language: Option<&str>) -> (r: String)
    ensures
        r@ == file_to_module_spec(relative_path@, is_python(language)),
{
    let stem = without_extension(relative_path);
    let python = match language {
        Some(l) => str_eq(l, "python"),
        None => false,
    };
    if python {
        replace_char_in(stem.as_str(), '/', '.')
    } else {
        stem
    }
}

fn module_owns(graph: &Graph, key: &String, e: &Edge) -> (r: bool)
    ensures
        r == module_owns_target(graph, key@, *e),
{
    match get(&graph.nodes, &e.target) {
        Some(t) => match &t.source_file {
            Some(sf) => match get(&graph.file_to_module_id, sf) {
                Some(o) => *o == *key,
                None => false,
            },
            None => false,
        },
        None => false,
    }
}

/// Edges pointing at `node_id` (or its owning module) — its direct dependents.
pub fn dependents_of<'a>(graph: &'a Graph, node_id: &str) -> (r: Vec<&'a Edge>)
    ensures
        derefs(r@) == graph.edges@.filter(|e: Edge| is_dependent_edge(graph, node_id@, e)),
{
    let key = node_id.to_owned();
    let node = get(&graph.nodes, &key);
    let mut owner: Option<&String> = None;
    let mut is_module = false;
    if let Some(tn) = node {
        is_module = str_eq(tn.kind.as_str(), "module");
        if let Some(sf) = &tn.source_file {
            owner = get(&graph.file_to_module_id, sf);
        }
    }
    let ghost pred = |e: Edge| is_dependent_edge(graph, node_id@, e);
    let mut out: Vec<&'a Edge> = Vec::new();
    let mut i: usize = 0;
    while i < graph.edges.len()
        invariant
            i <= graph.edges.len(),
            key@ == node_id@,
            match owner {
                Some(o) => owner_of(graph, node_id@) == Some(*o),
                None => owner_of(graph, node_id@) is None,
            },
            is_module == is_module_node(graph, node_id@),
            pred == (|e: Edge| is_dependent_edge(graph, node_id@, e)),
            derefs(out@) == graph.edges@.take(i as int).filter(pred),
        decreases graph.edges.len() - i,
    {
        let e = &graph.edges[i];
        let mut hit = e.target == key;
        if !hit {
            if let Some(o) = owner {
                hit = e.target == *o;
            }
        }
        if !hit && is_module {
            hit = module_owns(graph, &key, e);
        }
        proof {
            assert(hit == pred(*e));
            assert(graph.edges@.take(i + 1) =~= graph.edges@.take(i as int).push(*e));
            graph.edges@.take(i as int).lemma_filter_push(*e, pred);
        }
        let ghost prev = out@;
        if hit {
            out.push(e);
            assert(derefs(out@) =~= derefs(prev).push(*e));
        }
        i += 1;
    }
    assert(graph.edges@.take(graph.edges.len() as int) =~= graph.edges@);
    out
}

/// Edges leaving `node_id` (or its owning module) — its direct dependencies.
pub fn dependencies_of<'a>(graph: &'a Graph, node_id: &str) -> (r: Vec<&'a Edge>)
    ensures
        derefs(r@) == graph.edges@.filter(|e: Edge| is_dependency_edge(graph, node_id@, e)),
{
    let key = node_id.to_owned();
    let ghost pred = |e: Edge| is_dependency_edge(graph, node_id@, e);
    let tn = match get(&graph.nodes, &key) {
        Some(n) => n,
        None => {
            proof {
                assert forall|j: int| 0 <= j < graph.edges@.len() implies !pred(#[trigger] graph.edges@[j]) by {}
                graph.edges@.lemma_all_neg_filter_empty(pred);
            }
            let empty: Vec<&'a Edge> = Vec::new();
            assert(derefs(empty@) =~= Seq::<Edge>::empty());
            return empty;
        },
    };
    let mut owner: Option<&String> = None;
    if let Some(sf) = &tn.source_file {
        owner = get(&graph.file_to_module_id, sf);
    }
    let mut out: Vec<&'a Edge> = Vec::new();
    let mut i: usize = 0;
    while i < graph.edges.len()
        invariant
            i <= graph.edges.len(),
            key@ == node_id@,
            node_of(graph, node_id@) is Some,
            match owner {
                Some(o) => owner_of(graph, node_id@) == Some(*o),
                None => owner_of(graph, node_id@) is None,
            },
            pred == (|e: Edge| is_dependency_edge(graph, node_id@, e)),
            derefs(out@) == graph.edges@.take(i as int).filter(pred),
        decreases graph.edges.len() - i,
    {
        let e = &graph.edges[i];
        let mut hit = e.source == key;
        if !hit {
            if let Some(o) = owner {
                hit = e.source == *o;
            }
        }
        proof {
            assert(hit == pred(*e));
            assert(graph.edges@.take(i + 1) =~= graph.edges@.take(i as int).push(*e));
            graph.edges@.take(i as int).lemma_filter_push(*e, pred);
        }
        let ghost prev = out@;
        if hit {
            out.push(e);
            assert(derefs(out@) =~= derefs(prev).push(*e));
        }
        i += 1;
    }
    assert(graph.edges@.take(graph.edges.len() as int) =~= graph.edges@);
    out
}

/// Position of the last `.` or `/` in `p[..n]`, or -1.
pub open spec fn last_sep_from(p: Seq<char>, n: int) -> int
    decreases n,
{
    if n <= 0 {
        -1
    } else if p[n - 1] == '.' || p[n - 1] == '/' {
        n - 1
    } else {
        last_sep_from(p, n - 1)
    }
}

/// The last `.`- or `/`-separated segment of a module path.
pub open spec fn last_segment_spec(p: Seq<char>) -> Seq<char> {
    p.skip(last_sep_from(p, p.len() as int) + 1)
}

fn last_segment(p: &str) -> (r: String)
    ensures
        r@ == last_segment_spec(p@),
{
    let cs = crate::text::chars_of(p);
    let mut n = cs.len();
    while n > 0
        invariant
            n <= cs.len(),
            cs@ == p@,
            last_sep_from(cs@, cs.len() as int) == last_sep_from(cs@, n as int),
        decreases n,
    {
        if cs[n - 1] == '.' || cs[n - 1] == '/' {
            return crate::text::string_of_range(&cs, n, cs.len());
        }
        n -= 1;
    }
    assert(cs@.skip(0) =~= cs@);
    p.to_owned()
}

/// Nodes registered under the symbol name `lower`, in index order.
pub open spec fn symbol_matches(g: &Graph, lower: Seq<char>) -> Seq<Node> {
    match lookup(g.symbol_index@, lower) {
        Some(ids) => ids@.filter_map(|id: String| lookup(g.nodes@, id@)),
        None => Seq::empty(),
    }
}

/// The module node an internal module-index entry names when its last path
/// segment, lowercased, is `lower`.
pub open spec fn module_match(g: &Graph, lower: Seq<char>, entry: (String, String)) -> Option<Node> {
    if !crate::text::starts_with(entry.0@, "external::"@) && unicode_lowercase(last_segment_spec(entry.0@)) == lower {
        lookup(g.nodes@, entry.1@)
    } else {
        None
    }
}

/// Nodes whose symbol name matches `name` (case-insensitive); when none does,
/// the internal modules whose last path segment matches.
pub open spec fn find_symbols_spec(g: &Graph, name: Seq<char>) -> Seq<Node> {
    let lower = unicode_lowercase(name);
    if symbol_matches(g, lower).len() > 0 {
        symbol_matches(g, lower)
    } else {
        g.module_index@.filter_map(|en: (String, String)| module_match(g, lower, en))
    }
}

pub fn find_symbols<'a>(graph: &'a Graph, name: &str) -> (r: Vec<&'a Node>)
    ensures
        derefs(r@) == find_symbols_spec(graph, name@),
{
    let lower = to_lowercase(name);
    let ghost sym = symbol_matches(graph, lower@);
    if let Some(ids) = get(&graph.symbol_index, &lower) {
        let ghost f = |id: String| lookup(graph.nodes@, id@);
        let mut matches: Vec<&'a Node> = Vec::new();
        let mut i: usize = 0;
        while i < ids.len()
            invariant
                i <= ids.len(),
                f == (|id: String| lookup(graph.nodes@, id@)),
                derefs(matches@) == ids@.take(i as int).filter_map(f),
            decreases ids.len() - i,
        {
            proof { ids@.lemma_filter_map_take_succ(f, i as int); }
            let ghost prev = matches@;
            if let Some(n) = get(&graph.nodes, &ids[i]) {
                matches.push(n);
                assert(derefs(matches@) =~= derefs(prev) + seq![*n]);
            }
            i += 1;
        }
        assert(ids@.take(ids.len() as int) =~= ids@);
        if matches.len() > 0 {
            return matches;
        }
    }
    let ghost g = |en: (String, String)| module_match(graph, lower@, en);
    let ext = "external::";
    let ext_cs = crate::text::chars_of(ext);
    let mut module_matches: Vec<&'a Node> = Vec::new();
    let mut i: usize = 0;
    while i < graph.module_index.len()
        invariant
            i <= graph.module_index.len(),
            ext_cs@ == "external::"@,
            g == (|en: (String, String)| module_match(graph, lower@, en)),
            derefs(module_matches@) == graph.module_index@.take(i as int).filter_map(g),
        decreases graph.module_index.len() - i,
    {
        proof { graph.module_index@.lemma_filter_map_take_succ(g, i as int); }
        let ghost prev = module_matches@;
        let entry = &graph.module_index[i];
        let key_cs = crate::text::chars_of(entry.0.as_str());
        if !crate::text::seq_starts_with(&key_cs, &ext_cs) {
            let seg = last_segment(entry.0.as_str());
            let seg_lower = to_lowercase(seg.as_str());
            if seg_lower == lower {
                if let Some(n) = get(&graph.nodes, &entry.1) {
                    module_matches.push(n);
                    assert(derefs(module_matches@) =~= derefs(prev) + seq![*n]);
                }
            }
        }
        i += 1;
    }
    assert(graph.module_index@.take(graph.module_index.len() as int) =~= graph.module_index@);
    module_matches
}

/// One hop of a traversal: an edge that makes `b` a direct dependent of `a`
/// (`forward == false`) or a direct dependency of `a` (`forward == true`).
pub open spec fn hop(g: &Graph, forward: bool, a: Seq<char>, b: Seq<char>) -> bool {
    exists|i: int| 0 <= i < g.edges@.len() && #[trigger] hop_edge(g, forward, a, b, g.edges@[i])
}

pub open spec fn hop_edge(g: &Graph, forward: bool, a: Seq<char>, b: Seq<char>, e: Edge) -> bool {
    if forward {
        is_dependency_edge(g, a, e) && e.target@ == b
    } else {
        is_dependent_edge(g, a, e) && e.source@ == b
    }
}

/// `to` is `d` hops away from `from` along some path.
pub open spec fn reaches(g: &Graph, forward: bool, from: Seq<char>, to: Seq<char>, d: nat) -> bool
    decreases d,
{
    if d == 0 {
        to == from
    } else {
        exists|m: Seq<char>| reaches(g, forward, from, m, (d - 1) as nat) && #[trigger] hop(g, forward, m, to)
    }
}

/// The id an edge leads to: its target going forward, its source going
/// backward.
pub open spec fn far_end(e: Edge, forward: bool) -> Seq<char> {
    if forward {
        e.target@
    } else {
        e.source@
    }
}

/// A node a traversal steps out of: the start, or any node the graph holds.
pub open spec fn expandable(g: &Graph, s: Seq<char>, x: Seq<char>) -> bool {
    x == s || has_key(g.nodes@, x)
}

/// The ids one hop from an expandable id of `from`.
pub open spec fn steps_from(g: &Graph, forward: bool, s: Seq<char>, from: Set<Seq<char>>) -> Set<Seq<char>> {
    Set::new(|y: Seq<char>| exists|x: Seq<char>| from.contains(x) && expandable(g, s, x) && hop(g, forward, x, y))
}

/// The ids a traversal from `s` has met after `k` rounds: `s`, then every
/// id one hop from an expandable id met before.
pub open spec fn met(g: &Graph, forward: bool, s: Seq<char>, k: nat) -> Set<Seq<char>>
    decreases k,
{
    if k == 0 {
        set![s]
    } else {
        let r = met(g, forward, s, (k - 1) as nat);
        r.union(steps_from(g, forward, s, r))
    }
}

/// How many rounds a traversal runs: `max_depth`, or none when it is not
/// positive.
pub open spec fn depth_limit(max_depth: i64) -> nat {
    if max_depth > 0 {
        max_depth as nat
    } else {
        0
    }
}

/// What a bounded breadth-first traversal returns: exactly the nodes the
/// graph holds that lie within `max_depth` hops of the start (the start
/// itself left out), each once, at the hop count it is first met at, in
/// nondecreasing hop count and, within it, in the order breadth-first search
/// meets them. Hops run only out of the start and out of nodes
/// the graph holds.
pub open spec fn traversal_ok(g: &Graph, forward: bool, start: Seq<char>, max_depth: i64, r: Seq<(&Node, i64)>) -> bool {
    &&& forall|i: int, j: int| 0 <= i < j < r.len() ==> #[trigger] r[i].1 <= #[trigger] r[j].1
    &&& exists|ks: Seq<Seq<char>>| #[trigger] reached_ids(g, forward, start, max_depth, r, ks)
}

/// `ks` names the rows of `r`: the node ids, each once, exactly the reached
/// set, each at the hop count it is first met at, in breadth-first meeting
/// order (`bfs_state`); the rows one hop away come first, in the order of
/// the first edge leading to each.
pub open spec fn reached_ids(g: &Graph, forward: bool, start: Seq<char>, max_depth: i64, r: Seq<(&Node, i64)>, ks: Seq<Seq<char>>) -> bool {
    &&& ks.len() == r.len()
    &&& ks.no_duplicates()
    &&& ks.to_set() == reached_set(g, forward, start, max_depth)
    &&& (max_depth >= 1 ==> first_hops_first(g, forward, start, ks, r))
    &&& ks == bfs_state(g, forward, start, depth_limit(max_depth)).0.drop_first().filter(|k: Seq<char>| has_key(g.nodes@, k))
    &&& forall|j: int| 0 <= j < ks.len() ==> {
        &&& #[trigger] ks[j] != start
        &&& lookup(g.nodes@, ks[j]) == Some(*r[j].0)
        &&& 1 <= r[j].1 <= max_depth
        &&& met(g, forward, start, r[j].1 as nat).contains(ks[j])
        &&& !met(g, forward, start, (r[j].1 - 1) as nat).contains(ks[j])
    }
}

/// The nodes a traversal from `start` reports: those the graph holds within
/// `max_depth` hops, the start left out.
pub open spec fn reached_set(g: &Graph, forward: bool, start: Seq<char>, max_depth: i64) -> Set<Seq<char>> {
    met(g, forward, start, depth_limit(max_depth)).filter(|k: Seq<char>| k != start && has_key(g.nodes@, k))
}

/// With a depth of at least one, a traversal's first rows are the nodes one
/// hop away, each once, in the order of the first edge leading to each, and
/// no later row is one hop away; where every node is stored under its own
/// id, those rows carry exactly those ids.
pub proof fn direct_neighbours_come_first(g: &Graph, forward: bool, start: Seq<char>, max_depth: i64, r: Seq<(&Node, i64)>)
    requires
        traversal_ok(g, forward, start, max_depth, r),
        max_depth >= 1,
    ensures
        first_hop_ids(g, forward, start).len() <= r.len(),
        forall|j: int| 0 <= j < r.len() ==> ((#[trigger] r[j]).1 == 1 <==> j < first_hop_ids(g, forward, start).len()),
        forall|j: int| 0 <= j < first_hop_ids(g, forward, start).len()
            ==> lookup(g.nodes@, #[trigger] first_hop_ids(g, forward, start)[j]) == Some(*r[j].0),
        (forall|i: int| 0 <= i < g.nodes@.len() ==> (#[trigger] g.nodes@[i]).1.id@ == g.nodes@[i].0@) ==>
            forall|j: int| 0 <= j < first_hop_ids(g, forward, start).len() ==> (#[trigger] r[j]).0.id@ == first_hop_ids(g, forward, start)[j],
{
    let ks = choose|ks: Seq<Seq<char>>| reached_ids(g, forward, start, max_depth, r, ks);
    let l1 = first_hop_ids(g, forward, start);
    assert forall|j: int| 0 <= j < l1.len() implies lookup(g.nodes@, #[trigger] l1[j]) == Some(*r[j].0) by {
        assert(ks.take(l1.len() as int)[j] == ks[j]);
        assert(lookup(g.nodes@, ks[j]) == Some(*r[j].0));
    }
    if forall|i: int| 0 <= i < g.nodes@.len() ==> (#[trigger] g.nodes@[i]).1.id@ == g.nodes@[i].0@ {
        assert forall|j: int| 0 <= j < l1.len() implies (#[trigger] r[j]).0.id@ == l1[j] by {
            assert(lookup(g.nodes@, l1[j]) == Some(*r[j].0));
            crate::keyed::lemma_lookup_some(g.nodes@, l1[j]);
            let i = choose|i: int| 0 <= i < g.nodes@.len() && g.nodes@[i].0@ == l1[j] && lookup(g.nodes@, l1[j]) == Some(#[trigger] g.nodes@[i].1);
            assert(g.nodes@[i].1.id@ == g.nodes@[i].0@);
        }
    }
}

/// A traversal reports one row per node it reaches.
pub proof fn lemma_traversal_count(g: &Graph, forward: bool, start: Seq<char>, max_depth: i64, r: Seq<(&Node, i64)>)
    requires
        traversal_ok(g, forward, start, max_depth, r),
    ensures
        r.len() == reached_set(g, forward, start, max_depth).len(),
{
    let ks = choose|ks: Seq<Seq<char>>| reached_ids(g, forward, start, max_depth, r, ks);
    ks.unique_seq_to_set();
}

proof fn lemma_met_step(g: &Graph, forward: bool, s: Seq<char>, k: nat)
    ensures
        met(g, forward, s, k + 1) == met(g, forward, s, k).union(steps_from(g, forward, s, met(g, forward, s, k))),
{
    assert(met(g, forward, s, k + 1) =~= met(g, forward, s, k).union(steps_from(g, forward, s, met(g, forward, s, k))));
}

proof fn lemma_met_closed(g: &Graph, forward: bool, s: Seq<char>, k: nat, m: nat)
    requires
        steps_from(g, forward, s, met(g, forward, s, k)).subset_of(met(g, forward, s, k)),
    ensures
        met(g, forward, s, k + m) == met(g, forward, s, k),
    decreases m,
{
    if m > 0 {
        lemma_met_closed(g, forward, s, k, (m - 1) as nat);
        lemma_met_step(g, forward, s, (k + m - 1) as nat);
        assert(met(g, forward, s, k + m) =~= met(g, forward, s, k));
    }
}

proof fn lemma_push_set(v: Seq<Seq<char>>, b: Seq<char>)
    ensures
        v.push(b).to_set() == v.to_set().insert(b),
{
    assert forall|a: Seq<char>| v.push(b).contains(a) <==> v.to_set().insert(b).contains(a) by {
        if v.push(b).contains(a) {
            let i = choose|i: int| 0 <= i < v.push(b).len() && v.push(b)[i] == a;
            if i < v.len() {
                assert(v[i] == a);
            }
        }
        if v.contains(a) {
            let i = choose|i: int| 0 <= i < v.len() && v[i] == a;
            assert(v.push(b)[i] == a);
        }
        if a == b {
            assert(v.push(b)[v.len() as int] == b);
        }
    }
    assert(v.push(b).to_set() =~= v.to_set().insert(b));
}

proof fn lemma_filter_no_dup(s: Seq<Seq<char>>, pred: spec_fn(Seq<char>) -> bool)
    requires
        s.no_duplicates(),
    ensures
        s.filter(pred).no_duplicates(),
    decreases s.len(),
{
    if s.len() > 0 {
        let init = s.drop_last();
        let last = s.last();
        assert(init.no_duplicates()) by {
            assert forall|p: int, q: int| 0 <= p < q < init.len() implies init[p] != init[q] by {
                assert(s[p] != s[q]);
            }
        }
        lemma_filter_no_dup(init, pred);
        assert(s =~= init.push(last));
        init.lemma_filter_push(last, pred);
        if pred(last) {
            let fi = init.filter(pred);
            assert(!fi.contains(last)) by {
                if fi.contains(last) {
                    init.lemma_filter_contains_rev(pred, last);
                    let i = choose|i: int| 0 <= i < init.len() && init[i] == last;
                    assert(s[i] == s[s.len() - 1]);
                }
            }
            assert forall|p: int, q: int| 0 <= p < q < fi.push(last).len() implies fi.push(last)[p] != fi.push(last)[q] by {
                if q == fi.len() {
                    assert(fi.contains(fi[p]));
                }
            }
        }
    }
}

fn contains_key(v: &Vec<String>, k: &String) -> (r: bool)
    ensures
        r == crate::ordered::text_views(v@).contains(k@),
{
    crate::ordered::contains_text(v, k.as_str())
}

/// The traversal state after some rounds: the ids met so far (start
/// first), the reported keys (the met ids the graph holds, in meeting
/// order), and the rows.
pub open spec fn rows_ok(g: &Graph, forward: bool, s: Seq<char>, visited: Seq<Seq<char>>, ks: Seq<Seq<char>>, out: Seq<(&Node, i64)>, bound: int) -> bool {
    &&& visited.len() >= 1
    &&& visited[0] == s
    &&& visited.no_duplicates()
    &&& ks == visited.drop_first().filter(|k: Seq<char>| has_key(g.nodes@, k))
    &&& ks.len() == out.len()
    &&& forall|i: int, j: int| 0 <= i < j < out.len() ==> #[trigger] out[i].1 <= #[trigger] out[j].1
    &&& forall|j: int| 0 <= j < ks.len() ==> {
        &&& lookup(g.nodes@, #[trigger] ks[j]) == Some(*out[j].0)
        &&& 1 <= out[j].1 <= bound
        &&& met(g, forward, s, out[j].1 as nat).contains(ks[j])
        &&& !met(g, forward, s, (out[j].1 - 1) as nat).contains(ks[j])
    }
}

/// `seen`, then each of `ys` not met before, in order.
pub open spec fn meet_in_order(seen: Seq<Seq<char>>, ys: Seq<Seq<char>>) -> Seq<Seq<char>>
    decreases ys.len(),
{
    if ys.len() == 0 {
        seen
    } else {
        let prev = meet_in_order(seen, ys.drop_last());
        if prev.contains(ys.last()) {
            prev
        } else {
            prev.push(ys.last())
        }
    }
}

/// The edges one hop out of `s`, in edge order.
pub open spec fn hop_edges(g: &Graph, forward: bool, s: Seq<char>) -> Seq<Edge> {
    if forward {
        g.edges@.filter(|e: Edge| is_dependency_edge(g, s, e))
    } else {
        g.edges@.filter(|e: Edge| is_dependent_edge(g, s, e))
    }
}

pub open spec fn far_ends(es: Seq<Edge>, forward: bool) -> Seq<Seq<char>> {
    es.map_values(|e: Edge| far_end(e, forward))
}

/// The ids one hop from `s` that the graph holds, other than `s`, each
/// once, in the order of the first edge that leads there.
pub open spec fn first_hop_ids(g: &Graph, forward: bool, s: Seq<char>) -> Seq<Seq<char>> {
    meet_in_order(seq![s], far_ends(hop_edges(g, forward, s), forward)).drop_first().filter(|k: Seq<char>| has_key(g.nodes@, k))
}

/// The far ends of the hop edges of each of `xs`, in turn.
pub open spec fn hop_ends(g: &Graph, forward: bool, xs: Seq<Seq<char>>) -> Seq<Seq<char>>
    decreases xs.len(),
{
    if xs.len() == 0 {
        Seq::empty()
    } else {
        hop_ends(g, forward, xs.drop_last()) + far_ends(hop_edges(g, forward, xs.last()), forward)
    }
}

/// Breadth-first order after `d` rounds: the ids met so far, in the order
/// they were met (the start first), and the frontier, the ids of the graph
/// first met in the last round. Each round meets, in order, the far ends of
/// the hop edges of each frontier id in turn.
pub open spec fn bfs_state(g: &Graph, forward: bool, s: Seq<char>, d: nat) -> (Seq<Seq<char>>, Seq<Seq<char>>)
    decreases d,
{
    if d == 0 {
        (seq![s], seq![s])
    } else {
        let (v, fr) = bfs_state(g, forward, s, (d - 1) as nat);
        let v2 = meet_in_order(v, hop_ends(g, forward, fr));
        (v2, v2.skip(v.len() as int).filter(|k: Seq<char>| has_key(g.nodes@, k)))
    }
}

/// Once a frontier is empty, further rounds change nothing.
proof fn lemma_bfs_settled(g: &Graph, forward: bool, s: Seq<char>, d: nat, extra: nat)
    requires
        bfs_state(g, forward, s, d).1.len() == 0,
    ensures
        bfs_state(g, forward, s, d + extra) == bfs_state(g, forward, s, d),
    decreases extra,
{
    if extra > 0 {
        lemma_bfs_settled(g, forward, s, d, (extra - 1) as nat);
        let (v, fr) = bfs_state(g, forward, s, (d + extra - 1) as nat);
        assert(hop_ends(g, forward, fr) =~= Seq::<Seq<char>>::empty());
        assert(v.skip(v.len() as int) =~= Seq::<Seq<char>>::empty());
        assert(Seq::<Seq<char>>::empty().filter(|k: Seq<char>| has_key(g.nodes@, k)) =~= Seq::<Seq<char>>::empty());
    }
}

/// The rows at hop count 1 come first, and are `first_hop_ids` in order.
pub open spec fn first_hops_first(g: &Graph, forward: bool, s: Seq<char>, ks: Seq<Seq<char>>, r: Seq<(&Node, i64)>) -> bool {
    let l1 = first_hop_ids(g, forward, s);
    &&& ks.len() >= l1.len()
    &&& ks.take(l1.len() as int) == l1
    &&& forall|j: int| 0 <= j < r.len() ==> ((#[trigger] r[j]).1 == 1 <==> j < l1.len())
}

fn traverse<'a>(graph: &'a Graph, node_id: &str, max_depth: i64, forward: bool) -> (r: Vec<(&'a Node, i64)>)
    ensures
        traversal_ok(graph, forward, node_id@, max_depth, r@),
{
    let s = node_id.to_owned();
    let ghost D = depth_limit(max_depth);
    let mut visited: Vec<String> = Vec::new();
    visited.push(s.clone());
    let mut frontier: Vec<String> = Vec::new();
    frontier.push(s.clone());
    let mut out: Vec<(&'a Node, i64)> = Vec::new();
    let ghost mut ks: Seq<Seq<char>> = Seq::empty();
    let mut depth: i64 = 0;
    proof {
        let vv = crate::ordered::text_views(visited@);
        assert(vv =~= seq![s@]);
        assert(vv[0] == s@);
        assert(vv.to_set() =~= met(graph, forward, s@, 0));
        assert(vv.drop_first() =~= Seq::<Seq<char>>::empty());
        assert(vv.drop_first().filter(|k: Seq<char>| has_key(graph.nodes@, k)) =~= Seq::<Seq<char>>::empty());
        assert(crate::ordered::text_views(frontier@) =~= seq![s@]);
    }
    while depth < max_depth && frontier.len() > 0
        invariant
            s@ == node_id@,
            D == depth_limit(max_depth),
            0 <= depth <= D,
            rows_ok(graph, forward, s@, crate::ordered::text_views(visited@), ks, out@, depth as int),
            depth == 0 ==> crate::ordered::text_views(frontier@) == seq![s@] && crate::ordered::text_views(visited@) == seq![s@],
            depth >= 1 ==> first_hops_first(graph, forward, s@, ks, out@),
            crate::ordered::text_views(visited@) == bfs_state(graph, forward, s@, depth as nat).0,
            crate::ordered::text_views(frontier@) == bfs_state(graph, forward, s@, depth as nat).1,
            crate::ordered::text_views(visited@).to_set() == met(graph, forward, s@, depth as nat),
            forall|x: Seq<char>| #[trigger] crate::ordered::text_views(frontier@).contains(x)
                ==> crate::ordered::text_views(visited@).contains(x) && expandable(graph, s@, x),
            forall|x: Seq<char>| #[trigger] crate::ordered::text_views(visited@).contains(x) && expandable(graph, s@, x)
                && !crate::ordered::text_views(frontier@).contains(x)
                ==> steps_from(graph, forward, s@, set![x]).subset_of(met(graph, forward, s@, depth as nat)),
        decreases D - depth,
    {
        let ghost w0 = met(graph, forward, s@, depth as nat);
        let ghost fv = crate::ordered::text_views(frontier@);
        let ghost oldv = crate::ordered::text_views(visited@);
        let mut next: Vec<String> = Vec::new();
        proof {
            let keep = |k: Seq<char>| has_key(graph.nodes@, k);
            assert forall|j: int| 0 <= j < ks.len() implies w0.contains(#[trigger] ks[j]) by {
                assert(ks.contains(ks[j]));
                oldv.drop_first().lemma_filter_contains_rev(keep, ks[j]);
                let i = choose|i: int| 0 <= i < oldv.drop_first().len() && oldv.drop_first()[i] == ks[j];
                assert(oldv[i + 1] == ks[j]);
                assert(oldv.to_set().contains(ks[j]));
            }
            assert(crate::ordered::text_views(next@) =~= Seq::<Seq<char>>::empty());
            assert(fv.take(0) =~= Seq::<Seq<char>>::empty());
            assert(oldv.skip(oldv.len() as int) =~= Seq::<Seq<char>>::empty());
            assert(Seq::<Seq<char>>::empty().filter(keep) =~= Seq::<Seq<char>>::empty());
        }
        let mut f: usize = 0;
        while f < frontier.len()
            invariant
                s@ == node_id@,
                0 <= depth < max_depth,
                w0 == met(graph, forward, s@, depth as nat),
                fv == crate::ordered::text_views(frontier@),
                f <= frontier@.len(),
                oldv.to_set() == w0,
                forall|x: Seq<char>| #[trigger] fv.contains(x) ==> oldv.contains(x) && expandable(graph, s@, x),
                forall|x: Seq<char>| #[trigger] oldv.contains(x) && expandable(graph, s@, x) && !fv.contains(x)
                    ==> steps_from(graph, forward, s@, set![x]).subset_of(w0),
                rows_ok(graph, forward, s@, crate::ordered::text_views(visited@), ks, out@, depth + 1),
                depth == 0 ==> fv == seq![s@],
                depth == 0 && f == 0 ==> crate::ordered::text_views(visited@) == seq![s@],
                depth == 0 && f >= 1 ==> crate::ordered::text_views(visited@) == meet_in_order(seq![s@], far_ends(hop_edges(graph, forward, s@), forward)),
                depth >= 1 ==> first_hops_first(graph, forward, s@, ks, out@),
                crate::ordered::text_views(visited@) == meet_in_order(oldv, hop_ends(graph, forward, fv.take(f as int))),
                crate::ordered::text_views(next@) == crate::ordered::text_views(visited@).skip(oldv.len() as int).filter(|k: Seq<char>| has_key(graph.nodes@, k)),
                oldv.len() <= crate::ordered::text_views(visited@).len(),
                w0.subset_of(crate::ordered::text_views(visited@).to_set()),
                forall|y: Seq<char>| #[trigger] crate::ordered::text_views(next@).contains(y)
                    ==> crate::ordered::text_views(visited@).contains(y) && has_key(graph.nodes@, y) && !w0.contains(y),
                forall|y: Seq<char>| crate::ordered::text_views(visited@).to_set().contains(y) && !w0.contains(y)
                    ==> #[trigger] steps_from(graph, forward, s@, fv.to_set()).contains(y),
                forall|y: Seq<char>| crate::ordered::text_views(visited@).to_set().contains(y) && !w0.contains(y) && has_key(graph.nodes@, y)
                    ==> #[trigger] crate::ordered::text_views(next@).contains(y),
                forall|j: int| 0 <= j < f ==> steps_from(graph, forward, s@, set![#[trigger] fv[j]]).subset_of(
                    crate::ordered::text_views(visited@).to_set(),
                ),
                forall|j: int| 0 <= j < ks.len() && !w0.contains(#[trigger] ks[j]) ==> out@[j].1 == depth + 1,
            decreases frontier@.len() - f,
        {
            let current = &frontier[f];
            let edges = if forward {
                dependencies_of(graph, current.as_str())
            } else {
                dependents_of(graph, current.as_str())
            };
            let ghost pred = if forward {
                |e: Edge| is_dependency_edge(graph, current@, e)
            } else {
                |e: Edge| is_dependent_edge(graph, current@, e)
            };
            assert(derefs(edges@) == graph.edges@.filter(pred));
            proof {
                if depth == 0 {
                    assert(far_ends(derefs(edges@).take(0), forward) =~= Seq::<Seq<char>>::empty());
                }
                assert(far_ends(derefs(edges@).take(0), forward) =~= Seq::<Seq<char>>::empty());
                let a0 = hop_ends(graph, forward, fv.take(f as int));
                assert(a0 + far_ends(derefs(edges@).take(0), forward) =~= a0);
                assert(current@ == fv[f as int]);
                if forward {
                    assert(pred =~= (|e: Edge| is_dependency_edge(graph, fv[f as int], e)));
                } else {
                    assert(pred =~= (|e: Edge| is_dependent_edge(graph, fv[f as int], e)));
                }
                assert(derefs(edges@) == hop_edges(graph, forward, fv[f as int]));
            }
            let mut k: usize = 0;
            while k < edges.len()
                invariant
                    s@ == node_id@,
                    0 <= depth < max_depth,
                    w0 == met(graph, forward, s@, depth as nat),
                    fv == crate::ordered::text_views(frontier@),
                    f < frontier@.len(),
                    current@ == fv[f as int],
                    oldv.to_set() == w0,
                    forall|x: Seq<char>| #[trigger] fv.contains(x) ==> oldv.contains(x) && expandable(graph, s@, x),
                    forall|x: Seq<char>| #[trigger] oldv.contains(x) && expandable(graph, s@, x) && !fv.contains(x)
                        ==> steps_from(graph, forward, s@, set![x]).subset_of(w0),
                    derefs(edges@) == graph.edges@.filter(pred),
                    pred == (if forward {
                        |e: Edge| is_dependency_edge(graph, current@, e)
                    } else {
                        |e: Edge| is_dependent_edge(graph, current@, e)
                    }),
                    k <= edges@.len(),
                    rows_ok(graph, forward, s@, crate::ordered::text_views(visited@), ks, out@, depth + 1),
                    depth == 0 ==> fv == seq![s@] && f == 0
                        && crate::ordered::text_views(visited@) == meet_in_order(seq![s@], far_ends(derefs(edges@).take(k as int), forward)),
                    depth >= 1 ==> first_hops_first(graph, forward, s@, ks, out@),
                    derefs(edges@) == hop_edges(graph, forward, fv[f as int]),
                    crate::ordered::text_views(visited@) == meet_in_order(oldv, hop_ends(graph, forward, fv.take(f as int)) + far_ends(derefs(edges@).take(k as int), forward)),
                    crate::ordered::text_views(next@) == crate::ordered::text_views(visited@).skip(oldv.len() as int).filter(|k: Seq<char>| has_key(graph.nodes@, k)),
                    oldv.len() <= crate::ordered::text_views(visited@).len(),
                    w0.subset_of(crate::ordered::text_views(visited@).to_set()),
                    forall|y: Seq<char>| #[trigger] crate::ordered::text_views(next@).contains(y)
                        ==> crate::ordered::text_views(visited@).contains(y) && has_key(graph.nodes@, y) && !w0.contains(y),
                    forall|y: Seq<char>| crate::ordered::text_views(visited@).to_set().contains(y) && !w0.contains(y)
                        ==> #[trigger] steps_from(graph, forward, s@, fv.to_set()).contains(y),
                    forall|y: Seq<char>| crate::ordered::text_views(visited@).to_set().contains(y) && !w0.contains(y) && has_key(graph.nodes@, y)
                        ==> #[trigger] crate::ordered::text_views(next@).contains(y),
                    forall|j: int| 0 <= j < f ==> steps_from(graph, forward, s@, set![#[trigger] fv[j]]).subset_of(
                        crate::ordered::text_views(visited@).to_set(),
                    ),
                    forall|j: int| 0 <= j < k ==> crate::ordered::text_views(visited@).to_set().contains(
                        #[trigger] far_end(derefs(edges@)[j], forward),
                    ),
                    forall|j: int| 0 <= j < ks.len() && !w0.contains(#[trigger] ks[j]) ==> out@[j].1 == depth + 1,
                decreases edges@.len() - k,
            {
                let edge = edges[k];
                let next_id = if forward { &edge.target } else { &edge.source };
                let ghost y = next_id@;
                let ghost vb = crate::ordered::text_views(visited@);
                proof {
                    assert(derefs(edges@)[k as int] == *edge);
                    graph.edges@.lemma_filter_pred(pred, k as int);
                    assert(graph.edges@.filter(pred).contains(*edge)) by {
                        assert(graph.edges@.filter(pred)[k as int] == *edge);
                    }
                    graph.edges@.lemma_filter_contains_rev(pred, *edge);
                    let ei = choose|ei: int| 0 <= ei < graph.edges@.len() && graph.edges@[ei] == *edge;
                    assert(hop_edge(graph, forward, current@, y, graph.edges@[ei]));
                    assert(hop(graph, forward, current@, y));
                    assert(fv.contains(fv[f as int]));
                    assert(fv.to_set().contains(current@));
                    assert(steps_from(graph, forward, s@, fv.to_set()).contains(y));
                }
                if !contains_key(&visited, next_id) {
                    let ghost vv = crate::ordered::text_views(visited@);
                    let ghost nv = crate::ordered::text_views(next@);
                    let ghost ov = out@;
                    let ghost ks0 = ks;
                    visited.push(next_id.clone());
                    proof {
                        assert(crate::ordered::text_views(visited@) =~= vv.push(y));
                        lemma_push_set(vv, y);
                        assert(!vv.to_set().contains(y));
                        assert(!w0.contains(y));
                        assert(vv.push(y).drop_first() =~= vv.drop_first().push(y));
                        vv.drop_first().lemma_filter_push(y, |k: Seq<char>| has_key(graph.nodes@, k));
                        lemma_met_step(graph, forward, s@, depth as nat);
                        assert(steps_from(graph, forward, s@, w0).contains(y)) by {
                            assert(w0.contains(current@));
                            assert(expandable(graph, s@, current@));
                        }
                    }
                    match get(&graph.nodes, next_id) {
                        Some(n) => {
                            out.push((n, depth + 1));
                            next.push(next_id.clone());
                            proof {
                                crate::keyed::lemma_lookup_some(graph.nodes@, y);
                                crate::keyed::lemma_has_key_lookup(graph.nodes@, y);
                                ks = ks.push(y);
                                assert(crate::ordered::text_views(next@) =~= nv.push(y));
                                lemma_push_set(nv, y);
                                if depth >= 1 {
                                    let l1 = first_hop_ids(graph, forward, s@);
                                    assert(ks.take(l1.len() as int) =~= ks0.take(l1.len() as int));
                                    assert forall|j: int| 0 <= j < out@.len() implies ((#[trigger] out@[j]).1 == 1 <==> j < l1.len()) by {
                                        if j < ov.len() {
                                            assert(out@[j] == ov[j]);
                                        }
                                    }
                                }
                            }
                        },
                        None => {
                            proof {
                                crate::keyed::lemma_has_key_lookup(graph.nodes@, y);
                            }
                        },
                    }
                    proof {
                        let vw = crate::ordered::text_views(visited@);
                        assert(vw[0] == s@);
                        assert(vw.no_duplicates()) by {
                            assert forall|p: int, q: int| 0 <= p < q < vw.len() implies vw[p] != vw[q] by {
                                if q == vv.len() {
                                    assert(vv[p] == vw[p]);
                                    assert(vv.contains(vw[p]));
                                } else {
                                    assert(vv[p] == vw[p] && vv[q] == vw[q]);
                                }
                            }
                        }
                        assert forall|i: int, j: int| 0 <= i < j < out@.len() implies #[trigger] out@[i].1 <= #[trigger] out@[j].1 by {
                            if j >= ov.len() {
                                assert(out@[i] == ov[i]);
                                assert(lookup(graph.nodes@, ks0[i]) == Some(*ov[i].0));
                                assert(ov[i].1 <= depth + 1);
                            } else {
                                assert(out@[i] == ov[i] && out@[j] == ov[j]);
                            }
                        }
                        assert forall|j: int| 0 <= j < ks.len() implies {
                            &&& lookup(graph.nodes@, #[trigger] ks[j]) == Some(*out@[j].0)
                            &&& 1 <= out@[j].1 <= depth + 1
                            &&& met(graph, forward, s@, out@[j].1 as nat).contains(ks[j])
                            &&& !met(graph, forward, s@, (out@[j].1 - 1) as nat).contains(ks[j])
                        } by {
                            if j < ks0.len() {
                                assert(ks[j] == ks0[j] && out@[j] == ov[j]);
                            } else {
                                assert(ks[j] == y);
                                assert((depth + 1 - 1) as nat == depth as nat);
                            }
                        }
                        assert forall|j: int| 0 <= j < ks.len() && !w0.contains(#[trigger] ks[j]) implies out@[j].1 == depth + 1 by {
                            if j < ks0.len() {
                                assert(ks[j] == ks0[j] && out@[j] == ov[j]);
                            }
                        }
                        assert forall|z: Seq<char>| #[trigger] crate::ordered::text_views(next@).contains(z)
                            implies crate::ordered::text_views(visited@).contains(z) && has_key(graph.nodes@, z) && !w0.contains(z) by {
                            if z != y {
                                assert(nv.to_set().contains(z) || crate::ordered::text_views(next@).to_set().contains(z));
                                assert(nv.contains(z));
                                assert(vv.contains(z));
                                assert(vw.to_set().contains(z));
                            } else {
                                assert(vw[vv.len() as int] == y);
                            }
                        }
                        assert forall|z: Seq<char>| vw.to_set().contains(z) && !w0.contains(z) && has_key(graph.nodes@, z)
                            implies #[trigger] crate::ordered::text_views(next@).contains(z) by {
                            if z == y {
                                assert(crate::ordered::text_views(next@).to_set().contains(y));
                            } else {
                                assert(vv.to_set().contains(z));
                                assert(nv.contains(z));
                                assert(crate::ordered::text_views(next@).to_set().contains(z));
                            }
                        }
                        assert(w0.subset_of(vw.to_set())) by {
                            assert forall|z: Seq<char>| w0.contains(z) implies vw.to_set().contains(z) by {
                                assert(vv.to_set().contains(z));
                            }
                        }
                    }
                }
                proof {
                    let keep = |k: Seq<char>| has_key(graph.nodes@, k);
                    let a0 = hop_ends(graph, forward, fv.take(f as int));
                    let ab = a0 + far_ends(derefs(edges@).take(k + 1), forward);
                    assert(ab.drop_last() =~= a0 + far_ends(derefs(edges@).take(k as int), forward));
                    assert(ab.last() == y);
                    let vw = crate::ordered::text_views(visited@);
                    if vb.contains(y) {
                        assert(vw == vb);
                    } else {
                        assert(vw =~= vb.push(y));
                        assert(vw.skip(oldv.len() as int) =~= vb.skip(oldv.len() as int).push(y));
                        vb.skip(oldv.len() as int).lemma_filter_push(y, keep);
                    }
                    if depth == 0 {
                        let fe = far_ends(derefs(edges@).take(k + 1), forward);
                        assert(fe.drop_last() =~= far_ends(derefs(edges@).take(k as int), forward));
                        assert(fe.last() == y);
                        if vb.contains(y) {
                            assert(crate::ordered::text_views(visited@) == vb);
                        } else {
                            assert(crate::ordered::text_views(visited@) =~= vb.push(y));
                        }
                    }
                    assert(y == far_end(derefs(edges@)[k as int], forward));
                    assert(crate::ordered::text_views(visited@).to_set().contains(y)) by {
                        if crate::ordered::text_views(visited@).contains(y) {
                        }
                    }
                }
                k += 1;
            }
            proof {
                assert(derefs(edges@).take(edges@.len() as int) =~= derefs(edges@));
                assert(fv.take(f + 1).drop_last() =~= fv.take(f as int));
                assert(fv.take(f + 1).last() == fv[f as int]);
                if depth == 0 {
                    assert(derefs(edges@).take(edges@.len() as int) =~= derefs(edges@));
                    assert(current@ == s@);
                    if forward {
                        assert(pred =~= (|e: Edge| is_dependency_edge(graph, s@, e)));
                    } else {
                        assert(pred =~= (|e: Edge| is_dependent_edge(graph, s@, e)));
                    }
                    assert(derefs(edges@) == hop_edges(graph, forward, s@));
                }
            }
            proof {
                assert forall|y: Seq<char>| #[trigger] steps_from(graph, forward, s@, set![fv[f as int]]).contains(y)
                    implies crate::ordered::text_views(visited@).to_set().contains(y) by {
                    let x = choose|x: Seq<char>| set![fv[f as int]].contains(x) && expandable(graph, s@, x) && hop(graph, forward, x, y);
                    let ei = choose|ei: int| 0 <= ei < graph.edges@.len() && #[trigger] hop_edge(graph, forward, x, y, graph.edges@[ei]);
                    assert(pred(graph.edges@[ei]));
                    graph.edges@.lemma_filter_contains(pred, ei);
                    let fi = choose|fi: int| 0 <= fi < graph.edges@.filter(pred).len() && graph.edges@.filter(pred)[fi] == graph.edges@[ei];
                    assert(derefs(edges@)[fi] == graph.edges@[ei]);
                    assert(far_end(derefs(edges@)[fi], forward) == y);
                }
            }
            f += 1;
        }
        proof {
            assert(fv.take(fv.len() as int) =~= fv);
            assert(((depth + 1) as nat - 1) as nat == depth as nat);
            if depth == 0 {
                let l1 = first_hop_ids(graph, forward, s@);
                assert(ks == l1);
                assert(ks.take(l1.len() as int) =~= l1);
                assert forall|j: int| 0 <= j < out@.len() implies ((#[trigger] out@[j]).1 == 1 <==> j < l1.len()) by {
                    assert(lookup(graph.nodes@, ks[j]) == Some(*out@[j].0));
                }
            }
        }
        proof {
            lemma_met_step(graph, forward, s@, depth as nat);
            let w1 = met(graph, forward, s@, (depth + 1) as nat);
            let vw = crate::ordered::text_views(visited@);
            assert forall|y: Seq<char>| #[trigger] vw.to_set().contains(y) implies w1.contains(y) by {
                if !w0.contains(y) {
                    assert(steps_from(graph, forward, s@, fv.to_set()).contains(y));
                    let x = choose|x: Seq<char>| fv.to_set().contains(x) && expandable(graph, s@, x) && hop(graph, forward, x, y);
                    assert(fv.contains(x));
                    assert(oldv.contains(x));
                    assert(w0.contains(x));
                }
            }
            assert forall|y: Seq<char>| #[trigger] w1.contains(y) implies vw.to_set().contains(y) by {
                if !w0.contains(y) {
                    let x = choose|x: Seq<char>| w0.contains(x) && expandable(graph, s@, x) && hop(graph, forward, x, y);
                    assert(set![x].contains(x));
                    assert(steps_from(graph, forward, s@, set![x]).contains(y));
                    assert(oldv.to_set().contains(x));
                    assert(oldv.contains(x));
                    if fv.contains(x) {
                        let j = choose|j: int| 0 <= j < fv.len() && fv[j] == x;
                        assert(steps_from(graph, forward, s@, set![fv[j]]).subset_of(vw.to_set()));
                    } else {
                        assert(steps_from(graph, forward, s@, set![x]).subset_of(w0));
                    }
                }
            }
            assert(vw.to_set() =~= w1);
        }
        frontier = next;
        depth += 1;
        proof {
            let vw = crate::ordered::text_views(visited@);
            assert forall|x: Seq<char>| #[trigger] vw.contains(x) && expandable(graph, s@, x) && !crate::ordered::text_views(frontier@).contains(x)
                implies steps_from(graph, forward, s@, set![x]).subset_of(met(graph, forward, s@, depth as nat)) by {
                assert(vw.to_set().contains(x));
                if fv.contains(x) {
                    let j = choose|j: int| 0 <= j < fv.len() && fv[j] == x;
                } else if w0.contains(x) {
                    assert(oldv.to_set().contains(x));
                    assert(oldv.contains(x));
                    assert(steps_from(graph, forward, s@, set![x]).subset_of(w0));
                } else {
                    // met this round: it is either in the next frontier or not a node
                    if has_key(graph.nodes@, x) {
                        assert(crate::ordered::text_views(frontier@).contains(x));
                    } else {
                        assert(x != s@) by {
                            assert(w0.contains(s@));
                        }
                    }
                }
            }
        }
    }
    proof {
        let vw = crate::ordered::text_views(visited@);
        let dd = depth as nat;
        if frontier.len() == 0 {
            assert(steps_from(graph, forward, s@, met(graph, forward, s@, dd)).subset_of(met(graph, forward, s@, dd))) by {
                assert forall|y: Seq<char>| #[trigger] steps_from(graph, forward, s@, met(graph, forward, s@, dd)).contains(y)
                    implies met(graph, forward, s@, dd).contains(y) by {
                    let x = choose|x: Seq<char>| met(graph, forward, s@, dd).contains(x) && expandable(graph, s@, x) && hop(graph, forward, x, y);
                    assert(vw.to_set().contains(x));
                    assert(vw.contains(x));
                    assert(set![x].contains(x));
                    assert(steps_from(graph, forward, s@, set![x]).contains(y));
                }
            }
            lemma_met_closed(graph, forward, s@, dd, (D - dd) as nat);
        }
        assert(met(graph, forward, s@, D) == met(graph, forward, s@, dd));
        if frontier.len() == 0 {
            lemma_bfs_settled(graph, forward, s@, dd, (D - dd) as nat);
        }
        assert(bfs_state(graph, forward, s@, D) == bfs_state(graph, forward, s@, dd));
        let keep = |k: Seq<char>| has_key(graph.nodes@, k);
        assert(ks.no_duplicates()) by {
            assert(vw.drop_first().no_duplicates()) by {
                assert forall|p: int, q: int| 0 <= p < q < vw.drop_first().len() implies vw.drop_first()[p] != vw.drop_first()[q] by {
                    assert(vw[p + 1] != vw[q + 1]);
                }
            }
            lemma_filter_no_dup(vw.drop_first(), keep);
        }
        assert(ks.to_set() =~= met(graph, forward, s@, D).filter(|k: Seq<char>| k != s@ && has_key(graph.nodes@, k))) by {
            assert forall|z: Seq<char>| ks.to_set().contains(z) <==> met(graph, forward, s@, D).filter(|k: Seq<char>| k != s@ && has_key(graph.nodes@, k)).contains(z) by {
                if ks.contains(z) {
                    vw.drop_first().lemma_filter_contains_rev(keep, z);
                    let i = choose|i: int| 0 <= i < vw.drop_first().len() && vw.drop_first()[i] == z;
                    assert(vw[i + 1] == z);
                    assert(vw[0] == s@);
                    assert(vw.to_set().contains(z));
                }
                if met(graph, forward, s@, D).contains(z) && z != s@ && has_key(graph.nodes@, z) {
                    assert(vw.to_set().contains(z));
                    let i = choose|i: int| 0 <= i < vw.len() && vw[i] == z;
                    assert(i != 0);
                    assert(vw.drop_first()[i - 1] == z);
                    vw.drop_first().lemma_filter_contains(keep, i - 1);
                }
            }
        }
        assert forall|j: int| 0 <= j < ks.len() implies #[trigger] ks[j] != s@ by {
            assert(ks.contains(ks[j]));
            vw.drop_first().lemma_filter_contains_rev(keep, ks[j]);
            let i = choose|i: int| 0 <= i < vw.drop_first().len() && vw.drop_first()[i] == ks[j];
            assert(vw[i + 1] == ks[j]);
            assert(vw[0] == s@);
        }
        assert(reached_ids(graph, forward, s@, max_depth, out@, ks));
    }
    out
}

/// Transitive dependents up to `max_depth` hops (breadth-first over reverse
/// edges).
pub fn transitive_dependents<'a>(graph: &'a Graph, node_id: &str, max_depth: i64) -> (r: Vec<(&'a Node, i64)>)
    ensures
        traversal_ok(graph, false, node_id@, max_depth, r@),
{
    traverse(graph, node_id, max_depth, false)
}

/// Transitive dependencies up to `max_depth` hops (breadth-first over
/// forward edges).
pub fn transitive_dependencies<'a>(graph: &'a Graph, node_id: &str, max_depth: i64) -> (r: Vec<(&'a Node, i64)>)
    ensures
        traversal_ok(graph, true, node_id@, max_depth, r@),
{
    traverse(graph, node_id, max_depth, true)
}

} // verus!
