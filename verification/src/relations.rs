//! The import inversion read as a graph: which files reach which along
//! import edges, and which files reach the most.
//!
//! An edge says that `importer` imports `target`. Read backward (who depends
//! on this file) a walk steps from a target to its importers; read forward
//! (what this file depends on) it steps from an importer to its targets.

use crate::architecture::{file_to_module, file_to_module_spec, is_python};
use crate::ordered::{contains_text, lemma_text_lt_asymmetric, lemma_text_lt_total, lemma_text_lt_transitive, text_less, text_lt, text_views};
use crate::labels::Reach;
use crate::text::{concat, str_eq};
use vstd::prelude::*;

verus! {

broadcast use vstd::string::group_string_axioms;

/// The addressable id of a declaration.
pub fn symbol_id(file: &str, name: &str) -> (r: String)
    ensures
        r@ == file@ + "::"@ + name@,
{
    let a = concat(file, "::");
    concat(a.as_str(), name)
}

/// The addressable id of a file's module.
pub fn module_id(file: &str, language: Option<&str>) -> (r: String)
    ensures
        r@ == "module::"@ + file_to_module_spec(file@, is_python(language)),
{
    let m = file_to_module(file, language);
    concat("module::", m.as_str())
}

pub const CONFIDENCE_EXTRACTED: &'static str = "EXTRACTED";

pub const CONFIDENCE_INFERRED: &'static str = "INFERRED";

pub const CONFIDENCE_AMBIGUOUS: &'static str = "AMBIGUOUS";

/// A confidence class by its stored ordinal.
pub fn confidence_code(confidence: &str) -> (r: u64)
    ensures
        r == if confidence@ == CONFIDENCE_EXTRACTED@ {
            0u64
        } else if confidence@ == CONFIDENCE_INFERRED@ {
            1u64
        } else {
            2u64
        },
{
    if str_eq(confidence, CONFIDENCE_EXTRACTED) {
        0
    } else if str_eq(confidence, CONFIDENCE_INFERRED) {
        1
    } else {
        2
    }
}

/// The confidence class a stored ordinal stands for.
pub fn confidence_name(code: u64) -> (r: &'static str)
    ensures
        r@ == if code == 0 {
            CONFIDENCE_EXTRACTED@
        } else if code == 1 {
            CONFIDENCE_INFERRED@
        } else {
            CONFIDENCE_AMBIGUOUS@
        },
{
    if code == 0 {
        CONFIDENCE_EXTRACTED
    } else if code == 1 {
        CONFIDENCE_INFERRED
    } else {
        CONFIDENCE_AMBIGUOUS
    }
}

/// Storing a confidence class as its ordinal and reading it back gives the
/// class again.
pub proof fn confidence_round_trip(c: Seq<char>)
    requires
        c == CONFIDENCE_EXTRACTED@ || c == CONFIDENCE_INFERRED@ || c == CONFIDENCE_AMBIGUOUS@,
    ensures
        ({
            let code: u64 = if c == CONFIDENCE_EXTRACTED@ {
                0
            } else if c == CONFIDENCE_INFERRED@ {
                1
            } else {
                2
            };
            (if code == 0 {
                CONFIDENCE_EXTRACTED@
            } else if code == 1 {
                CONFIDENCE_INFERRED@
            } else {
                CONFIDENCE_AMBIGUOUS@
            }) == c
        }),
{
    reveal_strlit("EXTRACTED");
    reveal_strlit("INFERRED");
    reveal_strlit("AMBIGUOUS");
    assert(CONFIDENCE_AMBIGUOUS@ != CONFIDENCE_EXTRACTED@) by {
        assert(CONFIDENCE_AMBIGUOUS@[0] != CONFIDENCE_EXTRACTED@[0]);
    }
    assert(CONFIDENCE_AMBIGUOUS@ != CONFIDENCE_INFERRED@) by {
        assert(CONFIDENCE_AMBIGUOUS@[0] != CONFIDENCE_INFERRED@[0]);
    }
}

/// One import edge: `importer` imports `target`, naming `symbol` when the
/// import named one.
#[derive(Debug)]
pub struct ImportEdge {
    pub target: String,
    pub importer: String,
    pub symbol: Option<String>,
}

/// The step an edge allows: from its first file to its second.
pub open spec fn step(e: ImportEdge, reach: Reach) -> (Seq<char>, Seq<char>) {
    match reach {
        Reach::Importers => (e.target@, e.importer@),
        Reach::Imports => (e.importer@, e.target@),
    }
}

pub open spec fn hop(edges: Seq<ImportEdge>, reach: Reach, x: Seq<char>, y: Seq<char>) -> bool {
    exists|i: int| 0 <= i < edges.len() && #[trigger] step(edges[i], reach) == (x, y)
}

/// The files reachable from `s` in at most `k` steps, `s` among them.
pub open spec fn within(edges: Seq<ImportEdge>, reach: Reach, s: Seq<char>, k: nat) -> Set<Seq<char>>
    decreases k,
{
    if k == 0 {
        set![s]
    } else {
        let r = within(edges, reach, s, (k - 1) as nat);
        r.union(Set::new(|y: Seq<char>| exists|x: Seq<char>| r.contains(x) && hop(edges, reach, x, y)))
    }
}

/// The files every step from `frontier` leads to.
pub open spec fn successors(edges: Seq<ImportEdge>, reach: Reach, from: Set<Seq<char>>) -> Set<Seq<char>> {
    Set::new(|y: Seq<char>| exists|x: Seq<char>| from.contains(x) && hop(edges, reach, x, y))
}

proof fn lemma_within_step(edges: Seq<ImportEdge>, reach: Reach, s: Seq<char>, k: nat)
    ensures
        within(edges, reach, s, k + 1) == within(edges, reach, s, k).union(successors(edges, reach, within(edges, reach, s, k))),
{
    assert(within(edges, reach, s, k + 1) =~= within(edges, reach, s, k).union(successors(edges, reach, within(edges, reach, s, k))));
}

/// Once no step leaves the reached set, more steps reach nothing new.
proof fn lemma_within_closed(edges: Seq<ImportEdge>, reach: Reach, s: Seq<char>, k: nat, m: nat)
    requires
        successors(edges, reach, within(edges, reach, s, k)).subset_of(within(edges, reach, s, k)),
    ensures
        within(edges, reach, s, k + m) == within(edges, reach, s, k),
    decreases m,
{
    if m > 0 {
        lemma_within_closed(edges, reach, s, k, (m - 1) as nat);
        lemma_within_step(edges, reach, s, (k + m - 1) as nat);
        assert(within(edges, reach, s, (k + m - 1) as nat) == within(edges, reach, s, k));
        assert(within(edges, reach, s, k + m) =~= within(edges, reach, s, k));
    }
}

proof fn lemma_push_set(v: Seq<Seq<char>>, b: Seq<char>)
    ensures
        v.push(b).to_set() == v.to_set().insert(b),
{
    assert forall|a: Seq<char>| v.push(b).contains(a) <==> v.to_set().insert(b).contains(a) by {
        if v.push(b).contains(a) {
            let i = choose|i: int| 0 <= i < v.push(b).len() && v.push(b)[i] == a;
            if i < v.len() {
                assert(v[i] == a);
            }
        }
        if v.contains(a) {
            let i = choose|i: int| 0 <= i < v.len() && v[i] == a;
            assert(v.push(b)[i] == a);
        }
        if a == b {
            assert(v.push(b)[v.len() as int] == b);
        }
    }
    assert(v.push(b).to_set() =~= v.to_set().insert(b));
}

fn step_of(e: &ImportEdge, reach: Reach) -> (r: (&String, &String))
    ensures
        (r.0@, r.1@) == step(*e, reach),
{
    match reach {
        Reach::Importers => (&e.target, &e.importer),
        Reach::Imports => (&e.importer, &e.target),
    }
}

/// One file an import walk reached: how many steps away, and the symbol
/// the reaching import named when it named one.
#[derive(Debug)]
pub struct Reached {
    pub file: String,
    pub depth: i64,
    pub symbol: Option<String>,
}

pub open spec fn reached_files(rows: Seq<Reached>) -> Seq<Seq<char>> {
    rows.map_values(|r: Reached| r.file@)
}

/// How many steps a walk may take: `max_depth`, or none when it is not
/// positive.
pub open spec fn depth_bound(max_depth: i64) -> nat {
    if max_depth > 0 {
        max_depth as nat
    } else {
        0
    }
}

/// A reached row is true of the walk: its file is first reached after
/// exactly `depth` steps, along an edge from a file reached a step before
/// that names the row's symbol.
pub open spec fn row_ok(edges: Seq<ImportEdge>, reach: Reach, s: Seq<char>, r: Reached) -> bool {
    &&& 1 <= r.depth
    &&& within(edges, reach, s, r.depth as nat).contains(r.file@)
    &&& !within(edges, reach, s, (r.depth - 1) as nat).contains(r.file@)
    &&& exists|i: int|
        0 <= i < edges.len() && #[trigger] step(edges[i], reach) == (step(edges[i], reach).0, r.file@)
            && within(edges, reach, s, (r.depth - 1) as nat).contains(step(edges[i], reach).0)
            && crate::blame::opt_view(edges[i].symbol) == crate::blame::opt_view(r.symbol)
}

fn copy_symbol(o: &Option<String>) -> (r: Option<String>)
    ensures
        r == *o,
{
    match o {
        Some(x) => Some(x.clone()),
        None => None,
    }
}

/// The files an import walk from `file` reaches within `max_depth` steps,
/// breadth first: each once, never `file` itself, each at the number of
/// steps it takes to reach it, and with the symbol named by an edge that
/// reached it from the level before.
pub fn reachable_from(edges: &Vec<ImportEdge>, file: &String, max_depth: i64, reach: Reach) -> (r: Vec<Reached>)
    ensures
        (seq![file@] + reached_files(r@)).no_duplicates(),
        (seq![file@] + reached_files(r@)).to_set() == within(edges@, reach, file@, depth_bound(max_depth)),
        r@.len() + 1 == within(edges@, reach, file@, depth_bound(max_depth)).len(),
        forall|j: int| 0 <= j < r@.len() ==> row_ok(edges@, reach, file@, #[trigger] r@[j]) && r@[j].depth <= max_depth,
        forall|p: int, q: int| 0 <= p < q < r@.len() ==> (#[trigger] r@[p]).depth <= (#[trigger] r@[q]).depth,
{
    let s = file;
    let mut out: Vec<Reached> = Vec::new();
    let ghost ev = edges@;
    let ghost depth_goal: nat = depth_bound(max_depth);
    let mut visited: Vec<String> = Vec::new();
    let mut frontier: Vec<String> = Vec::new();
    visited.push(s.clone());
    frontier.push(s.clone());
    let mut depth: i64 = 0;
    assert(text_views(visited@).to_set() =~= within(ev, reach, s@, 0)) by {
        assert(text_views(visited@) =~= seq![s@]);
        assert(text_views(visited@)[0] == s@);
    }
    assert(text_views(frontier@) =~= seq![s@]);
    assert(text_views(visited@) =~= seq![s@] + reached_files(out@));
    while depth < max_depth && frontier.len() > 0
        invariant
            ev == edges@,
            0 <= depth,
            depth_goal == depth_bound(max_depth),
            depth <= depth_goal,
            visited@.len() >= 1,
            text_views(visited@) == seq![s@] + reached_files(out@),
            forall|j: int| 0 <= j < out@.len() ==> row_ok(ev, reach, s@, #[trigger] out@[j]) && out@[j].depth <= depth,
            forall|p: int, q: int| 0 <= p < q < out@.len() ==> (#[trigger] out@[p]).depth <= (#[trigger] out@[q]).depth,
            text_views(visited@).no_duplicates(),
            text_views(visited@).to_set() == within(ev, reach, s@, depth as nat),
            forall|x: Seq<char>| #[trigger] text_views(visited@).contains(x) && !text_views(frontier@).contains(x)
                ==> successors(ev, reach, set![x]).subset_of(within(ev, reach, s@, depth as nat)),
            forall|x: Seq<char>| #[trigger] text_views(frontier@).contains(x) ==> text_views(visited@).contains(x),
        decreases depth_goal - depth,
    {
        let ghost w0 = within(ev, reach, s@, depth as nat);
        let ghost fv = text_views(frontier@);
        let ghost oldv = text_views(visited@);
        assert(fv.to_set().subset_of(w0));
        let mut next: Vec<String> = Vec::new();
        let mut f: usize = 0;
        while f < frontier.len()
            invariant
                ev == edges@,
                fv == text_views(frontier@),
                f <= frontier@.len(),
                oldv.to_set() == w0,
                fv.to_set().subset_of(w0),
                forall|x: Seq<char>| #[trigger] oldv.contains(x) && !fv.contains(x)
                    ==> successors(ev, reach, set![x]).subset_of(w0),

                visited@.len() >= 1,
                0 <= depth < max_depth,
                w0 == within(ev, reach, s@, depth as nat),
                text_views(visited@) == seq![s@] + reached_files(out@),
                forall|j: int| 0 <= j < out@.len() ==> row_ok(ev, reach, s@, #[trigger] out@[j]) && out@[j].depth <= depth + 1,
                forall|p: int, q: int| 0 <= p < q < out@.len() ==> (#[trigger] out@[p]).depth <= (#[trigger] out@[q]).depth,
                forall|y: Seq<char>| #[trigger] text_views(next@).contains(y) ==> text_views(visited@).contains(y),
                text_views(visited@).no_duplicates(),
                text_views(visited@).to_set() == w0.union(text_views(next@).to_set()),
                text_views(next@).to_set().subset_of(successors(ev, reach, fv.to_set())),
                forall|j: int| 0 <= j < f ==> successors(ev, reach, set![fv[j]]).subset_of(text_views(visited@).to_set()),
                forall|y: Seq<char>| #[trigger] text_views(next@).contains(y) ==> !w0.contains(y),
            decreases frontier@.len() - f,
        {
            let mut i: usize = 0;
            while i < edges.len()
                invariant
                    ev == edges@,
                    fv == text_views(frontier@),
                    f < frontier@.len(),
                    oldv.to_set() == w0,
                    fv.to_set().subset_of(w0),
                    forall|x: Seq<char>| #[trigger] oldv.contains(x) && !fv.contains(x)
                        ==> successors(ev, reach, set![x]).subset_of(w0),

                    i <= edges@.len(),
                    visited@.len() >= 1,
                    0 <= depth < max_depth,
                    w0 == within(ev, reach, s@, depth as nat),
                    text_views(visited@) == seq![s@] + reached_files(out@),
                    forall|j: int| 0 <= j < out@.len() ==> row_ok(ev, reach, s@, #[trigger] out@[j]) && out@[j].depth <= depth + 1,
                    forall|p: int, q: int| 0 <= p < q < out@.len() ==> (#[trigger] out@[p]).depth <= (#[trigger] out@[q]).depth,
                    forall|y: Seq<char>| #[trigger] text_views(next@).contains(y) ==> text_views(visited@).contains(y),
                    text_views(visited@).no_duplicates(),
                    text_views(visited@).to_set() == w0.union(text_views(next@).to_set()),
                    text_views(next@).to_set().subset_of(successors(ev, reach, fv.to_set())),
                    forall|j: int| 0 <= j < f ==> successors(ev, reach, set![fv[j]]).subset_of(text_views(visited@).to_set()),
                    forall|j: int| 0 <= j < i && step(ev[j], reach).0 == fv[f as int] ==> text_views(visited@).to_set().contains(#[trigger] step(ev[j], reach).1),
                    forall|y: Seq<char>| #[trigger] text_views(next@).contains(y) ==> !w0.contains(y),
                decreases edges@.len() - i,
            {
                let (a, b) = step_of(&edges[i], reach);
                if str_eq(a.as_str(), frontier[f].as_str()) && !contains_text(&visited, b.as_str()) {
                    let ghost vv = text_views(visited@);
                    let ghost nv = text_views(next@);
                    let ghost ov = out@;
                    visited.push(b.clone());
                    next.push(b.clone());
                    let row = Reached { file: b.clone(), depth: depth + 1, symbol: copy_symbol(&edges[i].symbol) };
                    let ghost rv = row;
                    out.push(row);
                    proof {
                        assert(text_views(visited@) =~= vv.push(b@));
                        assert(text_views(next@) =~= nv.push(b@));
                        assert(hop(ev, reach, fv[f as int], b@)) by {
                            assert(step(ev[i as int], reach) == (fv[f as int], b@));
                        }
                        assert(fv.to_set().contains(fv[f as int]));
                        lemma_push_set(vv, b@);
                        lemma_push_set(nv, b@);
                        assert(!vv.contains(b@));
                        assert(!vv.to_set().contains(b@));
                        assert(!w0.contains(b@));
                        assert forall|y: Seq<char>| #[trigger] text_views(next@).contains(y) implies !w0.contains(y)
                            && text_views(visited@).contains(y) by {
                            if y != b@ {
                                assert(nv.to_set().contains(y));
                                assert(nv.contains(y));
                                assert(vv.contains(y));
                                assert(text_views(visited@).to_set().contains(y));
                            } else {
                                assert(text_views(visited@)[vv.len() as int] == b@);
                            }
                        }
                        assert(reached_files(out@) =~= reached_files(ov).push(b@));
                        assert(text_views(visited@) =~= seq![s@] + reached_files(out@));
                        lemma_within_step(ev, reach, s@, depth as nat);
                        assert(fv[f as int] == step(ev[i as int], reach).0);
                        assert(w0.contains(step(ev[i as int], reach).0));
                        assert(successors(ev, reach, w0).contains(b@));
                        assert(rv.depth == depth + 1 && rv.file@ == b@);
                        assert((rv.depth - 1) as nat == depth as nat);
                        assert(rv.depth as nat == depth as nat + 1);
                        assert(within(ev, reach, s@, rv.depth as nat).contains(rv.file@));
                        assert(!within(ev, reach, s@, (rv.depth - 1) as nat).contains(rv.file@));
                        assert(step(ev[i as int], reach) == (step(ev[i as int], reach).0, rv.file@));
                        assert(crate::blame::opt_view(ev[i as int].symbol) == crate::blame::opt_view(rv.symbol));
                        assert(row_ok(ev, reach, s@, rv));
                        assert forall|j: int| 0 <= j < out@.len() implies row_ok(ev, reach, s@, #[trigger] out@[j]) && out@[j].depth <= depth + 1 by {
                            if j < ov.len() {
                                assert(out@[j] == ov[j]);
                            }
                        }
                        assert forall|p: int, q: int| 0 <= p < q < out@.len() implies (#[trigger] out@[p]).depth <= (#[trigger] out@[q]).depth by {
                            if q < ov.len() {
                                assert(out@[p] == ov[p] && out@[q] == ov[q]);
                            } else {
                                assert(out@[p] == ov[p]);
                            }
                        }
                        assert(text_views(visited@).no_duplicates()) by {
                            assert forall|p: int, q: int| 0 <= p < q < text_views(visited@).len() implies text_views(visited@)[p] != text_views(visited@)[q] by {
                                if q == vv.len() {
                                    assert(vv[p] == text_views(visited@)[p]);
                                }
                            }
                        }
                    }
                }
                assert(step(ev[i as int], reach).0 == fv[f as int] ==> text_views(visited@).to_set().contains(step(ev[i as int], reach).1));
                i += 1;
            }
            proof {
                assert forall|y: Seq<char>| #[trigger] successors(ev, reach, set![fv[f as int]]).contains(y)
                    implies text_views(visited@).to_set().contains(y) by {
                    let x = choose|x: Seq<char>| set![fv[f as int]].contains(x) && hop(ev, reach, x, y);
                    let j = choose|j: int| 0 <= j < ev.len() && #[trigger] step(ev[j], reach) == (x, y);
                    assert(step(ev[j], reach).0 == fv[f as int]);
                    assert(text_views(visited@).to_set().contains(step(ev[j], reach).1));
                }
            }
            f += 1;
        }
        proof {
            // everything reached in one more step is now visited
            lemma_within_step(ev, reach, s@, depth as nat);
            let w1 = within(ev, reach, s@, (depth + 1) as nat);
            assert forall|y: Seq<char>| #[trigger] text_views(visited@).to_set().contains(y) implies w1.contains(y) by {
                if !w0.contains(y) {
                    assert(text_views(next@).to_set().contains(y));
                    let x = choose|x: Seq<char>| fv.to_set().contains(x) && hop(ev, reach, x, y);
                    assert(w0.contains(x));
                }
            }
            assert forall|y: Seq<char>| #[trigger] w1.contains(y) implies text_views(visited@).to_set().contains(y) by {
                if !w0.contains(y) {
                    let x = choose|x: Seq<char>| w0.contains(x) && hop(ev, reach, x, y);
                    assert(set![x].contains(x));
                    assert(successors(ev, reach, set![x]).contains(y));
                    assert(oldv.to_set().contains(x));
                    if fv.contains(x) {
                        let j = choose|j: int| 0 <= j < fv.len() && fv[j] == x;
                        assert(successors(ev, reach, set![fv[j]]).subset_of(text_views(visited@).to_set()));
                    } else {
                        assert(successors(ev, reach, set![x]).subset_of(w0));
                    }
                }
            }
            assert(text_views(visited@).to_set() =~= w1);
        }
        frontier = next;
        depth += 1;
        proof {
            assert forall|x: Seq<char>| #[trigger] text_views(visited@).contains(x) && !text_views(frontier@).contains(x)
                implies successors(ev, reach, set![x]).subset_of(within(ev, reach, s@, depth as nat)) by {
                assert(text_views(visited@).to_set().contains(x));
                if fv.contains(x) {
                    let j = choose|j: int| 0 <= j < fv.len() && fv[j] == x;
                } else {
                    assert(oldv.to_set().contains(x) || text_views(frontier@).to_set().contains(x));
                    if oldv.contains(x) {
                        assert(successors(ev, reach, set![x]).subset_of(w0));
                    }
                }
            }
        }
    }
    proof {
        if frontier.len() == 0 {
            assert(successors(ev, reach, within(ev, reach, s@, depth as nat)).subset_of(within(ev, reach, s@, depth as nat))) by {
                assert forall|y: Seq<char>| #[trigger] successors(ev, reach, within(ev, reach, s@, depth as nat)).contains(y)
                    implies within(ev, reach, s@, depth as nat).contains(y) by {
                    let x = choose|x: Seq<char>| within(ev, reach, s@, depth as nat).contains(x) && hop(ev, reach, x, y);
                    assert(text_views(visited@).to_set().contains(x));
                    assert(set![x].contains(x));
                    assert(successors(ev, reach, set![x]).contains(y));
                }
            }
            lemma_within_closed(ev, reach, s@, depth as nat, (depth_goal - depth) as nat);
        }
        text_views(visited@).unique_seq_to_set();
        assert(reached_files(out@).len() == out@.len());
    }
    out
}

/// Every file the edges name, in first-seen order (each edge's target,
/// then its importer).
pub open spec fn files_of(edges: Seq<ImportEdge>) -> Seq<Seq<char>>
    decreases edges.len(),
{
    if edges.len() == 0 {
        Seq::empty()
    } else {
        let f = files_of(edges.drop_last());
        let t = edges.last().target@;
        let i = edges.last().importer@;
        let f1 = if f.contains(t) { f } else { f.push(t) };
        if f1.contains(i) { f1 } else { f1.push(i) }
    }
}

/// How many edges step from `x`.
pub open spec fn out_degree(edges: Seq<ImportEdge>, reach: Reach, x: Seq<char>) -> int
    decreases edges.len(),
{
    if edges.len() == 0 {
        0
    } else {
        out_degree(edges.drop_last(), reach, x) + if step(edges.last(), reach).0 == x { 1int } else { 0int }
    }
}

/// The symbol a file is depended on through, read backward: the first
/// symbol an import of it names.
pub open spec fn named_symbol(edges: Seq<ImportEdge>, reach: Reach, x: Seq<char>) -> Option<Seq<char>>
    decreases edges.len(),
{
    if edges.len() == 0 || reach == Reach::Imports {
        None
    } else {
        let e = edges[0];
        if e.target@ == x && e.symbol is Some {
            crate::blame::opt_view(e.symbol)
        } else {
            named_symbol(edges.drop_first(), reach, x)
        }
    }
}

/// `scope` without its trailing slashes.
pub open spec fn trim_slashes(scope: Seq<char>) -> Seq<char>
    decreases scope.len(),
{
    if scope.len() > 0 && scope.last() == '/' {
        trim_slashes(scope.drop_last())
    } else {
        scope
    }
}

/// Whether a file lies in the scope: everywhere for an empty scope, else
/// the scope itself or below it.
pub open spec fn in_scope(file: Seq<char>, scope: Seq<char>) -> bool {
    let sc = trim_slashes(scope);
    sc.len() == 0 || file == sc || crate::text::starts_with(file, sc + "/"@)
}

/// A ranking row as plain values: file, symbol, direct edges, transitive
/// reach.
pub type RankRow = (Seq<char>, Option<Seq<char>>, int, int);

pub open spec fn rank_row(edges: Seq<ImportEdge>, reach: Reach, max_depth: i64, f: Seq<char>) -> RankRow {
    (f, named_symbol(edges, reach, f), out_degree(edges, reach, f), within(edges, reach, f, depth_bound(max_depth)).len() - 1)
}

/// The rows of every file in scope that has an edge to step along.
pub open spec fn subject_rows(edges: Seq<ImportEdge>, reach: Reach, max_depth: i64, scope: Seq<char>) -> Seq<RankRow> {
    files_of(edges).filter(|f: Seq<char>| out_degree(edges, reach, f) > 0 && in_scope(f, scope)).map_values(
        |f: Seq<char>| rank_row(edges, reach, max_depth, f),
    )
}

/// `a` ranks above `b`: wider transitive reach, then more direct edges,
/// then the later path.
pub open spec fn ranks_above(a: RankRow, b: RankRow) -> bool {
    a.3 > b.3 || (a.3 == b.3 && (a.2 > b.2 || (a.2 == b.2 && text_lt(b.0, a.0))))
}

pub open spec fn rank_sorted(s: Seq<RankRow>) -> bool {
    forall|i: int, j: int| 0 <= i < j < s.len() ==> ranks_above(#[trigger] s[i], #[trigger] s[j])
}

/// One row of a reach ranking.
#[derive(Debug)]
pub struct Ranked {
    pub file: String,
    pub symbol: Option<String>,
    pub direct: i64,
    pub transitive: i64,
}

pub open spec fn ranked_view(r: Ranked) -> RankRow {
    (r.file@, crate::blame::opt_view(r.symbol), r.direct as int, r.transitive as int)
}

proof fn lemma_ranks_total(a: RankRow, b: RankRow)
    requires
        a.0 != b.0,
    ensures
        ranks_above(a, b) || ranks_above(b, a),
{
    lemma_text_lt_total(a.0, b.0);
}

proof fn lemma_ranks_transitive(a: RankRow, b: RankRow, c: RankRow)
    requires
        ranks_above(a, b),
        ranks_above(b, c),
    ensures
        ranks_above(a, c),
{
    if a.3 == b.3 && b.3 == c.3 && a.2 == b.2 && b.2 == c.2 {
        lemma_text_lt_transitive(c.0, b.0, a.0);
    }
}

fn ranks_above_exec(a: &Ranked, b: &Ranked) -> (r: bool)
    ensures
        r == ranks_above(ranked_view(*a), ranked_view(*b)),
{
    a.transitive > b.transitive || (a.transitive == b.transitive && (a.direct > b.direct || (a.direct == b.direct
        && text_less(b.file.as_str(), a.file.as_str()))))
}

fn files_of_edges(edges: &Vec<ImportEdge>) -> (r: Vec<String>)
    ensures
        text_views(r@) == files_of(edges@),
{
    let mut out: Vec<String> = Vec::new();
    let mut i: usize = 0;
    while i < edges.len()
        invariant
            i <= edges@.len(),
            text_views(out@) == files_of(edges@.take(i as int)),
        decreases edges@.len() - i,
    {
        assert(edges@.take(i + 1).drop_last() =~= edges@.take(i as int));
        assert(edges@.take(i + 1).last() == edges@[i as int]);
        if !contains_text(&out, edges[i].target.as_str()) {
            let ghost ov = text_views(out@);
            out.push(edges[i].target.clone());
            assert(text_views(out@) =~= ov.push(edges@[i as int].target@));
        }
        if !contains_text(&out, edges[i].importer.as_str()) {
            let ghost ov = text_views(out@);
            out.push(edges[i].importer.clone());
            assert(text_views(out@) =~= ov.push(edges@[i as int].importer@));
        }
        i += 1;
    }
    assert(edges@.take(i as int) =~= edges@);
    out
}

fn out_degree_of(edges: &Vec<ImportEdge>, reach: Reach, x: &String) -> (r: usize)
    ensures
        r == out_degree(edges@, reach, x@),
{
    let mut n: usize = 0;
    let mut i: usize = 0;
    while i < edges.len()
        invariant
            i <= edges@.len(),
            n == out_degree(edges@.take(i as int), reach, x@),
            n <= i,
        decreases edges@.len() - i,
    {
        assert(edges@.take(i + 1).drop_last() =~= edges@.take(i as int));
        assert(edges@.take(i + 1).last() == edges@[i as int]);
        let (a, _) = step_of(&edges[i], reach);
        if str_eq(a.as_str(), x.as_str()) {
            n += 1;
        }
        i += 1;
    }
    assert(edges@.take(i as int) =~= edges@);
    n
}

fn named_symbol_of(edges: &Vec<ImportEdge>, reach: Reach, x: &String) -> (r: Option<String>)
    ensures
        crate::blame::opt_view(r) == named_symbol(edges@, reach, x@),
{
    if reach == Reach::Imports {
        proof {
            if edges@.len() > 0 {
                assert(named_symbol(edges@, reach, x@) is None);
            }
        }
        return None;
    }
    let mut i: usize = 0;
    assert(edges@.skip(0) =~= edges@);
    while i < edges.len()
        invariant
            reach == Reach::Importers,
            i <= edges@.len(),
            named_symbol(edges@, reach, x@) == named_symbol(edges@.skip(i as int), reach, x@),
        decreases edges@.len() - i,
    {
        let ghost rest = edges@.skip(i as int);
        assert(rest[0] == edges@[i as int]);
        assert(rest.drop_first() =~= edges@.skip(i + 1));
        if str_eq(edges[i].target.as_str(), x.as_str()) && edges[i].symbol.is_some() {
            return copy_symbol(&edges[i].symbol);
        }
        i += 1;
    }
    assert(edges@.skip(i as int) =~= Seq::<ImportEdge>::empty());
    None
}

/// Whether `file` lies in `scope` (see `in_scope`).
pub fn scope_contains(scope: &str, file: &str) -> (r: bool)
    ensures
        r == in_scope(file@, scope@),
{
    let cs = crate::text::chars_of(scope);
    let mut n = cs.len();
    assert(cs@.take(n as int) =~= cs@);
    while n > 0 && cs[n - 1] == '/'
        invariant
            n <= cs@.len(),
            trim_slashes(scope@) == trim_slashes(cs@.take(n as int)),
            cs@ == scope@,
        decreases n,
    {
        assert(cs@.take(n as int).drop_last() =~= cs@.take(n - 1));
        n -= 1;
    }
    assert(trim_slashes(cs@.take(n as int)) == cs@.take(n as int));
    if n == 0 {
        return true;
    }
    let sc = crate::text::string_of_range(&cs, 0, n);
    assert(sc@ =~= cs@.take(n as int));
    if str_eq(file, sc.as_str()) {
        return true;
    }
    let prefix = concat(sc.as_str(), "/");
    crate::text::seq_starts_with(&crate::text::chars_of(file), &crate::text::chars_of(prefix.as_str()))
}

proof fn lemma_rows_bound(edges: Seq<ImportEdge>, reach: Reach, f: Seq<char>, rows: Seq<Reached>)
    requires
        (seq![f] + reached_files(rows)).no_duplicates(),
        forall|j: int| 0 <= j < rows.len() ==> row_ok(edges, reach, f, #[trigger] rows[j]),
    ensures
        rows.len() <= edges.len(),
{
    let targets = edges.map_values(|e: ImportEdge| step(e, reach).1);
    let files = reached_files(rows);
    assert((seq![f] + files).drop_first() =~= files);
    assert(files.no_duplicates()) by {
        assert forall|p: int, q: int| 0 <= p < q < files.len() implies files[p] != files[q] by {
            assert((seq![f] + files)[p + 1] == files[p]);
            assert((seq![f] + files)[q + 1] == files[q]);
        }
    }
    files.unique_seq_to_set();
    targets.lemma_cardinality_of_set();
    assert forall|y: Seq<char>| files.to_set().contains(y) implies targets.to_set().contains(y) by {
        let j = choose|j: int| 0 <= j < files.len() && files[j] == y;
        assert(row_ok(edges, reach, f, rows[j]));
        let i = choose|i: int|
            0 <= i < edges.len() && #[trigger] step(edges[i], reach) == (step(edges[i], reach).0, rows[j].file@)
                && within(edges, reach, f, (rows[j].depth - 1) as nat).contains(step(edges[i], reach).0)
                && crate::blame::opt_view(edges[i].symbol) == crate::blame::opt_view(rows[j].symbol);
        assert(targets[i] == y);
    }
    vstd::seq_lib::seq_to_set_is_finite(targets);
    vstd::set_lib::lemma_len_subset(files.to_set(), targets.to_set());
}

/// The files with the widest reach, most first: each file in scope that
/// has an edge to step along, with its direct edge count and how many files
/// it reaches within `max_depth` steps; ties by direct edges, then by path
/// (later first). At most `limit` rows.
pub fn ranked_by_reach(edges: &Vec<ImportEdge>, max_depth: i64, limit: usize, reach: Reach, scope: &str) -> (r: Vec<Ranked>)
    requires
        edges@.len() < i64::MAX,
    ensures
        exists|s: Seq<RankRow>| {
            &&& s.to_multiset() == subject_rows(edges@, reach, max_depth, scope@).to_multiset()
            &&& rank_sorted(s)
            &&& r@.map_values(|x: Ranked| ranked_view(x)) == s.take(if limit < s.len() { limit as int } else { s.len() as int })
        },
{
    broadcast use vstd::seq_lib::group_to_multiset_ensures;
    let files = files_of_edges(edges);
    let ghost fv = text_views(files@);
    let ghost keep = |f: Seq<char>| out_degree(edges@, reach, f) > 0 && in_scope(f, scope@);
    let ghost rowf = |f: Seq<char>| rank_row(edges@, reach, max_depth, f);
    let mut rows: Vec<Ranked> = Vec::new();
    let mut k: usize = 0;
    assert(fv.take(0).filter(keep) =~= Seq::<Seq<char>>::empty());
    while k < files.len()
        invariant
            k <= files@.len(),
            edges@.len() < i64::MAX,
            fv == text_views(files@),
            fv == files_of(edges@),
            keep == (|f: Seq<char>| out_degree(edges@, reach, f) > 0 && in_scope(f, scope@)),
            rowf == (|f: Seq<char>| rank_row(edges@, reach, max_depth, f)),
            rows@.map_values(|x: Ranked| ranked_view(x)).to_multiset() == fv.take(k as int).filter(keep).map_values(rowf).to_multiset(),
            rank_sorted(rows@.map_values(|x: Ranked| ranked_view(x))),
            forall|p: int, q: int| 0 <= p < q < rows@.len() ==> (#[trigger] rows@[p]).file@ != (#[trigger] rows@[q]).file@,
            forall|j: int| 0 <= j < rows@.len() ==> fv.take(k as int).contains(#[trigger] rows@[j].file@),
        decreases files@.len() - k,
    {
        let f = &files[k];
        let ghost before = fv.take(k as int);
        assert(fv.take(k + 1) =~= before.push(f@));
        proof {
            before.lemma_filter_push(f@, keep);
        }
        let direct = out_degree_of(edges, reach, f);
        if direct > 0 && scope_contains(scope, f.as_str()) {
            let symbol = named_symbol_of(edges, reach, f);
            let reached = reachable_from(edges, f, max_depth, reach);
            proof {
                lemma_rows_bound(edges@, reach, f@, reached@);
            }
            proof {
                lemma_out_degree_bound(edges@, reach, f@);
            }
            let row = Ranked { file: f.clone(), symbol, direct: direct as i64, transitive: reached.len() as i64 };
            let ghost rv = ranked_view(row);
            assert(rv == rowf(f@));
            // the new file differs from every row so far: files are distinct
            assert forall|j: int| 0 <= j < rows@.len() implies (#[trigger] rows@[j]).file@ != f@ by {
                assert(fv.take(k as int).contains(rows@[j].file@));
                let m = choose|m: int| 0 <= m < k && fv.take(k as int)[m] == rows@[j].file@;
                lemma_files_distinct(edges@);
                assert(fv[m] != fv[k as int]);
            }
            let mut p: usize = 0;
            while p < rows.len() && !ranks_above_exec(&row, &rows[p])
                invariant
                    p <= rows@.len(),
                    rv == ranked_view(row),
                    forall|j: int| 0 <= j < p ==> !ranks_above(rv, ranked_view(#[trigger] rows@[j])),
                decreases rows@.len() - p,
            {
                p += 1;
            }
            let ghost old_rows = rows@;
            let ghost ov = old_rows.map_values(|x: Ranked| ranked_view(x));
            rows.insert(p, row);
            proof {
                assert(rows@.map_values(|x: Ranked| ranked_view(x)) =~= ov.insert(p as int, rv));
                vstd::seq_lib::to_multiset_insert(ov, p as int, rv);
                vstd::seq_lib::to_multiset_build(before.filter(keep).map_values(rowf), rv);
                assert(before.push(f@).filter(keep).map_values(rowf) =~= before.filter(keep).map_values(rowf).push(rv));
                let nv = rows@.map_values(|x: Ranked| ranked_view(x));
                assert forall|a: int, b: int| 0 <= a < b < nv.len() implies ranks_above(#[trigger] nv[a], #[trigger] nv[b]) by {
                    if a < p && b == p {
                        assert(ov[a].0 != rv.0);
                        lemma_ranks_total(ov[a], rv);
                    } else if a < p && b > p {
                        assert(nv[b] == ov[b - 1]);
                        assert(ov[a].0 != rv.0);
                        lemma_ranks_total(ov[a], rv);
                        assert(ranks_above(rv, ov[p as int]));
                        if b - 1 > p {
                            lemma_ranks_transitive(rv, ov[p as int], ov[b - 1]);
                        }
                        lemma_ranks_transitive(ov[a], rv, ov[b - 1]);
                    } else if a == p {
                        assert(nv[b] == ov[b - 1]);
                        assert(ranks_above(rv, ov[p as int]));
                        if b - 1 > p {
                            lemma_ranks_transitive(rv, ov[p as int], ov[b - 1]);
                        }
                    } else if a > p {
                        assert(nv[a] == ov[a - 1] && nv[b] == ov[b - 1]);
                    } else {
                        assert(nv[a] == ov[a] && nv[b] == ov[b]);
                    }
                }
                assert forall|x: int, y: int| 0 <= x < y < rows@.len() implies (#[trigger] rows@[x]).file@ != (#[trigger] rows@[y]).file@ by {
                    if x < p && y == p {
                    } else if x < p && y > p {
                        assert(rows@[y] == old_rows[y - 1]);
                    } else if x == p {
                        assert(rows@[y] == old_rows[y - 1]);
                    } else if x > p {
                        assert(rows@[x] == old_rows[x - 1] && rows@[y] == old_rows[y - 1]);
                    } else {
                        assert(rows@[x] == old_rows[x] && rows@[y] == old_rows[y]);
                    }
                }
                assert forall|j: int| 0 <= j < rows@.len() implies fv.take(k + 1).contains(#[trigger] rows@[j].file@) by {
                    if j < p {
                        assert(rows@[j] == old_rows[j]);
                        assert(fv.take(k as int).contains(rows@[j].file@));
                        let m = choose|m: int| 0 <= m < k && fv.take(k as int)[m] == rows@[j].file@;
                        assert(fv.take(k + 1)[m] == rows@[j].file@);
                    } else if j == p {
                        assert(fv.take(k + 1)[k as int] == f@);
                    } else {
                        assert(rows@[j] == old_rows[j - 1]);
                        assert(fv.take(k as int).contains(rows@[j].file@));
                        let m = choose|m: int| 0 <= m < k && fv.take(k as int)[m] == rows@[j].file@;
                        assert(fv.take(k + 1)[m] == rows@[j].file@);
                    }
                }
            }
        } else {
            proof {
                assert(before.push(f@).filter(keep) == before.filter(keep));
                assert forall|j: int| 0 <= j < rows@.len() implies fv.take(k + 1).contains(#[trigger] rows@[j].file@) by {
                    assert(fv.take(k as int).contains(rows@[j].file@));
                    let m = choose|m: int| 0 <= m < k && fv.take(k as int)[m] == rows@[j].file@;
                    assert(fv.take(k + 1)[m] == rows@[j].file@);
                }
            }
        }
        k += 1;
    }
    assert(fv.take(k as int) =~= fv);
    let ghost all = rows@.map_values(|x: Ranked| ranked_view(x));
    assert(fv.filter(keep).map_values(rowf) =~= subject_rows(edges@, reach, max_depth, scope@));
    let n = if limit < rows.len() { limit } else { rows.len() };
    rows.truncate(n);
    assert(rows@.map_values(|x: Ranked| ranked_view(x)) =~= all.take(n as int));
    rows
}

proof fn lemma_out_degree_bound(edges: Seq<ImportEdge>, reach: Reach, x: Seq<char>)
    ensures
        0 <= out_degree(edges, reach, x) <= edges.len(),
    decreases edges.len(),
{
    if edges.len() > 0 {
        lemma_out_degree_bound(edges.drop_last(), reach, x);
    }
}

proof fn lemma_files_distinct(edges: Seq<ImportEdge>)
    ensures
        files_of(edges).no_duplicates(),
    decreases edges.len(),
{
    if edges.len() > 0 {
        lemma_files_distinct(edges.drop_last());
        let f = files_of(edges.drop_last());
        let t = edges.last().target@;
        let f1 = if f.contains(t) { f } else { f.push(t) };
        assert(f1.no_duplicates()) by {
            if !f.contains(t) {
                assert forall|p: int, q: int| 0 <= p < q < f1.len() implies f1[p] != f1[q] by {
                    if q == f.len() {
                        assert(f[p] == f1[p]);
                    }
                }
            }
        }
        let i = edges.last().importer@;
        if !f1.contains(i) {
            let f2 = f1.push(i);
            assert forall|p: int, q: int| 0 <= p < q < f2.len() implies f2[p] != f2[q] by {
                if q == f1.len() {
                    assert(f1[p] == f2[p]);
                }
            }
        }
    }
}

/// What an incremental update of the relations index has to do, decided
/// from the per-file content keys it was built from and those on disk now.
#[derive(Debug)]
pub struct RelationsUpdate {
    /// Indexed files that are no longer on disk, in index order.
    pub gone: Vec<String>,
    /// Files on disk whose key is new or differs from the indexed one, in
    /// disk order.
    pub moved: Vec<String>,
    /// Whether a file was added or removed, which moves module-path
    /// resolution for every file and so forces a full rebuild.
    pub structural: bool,
    /// The files to re-absorb: every file on disk when structural, else the
    /// moved ones.
    pub touched: Vec<String>,
    /// The files on disk that are not re-absorbed, in disk order.
    pub untouched: Vec<String>,
}

pub open spec fn keys_of(v: Seq<(String, String)>) -> Seq<Seq<char>> {
    v.map_values(|e: (String, String)| e.0@)
}

/// The keys of `built_from` that `hashes` lacks, in order.
pub open spec fn gone_paths(built_from: Seq<(String, String)>, hashes: Seq<(String, String)>) -> Seq<Seq<char>>
    decreases built_from.len(),
{
    if built_from.len() == 0 {
        Seq::empty()
    } else {
        let prev = gone_paths(built_from.drop_last(), hashes);
        let k = built_from.last().0@;
        if crate::keyed::has_key(hashes, k) { prev } else { prev.push(k) }
    }
}

/// Whether `built_from` records `key` for `path`.
pub open spec fn recorded(built_from: Seq<(String, String)>, path: Seq<char>, key: Seq<char>) -> bool {
    crate::keyed::lookup(built_from, path) matches Some(v) && v@ == key
}

/// The keys of `hashes` whose content key `built_from` does not record,
/// in order.
pub open spec fn moved_paths(built_from: Seq<(String, String)>, hashes: Seq<(String, String)>) -> Seq<Seq<char>>
    decreases hashes.len(),
{
    if hashes.len() == 0 {
        Seq::empty()
    } else {
        let prev = moved_paths(built_from, hashes.drop_last());
        let e = hashes.last();
        if recorded(built_from, e.0@, e.1@) { prev } else { prev.push(e.0@) }
    }
}

/// A file left, or a moved file is not in the index at all.
pub open spec fn structural_change(built_from: Seq<(String, String)>, hashes: Seq<(String, String)>) -> bool {
    gone_paths(built_from, hashes).len() > 0
        || exists|i: int| 0 <= i < moved_paths(built_from, hashes).len()
            && !crate::keyed::has_key(built_from, #[trigger] moved_paths(built_from, hashes)[i])
}

/// The texts of `v` that `out` does not hold, in order.
pub open spec fn all_but(v: Seq<Seq<char>>, out: Seq<Seq<char>>) -> Seq<Seq<char>>
    decreases v.len(),
{
    if v.len() == 0 {
        Seq::empty()
    } else {
        let prev = all_but(v.drop_last(), out);
        if out.contains(v.last()) { prev } else { prev.push(v.last()) }
    }
}

/// Decide an incremental update of the relations index from the content
/// keys it was `built_from` and the current `hashes`, both keyed by path.
pub fn plan_relations_update(built_from: &Vec<(String, String)>, hashes: &Vec<(String, String)>) -> (r: RelationsUpdate)
    ensures
        text_views(r.gone@) == gone_paths(built_from@, hashes@),
        text_views(r.moved@) == moved_paths(built_from@, hashes@),
        r.structural == structural_change(built_from@, hashes@),
        text_views(r.touched@) == if r.structural { keys_of(hashes@) } else { text_views(r.moved@) },
        text_views(r.untouched@) == all_but(keys_of(hashes@), text_views(r.touched@)),
{
    let mut gone: Vec<String> = Vec::new();
    let mut i: usize = 0;
    while i < built_from.len()
        invariant
            i <= built_from@.len(),
            text_views(gone@) == gone_paths(built_from@.take(i as int), hashes@),
        decreases built_from@.len() - i,
    {
        assert(built_from@.take(i + 1).drop_last() =~= built_from@.take(i as int));
        assert(built_from@.take(i + 1).last() == built_from@[i as int]);
        if crate::keyed::find_key(hashes, &built_from[i].0).is_none() {
            let ghost g0 = text_views(gone@);
            gone.push(built_from[i].0.clone());
            assert(text_views(gone@) =~= g0.push(built_from@[i as int].0@));
        }
        i += 1;
    }
    assert(built_from@.take(i as int) =~= built_from@);
    let mut moved: Vec<String> = Vec::new();
    let mut all: Vec<String> = Vec::new();
    let mut fresh = false;
    let mut j: usize = 0;
    while j < hashes.len()
        invariant
            j <= hashes@.len(),
            text_views(moved@) == moved_paths(built_from@, hashes@.take(j as int)),
            text_views(all@) == keys_of(hashes@.take(j as int)),
            fresh == exists|m: int| 0 <= m < moved@.len() && !crate::keyed::has_key(built_from@, #[trigger] text_views(moved@)[m]),
        decreases hashes@.len() - j,
    {
        let ghost h = hashes@.take(j + 1);
        assert(h.drop_last() =~= hashes@.take(j as int));
        assert(h.last() == hashes@[j as int]);
        let ghost a0 = text_views(all@);
        all.push(hashes[j].0.clone());
        assert(text_views(all@) =~= a0.push(hashes@[j as int].0@));
        assert(keys_of(h) =~= keys_of(hashes@.take(j as int)).push(hashes@[j as int].0@));
        let same = match crate::keyed::get(built_from, &hashes[j].0) {
            Some(v) => str_eq(v.as_str(), hashes[j].1.as_str()),
            None => false,
        };
        if !same {
            let ghost m0 = text_views(moved@);
            let known = crate::keyed::find_key(built_from, &hashes[j].0).is_some();
            proof {
                crate::keyed::lemma_has_key_lookup(built_from@, hashes@[j as int].0@);
            }
            moved.push(hashes[j].0.clone());
            let ghost m1 = text_views(moved@);
            assert(m1 =~= m0.push(hashes@[j as int].0@));
            proof {
                if !known {
                    assert(!crate::keyed::has_key(built_from@, m1[m0.len() as int]));
                }
                if fresh {
                    let m = choose|m: int| 0 <= m < m0.len() && !crate::keyed::has_key(built_from@, #[trigger] m0[m]);
                    assert(m1[m] == m0[m]);
                }
                if exists|m: int| 0 <= m < m1.len() && !crate::keyed::has_key(built_from@, #[trigger] m1[m]) {
                    let m = choose|m: int| 0 <= m < m1.len() && !crate::keyed::has_key(built_from@, #[trigger] m1[m]);
                    if m < m0.len() {
                        assert(m0[m] == m1[m]);
                    }
                }
            }
            fresh = fresh || !known;
        }
        j += 1;
    }
    assert(hashes@.take(j as int) =~= hashes@);
    let structural = gone.len() > 0 || fresh;
    let touched = if structural { all } else { clone_texts(&moved) };
    let mut untouched: Vec<String> = Vec::new();
    let ghost kh = keys_of(hashes@);
    let mut k: usize = 0;
    while k < hashes.len()
        invariant
            k <= hashes@.len(),
            kh == keys_of(hashes@),
            text_views(untouched@) == all_but(kh.take(k as int), text_views(touched@)),
        decreases hashes@.len() - k,
    {
        assert(kh.take(k + 1).drop_last() =~= kh.take(k as int));
        assert(kh.take(k + 1).last() == hashes@[k as int].0@);
        if !contains_text(&touched, hashes[k].0.as_str()) {
            let ghost u0 = text_views(untouched@);
            untouched.push(hashes[k].0.clone());
            assert(text_views(untouched@) =~= u0.push(hashes@[k as int].0@));
        }
        k += 1;
    }
    assert(kh.take(k as int) =~= kh);
    RelationsUpdate { gone, moved, structural, touched, untouched }
}

fn clone_texts(v: &Vec<String>) -> (r: Vec<String>)
    ensures
        text_views(r@) == text_views(v@),
{
    let mut out: Vec<String> = Vec::new();
    let mut i: usize = 0;
    while i < v.len()
        invariant
            i <= v@.len(),
            text_views(out@) == text_views(v@).take(i as int),
        decreases v@.len() - i,
    {
        let ghost o0 = text_views(out@);
        out.push(v[i].clone());
        assert(text_views(out@) =~= o0.push(v@[i as int]@));
        assert(text_views(v@).take(i + 1) =~= text_views(v@).take(i as int).push(v@[i as int]@));
        i += 1;
    }
    assert(text_views(v@).take(i as int) =~= text_views(v@));
    out
}

pub open spec fn pair_views(v: Seq<(String, String)>) -> Seq<(Seq<char>, Seq<char>)> {
    v.map_values(|e: (String, String)| (e.0@, e.1@))
}

/// Whether `(a, b)` is one of the pairs of `v`.
fn holds_pair(v: &Vec<(String, String)>, a: &str, b: &str) -> (r: bool)
    ensures
        r == pair_views(v@).contains((a@, b@)),
{
    let mut i: usize = 0;
    while i < v.len()
        invariant
            i <= v@.len(),
            forall|j: int| 0 <= j < i ==> #[trigger] pair_views(v@)[j] != (a@, b@),
        decreases v@.len() - i,
    {
        assert(pair_views(v@)[i as int] == (v@[i as int].0@, v@[i as int].1@));
        if str_eq(v[i].0.as_str(), a) && str_eq(v[i].1.as_str(), b) {
            return true;
        }
        i += 1;
    }
    false
}

/// Every pair of `a` is a pair of `b`.
fn pairs_within(a: &Vec<(String, String)>, b: &Vec<(String, String)>) -> (r: bool)
    ensures
        r == pair_views(a@).to_set().subset_of(pair_views(b@).to_set()),
{
    let mut i: usize = 0;
    while i < a.len()
        invariant
            i <= a@.len(),
            forall|j: int| 0 <= j < i ==> pair_views(b@).contains(#[trigger] pair_views(a@)[j]),
        decreases a@.len() - i,
    {
        assert(pair_views(a@)[i as int] == (a@[i as int].0@, a@[i as int].1@));
        if !holds_pair(b, a[i].0.as_str(), a[i].1.as_str()) {
            assert(pair_views(a@).to_set().contains(pair_views(a@)[i as int]));
            return false;
        }
        i += 1;
    }
    assert forall|x: (Seq<char>, Seq<char>)| pair_views(a@).to_set().contains(x) implies pair_views(b@).to_set().contains(x) by {
        let j = choose|j: int| 0 <= j < pair_views(a@).len() && pair_views(a@)[j] == x;
    }
    true
}

/// Whether every file's imports must be re-resolved: after a structural
/// change, or when the (name, file) declarations of the moved files are not
/// the same set before and after re-absorbing them, since an import's
/// symbol fallback reads declarations in files the importer never opened.
pub fn importers_need_rebuild(structural: bool, before: &Vec<(String, String)>, after: &Vec<(String, String)>) -> (r: bool)
    ensures
        r == (structural || pair_views(before@).to_set() != pair_views(after@).to_set()),
{
    if structural {
        return true;
    }
    let ab = pairs_within(after, before);
    let ba = pairs_within(before, after);
    proof {
        if ab && ba {
            assert(pair_views(before@).to_set() =~= pair_views(after@).to_set());
        }
    }
    !(ab && ba)
}

/// The (name, file) declarations among `defined` (each name with the files
/// that declare it) whose file is one of `files`, in order.
pub open spec fn declarations_spec(defined: Seq<(String, Vec<String>)>, files: Seq<Seq<char>>) -> Seq<(Seq<char>, Seq<char>)>
    decreases defined.len(),
{
    if defined.len() == 0 {
        Seq::empty()
    } else {
        let (name, fs) = defined.last();
        declarations_spec(defined.drop_last(), files)
            + kept_in(text_views(fs@), files).map_values(|f: Seq<char>| (name@, f))
    }
}

/// The texts of `v` that `keep` holds, in order.
pub open spec fn kept_in(v: Seq<Seq<char>>, keep: Seq<Seq<char>>) -> Seq<Seq<char>>
    decreases v.len(),
{
    if v.len() == 0 {
        Seq::empty()
    } else {
        let prev = kept_in(v.drop_last(), keep);
        if keep.contains(v.last()) { prev.push(v.last()) } else { prev }
    }
}

/// The declarations that lie in `files`: for each symbol name of
/// `defined`, in order, each declaring file that is one of `files`.
pub fn declarations_in(defined: &Vec<(String, Vec<String>)>, files: &Vec<String>) -> (r: Vec<(String, String)>)
    ensures
        pair_views(r@) == declarations_spec(defined@, text_views(files@)),
{
    let ghost fv = text_views(files@);
    let mut out: Vec<(String, String)> = Vec::new();
    let mut i: usize = 0;
    while i < defined.len()
        invariant
            i <= defined@.len(),
            fv == text_views(files@),
            pair_views(out@) == declarations_spec(defined@.take(i as int), fv),
        decreases defined@.len() - i,
    {
        assert(defined@.take(i + 1).drop_last() =~= defined@.take(i as int));
        assert(defined@.take(i + 1).last() == defined@[i as int]);
        let name = &defined[i].0;
        let fs = &defined[i].1;
        let ghost o0 = pair_views(out@);
        let ghost sv = text_views(fs@);
        let mut k: usize = 0;
        while k < fs.len()
            invariant
                k <= fs@.len(),
                fv == text_views(files@),
                sv == text_views(fs@),
                pair_views(out@) == o0 + kept_in(sv.take(k as int), fv).map_values(|f: Seq<char>| (name@, f)),
            decreases fs@.len() - k,
        {
            assert(sv.take(k + 1).drop_last() =~= sv.take(k as int));
            assert(sv.take(k + 1).last() == fs@[k as int]@);
            let ghost p0 = pair_views(out@);
            if contains_text(files, fs[k].as_str()) {
                out.push((name.clone(), fs[k].clone()));
                assert(pair_views(out@) =~= p0.push((name@, fs@[k as int]@)));
                assert(kept_in(sv.take(k + 1), fv).map_values(|f: Seq<char>| (name@, f))
                    =~= kept_in(sv.take(k as int), fv).map_values(|f: Seq<char>| (name@, f)).push((name@, fs@[k as int]@)));
            }
            k += 1;
        }
        assert(sv.take(k as int) =~= sv);
        i += 1;
    }
    assert(defined@.take(i as int) =~= defined@);
    out
}

proof fn lemma_gone_none(built_from: Seq<(String, String)>, hashes: Seq<(String, String)>)
    requires
        forall|i: int| 0 <= i < built_from.len() ==> crate::keyed::has_key(hashes, #[trigger] built_from[i].0@),
    ensures
        gone_paths(built_from, hashes).len() == 0,
    decreases built_from.len(),
{
    if built_from.len() > 0 {
        let b = built_from.drop_last();
        assert forall|i: int| 0 <= i < b.len() implies crate::keyed::has_key(hashes, #[trigger] b[i].0@) by {
            assert(b[i] == built_from[i]);
        }
        lemma_gone_none(b, hashes);
        assert(crate::keyed::has_key(hashes, built_from[built_from.len() - 1].0@));
    }
}

proof fn lemma_moved_none(built_from: Seq<(String, String)>, hashes: Seq<(String, String)>)
    requires
        forall|i: int| 0 <= i < hashes.len() ==> recorded(built_from, (#[trigger] hashes[i]).0@, hashes[i].1@),
    ensures
        moved_paths(built_from, hashes).len() == 0,
    decreases hashes.len(),
{
    if hashes.len() > 0 {
        let h = hashes.drop_last();
        assert forall|i: int| 0 <= i < h.len() implies recorded(built_from, (#[trigger] h[i]).0@, h[i].1@) by {
            assert(h[i] == hashes[i]);
        }
        lemma_moved_none(built_from, h);
        assert(recorded(built_from, hashes[hashes.len() - 1].0@, hashes[hashes.len() - 1].1@));
    }
}

/// When the files on disk carry exactly the content keys the index was
/// built from, nothing is gone, nothing moved, and nothing is structural.
pub proof fn unchanged_index_needs_no_update(built_from: Seq<(String, String)>)
    requires
        crate::keyed::keys_unique(built_from),
    ensures
        gone_paths(built_from, built_from).len() == 0,
        moved_paths(built_from, built_from).len() == 0,
        !structural_change(built_from, built_from),
{
    assert forall|i: int| 0 <= i < built_from.len() implies crate::keyed::has_key(built_from, #[trigger] built_from[i].0@) by {}
    lemma_gone_none(built_from, built_from);
    assert forall|i: int| 0 <= i < built_from.len() implies recorded(built_from, (#[trigger] built_from[i]).0@, built_from[i].1@) by {
        crate::keyed::lemma_lookup_unique(built_from, i);
    }
    lemma_moved_none(built_from, built_from);
}

} // verus!
