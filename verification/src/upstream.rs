//! What a path depends on: the nodes with the most outgoing import edges,
//! re-ranked by how much of the graph they reach.

use crate::architecture::{lemma_traversal_count, reached_set, transitive_dependencies, Edge, Graph, Node};
use crate::history::{counts_view, most_common, ranked_by_edge_count, tally, Counts};
use crate::keyed::lookup;
use crate::ordered::text_views;
use crate::primer::is_external;
use crate::text::{chars_of, concat, dec, dec_int, fmt_i64, fmt_u64, pad_left, pad_right, str_eq};
use vstd::prelude::*;

verus! {

/// The sources of the import edges, in edge order.
pub open spec fn import_sources(edges: Seq<Edge>) -> Seq<Seq<char>>
    decreases edges.len(),
{
    if edges.len() == 0 {
        Seq::empty()
    } else {
        let prev = import_sources(edges.drop_last());
        if edges.last().relation@ == "imports"@ {
            prev.push(edges.last().source@)
        } else {
            prev
        }
    }
}

/// Import-edge sources by how many import edges leave them, most first (ties
/// in first-seen order), modules outside the repository left out.
pub open spec fn coupling_ranked(g: &Graph) -> Counts {
    let t = tally(import_sources(g.edges@));
    most_common(t, t.len()).filter(|c: (Seq<char>, int)| !is_external(c.0))
}

/// How many nodes a forward traversal of `max_depth` hops from `id` reaches.
pub open spec fn reach_count(g: &Graph, id: Seq<char>, max_depth: i64) -> int {
    reached_set(g, true, id, max_depth).len() as int
}

/// A candidate: node id, transitive dependency count, direct (outgoing
/// import edge) count.
pub type Candidate = (Seq<char>, int, int);

/// How many of the ranked sources are weighed: three times the limit, at
/// least none and at most all.
pub open spec fn weighed(limit: i64, len: nat) -> nat {
    if limit * 3 <= 0 {
        0
    } else if limit * 3 >= len {
        len
    } else {
        (limit * 3) as nat
    }
}

/// The weighed sources, each with its transitive and direct counts.
pub open spec fn candidates(g: &Graph, max_depth: i64, limit: i64) -> Seq<Candidate> {
    let r = coupling_ranked(g);
    r.take(weighed(limit, r.len()) as int).map_values(|c: (Seq<char>, int)| (c.0, reach_count(g, c.0, max_depth), c.1))
}

/// `a` ranks before `b`: more transitive dependencies, or as many and more
/// direct ones.
pub open spec fn outranks(a: Candidate, b: Candidate) -> bool {
    a.1 > b.1 || (a.1 == b.1 && a.2 > b.2)
}

/// The first index of a candidate that no other outranks.
pub open spec fn lead_index(c: Seq<Candidate>) -> int
    decreases c.len(),
{
    if c.len() <= 1 {
        0
    } else {
        let j = lead_index(c.drop_last());
        if outranks(c.last(), c[j]) {
            c.len() - 1
        } else {
            j
        }
    }
}

/// The first `n` candidates in rank order; equal candidates keep their order.
pub open spec fn leading(c: Seq<Candidate>, n: nat) -> Seq<Candidate>
    decreases n,
{
    if n == 0 || c.len() == 0 {
        Seq::empty()
    } else {
        let b = lead_index(c);
        seq![c[b]] + leading(c.remove(b), (n - 1) as nat)
    }
}

/// A row of the coupling table.
pub struct CouplingRow<'a> {
    pub rank: usize,
    pub node: &'a Node,
    pub direct_dependencies: i64,
    pub transitive_dependencies: usize,
}

/// A row as rank, node, direct count and transitive count.
pub type RowView = (int, Node, int, int);

pub open spec fn row_view(r: CouplingRow) -> RowView {
    (r.rank as int, *r.node, r.direct_dependencies as int, r.transitive_dependencies as int)
}

/// The rows for the selected candidates: those the graph holds a node for,
/// ranked from 1 in order.
pub open spec fn rows_for(g: &Graph, sel: Seq<Candidate>) -> Seq<RowView>
    decreases sel.len(),
{
    if sel.len() == 0 {
        Seq::empty()
    } else {
        let prev = rows_for(g, sel.drop_last());
        let c = sel.last();
        match lookup(g.nodes@, c.0) {
            Some(n) => prev.push((prev.len() + 1int, n, c.2, c.1)),
            None => prev,
        }
    }
}

/// The coupling table: the `limit` best of the weighed candidates.
pub open spec fn coupling_spec(g: &Graph, max_depth: i64, limit: i64) -> Seq<RowView> {
    rows_for(g, leading(candidates(g, max_depth, limit), if limit > 0 { limit as nat } else { 0 }))
}

proof fn lemma_lead_index_bounds(c: Seq<Candidate>)
    requires
        c.len() > 0,
    ensures
        0 <= lead_index(c) < c.len(),
    decreases c.len(),
{
    if c.len() > 1 {
        lemma_lead_index_bounds(c.drop_last());
    }
}

pub open spec fn cand_view(c: (String, usize, i64)) -> Candidate {
    (c.0@, c.1 as int, c.2 as int)
}

pub open spec fn cands_view(c: Seq<(String, usize, i64)>) -> Seq<Candidate> {
    c.map_values(|e: (String, usize, i64)| cand_view(e))
}

fn lead_of(c: &Vec<(String, usize, i64)>) -> (b: usize)
    requires
        c@.len() > 0,
    ensures
        b as int == lead_index(cands_view(c@)),
{
    let ghost cv = cands_view(c@);
    let mut b: usize = 0;
    let mut i: usize = 1;
    while i < c.len()
        invariant
            1 <= i <= c.len(),
            cv == cands_view(c@),
            b as int == lead_index(cv.take(i as int)),
            b < i,
        decreases c.len() - i,
    {
        proof {
            assert(cv.take(i + 1).drop_last() =~= cv.take(i as int));
            lemma_lead_index_bounds(cv.take(i as int));
        }
        assert(cv[i as int] == cand_view(c@[i as int]));
        assert(cv[b as int] == cand_view(c@[b as int]));
        if c[i].1 > c[b].1 || (c[i].1 == c[b].1 && c[i].2 > c[b].2) {
            b = i;
        }
        i += 1;
    }
    assert(cv.take(i as int) =~= cv);
    b
}

/// The first `n` of `c` in rank order.
fn leading_n(c: Vec<(String, usize, i64)>, n: usize) -> (r: Vec<(String, usize, i64)>)
    ensures
        cands_view(r@) == leading(cands_view(c@), n as nat),
{
    let ghost whole = leading(cands_view(c@), n as nat);
    let mut rest = c;
    let mut out: Vec<(String, usize, i64)> = Vec::new();
    let mut k: usize = 0;
    while k < n && rest.len() > 0
        invariant
            k <= n,
            cands_view(out@) + leading(cands_view(rest@), (n - k) as nat) == whole,
        decreases n - k,
    {
        let b = lead_of(&rest);
        proof {
            lemma_lead_index_bounds(cands_view(rest@));
        }
        let ghost rv = cands_view(rest@);
        let e = rest.remove(b);
        assert(cands_view(rest@) =~= rv.remove(b as int));
        assert(cands_view(out@.push(e)) =~= cands_view(out@) + seq![rv[b as int]]);
        out.push(e);
        k += 1;
    }
    assert(leading(cands_view(rest@), (n - k) as nat) =~= Seq::<Candidate>::empty());
    assert(cands_view(out@) + Seq::<Candidate>::empty() =~= cands_view(out@));
    out
}

/// The sources of the graph's import edges.
fn import_sources_of(graph: &Graph) -> (r: Vec<String>)
    ensures
        text_views(r@) == import_sources(graph.edges@),
        r@.len() <= graph.edges@.len(),
{
    let mut out: Vec<String> = Vec::new();
    let mut i: usize = 0;
    while i < graph.edges.len()
        invariant
            i <= graph.edges@.len(),
            out@.len() <= i,
            text_views(out@) == import_sources(graph.edges@.take(i as int)),
        decreases graph.edges@.len() - i,
    {
        assert(graph.edges@.take(i + 1).drop_last() =~= graph.edges@.take(i as int));
        assert(graph.edges@.take(i + 1).last() == graph.edges@[i as int]);
        if str_eq(graph.edges[i].relation.as_str(), "imports") {
            let ghost ov = text_views(out@);
            out.push(graph.edges[i].source.clone());
            assert(text_views(out@) =~= ov.push(graph.edges@[i as int].source@));
        }
        i += 1;
    }
    assert(graph.edges@.take(i as int) =~= graph.edges@);
    out
}

/// The sources ranked by outgoing import edges, external modules left out.
fn internal_ranking(graph: &Graph) -> (r: Vec<(String, i64)>)
    requires
        graph.edges@.len() < i64::MAX,
    ensures
        counts_view(r@) == coupling_ranked(graph),
{
    let sources = import_sources_of(graph);
    let counts = ranked_by_edge_count(&sources);
    let ghost t = tally(import_sources(graph.edges@));
    let ghost pred = |c: (Seq<char>, int)| !is_external(c.0);
    let ghost cv = counts_view(counts@);
    assert(cv == most_common(t, t.len()));
    let ext = chars_of("module::external::");
    let mut ranked: Vec<(String, i64)> = Vec::new();
    let mut k: usize = 0;
    while k < counts.len()
        invariant
            k <= counts@.len(),
            cv == counts_view(counts@),
            ext@ == "module::external::"@,
            counts_view(ranked@) == cv.take(k as int).filter(pred),
            pred == (|c: (Seq<char>, int)| !is_external(c.0)),
        decreases counts@.len() - k,
    {
        proof {
            cv.take(k as int).lemma_filter_push(cv[k as int], pred);
        }
        assert(cv.take(k + 1) =~= cv.take(k as int).push(cv[k as int]));
        assert(cv[k as int] == (counts@[k as int].0@, counts@[k as int].1 as int));
        let id_cs = chars_of(counts[k].0.as_str());
        if !crate::text::seq_starts_with(&id_cs, &ext) {
            let ghost rv = counts_view(ranked@);
            ranked.push((counts[k].0.clone(), counts[k].1));
            assert(counts_view(ranked@) =~= rv.push(cv[k as int]));
        }
        k += 1;
    }
    assert(cv.take(k as int) =~= cv);
    ranked
}

/// The coupling table of `trace upstream --path`: of the `3 * limit` nodes
/// with the most outgoing import edges (external modules left out), the
/// `limit` that reach the most nodes within `max_depth` hops, ties to the
/// one with more import edges, then to the earlier; nodes the graph does not
/// hold are skipped and ranks count from 1.
pub fn coupling_ranking<'a>(graph: &'a Graph, max_depth: i64, limit: i64) -> (r: Vec<CouplingRow<'a>>)
    requires
        graph.edges@.len() < i64::MAX,
        i64::MIN <= limit * 3 <= i64::MAX,
    ensures
        r@.map_values(|x: CouplingRow<'a>| row_view(x)) == coupling_spec(graph, max_depth, limit),
{
    let ranked = internal_ranking(graph);
    let ghost rk = counts_view(ranked@);
    let n3: i64 = limit * 3;
    let top: usize = if n3 <= 0 {
        0
    } else if n3 as u64 >= ranked.len() as u64 {
        ranked.len()
    } else {
        n3 as usize
    };
    assert(top as nat == weighed(limit, rk.len()));
    let ghost want = candidates(graph, max_depth, limit);
    let mut cands: Vec<(String, usize, i64)> = Vec::new();
    let mut j: usize = 0;
    while j < top
        invariant
            j <= top,
            top <= ranked@.len(),
            top as nat == weighed(limit, rk.len()),
            rk == counts_view(ranked@),
            rk == coupling_ranked(graph),
            want == candidates(graph, max_depth, limit),
            cands_view(cands@) == want.take(j as int),
            cands@.len() == j,
        decreases top - j,
    {
        let chain = transitive_dependencies(graph, ranked[j].0.as_str(), max_depth);
        proof {
            lemma_traversal_count(graph, true, ranked@[j as int].0@, max_depth, chain@);
        }
        assert(rk[j as int] == (ranked@[j as int].0@, ranked@[j as int].1 as int));
        let ghost ov = cands_view(cands@);
        let id = ranked[j].0.clone();
        assert(id@ == rk[j as int].0);
        cands.push((id, chain.len(), ranked[j].1));
        assert(want.len() == top);
        assert(want[j as int] == (rk[j as int].0, reach_count(graph, rk[j as int].0, max_depth), rk[j as int].1));
        assert(cand_view(cands@[j as int]) == want[j as int]);
        assert(cands_view(cands@) =~= ov.push(want[j as int]));
        assert(want.take(j + 1) =~= want.take(j as int).push(want[j as int]));
        j += 1;
    }
    assert(want.take(j as int) =~= want);
    let keep: usize = if limit <= 0 {
        0
    } else if limit as u64 >= top as u64 {
        top
    } else {
        limit as usize
    };
    let ghost lim: nat = if limit > 0 { limit as nat } else { 0 };
    let chosen = leading_n(cands, keep);
    proof {
        lemma_leading_len(want, keep as nat);
        if keep as nat != lim {
            lemma_leading_saturates(want, keep as nat, lim);
        }
    }
    let ghost sel = cands_view(chosen@);
    assert(sel == leading(want, lim));
    let mut rows: Vec<CouplingRow<'a>> = Vec::new();
    let mut i: usize = 0;
    while i < chosen.len()
        invariant
            i <= chosen@.len(),
            sel == cands_view(chosen@),
            rows@.map_values(|x: CouplingRow<'a>| row_view(x)) == rows_for(graph, sel.take(i as int)),
            rows@.len() <= i,
        decreases chosen@.len() - i,
    {
        assert(sel.take(i + 1).drop_last() =~= sel.take(i as int));
        assert(sel.take(i + 1).last() == sel[i as int]);
        assert(sel[i as int] == cand_view(chosen@[i as int]));
        let ghost ov = rows@.map_values(|x: CouplingRow<'a>| row_view(x));
        match crate::keyed::get(&graph.nodes, &chosen[i].0) {
            Some(n) => {
                let row = CouplingRow {
                    rank: rows.len() + 1,
                    node: n,
                    direct_dependencies: chosen[i].2,
                    transitive_dependencies: chosen[i].1,
                };
                rows.push(row);
                assert(rows@.map_values(|x: CouplingRow<'a>| row_view(x)) =~= ov.push(row_view(row)));
            },
            None => {},
        }
        i += 1;
    }
    assert(sel.take(i as int) =~= sel);
    rows
}

proof fn lemma_leading_len(c: Seq<Candidate>, n: nat)
    ensures
        leading(c, n).len() == if n < c.len() { n } else { c.len() },
    decreases n,
{
    if n > 0 && c.len() > 0 {
        lemma_lead_index_bounds(c);
        lemma_leading_len(c.remove(lead_index(c)), (n - 1) as nat);
    }
}

/// Asking for more than there are gives them all.
proof fn lemma_leading_saturates(c: Seq<Candidate>, n: nat, m: nat)
    requires
        c.len() <= n <= m,
    ensures
        leading(c, n) == leading(c, m),
    decreases n,
{
    if n > 0 && c.len() > 0 {
        lemma_lead_index_bounds(c);
        lemma_leading_saturates(c.remove(lead_index(c)), (n - 1) as nat, (m - 1) as nat);
    }
}

/// Where a row's node lives: `file:line` (`None` for a missing line) when
/// it has a source file, else `(no source)`.
pub open spec fn coupling_location(n: Node) -> Seq<char> {
    match n.source_file {
        Some(f) => if f@.len() > 0 {
            f@ + ":"@ + match n.source_line {
                Some(l) => dec_int(l as int),
                None => "None"@,
            }
        } else {
            "(no source)"@
        },
        None => "(no source)"@,
    }
}

pub open spec fn coupling_row_line(r: RowView) -> Seq<char> {
    "  "@ + pad_right(dec_int(r.0), 3) + " "@ + pad_left(dec_int(r.2), 6, ' ') + "  "@ + pad_left(dec_int(r.3), 10, ' ')
        + "  "@ + pad_right(r.1.kind@, 10) + "  "@ + r.1.label@ + " @ "@ + coupling_location(r.1)
}

pub open spec fn coupling_row_lines(rows: Seq<RowView>) -> Seq<Seq<char>>
    decreases rows.len(),
{
    if rows.len() == 0 {
        Seq::empty()
    } else {
        coupling_row_lines(rows.drop_last()).push(coupling_row_line(rows.last()))
    }
}

/// The printed coupling table.
pub open spec fn coupling_report(rows: Seq<RowView>, path: Seq<char>, max_depth: int) -> Seq<Seq<char>> {
    if rows.len() == 0 {
        seq!["(no nodes in the architecture graph \u{2014} cache may be empty; run `trace cache build`)"@]
    } else {
        seq![
            "Top "@ + dec(rows.len()) + " highest-coupling nodes in "@ + path + " (transitive depth \u{2264} "@ + dec_int(max_depth)
                + "):"@,
            "  #   direct  transitive  kind        symbol @ source"@,
        ] + coupling_row_lines(rows)
    }
}

fn location_of(n: &Node) -> (r: String)
    ensures
        r@ == coupling_location(*n),
{
    match &n.source_file {
        Some(f) => {
            if f.unicode_len() > 0 {
                let a = concat(f.as_str(), ":");
                match n.source_line {
                    Some(l) => concat(a.as_str(), fmt_i64(l).as_str()),
                    None => concat(a.as_str(), "None"),
                }
            } else {
                "(no source)".to_owned()
            }
        },
        None => "(no source)".to_owned(),
    }
}

/// The lines `trace upstream --path` prints for its table.
pub fn coupling_report_lines(rows: &Vec<CouplingRow>, path: &str, max_depth: i64) -> (r: Vec<String>)
    ensures
        text_views(r@) == coupling_report(rows@.map_values(|x: CouplingRow| row_view(x)), path@, max_depth as int),
{
    let ghost rv = rows@.map_values(|x: CouplingRow| row_view(x));
    let mut out: Vec<String> = Vec::new();
    if rows.len() == 0 {
        out.push("(no nodes in the architecture graph \u{2014} cache may be empty; run `trace cache build`)".to_owned());
        assert(text_views(out@) =~= coupling_report(rv, path@, max_depth as int));
        return out;
    }
    let a = concat("Top ", fmt_u64(rows.len() as u64).as_str());
    let b = concat(a.as_str(), " highest-coupling nodes in ");
    let c = concat(b.as_str(), path);
    let d = concat(c.as_str(), " (transitive depth \u{2264} ");
    let e = concat(d.as_str(), fmt_i64(max_depth).as_str());
    out.push(concat(e.as_str(), "):"));
    out.push("  #   direct  transitive  kind        symbol @ source".to_owned());
    let ghost head = text_views(out@);
    let mut i: usize = 0;
    while i < rows.len()
        invariant
            i <= rows@.len(),
            rv == rows@.map_values(|x: CouplingRow| row_view(x)),
            text_views(out@) == head + coupling_row_lines(rv.take(i as int)),
        decreases rows@.len() - i,
    {
        assert(rv.take(i + 1).drop_last() =~= rv.take(i as int));
        assert(rv.take(i + 1).last() == rv[i as int]);
        let row = &rows[i];
        let rank = crate::text::right_pad(fmt_u64(row.rank as u64).as_str(), 3);
        let direct = crate::text::left_pad(fmt_i64(row.direct_dependencies).as_str(), 6, ' ');
        let trans = crate::text::left_pad(fmt_u64(row.transitive_dependencies as u64).as_str(), 10, ' ');
        let kind = crate::text::right_pad(row.node.kind.as_str(), 10);
        let l1 = concat("  ", rank.as_str());
        let l2 = concat(l1.as_str(), " ");
        let l3 = concat(l2.as_str(), direct.as_str());
        let l4 = concat(l3.as_str(), "  ");
        let l5 = concat(l4.as_str(), trans.as_str());
        let l6 = concat(l5.as_str(), "  ");
        let l7 = concat(l6.as_str(), kind.as_str());
        let l8 = concat(l7.as_str(), "  ");
        let l9 = concat(l8.as_str(), row.node.label.as_str());
        let l10 = concat(l9.as_str(), " @ ");
        let line = concat(l10.as_str(), location_of(row.node).as_str());
        let ghost ov = text_views(out@);
        out.push(line);
        assert(rv[i as int] == row_view(rows@[i as int]));
        assert(text_views(out@) =~= ov.push(coupling_row_line(rv[i as int])));
        i += 1;
    }
    assert(rv.take(i as int) =~= rv);
    assert(text_views(out@) =~= coupling_report(rv, path@, max_depth as int));
    out
}

/// `file:line` for a dependency (`None` for a missing line), or
/// `(external)` when it has no source file.
pub open spec fn dependency_location(n: Node) -> Seq<char> {
    match n.source_file {
        Some(f) => if f@.len() > 0 {
            f@ + ":"@ + match n.source_line {
                Some(l) => dec_int(l as int),
                None => "None"@,
            }
        } else {
            "(external)"@
        },
        None => "(external)"@,
    }
}

pub open spec fn dependency_line(e: (Node, int)) -> Seq<char> {
    "    [d="@ + dec_int(e.1) + "] "@ + e.0.label@ + " ["@ + e.0.kind@ + "] @ "@ + dependency_location(e.0)
}

pub open spec fn chain_view(chain: Seq<(&Node, i64)>) -> Seq<(Node, int)> {
    chain.map_values(|e: (&Node, i64)| (*e.0, e.1 as int))
}

/// What `trace upstream SYMBOL` prints for one matching symbol and its
/// dependency chain.
pub open spec fn dependency_report(m: Node, chain: Seq<(Node, int)>, max_depth: int) -> Seq<Seq<char>> {
    seq![
        ""@,
        m.label@ + " ["@ + m.kind@ + "] @ "@ + match m.source_file {
            Some(f) => f@,
            None => "None"@,
        } + ":"@ + match m.source_line {
            Some(l) => dec_int(l as int),
            None => "None"@,
        },
        "  depends on (depth \u{2264} "@ + dec_int(max_depth) + "):"@,
    ] + if chain.len() == 0 {
        seq!["    (no architecture-graph dependencies found)"@]
    } else {
        chain.map_values(|e: (Node, int)| dependency_line(e))
    }
}

fn opt_text_or_none(o: &Option<String>) -> (r: String)
    ensures
        r@ == match o {
            Some(f) => f@,
            None => "None"@,
        },
{
    match o {
        Some(f) => f.clone(),
        None => "None".to_owned(),
    }
}

fn opt_line_or_none(o: Option<i64>) -> (r: String)
    ensures
        r@ == match o {
            Some(l) => dec_int(l as int),
            None => "None"@,
        },
{
    match o {
        Some(l) => fmt_i64(l),
        None => "None".to_owned(),
    }
}

/// The lines for one matching symbol: a blank line, the symbol, the depth,
/// then each dependency with its hop count and location.
pub fn dependency_lines(m: &Node, chain: &Vec<(&Node, i64)>, max_depth: i64) -> (r: Vec<String>)
    ensures
        text_views(r@) == dependency_report(*m, chain_view(chain@), max_depth as int),
{
    let ghost cv = chain_view(chain@);
    let mut out: Vec<String> = Vec::new();
    out.push("".to_owned());
    let a = concat(m.label.as_str(), " [");
    let b = concat(a.as_str(), m.kind.as_str());
    let c = concat(b.as_str(), "] @ ");
    let d = concat(c.as_str(), opt_text_or_none(&m.source_file).as_str());
    let e = concat(d.as_str(), ":");
    out.push(concat(e.as_str(), opt_line_or_none(m.source_line).as_str()));
    let f = concat("  depends on (depth \u{2264} ", fmt_i64(max_depth).as_str());
    out.push(concat(f.as_str(), "):"));
    if chain.len() == 0 {
        out.push("    (no architecture-graph dependencies found)".to_owned());
        assert(text_views(out@) =~= dependency_report(*m, cv, max_depth as int));
        return out;
    }
    let ghost head = text_views(out@);
    let mut i: usize = 0;
    while i < chain.len()
        invariant
            i <= chain@.len(),
            cv == chain_view(chain@),
            text_views(out@) == head + cv.take(i as int).map_values(|e: (Node, int)| dependency_line(e)),
        decreases chain@.len() - i,
    {
        let n = chain[i].0;
        let loc = match &n.source_file {
            Some(f) => {
                if f.unicode_len() > 0 {
                    let x = concat(f.as_str(), ":");
                    concat(x.as_str(), opt_line_or_none(n.source_line).as_str())
                } else {
                    "(external)".to_owned()
                }
            },
            None => "(external)".to_owned(),
        };
        let l1 = concat("    [d=", fmt_i64(chain[i].1).as_str());
        let l2 = concat(l1.as_str(), "] ");
        let l3 = concat(l2.as_str(), n.label.as_str());
        let l4 = concat(l3.as_str(), " [");
        let l5 = concat(l4.as_str(), n.kind.as_str());
        let l6 = concat(l5.as_str(), "] @ ");
        let line = concat(l6.as_str(), loc.as_str());
        let ghost ov = text_views(out@);
        out.push(line);
        assert(cv[i as int] == (*chain@[i as int].0, chain@[i as int].1 as int));
        assert(line@ == dependency_line(cv[i as int]));
        assert(text_views(out@) =~= ov.push(line@));
        assert(cv.take(i + 1).map_values(|e: (Node, int)| dependency_line(e)) =~= cv.take(i as int).map_values(
            |e: (Node, int)| dependency_line(e),
        ).push(dependency_line(cv[i as int])));
        i += 1;
    }
    assert(cv.take(i as int) =~= cv);
    assert(text_views(out@) =~= dependency_report(*m, cv, max_depth as int));
    out
}

} // verus!
