//! Properties of the parser and of the ranking that hold for every input,
//! stated over the specifications that `parse_edge_list` and `voterank` meet.

use vstd::prelude::*;
use crate::model::{
    GraphModel, well_formed, graph_of, add_edge, lemma_add_edge, lemma_add_edge_labels,
    lemma_add_edge_rows, intern_label, lemma_add_edge_extends, lemma_intern_label,
    lemma_label_index, edge_count,
};
use crate::text::{
    edge_list, edge_list_from, find_in, line_edge, lemma_edge_list_from_prefix, is_space, skip_spaces,
    skip_word, word_bounds,
};
use crate::rank::{
    VoteState, elect, run, round_limit, voterank_spec, initial_state, decrement, round_scores, best,
    best_upto, ranked_labels, weaken, tally, vote, edges_in_order, edge_order, upper_pairs,
};
use crate::binary64::{
    is_nan, order_key, ONE, ZERO, binary64_max, binary64_sub, binary64_eq, binary64_div,
    binary64_from_usize,
};

verus! {

/// Further rounds only append to the nodes elected so far, one per round.
pub proof fn lemma_run_extends(adj: Seq<Seq<int>>, dec: u64, st: VoteState, k: nat)
    ensures
        run(adj, dec, st, k).take(st.seeds.len() as int) == st.seeds,
        st.seeds.len() <= run(adj, dec, st, k).len() <= st.seeds.len() + k,
    decreases k,
{
    if k > 0 {
        if let Some(next) = elect(adj, dec, st) {
            lemma_run_extends(adj, dec, next, (k - 1) as nat);
            let r = run(adj, dec, next, (k - 1) as nat);
            assert(r.take(st.seeds.len() as int) =~= r.take(next.seeds.len() as int).take(
                st.seeds.len() as int,
            ));
            assert(next.seeds.take(st.seeds.len() as int) =~= st.seeds);
        }
    }
    assert(st.seeds.take(st.seeds.len() as int) =~= st.seeds);
}

/// Fewer rounds elect a prefix of what more rounds elect.
pub proof fn lemma_run_prefix(adj: Seq<Seq<int>>, dec: u64, st: VoteState, k1: nat, k2: nat)
    requires
        k1 <= k2,
    ensures
        run(adj, dec, st, k1) == run(adj, dec, st, k2).take(run(adj, dec, st, k1).len() as int),
        run(adj, dec, st, k1).len() == if run(adj, dec, st, k2).len() < st.seeds.len() + k1 {
            run(adj, dec, st, k2).len()
        } else {
            st.seeds.len() + k1
        },
    decreases k1,
{
    lemma_run_extends(adj, dec, st, k2);
    if k1 == 0 {
    } else {
        match elect(adj, dec, st) {
            Some(next) => {
                lemma_run_prefix(adj, dec, next, (k1 - 1) as nat, (k2 - 1) as nat);
            },
            None => {
                assert(run(adj, dec, st, k2) == st.seeds);
            },
        }
    }
}


/// Asking for `k` seeds gives the first `k` of the full ranking (all of it
/// when it has fewer than `k`).
pub proof fn law_top_k_is_prefix(adj: Seq<Seq<int>>, k: usize)
    ensures
        voterank_spec(adj, Some(k)) == voterank_spec(adj, None).take(
            voterank_spec(adj, Some(k)).len() as int,
        ),
        voterank_spec(adj, Some(k)).len() == if voterank_spec(adj, None).len() < k {
            voterank_spec(adj, None).len() as int
        } else {
            k as int
        },
{
    lemma_run_prefix(
        adj,
        decrement(adj),
        initial_state(adj),
        round_limit(adj.len(), Some(k)),
        round_limit(adj.len(), None),
    );
    lemma_run_extends(adj, decrement(adj), initial_state(adj), round_limit(adj.len(), None));
}

/// Asking for at least as many seeds as there are nodes gives the full ranking.
pub proof fn law_cap_at_node_count(adj: Seq<Seq<int>>, k: usize)
    requires
        k >= adj.len(),
    ensures
        voterank_spec(adj, Some(k)) == voterank_spec(adj, None),
{
}


/// The edge list names the edge between the labels `a` and `b`, in either order.
pub open spec fn lists_edge(edges: Seq<(Seq<char>, Seq<char>)>, a: Seq<char>, b: Seq<char>) -> bool {
    exists|i: int| 0 <= i < edges.len() && (edges[i] == (a, b) || edges[i] == (b, a))
}

/// The graph built from an edge list is a simple undirected graph whose labels
/// include every listed label, and whose edges are exactly the listed ones:
/// `v` is a neighbour of `u` if and only if the list names the edge between
/// their labels, in either direction, once or more.
pub proof fn law_graph_of_edges(edges: Seq<(Seq<char>, Seq<char>)>)
    ensures
        well_formed(graph_of(edges)),
        forall|i: int|
            0 <= i < edges.len() ==> graph_of(edges).labels.contains((#[trigger] edges[i]).0)
                && graph_of(edges).labels.contains(edges[i].1),
        forall|u: int, v: int|
            0 <= u < graph_of(edges).labels.len() && 0 <= v < graph_of(edges).labels.len() ==> (
            #[trigger] graph_of(edges).adj[u].contains(v) <==> lists_edge(
                edges,
                graph_of(edges).labels[u],
                graph_of(edges).labels[v],
            )),
    decreases edges.len(),
{
    if edges.len() > 0 {
        let prev = edges.drop_last();
        let e = edges.last();
        law_graph_of_edges(prev);
        let g = graph_of(prev);
        lemma_add_edge(g, e.0, e.1);
        lemma_add_edge_labels(g, e.0, e.1);
        lemma_add_edge_rows(g, e.0, e.1);
        let h = graph_of(edges);
        assert(h == add_edge(g, e.0, e.1));
        assert(edges =~= prev.push(e));
        let n = g.labels.len();
        assert forall|i: int| 0 <= i < edges.len() implies h.labels.contains(
            (#[trigger] edges[i]).0,
        ) && h.labels.contains(edges[i].1) by {
            if i < prev.len() {
                assert(prev[i] == edges[i]);
                let k0 = choose|k: int| 0 <= k < n && g.labels[k] == prev[i].0;
                let k1 = choose|k: int| 0 <= k < n && g.labels[k] == prev[i].1;
                assert(h.labels[k0] == edges[i].0);
                assert(h.labels[k1] == edges[i].1);
            }
        }
        assert forall|u: int, v: int|
            0 <= u < h.labels.len() && 0 <= v < h.labels.len() implies (#[trigger] h.adj[u].contains(
            v) <==> lists_edge(edges, h.labels[u], h.labels[v])) by {
            lemma_lists_edge_push(prev, e, g, h, u, v);
        }
    }
}

/// How the listing grows by one edge, seen from the nodes of the graph.
proof fn lemma_lists_edge_push(
    prev: Seq<(Seq<char>, Seq<char>)>,
    e: (Seq<char>, Seq<char>),
    g: GraphModel,
    h: GraphModel,
    u: int,
    v: int,
)
    requires
        0 <= u < h.labels.len(),
        0 <= v < h.labels.len(),
        h.labels.len() >= g.labels.len(),
        forall|w: int| 0 <= w < g.labels.len() ==> #[trigger] h.labels[w] == g.labels[w],
        forall|w: int|
            g.labels.len() <= w < h.labels.len() ==> !g.labels.contains(#[trigger] h.labels[w]),
        forall|i: int|
            0 <= i < prev.len() ==> g.labels.contains((#[trigger] prev[i]).0)
                && g.labels.contains(prev[i].1),
        forall|x: int, y: int|
            0 <= x < g.labels.len() && 0 <= y < g.labels.len() ==> (
            #[trigger] g.adj[x].contains(y) <==> lists_edge(prev, g.labels[x], g.labels[y])),
        h.adj[u].contains(v) <==> (u < g.labels.len() && v < g.labels.len() && g.adj[u].contains(v))
            || (h.labels[u] == e.0 && h.labels[v] == e.1) || (h.labels[u] == e.1 && h.labels[v]
            == e.0),
    ensures
        h.adj[u].contains(v) <==> lists_edge(prev.push(e), h.labels[u], h.labels[v]),
{
    let edges = prev.push(e);
    let a = h.labels[u];
    let b = h.labels[v];
    let n = g.labels.len();
    if lists_edge(prev, a, b) {
        let i = choose|i: int| 0 <= i < prev.len() && (prev[i] == (a, b) || prev[i] == (b, a));
        assert(edges[i] == prev[i]);
        assert(g.labels.contains(prev[i].0) && g.labels.contains(prev[i].1));
        assert(u < n) by {
            if u >= n {
                assert(!g.labels.contains(a));
            }
        }
        assert(v < n) by {
            if v >= n {
                assert(!g.labels.contains(b));
            }
        }
        assert(g.adj[u].contains(v));
    }
    if u < n && v < n && g.adj[u].contains(v) {
        assert(lists_edge(prev, g.labels[u], g.labels[v]));
        let i = choose|i: int| 0 <= i < prev.len() && (prev[i] == (a, b) || prev[i] == (b, a));
        assert(edges[i] == prev[i]);
    }
    if (a == e.0 && b == e.1) || (a == e.1 && b == e.0) {
        assert(edges[edges.len() - 1] == e);
    }
    if lists_edge(edges, a, b) {
        let i = choose|i: int| 0 <= i < edges.len() && (edges[i] == (a, b) || edges[i] == (b, a));
        if i < prev.len() {
            assert(prev[i] == edges[i]);
            assert(lists_edge(prev, a, b));
        }
    }
}

/// The labels of an edge list in the order in which they are written: both
/// ends of the first edge, then both ends of the second, and so on.
pub open spec fn endpoints(edges: Seq<(Seq<char>, Seq<char>)>) -> Seq<Seq<char>>
    decreases edges.len(),
{
    if edges.len() == 0 {
        seq![]
    } else {
        endpoints(edges.drop_last()).push(edges.last().0).push(edges.last().1)
    }
}

/// The distinct elements of `s`, each where it first appears.
pub open spec fn first_appearances(s: Seq<Seq<char>>) -> Seq<Seq<char>>
    decreases s.len(),
{
    if s.len() == 0 {
        seq![]
    } else {
        let r = first_appearances(s.drop_last());
        if r.contains(s.last()) {
            r
        } else {
            r.push(s.last())
        }
    }
}

/// Nodes are numbered in order of first appearance: the labels of the graph
/// built from an edge list are its distinct labels, in the order in which
/// each first appears in the list.
pub proof fn law_labels_in_first_appearance_order(edges: Seq<(Seq<char>, Seq<char>)>)
    ensures
        graph_of(edges).labels == first_appearances(endpoints(edges)),
    decreases edges.len(),
{
    if edges.len() > 0 {
        let prev = edges.drop_last();
        let e = edges.last();
        law_labels_in_first_appearance_order(prev);
        let x = endpoints(prev);
        let xa = x.push(e.0);
        let xab = xa.push(e.1);
        assert(xab.drop_last() =~= xa);
        assert(xa.drop_last() =~= x);
        let g = graph_of(prev);
        let g1 = intern_label(g, e.0).0;
        let g2 = intern_label(g1, e.1).0;
        assert(first_appearances(xa) == g1.labels);
        assert(first_appearances(xab) == g2.labels);
        assert(endpoints(edges) == xab);
        assert(graph_of(edges).labels == g2.labels);
    }
}

/// The scan keeps an index among the first `k` scores.
pub proof fn lemma_best_upto_bounds(score: Seq<u64>, k: int)
    ensures
        0 <= best_upto(score, k),
        k >= 1 ==> best_upto(score, k) < k,
    decreases k,
{
    if k > 1 {
        lemma_best_upto_bounds(score, k - 1);
    }
}

/// A round on a graph with nodes elects a node of the graph that was not
/// elected before.
pub proof fn lemma_elect_fresh(adj: Seq<Seq<int>>, dec: u64, st: VoteState)
    requires
        adj.len() > 0,
        elect(adj, dec, st) is Some,
    ensures
        ({
            let b = best(round_scores(adj, st.ability, st.seeds));
            &&& 0 <= b < adj.len()
            &&& !st.seeds.contains(b)
            &&& elect(adj, dec, st)->0.seeds == st.seeds.push(b)
        }),
{
    let sc = round_scores(adj, st.ability, st.seeds);
    lemma_best_upto_bounds(sc, sc.len() as int);
}

/// No node is elected twice.
pub proof fn lemma_run_no_duplicates(adj: Seq<Seq<int>>, dec: u64, st: VoteState, k: nat)
    requires
        adj.len() > 0,
        st.seeds.no_duplicates(),
        forall|i: int| 0 <= i < st.seeds.len() ==> 0 <= #[trigger] st.seeds[i] < adj.len(),
    ensures
        run(adj, dec, st, k).no_duplicates(),
        forall|i: int|
            0 <= i < run(adj, dec, st, k).len() ==> 0 <= #[trigger] run(adj, dec, st, k)[i]
                < adj.len(),
    decreases k,
{
    if k > 0 {
        if let Some(next) = elect(adj, dec, st) {
            lemma_elect_fresh(adj, dec, st);
            let b = best(round_scores(adj, st.ability, st.seeds));
            assert forall|i: int, j: int|
                0 <= i < j < next.seeds.len() implies next.seeds[i] != next.seeds[j] by {
                if j == st.seeds.len() {
                    assert(st.seeds.contains(st.seeds[i]));
                }
            }
            assert forall|i: int| 0 <= i < next.seeds.len() implies 0 <= #[trigger] next.seeds[i]
                < adj.len() by {
                if i < st.seeds.len() {
                    assert(next.seeds[i] == st.seeds[i]);
                }
            }
            lemma_run_no_duplicates(adj, dec, next, (k - 1) as nat);
            assert(run(adj, dec, st, k) == run(adj, dec, next, (k - 1) as nat));
        } else {
            assert(run(adj, dec, st, k) == st.seeds);
        }
    } else {
        assert(run(adj, dec, st, k) == st.seeds);
    }
}

/// The ranking names each node at most once and elects at most `n` nodes (at
/// most `number_of_nodes` when given).
pub proof fn law_ranking_shape(g: GraphModel, number_of_nodes: Option<usize>)
    requires
        well_formed(g),
    ensures
        voterank_spec(g.adj, number_of_nodes).no_duplicates(),
        voterank_spec(g.adj, number_of_nodes).len() <= round_limit(g.adj.len(), number_of_nodes),
        round_limit(g.adj.len(), number_of_nodes) <= g.adj.len(),
        forall|i: int|
            0 <= i < voterank_spec(g.adj, number_of_nodes).len() ==> 0
                <= #[trigger] voterank_spec(g.adj, number_of_nodes)[i] < g.adj.len(),
{
    let adj = g.adj;
    let st = initial_state(adj);
    let k = round_limit(adj.len(), number_of_nodes);
    lemma_run_extends(adj, decrement(adj), st, k);
    if adj.len() > 0 {
        lemma_run_no_duplicates(adj, decrement(adj), st, k);
    } else {
        assert(k == 0);
        assert(voterank_spec(adj, number_of_nodes) == st.seeds);
    }
}

/// The text `s` is empty or ends with a line break, so that text appended to
/// it starts a new line.
pub open spec fn ends_a_line(s: Seq<char>) -> bool {
    s.len() == 0 || s.last() == '\n'
}

/// The text `line` is one line: it ends with its only line break.
pub open spec fn one_line(line: Seq<char>) -> bool {
    &&& line.len() > 0
    &&& line.last() == '\n'
    &&& forall|i: int| 0 <= i < line.len() - 1 ==> line[i] != '\n'
}

/// Texts joined at a line boundary list the edges of the first, then those of
/// the second.
pub proof fn law_edge_list_concat(s1: Seq<char>, s2: Seq<char>)
    requires
        ends_a_line(s1),
    ensures
        edge_list(s1 + s2) == edge_list(s1) + edge_list(s2),
{
    if s1.len() == 0 {
        assert(s1 + s2 =~= s2);
        assert(edge_list(s1) =~= Seq::<(Seq<char>, Seq<char>)>::empty());
        assert(edge_list(s1) + edge_list(s2) =~= edge_list(s2));
    } else {
        lemma_edge_list_from_prefix(s1, s2, 0);
    }
}

proof fn lemma_find_in_first(s: Seq<char>, c: char, a: int, e: int, j: int)
    requires
        a <= j < e,
        s[j] == c,
        forall|i: int| a <= i < j ==> s[i] != c,
    ensures
        find_in(s, c, a, e) == j,
    decreases j - a,
{
    if a < j {
        lemma_find_in_first(s, c, a + 1, e, j);
    }
}

/// One line lists what its text names, if anything.
pub proof fn lemma_one_line(line: Seq<char>)
    requires
        one_line(line),
    ensures
        edge_list(line) == match line_edge(line, 0, line.len() - 1) {
            Some(e) => seq![e],
            None => Seq::<(Seq<char>, Seq<char>)>::empty(),
        },
{
    let n = line.len() as int;
    lemma_find_in_first(line, '\n', 0, n, n - 1);
    assert(edge_list_from(line, n) =~= Seq::<(Seq<char>, Seq<char>)>::empty());
    let here = match line_edge(line, 0, n - 1) {
        Some(e) => seq![e],
        None => Seq::<(Seq<char>, Seq<char>)>::empty(),
    };
    assert(here + edge_list_from(line, n) =~= here);
}

/// A line with fewer than two words before its comment (a blank line, a
/// comment line, a one-word line) changes nothing, wherever it is inserted at
/// a line boundary.
pub proof fn law_wordless_line_changes_nothing(s1: Seq<char>, line: Seq<char>, s2: Seq<char>)
    requires
        ends_a_line(s1),
        one_line(line),
        line_edge(line, 0, line.len() - 1) is None,
    ensures
        edge_list(s1 + line + s2) == edge_list(s1 + s2),
        graph_of(edge_list(s1 + line + s2)) == graph_of(edge_list(s1 + s2)),
{
    lemma_one_line(line);
    law_edge_list_concat(line, s2);
    assert(s1 + line + s2 =~= s1 + (line + s2));
    law_edge_list_concat(s1, line + s2);
    law_edge_list_concat(s1, s2);
    assert(edge_list(line) + edge_list(s2) =~= edge_list(s2));
}

/// The pair of words that the one-line text `line` names.
pub open spec fn line_pair(line: Seq<char>) -> (Seq<char>, Seq<char>) {
    line_edge(line, 0, line.len() - 1)->0
}

/// Appending a line that names an edge already listed, in either direction,
/// leaves the graph unchanged.
pub proof fn law_repeated_edge_changes_nothing(s1: Seq<char>, line: Seq<char>)
    requires
        ends_a_line(s1),
        one_line(line),
        line_edge(line, 0, line.len() - 1) is Some,
        lists_edge(edge_list(s1), line_pair(line).0, line_pair(line).1),
    ensures
        graph_of(edge_list(s1 + line)) == graph_of(edge_list(s1)),
{
    let e = line_pair(line);
    let es = edge_list(s1);
    lemma_one_line(line);
    law_edge_list_concat(s1, line);
    assert(edge_list(s1 + line) =~= es.push(e));
    assert(es.push(e).drop_last() =~= es);
    law_graph_of_edges(es);
    let g = graph_of(es);
    let i = choose|i: int| 0 <= i < es.len() && (es[i] == (e.0, e.1) || es[i] == (e.1, e.0));
    assert(g.labels.contains(es[i].0) && g.labels.contains(es[i].1));
    lemma_intern_label(g, e.0);
    let (g1, ui) = intern_label(g, e.0);
    assert(g1 == g);
    lemma_intern_label(g1, e.1);
    let (g2, vi) = intern_label(g1, e.1);
    assert(g2 == g);
    assert(g.adj[ui].contains(vi));
}

/// Appending lines never renumbers a node or reorders a neighbour list: the
/// graph of a text that ends a line keeps its labels, and each node's
/// neighbours, as prefixes in the graph of any longer text.
pub proof fn law_appending_extends(s1: Seq<char>, s2: Seq<char>)
    requires
        ends_a_line(s1),
    ensures
        graph_of(edge_list(s1 + s2)).labels.len() >= graph_of(edge_list(s1)).labels.len(),
        forall|w: int|
            0 <= w < graph_of(edge_list(s1)).labels.len() ==> #[trigger] graph_of(
                edge_list(s1 + s2),
            ).labels[w] == graph_of(edge_list(s1)).labels[w] && graph_of(
                edge_list(s1 + s2),
            ).adj[w].len() >= graph_of(edge_list(s1)).adj[w].len() && graph_of(
                edge_list(s1 + s2),
            ).adj[w].take(graph_of(edge_list(s1)).adj[w].len() as int) == graph_of(
                edge_list(s1),
            ).adj[w],
{
    law_edge_list_concat(s1, s2);
    let e1 = edge_list(s1);
    let e2 = edge_list(s2);
    lemma_graph_of_extends(e1, e2);
    let small = graph_of(e1);
    let big = graph_of(edge_list(s1 + s2));
    assert(big == graph_of(e1 + e2));
    assert forall|w: int| 0 <= w < small.labels.len() implies #[trigger] big.labels[w]
        == small.labels[w] && big.adj[w].len() >= small.adj[w].len() && big.adj[w].take(
        small.adj[w].len() as int,
    ) == small.adj[w] by {
        assert(graph_of(e1 + e2).labels[w] == small.labels[w]);
    }
}

/// The graph of a longer edge list keeps the labels and neighbour lists of the
/// graph of its prefix as prefixes.
pub proof fn lemma_graph_of_extends(e1: Seq<(Seq<char>, Seq<char>)>, e2: Seq<(Seq<char>, Seq<char>)>)
    ensures
        graph_of(e1 + e2).labels.len() >= graph_of(e1).labels.len(),
        forall|w: int|
            0 <= w < graph_of(e1).labels.len() ==> #[trigger] graph_of(e1 + e2).labels[w]
                == graph_of(e1).labels[w] && graph_of(e1 + e2).adj[w].len() >= graph_of(
                e1,
            ).adj[w].len() && graph_of(e1 + e2).adj[w].take(graph_of(e1).adj[w].len() as int)
                == graph_of(e1).adj[w],
    decreases e2.len(),
{
    let g1 = graph_of(e1);
    if e2.len() == 0 {
        assert(e1 + e2 =~= e1);
        assert forall|w: int| 0 <= w < g1.labels.len() implies g1.adj[w].take(
            g1.adj[w].len() as int,
        ) == g1.adj[w] by {
            assert(g1.adj[w].take(g1.adj[w].len() as int) =~= g1.adj[w]);
        }
    } else {
        let d = e2.drop_last();
        lemma_graph_of_extends(e1, d);
        assert((e1 + e2).drop_last() =~= e1 + d);
        assert((e1 + e2).last() == e2.last());
        let gm = graph_of(e1 + d);
        law_graph_of_edges(e1 + d);
        lemma_add_edge_extends(gm, e2.last().0, e2.last().1);
        let gh = graph_of(e1 + e2);
        assert(gh == add_edge(gm, e2.last().0, e2.last().1));
        assert forall|w: int| 0 <= w < g1.labels.len() implies #[trigger] gh.labels[w]
            == g1.labels[w] && gh.adj[w].len() >= g1.adj[w].len() && gh.adj[w].take(
            g1.adj[w].len() as int,
        ) == g1.adj[w] by {
            assert(gm.adj[w].take(g1.adj[w].len() as int) == g1.adj[w]);
            assert(gh.adj[w].take(gm.adj[w].len() as int) == gm.adj[w]);
            assert(gh.adj[w].take(g1.adj[w].len() as int) =~= gh.adj[w].take(
                gm.adj[w].len() as int,
            ).take(g1.adj[w].len() as int));
        }
    }
}

/// The edge list with every label `x` replaced by `f(x)`.
pub open spec fn rename_edges(
    edges: Seq<(Seq<char>, Seq<char>)>,
    f: spec_fn(Seq<char>) -> Seq<char>,
) -> Seq<(Seq<char>, Seq<char>)> {
    edges.map_values(|e: (Seq<char>, Seq<char>)| (f(e.0), f(e.1)))
}

/// `f` never gives two labels the same name.
pub open spec fn injective(f: spec_fn(Seq<char>) -> Seq<char>) -> bool {
    forall|x: Seq<char>, y: Seq<char>| #[trigger] f(x) == #[trigger] f(y) ==> x == y
}

/// Interning a renamed label in the renamed graph does what interning the
/// label does in the graph.
proof fn lemma_intern_renamed(
    g: GraphModel,
    h: GraphModel,
    x: Seq<char>,
    f: spec_fn(Seq<char>) -> Seq<char>,
)
    requires
        injective(f),
        well_formed(g),
        well_formed(h),
        h.labels == g.labels.map_values(f),
        h.adj == g.adj,
    ensures
        intern_label(h, f(x)).1 == intern_label(g, x).1,
        intern_label(h, f(x)).0.labels == intern_label(g, x).0.labels.map_values(f),
        intern_label(h, f(x)).0.adj == intern_label(g, x).0.adj,
{
    if g.labels.contains(x) {
        let i = choose|i: int| 0 <= i < g.labels.len() && g.labels[i] == x;
        lemma_label_index(g, x, i);
        assert(h.labels[i] == f(x));
        assert(h.labels.contains(f(x)));
        lemma_label_index(h, f(x), i);
    } else {
        if h.labels.contains(f(x)) {
            let i = choose|i: int| 0 <= i < h.labels.len() && h.labels[i] == f(x);
            assert(f(g.labels[i]) == f(x));
            assert(g.labels.contains(x));
        }
        assert(g.labels.push(x).map_values(f) =~= h.labels.push(f(x)));
    }
}

/// Renaming labels injectively renames the graph's labels and leaves its
/// neighbour lists, and so the ranking by node id, unchanged.
pub proof fn law_renaming(
    edges: Seq<(Seq<char>, Seq<char>)>,
    f: spec_fn(Seq<char>) -> Seq<char>,
    number_of_nodes: Option<usize>,
)
    requires
        injective(f),
    ensures
        graph_of(rename_edges(edges, f)).labels == graph_of(edges).labels.map_values(f),
        graph_of(rename_edges(edges, f)).adj == graph_of(edges).adj,
        voterank_spec(graph_of(rename_edges(edges, f)).adj, number_of_nodes) == voterank_spec(
            graph_of(edges).adj,
            number_of_nodes,
        ),
    decreases edges.len(),
{
    let r = rename_edges(edges, f);
    if edges.len() == 0 {
        assert(graph_of(r).labels =~= graph_of(edges).labels.map_values(f));
    } else {
        let p = edges.drop_last();
        let e = edges.last();
        law_renaming(p, f, number_of_nodes);
        assert(r.drop_last() =~= rename_edges(p, f));
        assert(r.last() == (f(e.0), f(e.1)));
        let g = graph_of(p);
        let h = graph_of(rename_edges(p, f));
        law_graph_of_edges(p);
        law_graph_of_edges(rename_edges(p, f));
        lemma_intern_renamed(g, h, e.0, f);
        lemma_intern_label(g, e.0);
        lemma_intern_label(h, f(e.0));
        let (g1, ui) = intern_label(g, e.0);
        let (h1, hui) = intern_label(h, f(e.0));
        lemma_intern_renamed(g1, h1, e.1, f);
        assert(graph_of(r) == add_edge(h, f(e.0), f(e.1)));
    }
}

/// A word of the edge-list format: not empty, and free of whitespace (line
/// breaks included) and of `'#'`.
pub open spec fn is_word(w: Seq<char>) -> bool {
    &&& w.len() > 0
    &&& forall|i: int| 0 <= i < w.len() ==> !is_space(#[trigger] w[i]) && w[i] != '#'
}

/// The line `u v` followed by a line break.
pub open spec fn edge_line(e: (Seq<char>, Seq<char>)) -> Seq<char> {
    e.0 + seq![' '] + e.1 + seq!['\n']
}

/// The text that lists the pairs of `pairs`, one line `u v` each, in order.
pub open spec fn edge_text(pairs: Seq<(Seq<char>, Seq<char>)>) -> Seq<char>
    decreases pairs.len(),
{
    if pairs.len() == 0 {
        seq![]
    } else {
        edge_text(pairs.drop_last()) + edge_line(pairs.last())
    }
}

/// Every label of `pairs` is a word.
pub open spec fn all_words(pairs: Seq<(Seq<char>, Seq<char>)>) -> bool {
    forall|i: int| 0 <= i < pairs.len() ==> is_word((#[trigger] pairs[i]).0) && is_word(pairs[i].1)
}

proof fn lemma_find_in_absent(s: Seq<char>, c: char, a: int, e: int)
    requires
        a <= e,
        forall|i: int| a <= i < e ==> s[i] != c,
    ensures
        find_in(s, c, a, e) == e,
    decreases e - a,
{
    if a < e {
        lemma_find_in_absent(s, c, a + 1, e);
    }
}

proof fn lemma_skip_word_run(s: Seq<char>, a: int, j: int, e: int)
    requires
        a <= j <= e,
        forall|i: int| a <= i < j ==> !is_space(s[i]),
        j < e ==> is_space(s[j]),
    ensures
        skip_word(s, a, e) == j,
    decreases j - a,
{
    if a < j {
        lemma_skip_word_run(s, a + 1, j, e);
    }
}

/// The line made of the word `u`, the whitespace `sep`, the word `v`, the
/// trailing whitespace `tail` (no line break in it) and a line break.
pub open spec fn spaced_line(u: Seq<char>, sep: char, v: Seq<char>, tail: Seq<char>) -> Seq<char> {
    u + seq![sep] + v + tail + seq!['\n']
}

/// Whitespace around and between two words does not reach into them: a line
/// holding the words `u` and `v` separated by whitespace, with any trailing
/// whitespace before its line break, names exactly the edge `(u, v)`.
pub proof fn law_spaced_line(u: Seq<char>, sep: char, v: Seq<char>, tail: Seq<char>)
    requires
        is_word(u),
        is_word(v),
        is_space(sep),
        sep != '\n',
        forall|i: int| 0 <= i < tail.len() ==> is_space(#[trigger] tail[i]) && tail[i] != '\n',
    ensures
        one_line(spaced_line(u, sep, v, tail)),
        edge_list(spaced_line(u, sep, v, tail)) == seq![(u, v)],
{
    let l = spaced_line(u, sep, v, tail);
    let nu = u.len() as int;
    let nv = v.len() as int;
    let nt = tail.len() as int;
    let w = nu + 1 + nv;
    let hi = w + nt;
    assert(l.len() == hi + 1);
    assert forall|i: int| 0 <= i < nu implies l[i] == u[i] by {}
    assert(l[nu] == sep);
    assert forall|i: int| 0 <= i < nv implies l[nu + 1 + i] == v[i] by {}
    assert forall|i: int| 0 <= i < nt implies l[w + i] == tail[i] by {}
    assert(l[hi] == '\n');
    assert forall|i: int| 0 <= i < hi implies l[i] != '\n' && l[i] != '#' by {
        if i < nu {
            assert(l[i] == u[i]);
            assert(!is_space(u[i]));
        } else if nu < i < w {
            assert(l[i] == v[i - nu - 1]);
            assert(!is_space(v[i - nu - 1]));
        } else if i >= w {
            assert(l[i] == tail[i - w]);
        }
    }
    lemma_find_in_absent(l, '#', 0, hi);
    assert(!is_space(l[0]));
    assert(skip_spaces(l, 0, hi) == 0);
    assert forall|i: int| 0 <= i < nu implies !is_space(l[i]) by {
        assert(l[i] == u[i]);
    }
    lemma_skip_word_run(l, 0, nu, hi);
    assert(is_space(l[nu]));
    assert(!is_space(l[nu + 1])) by {
        assert(l[nu + 1] == v[0]);
    }
    assert(skip_spaces(l, nu + 1, hi) == nu + 1);
    assert(skip_spaces(l, nu, hi) == nu + 1);
    assert forall|i: int| nu + 1 <= i < w implies !is_space(l[i]) by {
        assert(l[i] == v[i - nu - 1]);
    }
    if nt > 0 {
        assert(is_space(l[w])) by {
            assert(l[w] == tail[0]);
        }
    }
    lemma_skip_word_run(l, nu + 1, w, hi);
    assert(word_bounds(l, 0, hi) == (hi, 0int, nu, nu + 1, w));
    assert(l.subrange(0, nu) =~= u);
    assert(l.subrange(nu + 1, w) =~= v);
    assert(line_edge(l, 0, hi) == Some((u, v)));
    lemma_one_line(l);
}

/// A line ended by a carriage return and a line break, as in Windows text,
/// names the same edge as the line without the carriage return: the words
/// keep no `'\r'`.
pub proof fn law_crlf_line(u: Seq<char>, v: Seq<char>)
    requires
        is_word(u),
        is_word(v),
    ensures
        edge_list(u + seq![' '] + v + seq!['\r', '\n']) == seq![(u, v)],
        edge_list(u + seq!['\t'] + v + seq!['\r', '\n']) == seq![(u, v)],
{
    assert(is_space('\r'));
    assert(is_space('\t'));
    assert(is_space(' '));
    let tail = seq!['\r'];
    assert(u + seq![' '] + v + seq!['\r', '\n'] =~= spaced_line(u, ' ', v, tail));
    assert(u + seq!['\t'] + v + seq!['\r', '\n'] =~= spaced_line(u, '\t', v, tail));
    law_spaced_line(u, ' ', v, tail);
    law_spaced_line(u, '\t', v, tail);
}

/// The line `u v` names the edge `(u, v)` when `u` and `v` are words.
proof fn lemma_edge_line(e: (Seq<char>, Seq<char>))
    requires
        is_word(e.0),
        is_word(e.1),
    ensures
        one_line(edge_line(e)),
        edge_list(edge_line(e)) == seq![e],
{
    assert(is_space(' '));
    assert(edge_line(e) =~= spaced_line(e.0, ' ', e.1, seq![]));
    law_spaced_line(e.0, ' ', e.1, seq![]);
}

/// The text that lists word pairs one line each lists exactly those pairs.
pub proof fn law_edge_text(pairs: Seq<(Seq<char>, Seq<char>)>)
    requires
        all_words(pairs),
    ensures
        edge_list(edge_text(pairs)) == pairs,
        ends_a_line(edge_text(pairs)),
    decreases pairs.len(),
{
    if pairs.len() == 0 {
        assert(edge_list(edge_text(pairs)) =~= pairs);
    } else {
        let p = pairs.drop_last();
        let e = pairs.last();
        assert(all_words(p)) by {
            assert forall|i: int| 0 <= i < p.len() implies is_word((#[trigger] p[i]).0) && is_word(
                p[i].1,
            ) by {
                assert(p[i] == pairs[i]);
            }
        }
        assert(pairs[pairs.len() - 1] == e);
        law_edge_text(p);
        lemma_edge_line(e);
        law_edge_list_concat(edge_text(p), edge_line(e));
        assert(p + seq![e] =~= pairs);
        let t = edge_text(pairs);
        assert(t == edge_text(p) + edge_line(e));
        assert(t.last() == edge_line(e).last());
    }
}

/// A run of at most `k` rounds elects only nodes of the graph.
proof fn lemma_run_in_range(adj: Seq<Seq<int>>, dec: u64, st: VoteState, k: nat)
    requires
        adj.len() > 0,
        forall|i: int| 0 <= i < st.seeds.len() ==> 0 <= #[trigger] st.seeds[i] < adj.len(),
    ensures
        forall|i: int|
            0 <= i < run(adj, dec, st, k).len() ==> 0 <= #[trigger] run(adj, dec, st, k)[i]
                < adj.len(),
    decreases k,
{
    if k > 0 {
        if let Some(next) = elect(adj, dec, st) {
            let sc = round_scores(adj, st.ability, st.seeds);
            lemma_best_upto_bounds(sc, sc.len() as int);
            assert forall|i: int| 0 <= i < next.seeds.len() implies 0 <= #[trigger] next.seeds[i]
                < adj.len() by {
                if i < st.seeds.len() {
                    assert(next.seeds[i] == st.seeds[i]);
                }
            }
            lemma_run_in_range(adj, dec, next, (k - 1) as nat);
            assert(run(adj, dec, st, k) == run(adj, dec, next, (k - 1) as nat));
        } else {
            assert(run(adj, dec, st, k) == st.seeds);
        }
    } else {
        assert(run(adj, dec, st, k) == st.seeds);
    }
}

/// Renaming the words of an edge-list text by an injective `f` that maps
/// words to words renames the ranked labels by `f` and changes nothing else.
pub proof fn law_renaming_text(
    pairs: Seq<(Seq<char>, Seq<char>)>,
    f: spec_fn(Seq<char>) -> Seq<char>,
    number_of_nodes: Option<usize>,
)
    requires
        all_words(pairs),
        injective(f),
        forall|w: Seq<char>| is_word(w) ==> is_word(#[trigger] f(w)),
    ensures
        ranked_labels(edge_text(rename_edges(pairs, f)), number_of_nodes) == ranked_labels(
            edge_text(pairs),
            number_of_nodes,
        ).map_values(f),
{
    let r = rename_edges(pairs, f);
    assert(all_words(r)) by {
        assert forall|i: int| 0 <= i < r.len() implies is_word((#[trigger] r[i]).0) && is_word(
            r[i].1,
        ) by {
            assert(r[i] == (f(pairs[i].0), f(pairs[i].1)));
        }
    }
    law_edge_text(pairs);
    law_edge_text(r);
    law_renaming(pairs, f, number_of_nodes);
    let g = graph_of(pairs);
    let h = graph_of(r);
    law_graph_of_edges(pairs);
    let seeds = voterank_spec(g.adj, number_of_nodes);
    if g.adj.len() > 0 {
        lemma_run_in_range(
            g.adj,
            decrement(g.adj),
            initial_state(g.adj),
            round_limit(g.adj.len(), number_of_nodes),
        );
    } else {
        lemma_run_extends(g.adj, decrement(g.adj), initial_state(g.adj), 0);
        assert(round_limit(g.adj.len(), number_of_nodes) == 0);
        assert(seeds.len() == 0);
    }
    assert(ranked_labels(edge_text(r), number_of_nodes) =~= ranked_labels(
        edge_text(pairs),
        number_of_nodes,
    ).map_values(f));
}

/// Ties go to the first node: when no score is NaN, the node that a round
/// elects has the highest score, and every node before it a strictly lower
/// one.
pub proof fn law_best_is_first_maximum(score: Seq<u64>)
    requires
        score.len() > 0,
        forall|i: int| 0 <= i < score.len() ==> !is_nan(#[trigger] score[i]),
    ensures
        0 <= best(score) < score.len(),
        forall|j: int|
            0 <= j < score.len() ==> order_key(#[trigger] score[j]) <= order_key(score[best(score)]),
        forall|j: int| 0 <= j < best(score) ==> order_key(#[trigger] score[j]) < order_key(
            score[best(score)],
        ),
{
    lemma_best_upto_first_max(score, score.len() as int);
}

proof fn lemma_best_upto_first_max(score: Seq<u64>, k: int)
    requires
        1 <= k <= score.len(),
        forall|i: int| 0 <= i < score.len() ==> !is_nan(#[trigger] score[i]),
    ensures
        0 <= best_upto(score, k) < k,
        forall|j: int|
            0 <= j < k ==> order_key(#[trigger] score[j]) <= order_key(score[best_upto(score, k)]),
        forall|j: int|
            0 <= j < best_upto(score, k) ==> order_key(#[trigger] score[j]) < order_key(
                score[best_upto(score, k)],
            ),
    decreases k,
{
    if k > 1 {
        lemma_best_upto_first_max(score, k - 1);
        assert(!is_nan(score[k - 1]));
        assert(!is_nan(score[best_upto(score, k - 1)]));
    }
}

/// The state after the nodes of `seeds` have been elected in turn from the
/// start, where every node has ability `1.0`: each election weakens the
/// elected node and its neighbours.
pub open spec fn state_after(adj: Seq<Seq<int>>, dec: u64, seeds: Seq<int>) -> VoteState
    decreases seeds.len(),
{
    if seeds.len() == 0 {
        VoteState { ability: Seq::new(adj.len(), |i: int| ONE), seeds: seq![] }
    } else {
        let p = state_after(adj, dec, seeds.drop_last());
        VoteState { ability: weaken(adj, p.ability, seeds.last(), dec), seeds }
    }
}

/// Each further round of a run is an election from the state that the
/// seeds so far leave, and the run ends early only when no node can be
/// elected.
proof fn lemma_run_elections(adj: Seq<Seq<int>>, dec: u64, st: VoteState, k: nat)
    requires
        st == state_after(adj, dec, st.seeds),
    ensures
        run(adj, dec, st, k).len() <= st.seeds.len() + k,
        run(adj, dec, st, k).take(st.seeds.len() as int) == st.seeds,
        forall|i: int|
            st.seeds.len() <= i < run(adj, dec, st, k).len() ==> elect(
                adj,
                dec,
                state_after(adj, dec, #[trigger] run(adj, dec, st, k).take(i)),
            ) == Some(state_after(adj, dec, run(adj, dec, st, k).take(i + 1))),
        run(adj, dec, st, k).len() == st.seeds.len() + k || elect(
            adj,
            dec,
            state_after(adj, dec, run(adj, dec, st, k)),
        ) is None,
    decreases k,
{
    let r = run(adj, dec, st, k);
    lemma_run_extends(adj, dec, st, k);
    if k > 0 {
        if let Some(next) = elect(adj, dec, st) {
            let b = next.seeds.last();
            assert(next.seeds.drop_last() =~= st.seeds);
            assert(next == state_after(adj, dec, next.seeds));
            lemma_run_elections(adj, dec, next, (k - 1) as nat);
            assert(r == run(adj, dec, next, (k - 1) as nat));
            let n0 = st.seeds.len() as int;
            assert(r.take(n0 + 1) == next.seeds);
            assert(r.take(n0) =~= r.take(n0 + 1).take(n0));
            assert(next.seeds.take(n0) =~= st.seeds);
            assert forall|i: int| n0 <= i < r.len() implies elect(
                adj,
                dec,
                state_after(adj, dec, #[trigger] r.take(i)),
            ) == Some(state_after(adj, dec, r.take(i + 1))) by {
                if i == n0 {
                    assert(r.take(i) == st.seeds);
                }
            }
        } else {
            assert(r == st.seeds);
            assert(r.take(st.seeds.len() as int) =~= st.seeds);
        }
    } else {
        assert(r == st.seeds);
        assert(r.take(st.seeds.len() as int) =~= st.seeds);
    }
}

/// The ranking is a sequence of elections: node `r[i]` is elected from the
/// state that `r[0..i]` leave, there are never more than `number_of_nodes`
/// (where given and below `n`) or `n` of them, and the ranking stops short of
/// that only when no node can be elected, its top score being `0.0`.
pub proof fn law_ranking_is_elections(adj: Seq<Seq<int>>, number_of_nodes: Option<usize>)
    ensures
        ({
            let r = voterank_spec(adj, number_of_nodes);
            let dec = decrement(adj);
            let limit: int = match number_of_nodes {
                Some(k) => if k < adj.len() {
                    k as int
                } else {
                    adj.len() as int
                },
                None => adj.len() as int,
            };
            &&& r.len() <= limit
            &&& forall|i: int|
                0 <= i < r.len() ==> elect(adj, dec, state_after(adj, dec, #[trigger] r.take(i)))
                    == Some(state_after(adj, dec, r.take(i + 1)))
            &&& r.len() == limit || elect(adj, dec, state_after(adj, dec, r)) is None
        }),
{
    let dec = decrement(adj);
    let st = initial_state(adj);
    let limit: int = match number_of_nodes {
        Some(k) => if k < adj.len() {
            k as int
        } else {
            adj.len() as int
        },
        None => adj.len() as int,
    };
    assert(round_limit(adj.len(), number_of_nodes) == limit);
    assert(st.ability =~= state_after(adj, dec, seq![]).ability);
    assert(st == state_after(adj, dec, st.seeds));
    lemma_run_elections(adj, dec, st, round_limit(adj.len(), number_of_nodes));
}

/// The labels returned are the labels of the ranking by node id: one per
/// elected node, in order.
pub proof fn law_ranked_labels_are_seed_labels(text: Seq<char>, number_of_nodes: Option<usize>)
    ensures
        ranked_labels(text, number_of_nodes).len() == voterank_spec(
            graph_of(edge_list(text)).adj,
            number_of_nodes,
        ).len(),
        forall|i: int|
            0 <= i < ranked_labels(text, number_of_nodes).len() ==> #[trigger] ranked_labels(
                text,
                number_of_nodes,
            )[i] == graph_of(edge_list(text)).labels[voterank_spec(
                graph_of(edge_list(text)).adj,
                number_of_nodes,
            )[i]],
{
}

/// Asking for the top `k` labels gives the first `k` labels of the full
/// ranking, or all of them when it has fewer.
pub proof fn law_ranked_labels_top_k(text: Seq<char>, k: usize)
    ensures
        ranked_labels(text, Some(k)) == ranked_labels(text, None).take(
            ranked_labels(text, Some(k)).len() as int,
        ),
        ranked_labels(text, Some(k)).len() == if ranked_labels(text, None).len() < k {
            ranked_labels(text, None).len() as int
        } else {
            k as int
        },
{
    let g = graph_of(edge_list(text));
    law_top_k_is_prefix(g.adj, k);
    let a = voterank_spec(g.adj, Some(k));
    let b = voterank_spec(g.adj, None);
    assert(ranked_labels(text, Some(k)) =~= ranked_labels(text, None).take(a.len() as int));
}

/// The characters that Rust's `char::is_whitespace` accepts, by code point:
/// the Unicode `White_Space` property.
pub open spec fn unicode_white_space(c: char) -> bool {
    let u = c as u32;
    ||| 0x09 <= u <= 0x0d
    ||| u == 0x20
    ||| u == 0x85
    ||| u == 0xa0
    ||| u == 0x1680
    ||| 0x2000 <= u <= 0x200a
    ||| u == 0x2028
    ||| u == 0x2029
    ||| u == 0x202f
    ||| u == 0x205f
    ||| u == 0x3000
}

/// The line `a c b` names an edge exactly when `c` is whitespace other than a
/// line break: any other character either joins `a` and `b` into one word,
/// starts a comment (`'#'`) or ends the line.
pub proof fn law_separator(c: char)
    ensures
        edge_list(seq!['a', c, 'b', '\n']).len() == 1 <==> unicode_white_space(c) && c != '\n',
        unicode_white_space(c) && c != '\n' ==> edge_list(seq!['a', c, 'b', '\n']) == seq![
            (seq!['a'], seq!['b']),
        ],
{
    let l = seq!['a', c, 'b', '\n'];
    assert(l[0] == 'a' && l[1] == c && l[2] == 'b' && l[3] == '\n');
    let wa = seq!['a'];
    let wb = seq!['b'];
    assert(!is_space('a') && !is_space('b'));
    assert(is_word(wa)) by {
        assert(wa[0] == 'a');
    }
    assert(is_word(wb)) by {
        assert(wb[0] == 'b');
    }
    assert(is_space(c) == unicode_white_space(c));
    if is_space(c) && c != '\n' {
        assert(l =~= spaced_line(wa, c, wb, seq![]));
        law_spaced_line(wa, c, wb, seq![]);
    } else if c == '\n' {
        let l1 = seq!['a', '\n'];
        let l2 = seq!['b', '\n'];
        assert(l1[0] == 'a' && l1[1] == '\n');
        assert(l2[0] == 'b' && l2[1] == '\n');
        assert(l =~= l1 + l2);
        assert(skip_spaces(l1, 0, 1) == 0);
        assert(skip_word(l1, 1, 1) == 1);
        assert(skip_word(l1, 0, 1) == 1);
        assert(skip_spaces(l1, 1, 1) == 1);
        assert(skip_spaces(l2, 0, 1) == 0);
        assert(skip_word(l2, 1, 1) == 1);
        assert(skip_word(l2, 0, 1) == 1);
        assert(skip_spaces(l2, 1, 1) == 1);
        assert(one_line(l1));
        assert(one_line(l2));
        lemma_find_in_absent(l1, '#', 0, 1);
        lemma_find_in_absent(l2, '#', 0, 1);
        assert(line_edge(l1, 0, 1) is None);
        assert(line_edge(l2, 0, 1) is None);
        lemma_one_line(l1);
        lemma_one_line(l2);
        law_edge_list_concat(l1, l2);
        assert(edge_list(l) =~= Seq::<(Seq<char>, Seq<char>)>::empty());
    } else {
        assert(one_line(l));
        if c == '#' {
            assert(find_in(l, '#', 1, 3) == 1);
            assert(find_in(l, '#', 0, 3) == 1);
            assert(skip_spaces(l, 0, 1) == 0);
            assert(skip_word(l, 1, 1) == 1);
            assert(skip_word(l, 0, 1) == 1);
            assert(skip_spaces(l, 1, 1) == 1);
        } else {
            lemma_find_in_absent(l, '#', 0, 3);
            assert(skip_spaces(l, 0, 3) == 0);
            lemma_skip_word_run(l, 0, 3, 3);
            assert(skip_spaces(l, 3, 3) == 3);
        }
        assert(line_edge(l, 0, 3) is None);
        lemma_one_line(l);
        assert(edge_list(l) =~= Seq::<(Seq<char>, Seq<char>)>::empty());
    }
}

/// A comment never matters: after the words `u v`, a `'#'` and anything up to
/// the line break leave the line naming exactly `(u, v)`, and a line that
/// starts with `'#'` names nothing.
pub proof fn law_comment_ignored(u: Seq<char>, v: Seq<char>, note: Seq<char>)
    requires
        is_word(u),
        is_word(v),
        forall|i: int| 0 <= i < note.len() ==> #[trigger] note[i] != '\n',
    ensures
        edge_list(u + seq![' '] + v + seq!['#'] + note + seq!['\n']) == seq![(u, v)],
        edge_list(seq!['#'] + note + seq!['\n']).len() == 0,
{
    let l = u + seq![' '] + v + seq!['#'] + note + seq!['\n'];
    let nu = u.len() as int;
    let nv = v.len() as int;
    let w = nu + 1 + nv;
    let hi = w + 1 + note.len();
    assert(l.len() == hi + 1);
    assert forall|i: int| 0 <= i < nu implies l[i] == u[i] by {}
    assert(l[nu] == ' ');
    assert forall|i: int| 0 <= i < nv implies l[nu + 1 + i] == v[i] by {}
    assert(l[w] == '#');
    assert forall|i: int| 0 <= i < note.len() implies l[w + 1 + i] == note[i] by {}
    assert forall|i: int| 0 <= i < hi implies l[i] != '\n' by {
        if i < nu {
            assert(l[i] == u[i]);
            assert(!is_space(u[i]));
        } else if nu < i < w {
            assert(l[i] == v[i - nu - 1]);
            assert(!is_space(v[i - nu - 1]));
        } else if i > w {
            assert(l[i] == note[i - w - 1]);
        }
    }
    assert(l[hi] == '\n');
    assert(one_line(l));
    assert forall|i: int| 0 <= i < w implies l[i] != '#' by {
        if i < nu {
            assert(l[i] == u[i]);
        } else if nu < i {
            assert(l[i] == v[i - nu - 1]);
        }
    }
    lemma_find_in_first(l, '#', 0, hi, w);
    assert(!is_space(l[0]));
    assert(skip_spaces(l, 0, w) == 0);
    assert forall|i: int| 0 <= i < nu implies !is_space(l[i]) by {
        assert(l[i] == u[i]);
    }
    lemma_skip_word_run(l, 0, nu, w);
    assert(is_space(l[nu]));
    assert(!is_space(l[nu + 1])) by {
        assert(l[nu + 1] == v[0]);
    }
    assert(skip_spaces(l, nu + 1, w) == nu + 1);
    assert(skip_spaces(l, nu, w) == nu + 1);
    assert forall|i: int| nu + 1 <= i < w implies !is_space(l[i]) by {
        assert(l[i] == v[i - nu - 1]);
    }
    lemma_skip_word_run(l, nu + 1, w, w);
    assert(word_bounds(l, 0, hi) == (w, 0int, nu, nu + 1, w));
    assert(l.subrange(0, nu) =~= u);
    assert(l.subrange(nu + 1, w) =~= v);
    assert(line_edge(l, 0, hi) == Some((u, v)));
    lemma_one_line(l);
    let m = seq!['#'] + note + seq!['\n'];
    let hm: int = 1 + note.len() as int;
    assert(m.len() == hm + 1);
    assert forall|i: int| 0 <= i < hm implies m[i] != '\n' by {
        if i > 0 {
            assert(m[i] == note[i - 1]);
        }
    }
    assert(one_line(m));
    assert(find_in(m, '#', 0, hm) == 0);
    assert(line_edge(m, 0, hm) is None);
    lemma_one_line(m);
}

/// Clamping with `max(x, 0.0)` gives a value that is not NaN and not below
/// zero, and gives `x` itself when `x` is such a value.
pub proof fn law_clamp_at_zero(x: u64)
    ensures
        !is_nan(binary64_max(x, ZERO)),
        order_key(binary64_max(x, ZERO)) >= 0,
        !is_nan(x) && order_key(x) >= 0 ==> binary64_max(x, ZERO) == x,
{
}

/// An election sets the elected node's ability to `0.0` (its self-loop, if
/// any, clamps it again at `0.0`), lowers each neighbour's ability `a` to
/// `max(a - dec, 0.0)`, and leaves every other node's ability as it was.
pub proof fn law_weaken(adj: Seq<Seq<int>>, ability: Seq<u64>, b: int, dec: u64)
    ensures
        weaken(adj, ability, b, dec).len() == ability.len(),
        forall|v: int|
            0 <= v < ability.len() && v != b && !adj[b].contains(v) ==> #[trigger] weaken(
                adj,
                ability,
                b,
                dec,
            )[v] == ability[v],
        forall|v: int|
            0 <= v < ability.len() && v != b && adj[b].contains(v) ==> #[trigger] weaken(
                adj,
                ability,
                b,
                dec,
            )[v] == binary64_max(binary64_sub(ability[v], dec), ZERO),
        0 <= b < ability.len() ==> weaken(adj, ability, b, dec)[b] == if adj[b].contains(b) {
            binary64_max(binary64_sub(ZERO, dec), ZERO)
        } else {
            ZERO
        },
{
}

/// Abilities never go below zero: whatever nodes have been elected, every
/// node's ability is a binary64 value that is not NaN and not negative.
pub proof fn law_abilities_nonnegative(adj: Seq<Seq<int>>, dec: u64, seeds: Seq<int>)
    ensures
        state_after(adj, dec, seeds).ability.len() == adj.len(),
        forall|i: int|
            0 <= i < adj.len() ==> !is_nan(#[trigger] state_after(adj, dec, seeds).ability[i])
                && order_key(state_after(adj, dec, seeds).ability[i]) >= 0,
    decreases seeds.len(),
{
    if seeds.len() > 0 {
        law_abilities_nonnegative(adj, dec, seeds.drop_last());
        let p = state_after(adj, dec, seeds.drop_last());
        let b = seeds.last();
        assert forall|i: int| 0 <= i < adj.len() implies !is_nan(
            #[trigger] state_after(adj, dec, seeds).ability[i],
        ) && order_key(state_after(adj, dec, seeds).ability[i]) >= 0 by {
            let a = if i == b {
                ZERO
            } else {
                p.ability[i]
            };
            law_clamp_at_zero(binary64_sub(a, dec));
            assert(!is_nan(ZERO) && order_key(ZERO) == 0);
        }
    } else {
        assert(!is_nan(ONE) && order_key(ONE) >= 0);
    }
}

proof fn lemma_upper_pairs_member(row: Seq<int>, u: int, j: int)
    requires
        0 <= j < upper_pairs(row, u).len(),
    ensures
        upper_pairs(row, u)[j].0 == u,
        row.contains(upper_pairs(row, u)[j].1),
    decreases row.len(),
{
    let r = row.drop_last();
    let p = upper_pairs(r, u);
    if j < p.len() {
        lemma_upper_pairs_member(r, u, j);
        let v = p[j].1;
        let k = choose|k: int| 0 <= k < r.len() && r[k] == v;
        assert(row[k] == v);
    } else {
        assert(row[row.len() - 1] == row.last());
    }
}

proof fn lemma_edge_order_member(adj: Seq<Seq<int>>, k: int, j: int)
    requires
        0 <= j < edge_order(adj, k).len(),
    ensures
        0 <= edge_order(adj, k)[j].0 < k,
        adj[edge_order(adj, k)[j].0].contains(edge_order(adj, k)[j].1),
    decreases k,
{
    if k > 0 {
        let p = edge_order(adj, k - 1);
        if j < p.len() {
            lemma_edge_order_member(adj, k - 1, j);
        } else {
            lemma_upper_pairs_member(adj[k - 1], k - 1, j - p.len());
        }
    }
}

/// A node that none of the first `k` edges touches keeps the score `0.0`.
proof fn lemma_tally_untouched(edges: Seq<(int, int)>, ability: Seq<u64>, n: nat, k: int, x: int)
    requires
        0 <= x < n,
        k <= edges.len(),
        forall|j: int| 0 <= j < k ==> (#[trigger] edges[j]).0 != x && edges[j].1 != x,
        forall|j: int| 0 <= j < k ==> 0 <= (#[trigger] edges[j]).0 < n && 0 <= edges[j].1 < n,
    ensures
        tally(edges, ability, n, k)[x] == ZERO,
        tally(edges, ability, n, k).len() == n,
    decreases k,
{
    if k > 0 {
        lemma_tally_untouched(edges, ability, n, k - 1, x);
        assert(edges[k - 1].0 != x && edges[k - 1].1 != x);
        assert(0 <= edges[k - 1].0 < n && 0 <= edges[k - 1].1 < n);
    }
}

/// A node without neighbours never scores: in every round its score is `0.0`.
pub proof fn law_isolated_node_scores_zero(
    g: GraphModel,
    ability: Seq<u64>,
    seeds: Seq<int>,
    x: int,
)
    requires
        well_formed(g),
        0 <= x < g.adj.len(),
        g.adj[x].len() == 0,
    ensures
        round_scores(g.adj, ability, seeds)[x] == ZERO,
{
    let adj = g.adj;
    let e = edges_in_order(adj);
    assert forall|j: int| 0 <= j < e.len() implies 0 <= (#[trigger] e[j]).0 < adj.len() && 0
        <= e[j].1 < adj.len() by {
        lemma_edge_order_member(adj, adj.len() as int, j);
        let u = e[j].0;
        let k = choose|k: int| 0 <= k < adj[u].len() && adj[u][k] == e[j].1;
        assert(0 <= adj[u][k] < adj.len());
    }
    assert forall|j: int| 0 <= j < e.len() implies (#[trigger] e[j]).0 != x && e[j].1 != x by {
        lemma_edge_order_member(adj, adj.len() as int, j);
        let u = e[j].0;
        let v = e[j].1;
        if u == x {
            assert(adj[x].contains(v));
        }
        if v == x {
            let k = choose|k: int| 0 <= k < adj[u].len() && adj[u][k] == v;
            assert(0 <= adj[u][k] < adj.len());
            assert(adj[x].contains(u));
        }
    }
    lemma_tally_untouched(e, ability, adj.len(), e.len() as int, x);
}

/// Only nodes with a neighbour are ranked: an elected node scored something
/// other than `0.0`, which a node without neighbours never does.
pub proof fn law_seeds_have_neighbours(g: GraphModel, number_of_nodes: Option<usize>)
    requires
        well_formed(g),
    ensures
        forall|i: int|
            0 <= i < voterank_spec(g.adj, number_of_nodes).len() ==> g.adj[#[trigger] voterank_spec(
                g.adj,
                number_of_nodes,
            )[i]].len() > 0,
{
    let adj = g.adj;
    let r = voterank_spec(adj, number_of_nodes);
    let dec = decrement(adj);
    law_ranking_is_elections(adj, number_of_nodes);
    law_ranking_shape(g, number_of_nodes);
    assert forall|i: int| 0 <= i < r.len() implies adj[#[trigger] r[i]].len() > 0 by {
        let st = state_after(adj, dec, r.take(i));
        assert(elect(adj, dec, st) == Some(state_after(adj, dec, r.take(i + 1))));
        let sc = round_scores(adj, st.ability, st.seeds);
        let b = best(sc);
        assert(state_after(adj, dec, r.take(i + 1)).seeds == r.take(i + 1));
        assert(r.take(i + 1) == st.seeds.push(b));
        assert(r[i] == r.take(i + 1)[i]);
        assert(r[i] == b);
        if adj[b].len() == 0 {
            law_isolated_node_scores_zero(g, st.ability, st.seeds, b);
            assert(!is_nan(ZERO) && order_key(ZERO) == 0);
        }
    }
}

/// The loss per elected neighbour is `1.0 / avg_degree` with
/// `avg_degree = 2|E| / n`, computed once in binary64 from the edge count.
pub proof fn law_decrement(adj: Seq<Seq<int>>)
    ensures
        decrement(adj) == binary64_div(
            ONE,
            binary64_div(
                binary64_from_usize((2 * edge_count(adj)) as usize),
                binary64_from_usize(adj.len() as usize),
            ),
        ),
{
    crate::rank::lemma_edge_order_len(adj, adj.len() as int);
}

/// Each node of the ranking is the first node of highest score in its round,
/// that score is not `0.0`, and the ranking stops short of its round limit
/// only when the top score of the next round is `0.0`.
pub proof fn law_ranking_stops_at_zero(adj: Seq<Seq<int>>, number_of_nodes: Option<usize>)
    ensures
        ({
            let r = voterank_spec(adj, number_of_nodes);
            let dec = decrement(adj);
            let limit: int = match number_of_nodes {
                Some(k) => if k < adj.len() {
                    k as int
                } else {
                    adj.len() as int
                },
                None => adj.len() as int,
            };
            &&& forall|i: int|
                0 <= i < r.len() ==> {
                    let sc = round_scores(
                        adj,
                        state_after(adj, dec, r.take(i)).ability,
                        r.take(i),
                    );
                    &&& #[trigger] r[i] == best(sc)
                    &&& !binary64_eq(sc[r[i]], ZERO)
                }
            &&& r.len() == limit || binary64_eq(
                round_scores(adj, state_after(adj, dec, r).ability, r)[best(
                    round_scores(adj, state_after(adj, dec, r).ability, r),
                )],
                ZERO,
            )
        }),
{
    let r = voterank_spec(adj, number_of_nodes);
    let dec = decrement(adj);
    law_ranking_is_elections(adj, number_of_nodes);
    assert forall|i: int| 0 <= i < r.len() implies {
        let sc = round_scores(adj, state_after(adj, dec, r.take(i)).ability, r.take(i));
        &&& #[trigger] r[i] == best(sc)
        &&& !binary64_eq(sc[r[i]], ZERO)
    } by {
        let st = state_after(adj, dec, r.take(i));
        lemma_state_after_seeds(adj, dec, r.take(i));
        assert(elect(adj, dec, st) == Some(state_after(adj, dec, r.take(i + 1))));
        lemma_state_after_seeds(adj, dec, r.take(i + 1));
        assert(r.take(i + 1)[i] == r[i]);
    }
    lemma_state_after_seeds(adj, dec, r);
}

/// The state after electing `seeds` records those seeds.
proof fn lemma_state_after_seeds(adj: Seq<Seq<int>>, dec: u64, seeds: Seq<int>)
    ensures
        state_after(adj, dec, seeds).seeds == seeds,
{
    if seeds.len() == 0 {
        assert(state_after(adj, dec, seeds).seeds =~= seeds);
    }
}

proof fn lemma_upper_pairs_facts(row: Seq<int>, u: int)
    ensures
        forall|j: int|
            0 <= j < upper_pairs(row, u).len() ==> (#[trigger] upper_pairs(row, u)[j]).0 == u
                && upper_pairs(row, u)[j].1 >= u && row.contains(upper_pairs(row, u)[j].1),
        forall|w: int| row.contains(w) && w >= u ==> #[trigger] upper_pairs(row, u).contains((u, w)),
        row.no_duplicates() ==> upper_pairs(row, u).no_duplicates(),
    decreases row.len(),
{
    let p = upper_pairs(row, u);
    if row.len() > 0 {
        let r = row.drop_last();
        let q = upper_pairs(r, u);
        lemma_upper_pairs_facts(r, u);
        assert forall|j: int| 0 <= j < p.len() implies (#[trigger] p[j]).0 == u && p[j].1 >= u
            && row.contains(p[j].1) by {
            if j < q.len() {
                assert(p[j] == q[j]);
                let k = choose|k: int| 0 <= k < r.len() && r[k] == q[j].1;
                assert(row[k] == q[j].1);
            } else {
                assert(row[row.len() - 1] == row.last());
            }
        }
        assert forall|w: int| row.contains(w) && w >= u implies #[trigger] p.contains((u, w)) by {
            let k = choose|k: int| 0 <= k < row.len() && row[k] == w;
            if k < r.len() {
                assert(r[k] == w);
                assert(q.contains((u, w)));
                let j = choose|j: int| 0 <= j < q.len() && q[j] == (u, w);
                assert(p[j] == (u, w));
            } else {
                assert(p[q.len() as int] == (u, w));
            }
        }
        if row.no_duplicates() {
            assert(r.no_duplicates()) by {
                assert forall|i: int, j: int| 0 <= i < j < r.len() implies r[i] != r[j] by {
                    assert(r[i] == row[i] && r[j] == row[j]);
                }
            }
            assert forall|i: int, j: int| 0 <= i < j < p.len() implies p[i] != p[j] by {
                if j >= q.len() {
                    assert(p[i] == q[i]);
                    let k = choose|k: int| 0 <= k < r.len() && r[k] == q[i].1;
                    assert(row[k] == q[i].1);
                    assert(p[j].1 == row[row.len() - 1]);
                }
            }
        }
    }
}

proof fn lemma_edge_order_facts(g: GraphModel, k: int)
    requires
        well_formed(g),
        0 <= k <= g.adj.len(),
    ensures
        forall|j: int|
            0 <= j < edge_order(g.adj, k).len() ==> 0 <= (#[trigger] edge_order(g.adj, k)[j]).0
                <= edge_order(g.adj, k)[j].1 < g.adj.len() && edge_order(g.adj, k)[j].0 < k
                && g.adj[edge_order(g.adj, k)[j].0].contains(edge_order(g.adj, k)[j].1),
        forall|u: int, v: int|
            0 <= u < k && u <= v && g.adj[u].contains(v) ==> #[trigger] edge_order(
                g.adj,
                k,
            ).contains((u, v)),
        edge_order(g.adj, k).no_duplicates(),
        forall|i: int, j: int|
            0 <= i < j < edge_order(g.adj, k).len() ==> (#[trigger] edge_order(g.adj, k)[i]).0
                <= (#[trigger] edge_order(g.adj, k)[j]).0,
    decreases k,
{
    let adj = g.adj;
    let e = edge_order(adj, k);
    if k > 0 {
        let p = edge_order(adj, k - 1);
        let row = adj[k - 1];
        let q = upper_pairs(row, k - 1);
        lemma_edge_order_facts(g, k - 1);
        lemma_upper_pairs_facts(row, k - 1);
        assert(row.no_duplicates());
        assert forall|j: int| 0 <= j < e.len() implies 0 <= (#[trigger] e[j]).0 <= e[j].1
            < adj.len() && e[j].0 < k && adj[e[j].0].contains(e[j].1) by {
            if j < p.len() {
                assert(e[j] == p[j]);
            } else {
                assert(e[j] == q[j - p.len()]);
                let w = q[j - p.len()].1;
                let m = choose|m: int| 0 <= m < row.len() && row[m] == w;
                assert(0 <= row[m] < adj.len());
            }
        }
        assert forall|u: int, v: int| 0 <= u < k && u <= v && adj[u].contains(v) implies
            #[trigger] e.contains((u, v)) by {
            if u < k - 1 {
                assert(edge_order(adj, k - 1).contains((u, v)));
                assert(p.contains((u, v)));
                let j = choose|j: int| 0 <= j < p.len() && p[j] == (u, v);
                assert(e[j] == (u, v));
            } else {
                assert(q.contains((u, v)));
                let j = choose|j: int| 0 <= j < q.len() && q[j] == (u, v);
                assert(e[p.len() + j] == (u, v));
            }
        }
        assert forall|i: int, j: int| 0 <= i < j < e.len() implies e[i] != e[j] by {
            if j < p.len() {
                assert(e[i] == p[i] && e[j] == p[j]);
            } else if i >= p.len() {
                assert(e[i] == q[i - p.len()] && e[j] == q[j - p.len()]);
            } else {
                assert(e[i] == p[i]);
                assert(e[j] == q[j - p.len()]);
            }
        }
        assert forall|i: int, j: int| 0 <= i < j < e.len() implies (#[trigger] e[i]).0 <= (
        #[trigger] e[j]).0 by {
            if j < p.len() {
                assert(e[i] == p[i] && e[j] == p[j]);
            } else if i >= p.len() {
                assert(e[i] == q[i - p.len()] && e[j] == q[j - p.len()]);
            } else {
                assert(e[i] == p[i]);
                assert(e[j] == q[j - p.len()]);
            }
        }
    }
}

/// The votes of a round come from each edge exactly once: the edges are
/// taken from their smaller end (a self-loop from its node), in node order,
/// every edge of the graph is among them, none twice, and there are `|E|`.
pub proof fn law_vote_edges(g: GraphModel)
    requires
        well_formed(g),
    ensures
        edges_in_order(g.adj).len() == edge_count(g.adj),
        forall|j: int|
            0 <= j < edges_in_order(g.adj).len() ==> 0 <= (#[trigger] edges_in_order(g.adj)[j]).0
                <= edges_in_order(g.adj)[j].1 < g.adj.len() && g.adj[edges_in_order(
                g.adj,
            )[j].0].contains(edges_in_order(g.adj)[j].1),
        forall|u: int, v: int|
            0 <= u <= v < g.adj.len() && g.adj[u].contains(v) ==> #[trigger] edges_in_order(
                g.adj,
            ).contains((u, v)),
        edges_in_order(g.adj).no_duplicates(),
        forall|i: int, j: int|
            0 <= i < j < edges_in_order(g.adj).len() ==> (#[trigger] edges_in_order(g.adj)[i]).0
                <= (#[trigger] edges_in_order(g.adj)[j]).0,
{
    crate::rank::lemma_edge_order_len(g.adj, g.adj.len() as int);
    lemma_edge_order_facts(g, g.adj.len() as int);
}

} // verus!
