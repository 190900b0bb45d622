//! The mathematical model of a graph built from an edge list: node labels in
//! order of first appearance, and for each node its neighbours in the order in
//! which the edges that reach them were first listed.

use vstd::prelude::*;

verus! {

/// A graph on the nodes `0..labels.len()`: node `i` is named `labels[i]`
/// and `adj[i]` lists its neighbours.
pub struct GraphModel {
    pub labels: Seq<Seq<char>>,
    pub adj: Seq<Seq<int>>,
}

/// The graph with no nodes.
pub open spec fn empty_graph() -> GraphModel {
    GraphModel { labels: seq![], adj: seq![] }
}

/// A simple undirected graph: one name per node, no name used twice, every
/// neighbour a node, no neighbour listed twice, and every edge listed at both
/// of its ends (a self-loop once, at its node).
pub open spec fn well_formed(g: GraphModel) -> bool {
    let n = g.labels.len();
    &&& g.adj.len() == n
    &&& forall|i: int, j: int| 0 <= i < j < n ==> g.labels[i] != g.labels[j]
    &&& forall|u: int, k: int|
        0 <= u < n && 0 <= k < g.adj[u].len() ==> 0 <= #[trigger] g.adj[u][k] < n
    &&& forall|u: int| 0 <= u < n ==> (#[trigger] g.adj[u]).no_duplicates()
    &&& forall|u: int, v: int|
        0 <= u < n && 0 <= v < n && (#[trigger] g.adj[u]).contains(v) ==> (
        #[trigger] g.adj[v]).contains(u)
}

/// The node named `name` (meaningful when some node has that name).
pub open spec fn label_index(labels: Seq<Seq<char>>, name: Seq<char>) -> int {
    choose|i: int| 0 <= i < labels.len() && labels[i] == name
}

/// The graph after the name `name` is looked up, a new isolated node being
/// added for it when no node has it yet, and the node that it names.
pub open spec fn intern_label(g: GraphModel, name: Seq<char>) -> (GraphModel, int) {
    if g.labels.contains(name) {
        (g, label_index(g.labels, name))
    } else {
        (GraphModel { labels: g.labels.push(name), adj: g.adj.push(seq![]) }, g.labels.len() as int)
    }
}

/// The graph after the edge between the nodes named `u` and `v` is added:
/// nothing changes when the edge is already there.
pub open spec fn add_edge(g: GraphModel, u: Seq<char>, v: Seq<char>) -> GraphModel {
    let (g1, ui) = intern_label(g, u);
    let (g2, vi) = intern_label(g1, v);
    if g2.adj[ui].contains(vi) {
        g2
    } else {
        let adj1 = g2.adj.update(ui, g2.adj[ui].push(vi));
        let adj2 = if ui == vi {
            adj1
        } else {
            adj1.update(vi, adj1[vi].push(ui))
        };
        GraphModel { labels: g2.labels, adj: adj2 }
    }
}

/// The graph that results from adding the edges of `edges` in order, starting
/// from the empty graph.
pub open spec fn graph_of(edges: Seq<(Seq<char>, Seq<char>)>) -> GraphModel
    decreases edges.len(),
{
    if edges.len() == 0 {
        empty_graph()
    } else {
        add_edge(graph_of(edges.drop_last()), edges.last().0, edges.last().1)
    }
}

/// The number of entries `v >= u` of `row`.
pub open spec fn count_upper(row: Seq<int>, u: int) -> nat
    decreases row.len(),
{
    if row.len() == 0 {
        0
    } else {
        count_upper(row.drop_last(), u) + if row.last() >= u {
            1nat
        } else {
            0nat
        }
    }
}

/// The number of edges `{u, v}` with `u < k`, each counted at its smaller end.
pub open spec fn edge_count_upto(adj: Seq<Seq<int>>, k: int) -> nat
    decreases k,
{
    if k <= 0 {
        0
    } else {
        edge_count_upto(adj, k - 1) + count_upper(adj[k - 1], k - 1)
    }
}

/// The number of edges of a graph with adjacency `adj` (a self-loop counts once).
pub open spec fn edge_count(adj: Seq<Seq<int>>) -> nat {
    edge_count_upto(adj, adj.len() as int)
}

pub proof fn lemma_count_upper_push(row: Seq<int>, u: int, x: int)
    ensures
        count_upper(row.push(x), u) == count_upper(row, u) + if x >= u {
            1nat
        } else {
            0nat
        },
{
    assert(row.push(x).drop_last() =~= row);
}

pub proof fn lemma_edge_count_upto_push(adj: Seq<Seq<int>>, e: Seq<int>, k: int)
    requires
        k <= adj.len(),
    ensures
        edge_count_upto(adj.push(e), k) == edge_count_upto(adj, k),
    decreases k,
{
    if k > 0 {
        lemma_edge_count_upto_push(adj, e, k - 1);
    }
}

pub proof fn lemma_edge_count_upto_update(
    adj: Seq<Seq<int>>,
    i: int,
    x: int,
    k: int,
)
    requires
        0 <= i < adj.len(),
        k <= adj.len(),
    ensures
        edge_count_upto(adj.update(i, adj[i].push(x)), k) == edge_count_upto(adj, k) + if k > i
            && x >= i {
            1nat
        } else {
            0nat
        },
    decreases k,
{
    if k > 0 {
        lemma_edge_count_upto_update(adj, i, x, k - 1);
        if k - 1 == i {
            lemma_count_upper_push(adj[i], i, x);
        }
    }
}

/// Adding a node without neighbours adds no edge.
pub proof fn lemma_edge_count_push_empty(adj: Seq<Seq<int>>)
    ensures
        edge_count(adj.push(seq![])) == edge_count(adj),
{
    lemma_edge_count_upto_push(adj, seq![], adj.len() as int);
    let a2 = adj.push(seq![]);
    assert(a2[adj.len() as int] == Seq::<int>::empty());
    assert(count_upper(Seq::<int>::empty(), adj.len() as int) == 0);
}

/// Listing `x` as a neighbour of `i` counts one more edge when `x >= i`.
pub proof fn lemma_edge_count_update(adj: Seq<Seq<int>>, i: int, x: int)
    requires
        0 <= i < adj.len(),
    ensures
        edge_count(adj.update(i, adj[i].push(x))) == edge_count(adj) + if x >= i {
            1nat
        } else {
            0nat
        },
{
    lemma_edge_count_upto_update(adj, i, x, adj.len() as int);
}

/// The name that `label_index` picks is the one node of a well-formed graph
/// with that name.
pub proof fn lemma_label_index(g: GraphModel, name: Seq<char>, i: int)
    requires
        well_formed(g),
        0 <= i < g.labels.len(),
        g.labels[i] == name,
    ensures
        label_index(g.labels, name) == i,
{
    let j = label_index(g.labels, name);
    assert(0 <= j < g.labels.len() && g.labels[j] == name);
    if j < i {
        assert(g.labels[j] != g.labels[i]);
    } else if i < j {
        assert(g.labels[i] != g.labels[j]);
    }
}

/// Interning a name keeps a graph well formed, gives a node of the new graph
/// with that name, and adds no edge.
pub proof fn lemma_intern_label(g: GraphModel, name: Seq<char>)
    requires
        well_formed(g),
    ensures
        well_formed(intern_label(g, name).0),
        0 <= intern_label(g, name).1 < intern_label(g, name).0.labels.len(),
        intern_label(g, name).0.labels[intern_label(g, name).1] == name,
        edge_count(intern_label(g, name).0.adj) == edge_count(g.adj),
        intern_label(g, name).0.labels.len() <= g.labels.len() + 1,
        forall|i: int|
            0 <= i < g.labels.len() ==> intern_label(g, name).0.labels[i] == g.labels[i] && (
            #[trigger] intern_label(g, name).0.adj[i]) == g.adj[i],
{
    if g.labels.contains(name) {
        let i = choose|i: int| 0 <= i < g.labels.len() && g.labels[i] == name;
        lemma_label_index(g, name, i);
    } else {
        lemma_edge_count_push_empty(g.adj);
        let g1 = intern_label(g, name).0;
        let n = g.labels.len();
        assert forall|i: int, j: int| 0 <= i < j < n + 1 implies g1.labels[i] != g1.labels[j] by {
            if j == n {
                assert(g.labels.contains(g.labels[i]));
            }
        }
        assert forall|u: int, v: int|
            0 <= u < n + 1 && 0 <= v < n + 1 && (#[trigger] g1.adj[u]).contains(
                v,
            ) implies (#[trigger] g1.adj[v]).contains(u) by {
            let k = choose|k: int| 0 <= k < g1.adj[u].len() && g1.adj[u][k] == v;
            if u < n {
                assert(g.adj[u][k] < n);
            }
        }
    }
}

/// Adding an edge keeps a graph well formed and adds at most one edge (exactly
/// one when the edge is new).
pub proof fn lemma_add_edge(g: GraphModel, u: Seq<char>, v: Seq<char>)
    requires
        well_formed(g),
    ensures
        well_formed(add_edge(g, u, v)),
        edge_count(add_edge(g, u, v).adj) <= edge_count(g.adj) + 1,
        add_edge(g, u, v).labels.len() <= g.labels.len() + 2,
{
    lemma_intern_label(g, u);
    let (g1, ui) = intern_label(g, u);
    lemma_intern_label(g1, v);
    let (g2, vi) = intern_label(g1, v);
    let n = g2.labels.len();
    if !g2.adj[ui].contains(vi) {
        let adj1 = g2.adj.update(ui, g2.adj[ui].push(vi));
        lemma_edge_count_update(g2.adj, ui, vi);
        let g3 = add_edge(g, u, v);
        if ui != vi {
            lemma_edge_count_update(adj1, vi, ui);
            assert(!g2.adj[vi].contains(ui));
        }
        assert forall|w: int, k: int|
            0 <= w < n && 0 <= k < g3.adj[w].len() implies 0 <= #[trigger] g3.adj[w][k] < n by {
            if w != ui && w != vi {
                assert(g3.adj[w] == g2.adj[w]);
            } else if k < g2.adj[w].len() {
                assert(g3.adj[w][k] == g2.adj[w][k]);
            }
        }
        assert forall|w: int| 0 <= w < n implies (#[trigger] g3.adj[w]).no_duplicates() by {
            if w == ui || w == vi {
                let r = g2.adj[w];
                let x = if w == ui {
                    vi
                } else {
                    ui
                };
                assert(g3.adj[w] == r.push(x));
                assert forall|i: int, j: int|
                    0 <= i < r.len() + 1 && 0 <= j < r.len() + 1 && i != j implies r.push(x)[i]
                    != r.push(x)[j] by {
                    if i == r.len() {
                        assert(r.contains(r[j]));
                    } else if j == r.len() {
                        assert(r.contains(r[i]));
                    }
                }
            } else {
                assert(g3.adj[w] == g2.adj[w]);
            }
        }
        assert forall|a: int, b: int|
            0 <= a < n && 0 <= b < n && (#[trigger] g3.adj[a]).contains(
                b,
            ) implies (#[trigger] g3.adj[b]).contains(a) by {
            let k = choose|k: int| 0 <= k < g3.adj[a].len() && g3.adj[a][k] == b;
            if (a == ui && b == vi) || (a == vi && b == ui) {
                if b == ui {
                    assert(g3.adj[b] == g2.adj[ui].push(vi));
                    assert(g3.adj[b][g2.adj[ui].len() as int] == a);
                } else {
                    assert(g3.adj[b] == g2.adj[vi].push(ui));
                    assert(g3.adj[b][g2.adj[vi].len() as int] == a);
                }
            } else {
                if a == ui || a == vi {
                    assert(k < g2.adj[a].len());
                    assert(g2.adj[a][k] == b);
                } else {
                    assert(g2.adj[a] == g3.adj[a]);
                }
                assert(g2.adj[a].contains(b));
                assert(g2.adj[b].contains(a));
                let k2 = choose|k2: int| 0 <= k2 < g2.adj[b].len() && g2.adj[b][k2] == a;
                assert(g3.adj[b][k2] == a);
            }
        }
    }
}

/// Adding an edge keeps the existing labels in place, appends only labels that
/// were new, and leaves both end labels in the graph.
pub proof fn lemma_add_edge_labels(g: GraphModel, u: Seq<char>, v: Seq<char>)
    requires
        well_formed(g),
    ensures
        add_edge(g, u, v).labels.len() >= g.labels.len(),
        forall|w: int|
            0 <= w < g.labels.len() ==> #[trigger] add_edge(g, u, v).labels[w] == g.labels[w],
        forall|w: int|
            g.labels.len() <= w < add_edge(g, u, v).labels.len() ==> !g.labels.contains(
                #[trigger] add_edge(g, u, v).labels[w],
            ),
        add_edge(g, u, v).labels.contains(u),
        add_edge(g, u, v).labels.contains(v),
{
    lemma_intern_label(g, u);
    let (g1, ui) = intern_label(g, u);
    lemma_intern_label(g1, v);
    let (g2, vi) = intern_label(g1, v);
    let h = add_edge(g, u, v);
    let n = g.labels.len();
    assert(h.labels == g2.labels);
    assert forall|w: int| 0 <= w < n implies #[trigger] h.labels[w] == g.labels[w] by {
        assert(g1.labels[w] == g.labels[w]);
    }
    assert forall|w: int| n <= w < h.labels.len() implies !g.labels.contains(
        #[trigger] h.labels[w],
    ) by {
        if g1.labels.len() > n && w == n {
            assert(!g.labels.contains(u));
        }
        if h.labels.len() > g1.labels.len() && w == g1.labels.len() {
            assert(!g1.labels.contains(v));
            if g.labels.contains(v) {
                let k = choose|k: int| 0 <= k < n && g.labels[k] == v;
                assert(g1.labels[k] == v);
            }
        }
        if w < g1.labels.len() {
            assert(h.labels[w] == g1.labels[w]);
        }
    }
    assert(h.labels[ui] == u);
    assert(h.labels[vi] == v);
}

/// After adding the edge `{u, v}`, node `y` neighbours node `x` exactly when
/// it did before or `{x, y}` is the new edge.
pub proof fn lemma_add_edge_rows(g: GraphModel, u: Seq<char>, v: Seq<char>)
    requires
        well_formed(g),
    ensures
        forall|x: int, y: int|
            0 <= x < add_edge(g, u, v).labels.len() && 0 <= y < add_edge(g, u, v).labels.len() ==> (
            #[trigger] add_edge(g, u, v).adj[x].contains(y) <==> (x < g.labels.len() && y
                < g.labels.len() && g.adj[x].contains(y)) || (add_edge(g, u, v).labels[x] == u
                && add_edge(g, u, v).labels[y] == v) || (add_edge(g, u, v).labels[x] == v
                && add_edge(g, u, v).labels[y] == u)),
{
    lemma_intern_label(g, u);
    let (g1, ui) = intern_label(g, u);
    lemma_intern_label(g1, v);
    let (g2, vi) = intern_label(g1, v);
    lemma_add_edge(g, u, v);
    let h = add_edge(g, u, v);
    let n = g.labels.len();
    let n2 = g2.labels.len();
    assert(h.labels == g2.labels);
    assert forall|w: int| 0 <= w < n implies #[trigger] g2.adj[w] == g.adj[w] by {
        assert(g1.adj[w] == g.adj[w]);
    }
    assert forall|w: int| n <= w < n2 implies (#[trigger] g2.adj[w]).len() == 0 by {
        if g1.labels.len() > n && w == n {
            assert(g1.adj[n as int] == Seq::<int>::empty());
        }
        if w < g1.labels.len() {
            assert(g2.adj[w] == g1.adj[w]);
        } else {
            assert(g2.adj[w] == Seq::<int>::empty());
        }
    }
    assert forall|x: int, y: int| 0 <= x < n2 && 0 <= y < n2 implies (
    #[trigger] h.adj[x].contains(y) <==> (x < n && y < n && g.adj[x].contains(y)) || (
    h.labels[x] == u && h.labels[y] == v) || (h.labels[x] == v && h.labels[y] == u)) by {
        lemma_add_edge_row(g, u, v, x, y);
    }
}

proof fn lemma_add_edge_row(g: GraphModel, u: Seq<char>, v: Seq<char>, x: int, y: int)
    requires
        well_formed(g),
        well_formed(intern_label(intern_label(g, u).0, v).0),
        0 <= x < intern_label(intern_label(g, u).0, v).0.labels.len(),
        0 <= y < intern_label(intern_label(g, u).0, v).0.labels.len(),
        forall|w: int|
            0 <= w < g.labels.len() ==> #[trigger] intern_label(intern_label(g, u).0, v).0.adj[w]
                == g.adj[w],
        forall|w: int|
            g.labels.len() <= w < intern_label(intern_label(g, u).0, v).0.labels.len() ==> (
            #[trigger] intern_label(intern_label(g, u).0, v).0.adj[w]).len() == 0,
        intern_label(intern_label(g, u).0, v).0.labels[intern_label(g, u).1] == u,
        intern_label(intern_label(g, u).0, v).1 < intern_label(intern_label(g, u).0, v).0.labels.len(),
        0 <= intern_label(g, u).1 < intern_label(intern_label(g, u).0, v).0.labels.len(),
        intern_label(intern_label(g, u).0, v).0.labels[intern_label(intern_label(g, u).0, v).1] == v,
    ensures
        add_edge(g, u, v).adj[x].contains(y) <==> (x < g.labels.len() && y < g.labels.len()
            && g.adj[x].contains(y)) || (add_edge(g, u, v).labels[x] == u && add_edge(
            g,
            u,
            v,
        ).labels[y] == v) || (add_edge(g, u, v).labels[x] == v && add_edge(g, u, v).labels[y]
            == u),
{
    let (g1, ui) = intern_label(g, u);
    let (g2, vi) = intern_label(g1, v);
    let h = add_edge(g, u, v);
    let n = g.labels.len();
    let lx = g2.labels[x];
    let ly = g2.labels[y];
    assert(h.labels == g2.labels);
    // Which of the two end nodes `x` and `y` are.
    assert((lx == u) == (x == ui)) by {
        if x != ui && lx == u {
            if x < ui {
                assert(g2.labels[x] != g2.labels[ui]);
            } else {
                assert(g2.labels[ui] != g2.labels[x]);
            }
        }
    }
    assert((lx == v) == (x == vi)) by {
        if x != vi && lx == v {
            if x < vi {
                assert(g2.labels[x] != g2.labels[vi]);
            } else {
                assert(g2.labels[vi] != g2.labels[x]);
            }
        }
    }
    assert((ly == u) == (y == ui)) by {
        if y != ui && ly == u {
            if y < ui {
                assert(g2.labels[y] != g2.labels[ui]);
            } else {
                assert(g2.labels[ui] != g2.labels[y]);
            }
        }
    }
    assert((ly == v) == (y == vi)) by {
        if y != vi && ly == v {
            if y < vi {
                assert(g2.labels[y] != g2.labels[vi]);
            } else {
                assert(g2.labels[vi] != g2.labels[y]);
            }
        }
    }
    let old_edge = x < n && y < n && g.adj[x].contains(y);
    let new_edge = (x == ui && y == vi) || (x == vi && y == ui);
    // In the graph with both ends interned, the old edges are the only ones.
    assert(g2.adj[x].contains(y) <==> old_edge) by {
        if g2.adj[x].contains(y) {
            if x >= n {
                assert(g2.adj[x].len() == 0);
            }
            let k = choose|k: int| 0 <= k < g2.adj[x].len() && g2.adj[x][k] == y;
            assert(g.adj[x][k] == y);
        }
        if old_edge {
            let k = choose|k: int| 0 <= k < g.adj[x].len() && g.adj[x][k] == y;
            assert(g2.adj[x][k] == y);
        }
    }
    if g2.adj[ui].contains(vi) {
        assert(h == g2);
        if new_edge {
            assert(g2.adj[vi].contains(ui));
        }
    } else {
        let adj1 = g2.adj.update(ui, g2.adj[ui].push(vi));
        if h.adj[x].contains(y) && !new_edge {
            let k = choose|k: int| 0 <= k < h.adj[x].len() && h.adj[x][k] == y;
            if x == ui || x == vi {
                assert(k < g2.adj[x].len());
                assert(h.adj[x][k] == g2.adj[x][k]);
            } else {
                assert(h.adj[x] == g2.adj[x]);
            }
            assert(g2.adj[x].contains(y));
        }
        if g2.adj[x].contains(y) {
            let k = choose|k: int| 0 <= k < g2.adj[x].len() && g2.adj[x][k] == y;
            assert(h.adj[x][k] == y);
        }
        if x == ui && y == vi {
            assert(h.adj[x][g2.adj[ui].len() as int] == y);
        }
        if x == vi && y == ui && ui != vi {
            assert(h.adj[x][g2.adj[vi].len() as int] == y);
        }
    }
}

/// Adding an edge only appends: to the labels, and to each neighbour list.
pub proof fn lemma_add_edge_extends(g: GraphModel, u: Seq<char>, v: Seq<char>)
    requires
        well_formed(g),
    ensures
        add_edge(g, u, v).labels.len() >= g.labels.len(),
        add_edge(g, u, v).adj.len() == add_edge(g, u, v).labels.len(),
        forall|w: int|
            0 <= w < g.labels.len() ==> #[trigger] add_edge(g, u, v).labels[w] == g.labels[w]
                && add_edge(g, u, v).adj[w].len() >= g.adj[w].len() && add_edge(g, u, v).adj[w].take(
                g.adj[w].len() as int,
            ) == g.adj[w],
{
    lemma_add_edge(g, u, v);
    lemma_add_edge_labels(g, u, v);
    lemma_intern_label(g, u);
    let (g1, ui) = intern_label(g, u);
    lemma_intern_label(g1, v);
    let (g2, vi) = intern_label(g1, v);
    let h = add_edge(g, u, v);
    assert forall|w: int| 0 <= w < g.labels.len() implies #[trigger] h.labels[w] == g.labels[w]
        && h.adj[w].len() >= g.adj[w].len() && h.adj[w].take(g.adj[w].len() as int) == g.adj[w] by {
        assert(g1.adj[w] == g.adj[w]);
        assert(g2.adj[w] == g.adj[w]);
        if !g2.adj[ui].contains(vi) && (w == ui || w == vi) {
            assert(h.adj[w].take(g.adj[w].len() as int) =~= g.adj[w]);
        } else {
            assert(h.adj[w] == g.adj[w]);
            assert(h.adj[w].take(g.adj[w].len() as int) =~= g.adj[w]);
        }
    }
}

} // verus!
