//! The graph that an edge list describes, and the parser that builds it.

use vstd::prelude::*;
use vstd::hash_map::StringHashMap;
use vstd::slice::slice_subrange;
use crate::model::{
    GraphModel, empty_graph, well_formed, intern_label, add_edge, graph_of, edge_count, lemma_label_index,
    lemma_intern_label, lemma_add_edge,
};
use crate::text::{edge_list, edge_list_from, line_edge, find_char, line_words};

verus! {

/// An undirected simple graph over the node ids `0..len()`, numbered in order
/// of first appearance, each with its label and its list of neighbours.
pub struct Graph {
    idx_to_node: Vec<String>,
    adj: Vec<Vec<usize>>,
}

/// The neighbours of a node as mathematical integers.
pub open spec fn row_view(r: Vec<usize>) -> Seq<int> {
    r@.map_values(|x: usize| x as int)
}

/// The characters of `s`, in order.
fn chars_of(s: &str) -> (v: Vec<char>)
    ensures
        v@ == s@,
{
    broadcast use vstd::string::group_string_axioms;

    let mut v: Vec<char> = Vec::new();
    for c in it: s.chars()
        invariant
            v@ == it.seq().take(it.index()),
    {
        v.push(c);
    }
    v
}

/// `String::from_iter` over a slice of characters: the string holds exactly
/// the characters of `cs`, in order.
#[verifier::external_body]
fn string_from_chars(cs: &[char]) -> (s: String)
    ensures
        s@ == cs@,
{
    String::from_iter(cs)
}

impl View for Graph {
    type V = GraphModel;

    closed spec fn view(&self) -> GraphModel {
        GraphModel {
            labels: self.idx_to_node@.map_values(|s: String| s@),
            adj: self.adj@.map_values(|r: Vec<usize>| row_view(r)),
        }
    }
}

/// A lookup table from label to node id that agrees with the labels of `g`.
pub open spec fn table_agrees(t: Map<Seq<char>, usize>, g: GraphModel) -> bool {
    &&& forall|name: Seq<char>| #[trigger] t.contains_key(name) <==> g.labels.contains(name)
    &&& forall|name: Seq<char>|
        #[trigger] t.contains_key(name) ==> t[name] < g.labels.len() && g.labels[t[name] as int]
            == name
}

impl Graph {
    /// The invariant of every `Graph`: a well-formed graph (see `well_formed`)
    /// with few enough edges that
    /// `4 * |E|` does not exceed `usize::MAX + 1`, which holds of every graph
    /// that an edge list in memory describes.
    #[verifier::type_invariant]
    pub open spec fn wf(&self) -> bool {
        &&& well_formed(self@)
        &&& 4 * edge_count(self@.adj) <= usize::MAX + 1
    }

    /// The number of nodes.
    pub fn len(&self) -> (n: usize)
        ensures
            n == self@.labels.len(),
    {
        self.idx_to_node.len()
    }

    /// Whether the graph has no node.
    pub fn is_empty(&self) -> (b: bool)
        ensures
            b == (self@.labels.len() == 0),
    {
        self.idx_to_node.len() == 0
    }

    /// The labels of the nodes, indexed by node id.
    pub fn labels(&self) -> (l: &Vec<String>)
        ensures
            l@.map_values(|s: String| s@) == self@.labels,
    {
        &self.idx_to_node
    }

    /// The label of node `u`.
    pub fn label(&self, u: usize) -> (l: &String)
        requires
            u < self@.labels.len(),
        ensures
            l@ == self@.labels[u as int],
    {
        &self.idx_to_node[u]
    }

    /// The neighbours of node `u`, in the order in which they were added.
    pub fn neighbors(&self, u: usize) -> (r: &Vec<usize>)
        requires
            u < self@.labels.len(),
        ensures
            row_view(*r) == self@.adj[u as int],
    {
        proof {
            use_type_invariant(self);
        }
        &self.adj[u]
    }
}

/// A graph under construction: the same fields as `Graph`, free to pass
/// through states between two steps of adding an edge.
struct GraphBuilder {
    idx_to_node: Vec<String>,
    adj: Vec<Vec<usize>>,
}

impl View for GraphBuilder {
    type V = GraphModel;

    closed spec fn view(&self) -> GraphModel {
        GraphModel {
            labels: self.idx_to_node@.map_values(|s: String| s@),
            adj: self.adj@.map_values(|r: Vec<usize>| row_view(r)),
        }
    }
}

impl GraphBuilder {
    /// The id of the node named `name`, a new node without neighbours being
    /// added for it first when there is none.
    fn intern(&mut self, name: String, table: &mut StringHashMap<usize>) -> (idx: usize)
        requires
            well_formed(old(self)@),
            old(self)@.labels.len() < usize::MAX,
            table_agrees(old(table)@, old(self)@),
        ensures
            (final(self)@, idx as int) == intern_label(old(self)@, name@),
            table_agrees(final(table)@, final(self)@),
    {
        match table.get(name.as_str()) {
            Some(i) => {
                let idx = *i;
                proof {
                    assert(self@.labels.contains(name@));
                    lemma_label_index(self@, name@, idx as int);
                }
                return idx;
            },
            None => {},
        }
        let idx = self.idx_to_node.len();
        let ghost old_g = self@;
        table.insert(name.clone(), idx);
        self.idx_to_node.push(name);
        self.adj.push(Vec::new());
        proof {
            let g = self@;
            assert(g.labels =~= old_g.labels.push(name@));
            assert(row_view(self.adj@[idx as int]) =~= Seq::<int>::empty());
            assert(g.adj =~= old_g.adj.push(seq![]));
            assert forall|nm: Seq<char>| #[trigger] table@.contains_key(nm) implies table@[nm]
                < g.labels.len() && g.labels[table@[nm] as int] == nm by {
                if nm != name@ {
                    assert(old(table)@.contains_key(nm));
                }
            }
            assert forall|nm: Seq<char>| #[trigger] table@.contains_key(nm) <==> g.labels.contains(
                nm,
            ) by {
                if g.labels.contains(nm) && nm != name@ {
                    let k = choose|k: int| 0 <= k < g.labels.len() && g.labels[k] == nm;
                    assert(old_g.labels[k] == nm);
                    assert(old_g.labels.contains(nm));
                }
                if old_g.labels.contains(nm) {
                    let k = choose|k: int| 0 <= k < old_g.labels.len() && old_g.labels[k] == nm;
                    assert(g.labels[k] == nm);
                }
            }
        }
        idx
    }

    /// Whether `v` is listed among the neighbours of `u`.
    fn has_neighbor(&self, u: usize, v: usize) -> (b: bool)
        requires
            self@.adj.len() == self@.labels.len(),
            u < self@.adj.len(),
        ensures
            b == self@.adj[u as int].contains(v as int),
    {
        let row = &self.adj[u];
        let ghost r = self@.adj[u as int];
        assert(r == row_view(*row));
        let mut i: usize = 0;
        while i < row.len()
            invariant
                i <= row@.len(),
                r == row_view(*row),
                r == self@.adj[u as int],
                forall|k: int| 0 <= k < i ==> r[k] != v as int,
            decreases row@.len() - i,
        {
            if row[i] == v {
                assert(r.len() == row@.len());
                assert(r[i as int] == v as int);
                assert(r.contains(v as int));
                return true;
            }
            i = i + 1;
        }
        false
    }

    /// Adds the edge between the nodes labelled `u` and `v`, creating them
    /// when they are new; an edge already present is not added again.
    fn add_edge(&mut self, u: String, v: String, table: &mut StringHashMap<usize>)
        requires
            well_formed(old(self)@),
            old(self)@.labels.len() + 2 <= usize::MAX,
            table_agrees(old(table)@, old(self)@),
        ensures
            final(self)@ == add_edge(old(self)@, u@, v@),
            table_agrees(final(table)@, final(self)@),
    {
        proof {
            lemma_intern_label(self@, u@);
        }
        let ui = self.intern(u, table);
        proof {
            lemma_intern_label(self@, v@);
        }
        let vi = self.intern(v, table);
        if !self.has_neighbor(ui, vi) {
            let ghost g2 = self@;
            self.adj[ui].push(vi);
            proof {
                assert(row_view(self.adj@[ui as int]) =~= g2.adj[ui as int].push(vi as int));
                assert(self@.adj =~= g2.adj.update(ui as int, g2.adj[ui as int].push(vi as int)));
            }
            if ui != vi {
                let ghost g3 = self@;
                self.adj[vi].push(ui);
                proof {
                    assert(row_view(self.adj@[vi as int]) =~= g3.adj[vi as int].push(ui as int));
                    assert(self@.adj =~= g3.adj.update(vi as int, g3.adj[vi as int].push(ui as int)));
                }
            }
            assert(self@.labels == g2.labels);
        }
    }
}

/// Parses a whitespace-delimited `u v` edge list into the simple undirected
/// graph it describes. A `'#'` starts a comment that runs to the end of its
/// line; a line whose remaining text holds fewer than two words is skipped,
/// and one with more uses its first two. Nodes are numbered in order of first
/// appearance, a repeated edge is kept once, and a self-loop is kept (listed
/// once among its node's neighbours).
pub fn parse_edge_list(input: &str) -> (g: Graph)
    ensures
        g.wf(),
        g@ == graph_of(edge_list(input@)),
{
    let s = chars_of(input);
    let mut g = GraphBuilder { idx_to_node: Vec::new(), adj: Vec::new() };
    let mut table: StringHashMap<usize> = StringHashMap::new();
    let mut pos: usize = 0;
    let ghost mut done: Seq<(Seq<char>, Seq<char>)> = seq![];
    proof {
        assert(g@.labels =~= empty_graph().labels);
        assert(g@.adj =~= empty_graph().adj);
        assert(edge_count(g@.adj) == 0);
        assert(done + edge_list_from(s@, 0) =~= edge_list(s@));
    }
    loop
        invariant
            s@ == input@,
            pos <= s@.len(),
            edge_list(s@) == done + edge_list_from(s@, pos as int),
            well_formed(g@),
            g@ == graph_of(done),
            table_agrees(table@, g@),
            4 * done.len() <= pos + 1,
            edge_count(g@.adj) <= done.len(),
            g@.labels.len() <= 2 * done.len(),
        decreases s@.len() - pos,
    {
        let k = find_char(&s, '\n', pos, s.len());
        let (h, a, b, c, d) = line_words(&s, pos, k);
        let ghost rest = if k < s@.len() {
            edge_list_from(s@, k + 1)
        } else {
            seq![]
        };
        let ghost old_done = done;
        assert(edge_list_from(s@, pos as int) == match line_edge(s@, pos as int, k as int) {
            Some(e) => seq![e],
            None => seq![],
        } + rest);
        if c < h {
            let u = string_from_chars(slice_subrange(s.as_slice(), a, b));
            let v = string_from_chars(slice_subrange(s.as_slice(), c, d));
            proof {
                lemma_add_edge(g@, u@, v@);
            }
            g.add_edge(u, v, &mut table);
            proof {
                let e = (s@.subrange(a as int, b as int), s@.subrange(c as int, d as int));
                assert(line_edge(s@, pos as int, k as int) == Some(e));
                assert(done.push(e).drop_last() =~= done);
                done = done.push(e);
                assert(edge_list(s@) =~= done + rest);
            }
        } else {
            assert(edge_list(s@) =~= done + rest);
        }
        if k == s.len() {
            proof {
                assert(done + rest =~= done);
                assert(usize::MAX == 0xffff_ffff || usize::MAX == 0xffff_ffff_ffff_ffff);
            }
            let graph = Graph { idx_to_node: g.idx_to_node, adj: g.adj };
            assert(graph@ == g@);
            return graph;
        }
        pos = k + 1;
    }
}

} // verus!
