//! VoteRank on a parsed graph, in IEEE 754 binary64 arithmetic.
//!
//! Every node starts with voting ability `1.0`. A round adds, edge by edge in
//! the order of `edges_in_order`, each endpoint's ability to the other
//! endpoint's score, zeroes the scores of nodes already elected, and elects
//! the first node with the highest score, unless that score is `0.0`. The
//! elected node's ability becomes `0.0` and each of its neighbours loses
//! `1.0 / (2|E| / n)`, clamped with `max(0.0)`. All arithmetic is binary64,
//! held as bit patterns (see `binary64`).

use vstd::prelude::*;
use crate::binary64::{
    ZERO, ONE, binary64_add, binary64_sub, binary64_div, binary64_from_usize, binary64_max,
    binary64_lt, binary64_eq, plus, minus, divide, from_usize, max_num, less, equal,
};
use crate::model::{edge_count, edge_count_upto, count_upper, graph_of};
use crate::text::edge_list;
use crate::graph::{Graph, row_view, parse_edge_list};

verus! {

/// The edges `(u, v)` with `v >= u` listed in `row`, the neighbour list of `u`,
/// in the order of the list.
pub open spec fn upper_pairs(row: Seq<int>, u: int) -> Seq<(int, int)>
    decreases row.len(),
{
    if row.len() == 0 {
        seq![]
    } else {
        upper_pairs(row.drop_last(), u) + if row.last() >= u {
            seq![(u, row.last())]
        } else {
            seq![]
        }
    }
}

/// The edges of the nodes `0..k`, each once from its smaller end, node by
/// node and each node's in the order of its neighbour list.
pub open spec fn edge_order(adj: Seq<Seq<int>>, k: int) -> Seq<(int, int)>
    decreases k,
{
    if k <= 0 {
        seq![]
    } else {
        edge_order(adj, k - 1) + upper_pairs(adj[k - 1], k - 1)
    }
}

/// All edges of the graph, in the order in which the votes are added.
pub open spec fn edges_in_order(adj: Seq<Seq<int>>) -> Seq<(int, int)> {
    edge_order(adj, adj.len() as int)
}

/// The scores after the vote of edge `e = (u, v)`: `u` gains `v`'s ability,
/// then `v` gains `u`'s (a self-loop adds its node's ability twice).
pub open spec fn vote(score: Seq<u64>, ability: Seq<u64>, e: (int, int)) -> Seq<u64> {
    let s1 = score.update(e.0, binary64_add(score[e.0], ability[e.1]));
    s1.update(e.1, binary64_add(s1[e.1], ability[e.0]))
}

/// The scores of `n` nodes after the votes of the first `k` edges of `edges`,
/// starting from `0.0`.
pub open spec fn tally(edges: Seq<(int, int)>, ability: Seq<u64>, n: nat, k: int) -> Seq<u64>
    decreases k,
{
    if k <= 0 {
        Seq::new(n, |i: int| ZERO)
    } else {
        vote(tally(edges, ability, n, k - 1), ability, edges[k - 1])
    }
}

/// The scores of a round: every edge votes, then elected nodes score `0.0`.
pub open spec fn round_scores(adj: Seq<Seq<int>>, ability: Seq<u64>, seeds: Seq<int>) -> Seq<u64> {
    let e = edges_in_order(adj);
    let t = tally(e, ability, adj.len(), e.len() as int);
    Seq::new(adj.len(), |x: int| if seeds.contains(x) { ZERO } else { t[x] })
}

/// The node that a scan of the first `k` scores keeps: it moves to a later
/// node only when that node's score is strictly greater, so ties go to the
/// earlier node.
pub open spec fn best_upto(score: Seq<u64>, k: int) -> int
    decreases k,
{
    if k <= 1 {
        0
    } else {
        let b = best_upto(score, k - 1);
        if binary64_lt(score[b], score[k - 1]) {
            k - 1
        } else {
            b
        }
    }
}

/// The first node with the highest score.
pub open spec fn best(score: Seq<u64>) -> int {
    best_upto(score, score.len() as int)
}

/// The abilities after node `b` is elected: its own ability becomes `0.0`,
/// then each neighbour's ability `a` becomes `max(a - dec, 0.0)`.
pub open spec fn weaken(adj: Seq<Seq<int>>, ability: Seq<u64>, b: int, dec: u64) -> Seq<u64> {
    Seq::new(
        ability.len(),
        |v: int|
            {
                let a = if v == b {
                    ZERO
                } else {
                    ability[v]
                };
                if adj[b].contains(v) {
                    binary64_max(binary64_sub(a, dec), ZERO)
                } else {
                    a
                }
            },
    )
}

/// The state between two rounds: every node's ability and the nodes elected
/// so far, in order.
pub struct VoteState {
    pub ability: Seq<u64>,
    pub seeds: Seq<int>,
}

/// One round: the first node with the highest score is elected, unless that
/// score equals `0.0`, in which case the ranking is over (`None`).
pub open spec fn elect(adj: Seq<Seq<int>>, dec: u64, st: VoteState) -> Option<VoteState> {
    let sc = round_scores(adj, st.ability, st.seeds);
    let b = best(sc);
    if binary64_eq(sc[b], ZERO) {
        None
    } else {
        Some(VoteState { ability: weaken(adj, st.ability, b, dec), seeds: st.seeds.push(b) })
    }
}

/// The nodes elected after at most `k` more rounds from `st`.
pub open spec fn run(adj: Seq<Seq<int>>, dec: u64, st: VoteState, k: nat) -> Seq<int>
    decreases k,
{
    if k == 0 {
        st.seeds
    } else {
        match elect(adj, dec, st) {
            Some(next) => run(adj, dec, next, (k - 1) as nat),
            None => st.seeds,
        }
    }
}

/// The number of rounds: `number_of_nodes` where it is given and at most
/// `n`, else `n`.
pub open spec fn round_limit(n: nat, number_of_nodes: Option<usize>) -> nat {
    match number_of_nodes {
        Some(k) => if k <= n {
            k as nat
        } else {
            n
        },
        None => n,
    }
}

/// The loss per elected neighbour, `1.0 / (2|E| as f64 / n as f64)`.
pub open spec fn decrement(adj: Seq<Seq<int>>) -> u64 {
    let avg = binary64_div(
        binary64_from_usize((2 * edges_in_order(adj).len()) as usize),
        binary64_from_usize(adj.len() as usize),
    );
    binary64_div(ONE, avg)
}

/// Before the first round every node has ability `1.0` and nothing is elected.
pub open spec fn initial_state(adj: Seq<Seq<int>>) -> VoteState {
    VoteState { ability: Seq::new(adj.len(), |i: int| ONE), seeds: seq![] }
}

/// The VoteRank seeds of the graph with adjacency `adj`, most influential
/// first, after at most `round_limit(n, number_of_nodes)` rounds.
pub open spec fn voterank_spec(adj: Seq<Seq<int>>, number_of_nodes: Option<usize>) -> Seq<int> {
    run(adj, decrement(adj), initial_state(adj), round_limit(adj.len(), number_of_nodes))
}

/// A vector of node ids as mathematical integers.
pub open spec fn ints_usize(v: Vec<usize>) -> Seq<int> {
    v@.map_values(|x: usize| x as int)
}

/// A vector of edges as pairs of mathematical integers.
pub open spec fn int_pairs(v: Vec<(usize, usize)>) -> Seq<(int, int)> {
    v@.map_values(|p: (usize, usize)| (p.0 as int, p.1 as int))
}

pub proof fn lemma_upper_pairs_len(row: Seq<int>, u: int)
    ensures
        upper_pairs(row, u).len() == count_upper(row, u),
    decreases row.len(),
{
    if row.len() > 0 {
        lemma_upper_pairs_len(row.drop_last(), u);
    }
}

pub proof fn lemma_edge_order_len(adj: Seq<Seq<int>>, k: int)
    ensures
        edge_order(adj, k).len() == edge_count_upto(adj, k),
    decreases k,
{
    if k > 0 {
        lemma_edge_order_len(adj, k - 1);
        lemma_upper_pairs_len(adj[k - 1], k - 1);
    }
}

/// The edges of `g`, each once from its smaller end, node by node.
fn ordered_edges(g: &Graph) -> (es: Vec<(usize, usize)>)
    requires
        g.wf(),
    ensures
        int_pairs(es) == edges_in_order(g@.adj),
        forall|k: int|
            0 <= k < es@.len() ==> (#[trigger] es@[k]).0 < g@.labels.len() && es@[k].1
                < g@.labels.len(),
{
    let n = g.len();
    let mut es: Vec<(usize, usize)> = Vec::new();
    let mut u: usize = 0;
    while u < n
        invariant
            g.wf(),
            n == g@.labels.len(),
            u <= n,
            int_pairs(es) == edge_order(g@.adj, u as int),
            forall|k: int|
                0 <= k < es@.len() ==> (#[trigger] es@[k]).0 < n && es@[k].1 < n,
        decreases n - u,
    {
        let row = g.neighbors(u);
        let ghost r = g@.adj[u as int];
        let ghost before = int_pairs(es);
        let mut j: usize = 0;
        while j < row.len()
            invariant
                g.wf(),
                n == g@.labels.len(),
                u < n,
                r == g@.adj[u as int],
                r == row_view(*row),
                r.len() == row@.len(),
                j <= row@.len(),
                int_pairs(es) == before + upper_pairs(r.take(j as int), u as int),
                forall|k: int|
                    0 <= k < es@.len() ==> (#[trigger] es@[k]).0 < n && es@[k].1 < n,
            decreases row@.len() - j,
        {
            proof {
                assert(r.take(j + 1).drop_last() =~= r.take(j as int));
                assert(r[j as int] == row@[j as int] as int);
                assert(0 <= r[j as int] < n);
            }
            let v = row[j];
            if v >= u {
                let ghost old_pairs = int_pairs(es);
                es.push((u, v));
                proof {
                    assert(int_pairs(es) =~= old_pairs.push((u as int, v as int)));
                    assert(r.take(j + 1).last() == v as int);
                    assert(upper_pairs(r.take(j + 1), u as int) =~= upper_pairs(r.take(j as int), u as int).push((u as int, v as int)));
                    assert(int_pairs(es) =~= before + upper_pairs(r.take(j + 1), u as int));
                }
            } else {
                proof {
                    assert(int_pairs(es) =~= before + upper_pairs(r.take(j + 1), u as int));
                }
            }
            j = j + 1;
        }
        proof {
            assert(r.take(j as int) =~= r);
        }
        u = u + 1;
    }
    es
}

/// The scores of a round (see `round_scores`).
fn compute_scores(
    n: usize,
    es: &Vec<(usize, usize)>,
    ability: &Vec<u64>,
    seeds: &Vec<usize>,
    Ghost(adj): Ghost<Seq<Seq<int>>>,
) -> (sc: Vec<u64>)
    requires
        n == adj.len(),
        int_pairs(*es) == edges_in_order(adj),
        forall|k: int| 0 <= k < es@.len() ==> (#[trigger] es@[k]).0 < n && es@[k].1 < n,
        ability@.len() == n,
        forall|i: int| 0 <= i < seeds@.len() ==> #[trigger] seeds@[i] < n,
    ensures
        sc@ == round_scores(adj, ability@, ints_usize(*seeds)),
{
    let ghost e = int_pairs(*es);
    let mut sc: Vec<u64> = vec![ZERO; n];
    proof {
        assert(sc@ =~= tally(e, ability@, n as nat, 0));
    }
    let mut i: usize = 0;
    while i < es.len()
        invariant
            e == int_pairs(*es),
            e.len() == es@.len(),
            forall|k: int| 0 <= k < es@.len() ==> (#[trigger] es@[k]).0 < n && es@[k].1 < n,
            ability@.len() == n,
            i <= es@.len(),
            sc@ == tally(e, ability@, n as nat, i as int),
            sc@.len() == n,
        decreases es@.len() - i,
    {
        let (u, v) = es[i];
        proof {
            assert(e[i as int] == (u as int, v as int));
        }
        let a = plus(sc[u], ability[v]);
        sc.set(u, a);
        let b = plus(sc[v], ability[u]);
        sc.set(v, b);
        i = i + 1;
    }
    let ghost t = sc@;
    let ghost sd = ints_usize(*seeds);
    let mut k: usize = 0;
    while k < seeds.len()
        invariant
            sd == ints_usize(*seeds),
            sd.len() == seeds@.len(),
            forall|q: int| 0 <= q < seeds@.len() ==> #[trigger] seeds@[q] < n,
            k <= seeds@.len(),
            t.len() == n,
            sc@.len() == n,
            forall|y: int|
                0 <= y < n ==> #[trigger] sc@[y] == if sd.take(k as int).contains(y) {
                    ZERO
                } else {
                    t[y]
                },
        decreases seeds@.len() - k,
    {
        let x = seeds[k];
        sc.set(x, ZERO);
        proof {
            assert forall|y: int| 0 <= y < n implies #[trigger] sc@[y] == if sd.take(k + 1).contains(
                y,
            ) {
                ZERO
            } else {
                t[y]
            } by {
                let s0 = sd.take(k as int);
                let s1 = sd.take(k + 1);
                assert(s1 =~= s0.push(x as int));
                if y == x as int {
                    assert(s1[k as int] == y);
                } else {
                    if s0.contains(y) {
                        let q = choose|q: int| 0 <= q < k && #[trigger] s0[q] == y;
                        assert(s1[q] == y);
                    }
                    if s1.contains(y) {
                        let q = choose|q: int| 0 <= q < k + 1 && #[trigger] s1[q] == y;
                        assert(s0[q] == y);
                    }
                }
            }
        }
        k = k + 1;
    }
    proof {
        assert(sd.take(k as int) =~= sd);
        assert(sc@ =~= round_scores(adj, ability@, sd));
    }
    sc
}

/// The first index with the highest score (see `best`).
fn best_index(sc: &Vec<u64>) -> (b: usize)
    requires
        sc@.len() > 0,
    ensures
        b == best(sc@),
        b < sc@.len(),
{
    let mut b: usize = 0;
    let mut u: usize = 1;
    while u < sc.len()
        invariant
            1 <= u <= sc@.len(),
            b < u,
            b == best_upto(sc@, u as int),
        decreases sc@.len() - u,
    {
        if less(sc[b], sc[u]) {
            b = u;
        }
        u = u + 1;
    }
    b
}

/// Elects node `b` (see `weaken`).
fn weaken_neighbours(g: &Graph, ability: &mut Vec<u64>, b: usize, dec: u64)
    requires
        g.wf(),
        b < g@.labels.len(),
        old(ability)@.len() == g@.labels.len(),
    ensures
        final(ability)@ == weaken(g@.adj, old(ability)@, b as int, dec),
{
    let ghost ab0 = ability@;
    let n = g.len();
    ability.set(b, ZERO);
    let row = g.neighbors(b);
    let ghost r = g@.adj[b as int];
    let ghost target = weaken(g@.adj, ab0, b as int, dec);
    let mut j: usize = 0;
    while j < row.len()
        invariant
            g.wf(),
            n == g@.labels.len(),
            b < n,
            r == g@.adj[b as int],
            r == row_view(*row),
            r.len() == row@.len(),
            ab0.len() == n,
            ability@.len() == n,
            target == weaken(g@.adj, ab0, b as int, dec),
            j <= row@.len(),
            forall|v: int|
                0 <= v < n ==> #[trigger] ability@[v] == if r.take(j as int).contains(v) {
                    target[v]
                } else if v == b {
                    ZERO
                } else {
                    ab0[v]
                },
        decreases row@.len() - j,
    {
        let v = row[j];
        proof {
            assert(r[j as int] == v as int);
            assert(0 <= r[j as int] < n);
            assert(r.take(j + 1) =~= r.take(j as int).push(v as int));
            assert(!r.take(j as int).contains(v as int)) by {
                if r.take(j as int).contains(v as int) {
                    let k = choose|k: int| 0 <= k < j && r.take(j as int)[k] == v as int;
                    assert(r[k] == r[j as int]);
                }
            }
            assert(r.contains(v as int));
        }
        let d = minus(ability[v], dec);
        let a = max_num(d, ZERO);
        ability.set(v, a);
        proof {
            assert forall|w: int| 0 <= w < n implies #[trigger] ability@[w] == if r.take(
                j + 1,
            ).contains(w) {
                target[w]
            } else if w == b {
                ZERO
            } else {
                ab0[w]
            } by {
                let r0 = r.take(j as int);
                let r1 = r.take(j + 1);
                if w == v as int {
                    assert(r1[j as int] == w);
                    assert(r1.contains(w));
                } else {
                    if r1.contains(w) {
                        let k = choose|k: int| 0 <= k < j + 1 && #[trigger] r1[k] == w;
                        assert(r0[k] == w);
                    }
                    if r0.contains(w) {
                        let k = choose|k: int| 0 <= k < j && #[trigger] r0[k] == w;
                        assert(r1[k] == w);
                    }
                }
            }
        }
        j = j + 1;
    }
    proof {
        assert(r.take(j as int) =~= r);
        assert(ability@ =~= target);
    }
}

/// The VoteRank seeds of `g`, most influential first.
///
/// Every node starts with voting ability `1.0`. In each round every edge
/// `(u, v)`, taken from its smaller end node by node, adds `v`'s ability to
/// `u`'s score and then `u`'s to `v`'s; nodes already elected score `0.0`;
/// the first node in id order with the highest score is elected, its ability
/// becomes `0.0` and each neighbour's ability `a` becomes
/// `max(a - 1.0 / avg_degree, 0.0)` with `avg_degree = 2|E| / n`. The ranking
/// stops after `number_of_nodes` elections (all `n` when it is absent or
/// larger than `n`) or as soon as the highest score is `0.0`, so only
/// positively voted nodes are returned. All arithmetic is IEEE binary64,
/// rounding to nearest, in this order.
pub fn voterank(g: &Graph, number_of_nodes: Option<usize>) -> (seeds: Vec<usize>)
    ensures
        ints_usize(seeds) == voterank_spec(g@.adj, number_of_nodes),
        forall|i: int| 0 <= i < seeds@.len() ==> #[trigger] seeds@[i] < g@.labels.len(),
        seeds@.no_duplicates(),
        seeds@.len() <= round_limit(g@.labels.len(), number_of_nodes),
{
    proof {
        use_type_invariant(g);
    }
    proof {
        crate::laws::law_ranking_shape(g@, number_of_nodes);
        let r = voterank_spec(g@.adj, number_of_nodes);
        assert(r.no_duplicates());
        assert(r.len() <= round_limit(g@.labels.len(), number_of_nodes));
    }
    let ghost adj = g@.adj;
    let n = g.len();
    if n == 0 {
        let seeds: Vec<usize> = Vec::new();
        proof {
            assert(ints_usize(seeds) =~= seq![]);
        }
        return seeds;
    }
    let rounds: usize = match number_of_nodes {
        Some(k) => if k <= n {
            k
        } else {
            n
        },
        None => n,
    };
    let es = ordered_edges(g);
    proof {
        lemma_edge_order_len(adj, adj.len() as int);
    }
    let total_degree = 2 * es.len();
    let avg_degree = divide(from_usize(total_degree), from_usize(n));
    let dec = divide(ONE, avg_degree);
    let mut ability: Vec<u64> = vec![ONE; n];
    let mut seeds: Vec<usize> = Vec::new();
    proof {
        assert(ability@ =~= initial_state(adj).ability);
        assert(ints_usize(seeds) =~= initial_state(adj).seeds);
        assert(dec == decrement(adj));
    }
    let mut r: usize = 0;
    while r < rounds
        invariant
            g.wf(),
            adj == g@.adj,
            n == adj.len(),
            n == g@.labels.len(),
            int_pairs(es) == edges_in_order(adj),
            forall|k: int| 0 <= k < es@.len() ==> (#[trigger] es@[k]).0 < n && es@[k].1 < n,
            dec == decrement(adj),
            r <= rounds,
            rounds == round_limit(n as nat, number_of_nodes),
            voterank_spec(adj, number_of_nodes).no_duplicates(),
            voterank_spec(adj, number_of_nodes).len() <= rounds,
            ability@.len() == n,
            forall|i: int| 0 <= i < seeds@.len() ==> #[trigger] seeds@[i] < n,
            voterank_spec(adj, number_of_nodes) == run(
                adj,
                dec,
                VoteState { ability: ability@, seeds: ints_usize(seeds) },
                (rounds - r) as nat,
            ),
        decreases rounds - r,
    {
        let ghost st = VoteState { ability: ability@, seeds: ints_usize(seeds) };
        let sc = compute_scores(n, &es, &ability, &seeds, Ghost(adj));
        let b = best_index(&sc);
        if equal(sc[b], ZERO) {
            proof {
                lemma_ints_no_duplicates(seeds, voterank_spec(adj, number_of_nodes));
            }
            return seeds;
        }
        seeds.push(b);
        weaken_neighbours(g, &mut ability, b, dec);
        proof {
            assert(ints_usize(seeds) =~= st.seeds.push(b as int));
        }
        r = r + 1;
    }
    proof {
        lemma_ints_no_duplicates(seeds, voterank_spec(adj, number_of_nodes));
    }
    seeds
}

/// Node ids that are distinct as integers are distinct.
proof fn lemma_ints_no_duplicates(v: Vec<usize>, s: Seq<int>)
    requires
        ints_usize(v) == s,
        s.no_duplicates(),
    ensures
        v@.no_duplicates(),
        v@.len() == s.len(),
{
    assert forall|i: int, j: int| 0 <= i < v@.len() && 0 <= j < v@.len() && i != j implies v@[i]
        != v@[j] by {
        assert(s[i] == v@[i] as int);
        assert(s[j] == v@[j] as int);
    }
}

/// The labels of the VoteRank seeds of the graph that the edge list `text`
/// describes, most influential first.
pub open spec fn ranked_labels(text: Seq<char>, number_of_nodes: Option<usize>) -> Seq<Seq<char>> {
    let g = graph_of(edge_list(text));
    voterank_spec(g.adj, number_of_nodes).map_values(|i: int| g.labels[i])
}

/// Parses the edge list `input` and returns the labels of its VoteRank seeds,
/// most influential first (see `parse_edge_list` and `voterank`).
pub fn voterank_from_edge_list(input: &str, number_of_nodes: Option<usize>) -> (out: Vec<String>)
    ensures
        out@.map_values(|s: String| s@) == ranked_labels(input@, number_of_nodes),
{
    let g = parse_edge_list(input);
    let seeds = voterank(&g, number_of_nodes);
    let ghost want = ranked_labels(input@, number_of_nodes);
    let ghost ids = ints_usize(seeds);
    let mut out: Vec<String> = Vec::new();
    let mut i: usize = 0;
    while i < seeds.len()
        invariant
            g@ == graph_of(edge_list(input@)),
            ids == ints_usize(seeds),
            ids == voterank_spec(g@.adj, number_of_nodes),
            want == ranked_labels(input@, number_of_nodes),
            forall|k: int| 0 <= k < seeds@.len() ==> #[trigger] seeds@[k] < g@.labels.len(),
            i <= seeds@.len(),
            out@.len() == i,
            forall|k: int| 0 <= k < i ==> #[trigger] out@[k]@ == want[k],
        decreases seeds@.len() - i,
    {
        let label = g.label(seeds[i]).clone();
        out.push(label);
        i = i + 1;
    }
    proof {
        assert(out@.map_values(|s: String| s@) =~= want);
    }
    out
}

} // verus!
