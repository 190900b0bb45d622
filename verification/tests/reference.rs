//! The ranking agrees with a plain `f64` computation of VoteRank on many
//! generated graphs, including preferential-attachment graphs full of
//! near-ties.

use rsomics_voterank::{parse_edge_list, voterank, Graph};

/// VoteRank computed directly in `f64`, votes added edge by edge.
fn voterank_f64(g: &Graph, number_of_nodes: Option<usize>) -> Vec<usize> {
    let n = g.len();
    if n == 0 {
        return Vec::new();
    }
    let rounds = match number_of_nodes {
        Some(k) if k <= n => k,
        _ => n,
    };
    let mut es: Vec<(usize, usize)> = Vec::new();
    for u in 0..n {
        for &v in g.neighbors(u) {
            if v >= u {
                es.push((u, v));
            }
        }
    }
    let avg = (2 * es.len()) as f64 / n as f64;
    let dec = 1.0 / avg;
    let mut ab = vec![1.0f64; n];
    let mut seeds: Vec<usize> = Vec::new();
    for _ in 0..rounds {
        let mut sc = vec![0.0f64; n];
        for &(u, v) in &es {
            sc[u] += ab[v];
            sc[v] += ab[u];
        }
        for &e in &seeds {
            sc[e] = 0.0;
        }
        let mut b = 0usize;
        for u in 1..n {
            if sc[u] > sc[b] {
                b = u;
            }
        }
        if sc[b] == 0.0 {
            break;
        }
        seeds.push(b);
        ab[b] = 0.0;
        for &v in g.neighbors(b) {
            ab[v] = (ab[v] - dec).max(0.0);
        }
    }
    seeds
}

struct Lcg(u64);

impl Lcg {
    fn next(&mut self, bound: usize) -> usize {
        self.0 = self.0.wrapping_mul(6364136223846793005).wrapping_add(1442695040888963407);
        ((self.0 >> 33) as usize) % bound
    }
}

fn random_graph(seed: u64) -> String {
    let mut r = Lcg(seed);
    let n = 5 + r.next(60);
    let m = n + r.next(3 * n);
    let mut text = String::new();
    for _ in 0..m {
        text.push_str(&format!("{} {}\n", r.next(n), r.next(n)));
    }
    text
}

fn attachment_graph(seed: u64) -> String {
    let mut r = Lcg(seed);
    let n = 40 + r.next(120);
    let k = 4;
    let mut pool: Vec<usize> = (0..k).collect();
    let mut text = String::new();
    for v in k..n {
        let mut targets: Vec<usize> = Vec::new();
        while targets.len() < k {
            let t = pool[r.next(pool.len())];
            if !targets.contains(&t) {
                targets.push(t);
            }
        }
        for &t in &targets {
            text.push_str(&format!("{} {}\n", v, t));
            pool.push(t);
            pool.push(v);
        }
    }
    text
}

#[test]
fn agrees_with_f64_on_random_graphs() {
    for seed in 0..40 {
        let g = parse_edge_list(&random_graph(seed));
        assert_eq!(voterank(&g, None), voterank_f64(&g, None), "seed {seed}");
    }
}

#[test]
fn agrees_with_f64_on_attachment_graphs() {
    for seed in 0..25 {
        let g = parse_edge_list(&attachment_graph(seed));
        assert_eq!(voterank(&g, None), voterank_f64(&g, None), "seed {seed}");
        assert_eq!(voterank(&g, Some(7)), voterank_f64(&g, Some(7)), "seed {seed}");
    }
}
