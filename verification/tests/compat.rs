//! Rankings of known graphs: node labels in rank order.

use rsomics_voterank::voterank_from_edge_list;

/// Zachary's karate club, one `u v` line per edge with `u < v`, in node order.
const KARATE: &str = "0 1\n0 2\n0 3\n0 4\n0 5\n0 6\n0 7\n0 8\n0 10\n0 11\n0 12\n0 13\n0 17\n0 19\n0 21\n0 31\n\
1 2\n1 3\n1 7\n1 13\n1 17\n1 19\n1 21\n1 30\n\
2 3\n2 7\n2 8\n2 9\n2 13\n2 27\n2 28\n2 32\n\
3 7\n3 12\n3 13\n4 6\n4 10\n5 6\n5 10\n5 16\n6 16\n8 30\n8 32\n8 33\n9 33\n13 33\n\
14 32\n14 33\n15 32\n15 33\n18 32\n18 33\n19 33\n20 32\n20 33\n22 32\n22 33\n\
23 25\n23 27\n23 29\n23 32\n23 33\n24 25\n24 27\n24 31\n25 31\n26 29\n26 33\n27 33\n\
28 31\n28 33\n29 32\n29 33\n30 32\n30 33\n31 32\n31 33\n32 33\n";

/// Two identical degree-3 stars centred on `a` and `e`.
const TIE: &str = "a b\na c\na d\ne f\ne g\ne h\n";
const SELFLOOP_TRIANGLE: &str = "a b\nb c\nc a\nd d\n";
const SELFLOOP_SINGLE: &str = "d d\n";
/// A degree-3 star centred on `a` beside a self-looped `e`.
const SELFLOOP_STAR: &str = "a b\na c\na d\ne e\n";

fn assert_seq(got: Vec<String>, expected: &[&str]) {
    let expected: Vec<String> = expected.iter().map(|s| s.to_string()).collect();
    assert_eq!(got, expected);
}

#[test]
fn hand_graph_docstring() {
    // nx.voterank(nx.Graph([(0,1),(0,2),(0,3),(1,4)])) == [0, 1]
    let edges = "0 1\n0 2\n0 3\n1 4\n";
    assert_seq(voterank_from_edge_list(edges, None), &["0", "1"]);
}

#[test]
fn karate_club() {
    assert_seq(
        voterank_from_edge_list(KARATE, None),
        &[
            "33", "0", "32", "2", "1", "5", "31", "23", "6", "3", "24", "29", "4", "8",
        ],
    );
}

#[test]
fn score_tie_breaks_on_first_appearance() {
    // Both star centres score 3 in round one; `a` appears first.
    assert_seq(voterank_from_edge_list(TIE, None), &["a", "e"]);
}

#[test]
fn determinism() {
    let a = voterank_from_edge_list(KARATE, None);
    let b = voterank_from_edge_list(KARATE, None);
    assert_eq!(a, b);
}

#[test]
fn self_loop_node_is_elected() {
    // The self-looped d outranks b and c in round two.
    assert_seq(
        voterank_from_edge_list(SELFLOOP_TRIANGLE, None),
        &["a", "d", "b"],
    );
}

#[test]
fn lone_self_loop_is_elected() {
    // A single self-looped node has degree 2 and votes for itself.
    assert_seq(voterank_from_edge_list(SELFLOOP_SINGLE, None), &["d"]);
}

#[test]
fn self_loop_and_star() {
    assert_seq(voterank_from_edge_list(SELFLOOP_STAR, None), &["a", "e"]);
}

#[test]
fn empty_graph_is_empty() {
    assert!(voterank_from_edge_list("", None).is_empty());
    assert!(voterank_from_edge_list("# just a comment\n\n", None).is_empty());
}

#[test]
fn number_of_nodes_over_len_returns_full() {
    // number_of_nodes larger than |G| is capped to the full ranking.
    let full = voterank_from_edge_list(KARATE, None);
    let capped = voterank_from_edge_list(KARATE, Some(1000));
    assert_eq!(full, capped);
}

#[test]
fn three_regular_near_tie_follows_binary64() {
    // K3,3: in round four z's two votes sum one ulp above b's, so z is
    // elected before b.
    let text = "a x\na y\nb z\nb x\nb y\na z\nc x\nc y\nc z\n";
    assert_seq(voterank_from_edge_list(text, None), &["a", "x", "y", "z"]);
}
