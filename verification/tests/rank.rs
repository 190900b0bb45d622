//! VoteRank on parsed graphs, by node id.

use rsomics_voterank::{parse_edge_list, voterank, voterank_from_edge_list};

const HAND: &str = "0 1\n0 2\n0 3\n1 4\n";

#[test]
fn hand_graph_ids() {
    let g = parse_edge_list(HAND);
    assert_eq!(voterank(&g, None), vec![0usize, 1]);
}

#[test]
fn zero_rounds_elect_nobody() {
    let g = parse_edge_list(HAND);
    assert_eq!(voterank(&g, Some(0)), Vec::<usize>::new());
}

#[test]
fn fewer_rounds_give_a_prefix() {
    let g = parse_edge_list(HAND);
    assert_eq!(voterank(&g, Some(1)), vec![0usize]);
    assert_eq!(voterank(&g, Some(2)), vec![0usize, 1]);
    assert_eq!(voterank(&g, Some(5)), vec![0usize, 1]);
    assert_eq!(voterank(&g, Some(usize::MAX)), vec![0usize, 1]);
}

#[test]
fn empty_graph_ranks_nothing() {
    let g = parse_edge_list("");
    assert_eq!(voterank(&g, None), Vec::<usize>::new());
    assert_eq!(voterank(&g, Some(3)), Vec::<usize>::new());
}

#[test]
fn path_of_three() {
    // The middle node scores 2 and is elected; the ends then hear only from
    // it (ability 0) and score 0, so the ranking stops.
    let g = parse_edge_list("a b\nb c\n");
    assert_eq!(voterank(&g, None), vec![1usize]);
}

#[test]
fn decrement_clamps_at_zero() {
    // n = 4, |E| = 2: each neighbour of an elected node loses n / 2|E| = 1,
    // its whole ability, so after the first election of each pair nothing
    // is left to vote for the other end.
    assert_eq!(
        voterank_from_edge_list("a b\nc d\n", None),
        vec!["a".to_string(), "c".to_string()]
    );
}

#[test]
fn exact_tie_goes_to_lower_id() {
    // A 4-cycle: every node scores 2 in round one; node 0 is elected. Its
    // neighbours 1 and 3 keep 1 - 4/8 = 1/2 each, node 2 keeps 1 and now
    // scores 1/2 + 1/2 = 1 while 1 and 3 score 0 + 1 = 1: node 1 wins the tie.
    let g = parse_edge_list("w x\nx y\ny z\nz w\n");
    assert_eq!(voterank(&g, None), vec![0usize, 1, 2]);
}

#[test]
fn first_seed_has_highest_degree() {
    // Degrees: a 1, b 2, c 4, d 1, e 1, f 1.
    let g = parse_edge_list("a b\nc d\nc e\nc f\nb c\n");
    assert_eq!(voterank(&g, Some(1)), vec![2usize]);
}

#[test]
fn self_loop_counts_twice_toward_degree() {
    // x has degree 2 through its self-loop and beats y and z (degree 1).
    let g = parse_edge_list("y z\nx x\n");
    assert_eq!(voterank(&g, Some(1)), vec![2usize]);
}

#[test]
fn ranking_names_each_node_once() {
    let text = "a b\nb c\nc d\nd a\na c\ne f\nf g\n";
    let g = parse_edge_list(text);
    let r = voterank(&g, None);
    assert!(r.len() <= g.len());
    let mut sorted = r.clone();
    sorted.sort();
    sorted.dedup();
    assert_eq!(sorted.len(), r.len());
    for &u in &r {
        assert!(!g.neighbors(u).is_empty());
    }
}

#[test]
fn renaming_labels_renames_the_ranking() {
    let g1 = parse_edge_list("a x\na y\nb z\nb x\nb y\na z\nc x\nc y\nc z\n");
    let g2 = parse_edge_list("1 7\n1 8\n2 9\n2 7\n2 8\n1 9\n3 7\n3 8\n3 9\n");
    assert_eq!(voterank(&g1, None), voterank(&g2, None));
    assert_eq!(
        voterank_from_edge_list("a x\na y\nb z\nb x\nb y\na z\nc x\nc y\nc z\n", None),
        vec!["a", "x", "y", "z"]
    );
    assert_eq!(
        voterank_from_edge_list("1 7\n1 8\n2 9\n2 7\n2 8\n1 9\n3 7\n3 8\n3 9\n", None),
        vec!["1", "7", "8", "9"]
    );
}
