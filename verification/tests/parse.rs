//! The edge-list parser and the graph it builds.

use rsomics_voterank::{parse_edge_list, voterank_from_edge_list, Graph};

/// The edges of `g` as label pairs, each listed once from its smaller id, sorted.
fn edges(g: &Graph) -> Vec<(String, String)> {
    let mut out = Vec::new();
    for u in 0..g.len() {
        for &v in g.neighbors(u) {
            if v >= u {
                out.push((g.label(u).clone(), g.label(v).clone()));
            }
        }
    }
    out.sort();
    out
}

fn labels(g: &Graph) -> Vec<String> {
    g.labels().clone()
}

#[test]
fn inline_hash_comment_matches_comment_free_graph() {
    // "1 2#note" is edge (1,2), "0 #x" is a pure comment line: the text
    // after the first '#' is cut before the line is split into words.
    let with_comments = "0 1\n1 2#note\n2 3\n0 #x\n# whole line\n";
    let clean = "0 1\n1 2\n2 3\n";

    let g_commented = parse_edge_list(with_comments);
    let g_clean = parse_edge_list(clean);

    assert_eq!(edges(&g_commented), edges(&g_clean));
    assert_eq!(labels(&g_commented), labels(&g_clean));
    assert_eq!(
        voterank_from_edge_list(with_comments, None),
        voterank_from_edge_list(clean, None)
    );
}

#[test]
fn labels_in_first_appearance_order() {
    let g = parse_edge_list("x y\nz x\ny w\n");
    assert_eq!(labels(&g), vec!["x", "y", "z", "w"]);
    assert_eq!(g.len(), 4);
    assert!(!g.is_empty());
}

#[test]
fn empty_text_gives_empty_graph() {
    let g = parse_edge_list("");
    assert_eq!(g.len(), 0);
    assert!(g.is_empty());
    let g = parse_edge_list("\n\n# nothing\nlonely\n");
    assert!(g.is_empty());
}

#[test]
fn parallel_and_reversed_edges_are_kept_once() {
    let g = parse_edge_list("a b\na b\nb a\n");
    assert_eq!(g.len(), 2);
    assert_eq!(g.neighbors(0), &vec![1usize]);
    assert_eq!(g.neighbors(1), &vec![0usize]);
}

#[test]
fn self_loop_listed_once_at_its_node() {
    let g = parse_edge_list("d d\nd d\nd e\n");
    assert_eq!(labels(&g), vec!["d", "e"]);
    assert_eq!(g.neighbors(0), &vec![0usize, 1]);
    assert_eq!(g.neighbors(1), &vec![0usize]);
}

#[test]
fn neighbours_in_order_of_listing() {
    let g = parse_edge_list("a b\nc a\na d\n");
    assert_eq!(g.neighbors(0), &vec![1usize, 2, 3]);
    assert_eq!(g.neighbors(2), &vec![0usize]);
}

#[test]
fn whitespace_variants_and_extra_words() {
    // Tabs, repeated blanks, CRLF line ends, a Unicode ideographic space,
    // words past the second ignored, one-word lines skipped.
    let g = parse_edge_list("  a\t\tb  c d\r\nsolo\r\nb\u{3000}c\n\u{a0}c a # tail\n");
    assert_eq!(labels(&g), vec!["a", "b", "c"]);
    assert_eq!(
        edges(&g),
        vec![
            ("a".to_string(), "b".to_string()),
            ("a".to_string(), "c".to_string()),
            ("b".to_string(), "c".to_string()),
        ]
    );
}

#[test]
fn last_line_without_newline() {
    let g = parse_edge_list("p q\nq r");
    assert_eq!(labels(&g), vec!["p", "q", "r"]);
    assert_eq!(g.neighbors(1), &vec![0usize, 2]);
}

#[test]
fn non_ascii_labels() {
    let g = parse_edge_list("é ü\nü 北京\n");
    assert_eq!(labels(&g), vec!["é", "ü", "北京"]);
    assert_eq!(g.neighbors(1), &vec![0usize, 2]);
}

#[test]
fn wordless_line_changes_nothing() {
    let a = parse_edge_list("a b\nb c\n");
    for extra in ["\n", "solo\n", "# note\n", "x # y z\n", "  \t\n"] {
        let text = format!("a b\n{extra}b c\n");
        let b = parse_edge_list(&text);
        assert_eq!(labels(&a), labels(&b));
        assert_eq!(edges(&a), edges(&b));
    }
}

#[test]
fn repeated_edge_changes_nothing() {
    let a = parse_edge_list("a b\nc a\n");
    for extra in ["a b\n", "b a\n", "c a\n", "a c # again\n"] {
        let b = parse_edge_list(&format!("a b\nc a\n{extra}"));
        assert_eq!(labels(&a), labels(&b));
        for u in 0..a.len() {
            assert_eq!(a.neighbors(u), b.neighbors(u));
        }
    }
}

#[test]
fn appending_keeps_numbering_and_neighbour_order() {
    let a = parse_edge_list("p q\nq r\n");
    let b = parse_edge_list("p q\nq r\nr p\ns q\n");
    assert_eq!(labels(&b)[..a.len()], labels(&a)[..]);
    for u in 0..a.len() {
        let old = a.neighbors(u);
        assert_eq!(&b.neighbors(u)[..old.len()], &old[..]);
    }
}
