# rsomics-voterank

VoteRank influential-node ranking of an undirected graph given as an edge
list (Zhang, Chen, Dong & Zhao 2016), verified with Verus.

- `src/text.rs` — the edge-list text format: lines, `#` comments, the first
  two whitespace-separated words of a line.
- `src/model.rs` — the mathematical graph that an edge list describes
  (labels in first-appearance order, adjacency lists), built edge by edge.
- `src/graph.rs` — `Graph` (with its well-formedness as a type invariant) and
  `parse_edge_list`, proved to build exactly that model.
- `src/binary64.rs` — IEEE 754 binary64 on bit patterns: add, subtract,
  divide and integer conversion computed by `rustc_apfloat`; comparison,
  equality and maxNum stated and verified on the bits.
- `src/rank.rs` — `voterank` and `voterank_from_edge_list`, proved to follow
  the VoteRank specification step by step in binary64 arithmetic: votes added
  edge by edge in node order, first maximum elected, `max(a - 1/avg, 0)`.
- `src/laws.rs` — properties proved of every input: the graph's edges are
  exactly the listed ones, labels come in first-appearance order, texts joined
  at a line boundary list their edges in turn, lines without two words and
  repeated edges change nothing, appending never renumbers, renaming labels
  renames the ranking (for edge lists and for texts), a top-k ranking is a
  prefix of the full one, no node is elected twice, ties go to the first node
  of highest score.
- `app/main.rs` — the command-line program.
