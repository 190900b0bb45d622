//! VoteRank influential-node ranking of an undirected graph given as an
//! edge list (Zhang, Chen, Dong & Zhao, 2016).
//!
//! Every node starts with the full voting ability; each round the score of a
//! node is the sum of its neighbours' abilities, the highest-scoring node is
//! elected, its ability is zeroed and each neighbour loses `1 / avg_degree`
//! (clamped at 0). The ranking stops after the requested number of elections
//! or as soon as the top score is 0. Abilities and scores are IEEE binary64
//! values, added edge by edge in a fixed order, as `f64` arithmetic computes
//! them.

pub mod binary64;
pub mod text;
pub mod model;
pub mod graph;
pub mod rank;
pub mod laws;


pub use graph::{Graph, parse_edge_list};
pub use rank::{voterank, voterank_from_edge_list};
