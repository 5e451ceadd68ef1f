//! Persistent-homology primitives: matrices, simplices, the simplex trie,
//! the Vietoris-Rips construction and Betti numbers over GF(2).
pub mod boundary;
pub mod dense;
pub mod distance;
pub mod gf2;
pub mod graph;
pub mod homology;
pub mod kernel;
pub mod matrix;
pub mod naive;
pub mod neighborhood;
pub mod point_cloud;
pub mod reduction;
pub mod seqs;
pub mod simplex;
pub mod simplex_trie;
pub mod sparse;
pub mod text;
pub mod trie_arena;
pub mod vietoris_rips;
