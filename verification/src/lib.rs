//! Verified building blocks for algorithmic programming: a bit-packed set,
//! suffix arrays, searching, sieves, graph traversal and assorted helpers.

pub mod bitset;
pub mod bitset_laws;
pub mod symbol;
pub mod text;
pub mod lex;
pub mod suffix_order;
pub mod naive;
pub mod suffix_array;
pub mod shuffle;
pub mod sais;
pub mod certify;
pub mod bit_enum;
pub mod brute_bits;
pub mod digitex;
pub mod binary_search;
pub mod math;
pub mod rle;
pub mod runner;
pub mod prime;
pub mod sparse_table;
pub mod rolling_hash;
pub mod graph;
pub mod linear_match;
pub mod unique_count;
pub mod util;

pub use crate::bitset::BitSet;
pub use crate::brute_bits::BruteBitsBuilder;
pub use crate::graph::bfs::{Bfs, Bfsable};
pub use crate::graph::dfs::{Dfs, Dfsable};
pub use crate::graph::{
    DirectedUnweightedListGraph, ListGraph, UndirectedUnweightedListGraph, UnweightedListGraph,
};
pub use crate::math::ceil_pow;
pub use crate::prime::erathosthnes::Erathosthnes;
pub use crate::prime::{Prime, Sieve};
pub use crate::rle::RunLengthEncoding;
pub use crate::rolling_hash::RollingHash;
pub use crate::runner::{TaskRunner, Timer};
pub use crate::sparse_table::{Band, Max, Min, SparseTable};
pub use crate::suffix_array::{DefaultSort, SaIs, SuffixArray};
pub use crate::symbol::{BoundedAbove, BoundedBelow};
pub use crate::unique_count::UniqueCount;
pub use crate::util::ExpandRange;
