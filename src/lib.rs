//! External merge sort over signed 32-bit integers.
//!
//! - `reader`: whitespace-separated decimal records read from bytes.
//! - `loser_tree`: k-way selection of the least effective key.
//! - `run_gen`: replacement selection with freeze bits, cutting the input
//!   into sorted runs.
//! - `merge_plan`: the Huffman plan of pairwise merges over run lengths.
//! - `merge`: execution of a plan, and the whole sort.
//! - `kway`: k-way merging of buffered runs that share a buffer pool.
//! - `stats`: run lengths for reporting.

pub mod reader;
pub mod loser_tree;
pub mod run_gen;
pub mod merge_plan;
pub mod merge;
pub mod kway;
pub mod stats;
