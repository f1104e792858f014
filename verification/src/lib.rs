//! An in-memory equi-join engine: nested-loop and sort-merge baselines, a
//! radix-partitioned sort-merge join built from histogram, prefix-sum and
//! scatter phases, and a loser-tree k-way merge primitive.

pub mod histograms;
pub mod ideal;
pub mod infrastructure;
pub mod join;
pub mod merge;
pub mod parallel;
pub mod search;
pub mod tuples;
