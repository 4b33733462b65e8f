//! Shortest positional distance between two words of a fixed word sequence.
//!
//! [`Solution`](index::Solution) is built once from an ordered sequence of
//! words; it records, for every distinct word, the ascending list of
//! positions at which the word occurs. A query then merges two of those
//! lists to find the least absolute difference between any occurrence of
//! the first word and any occurrence of the second.

pub mod index;
pub mod model;

pub use crate::index::NotFoundError;
pub use crate::index::Solution;
