//! Leaf layer of a rope: bounded UTF-8 text chunks, their byte and
//! line-break summaries, rebalancing of sibling chunks and in-place edits
//! that may overflow into extra sibling chunks.

pub mod boundary;
pub mod summary;
pub mod slice;
pub mod chunk;
pub mod chunk_iter;
pub mod extra_leaves;
