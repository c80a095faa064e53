//! A partitioned table's file manifest as a compact tree.
//!
//! A manifest is a flat list of data-file paths such as
//! `year=2021/month=3/part-00007-<uuid>.c000.snappy.parquet`. This crate reads
//! the canonical file names into fixed-size descriptors, groups the paths by
//! their partition columns into a nested tree, and flattens such a tree back
//! into the paths that it was grown from.
//!
//! - `codec`: the file name and its descriptor, read and written.
//! - `segment`: a path split into `key=value` segments and a file name.
//! - `order`: the order in which paths are ranked before they are grouped.
//! - `tree`: the tree, grown from a manifest and flattened again.
//! - `laws`: what is proved of all manifests: the round trips, the
//!   independence of the tree from the order of the paths, the one schema of
//!   a manifest that has a tree, the uniform depth of the leaves and the
//!   well-formedness of the tree.
//! - `memory`: estimates of the memory that a manifest takes in either form.
//! - `rowgroup`: the test on a row group's statistics.
//! - `numeral`, `text`, `error`: digits, characters and failures.

pub mod codec;
pub mod error;
pub mod laws;
pub mod memory;
pub mod numeral;
pub mod order;
pub mod rowgroup;
pub mod segment;
pub mod text;
pub mod tree;
