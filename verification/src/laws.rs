//! Laws of the TianMu layout: what reading an image gives back after the
//! operations that write it, and what every operation keeps.
pub mod block_map;
pub mod bytes;
pub mod chains;
pub mod contents;
pub mod directories;
pub mod growth;
pub mod making;
pub mod names;
pub mod paths;
pub mod tree;
pub mod tree_copy;
