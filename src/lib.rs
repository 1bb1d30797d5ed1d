//! Hierarchical path trees over flat file lists: segmenting and interning
//! path components, aggregating sizes per directory, and mapping positions
//! in a displayed tree back to positions in the flat list.

pub mod text_order;
pub mod record;
pub mod segments;
pub mod index_tree;
pub mod display_tree;
pub mod text;
pub mod file_tree;
pub mod time;
