//! Bundles a directory's file tree and the text of its files into one prompt.

pub mod collect;
pub mod order;
pub mod path;
pub mod prompt;
pub mod records;
pub mod sort;
pub mod text;
pub mod tokens;
pub mod tree;
pub mod tree_laws;
