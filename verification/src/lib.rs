//! A directory tree as data: the nodes that a scan of a file system yields,
//! and the indented listing that is printed from them.
//!
//! The library does no input or output. A scan is led by [`builder::TreeBuilder`],
//! which says which directory it wants listed and takes the listing in return;
//! the finished [`tree::FileTree`] is turned into lines of text by
//! [`tree::FileTree::display_tree`].
//!
//! - [`tree`]: the directories and the tree, and their mathematical values.
//! - [`listing`]: what listing a directory yields, and how it is sorted into
//!   subdirectories and files.
//! - [`builder`]: the scan as a state machine.
//! - [`scan`]: what a scan computes, and the proof that the builder computes it.
//! - [`render`]: the tree as lines of text.
//! - [`shape`]: what holds of those lines: their number, their order, their
//!   indentation.

pub mod builder;
pub mod listing;
pub mod render;
pub mod scan;
pub mod shape;
pub mod tree;
