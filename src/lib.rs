//! A local directory served by relative path: the directory is indexed once
//! into an immutable snapshot tree, paths are resolved against that tree,
//! and file contents are kept in a bounded least-recently-used cache.
pub mod cache;
pub mod file_map;
pub mod index;
pub mod tree;
