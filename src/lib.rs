// Disk usage of a directory tree: sizes aggregated over a snapshot of the
// tree, listed as a depth-limited, size-filtered, sorted tree of rows.
pub mod error;
pub mod format;
pub mod order;
pub mod parse;
pub mod render;
pub mod tree;
