//! Disk-usage inspection library.
//!
//! Computes the recursive size of every file and directory in a snapshot of a
//! filesystem subtree, prunes entries below a size threshold while keeping
//! directory sizes computed from the full, unfiltered subtree, and renders the
//! surviving tree as depth-indented text lines with sizes in a display unit.

pub mod crawler;
pub mod render;
pub mod size;
