//! Directory-tree filename search: find every file under a root directory
//! whose name equals a target, ignoring ASCII letter case.

pub mod duration;
pub mod laws;
pub mod listing;
pub mod matcher;
pub mod parallel;
pub mod sequential;
pub mod tracking;
pub mod tree;
pub mod walk;
