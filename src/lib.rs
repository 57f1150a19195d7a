//! Locating directories by name in a file-system subtree and reclaiming the
//! space they occupy.
//!
//! - [`scan`]: the depth-first search for target directories, driven by the
//!   caller's directory listings.
//! - [`reclaim`]: the outcome of each deletion task and the report that
//!   aggregates them.
//! - [`size_format`]: human-readable byte counts.
pub mod reclaim;
pub mod scan;
pub mod size_format;
