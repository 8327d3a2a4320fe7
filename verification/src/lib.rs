//! Diff-of-diffs engine: compares two unified diffs line by line, keeps the
//! file sections that changed, and renders them with colour markers.

pub mod cli;
pub mod diff;
pub mod diff_laws;
pub mod normalize;
pub mod render;
pub mod report;
pub mod sections;
pub mod text;
