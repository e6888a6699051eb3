//! Line-oriented difference between two sequences of text lines.
//!
//! The alignment module computes a longest common subsequence of two line
//! sequences as index pairs; the builder module walks that alignment and
//! classifies every line of both inputs as unchanged, inserted or deleted.

pub mod alignment;
pub mod builder;
pub mod delta;
pub mod hunk;

pub use alignment::{lcs, LcsItem};
pub use builder::diff;
pub use delta::{DeltaLine, EditType};
pub use hunk::{Hunk, HUNK_RADIUS};
