//! Hunks: runs of nearby changed lines with some unchanged lines around them.

use vstd::prelude::*;

verus! {

/// The number of unchanged lines (if they exist) at the start and at the end
/// of a hunk that cannot be part of any other hunk.
pub const HUNK_RADIUS: usize = 3;

/// A group of changed lines that are thought to belong to one edit: where it
/// begins in each sequence, and how many lines of each it spans.
#[allow(dead_code)]
#[derive(Debug)]
pub struct Hunk {
    begin_a: usize,
    count_a: usize,
    begin_b: usize,
    count_b: usize,
}

} // verus!
