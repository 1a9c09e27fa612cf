//! When a leaf is split: at a fixed number of postings, or at a number
//! that depends on the depth of the leaf.

use vstd::prelude::*;

verus! {

pub enum SplitThresholds {
    /// One threshold for each depth.
    Thresholds(Vec<u32>),
    /// One threshold for all depths.
    Threshold(u32),
}

impl SplitThresholds {
    /// Whether a leaf at `depth` with `n` postings is split: where the
    /// threshold for its depth is at most `n`. Beyond the depths that have
    /// a threshold no leaf is split.
    pub open spec fn splits(&self, n: u32, depth: usize) -> bool {
        match self {
            SplitThresholds::Threshold(t) => *t <= n,
            SplitThresholds::Thresholds(v) => depth < v@.len() && v@[depth as int] <= n,
        }
    }

    pub fn should_split(&self, n: u32, depth: usize) -> (r: bool)
        ensures
            r == self.splits(n, depth),
    {
        match self {
            SplitThresholds::Threshold(t) => *t <= n,
            SplitThresholds::Thresholds(v) => depth < v.len() && v[depth] <= n,
        }
    }
}

/// The explicit threshold if one is given, else the thresholds by depth.
pub open spec fn split_choice(split_threshold: Option<u32>, by_depth: Vec<u32>) -> SplitThresholds {
    match split_threshold {
        Some(t) => SplitThresholds::Threshold(t),
        None => SplitThresholds::Thresholds(by_depth),
    }
}

pub struct DyftFactors;

impl DyftFactors {
    /// The explicit threshold if one is given, else the thresholds by
    /// depth.
    pub fn split_thresholds(split_threshold: Option<u32>, by_depth: Vec<u32>) -> (r:
        SplitThresholds)
        ensures
            r == split_choice(split_threshold, by_depth),
    {
        match split_threshold {
            Some(t) => SplitThresholds::Threshold(t),
            None => SplitThresholds::Thresholds(by_depth),
        }
    }
}

} // verus!
