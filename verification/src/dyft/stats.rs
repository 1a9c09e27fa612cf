//! Figures that an index reports about itself.

use vstd::prelude::*;

verus! {

/// Nodes of one tier: how many there are and how many of them are free.
#[derive(Debug)]
pub struct InNodeStats {
    pub k: usize,
    pub num: usize,
    pub empty: usize,
}

/// Nodes of one tier by the number of their children.
#[derive(Debug)]
pub struct PopulationStats {
    pub k: usize,
    pub sum: usize,
    pub nodes: Vec<usize>,
}

#[derive(Debug)]
pub struct DyFTStats {
    pub size: usize,
    pub leaves: usize,
    pub depth: usize,
    pub split_count: usize,
    pub innode_stats: Vec<InNodeStats>,
    pub partial_verification_count: usize,
    pub full_verification_count: usize,
    pub filtered_verification_count: usize,
}

impl DyFTStats {
    pub fn partial_verification_count(&mut self, count: usize)
        ensures
            final(self).partial_verification_count == count,
            final(self).full_verification_count == old(self).full_verification_count,
            final(self).filtered_verification_count == old(self).filtered_verification_count,
            final(self).size == old(self).size,
            final(self).leaves == old(self).leaves,
            final(self).depth == old(self).depth,
            final(self).split_count == old(self).split_count,
            final(self).innode_stats == old(self).innode_stats,
    {
        self.partial_verification_count = count;
    }

    pub fn full_verification_count(&mut self, count: usize)
        ensures
            final(self).full_verification_count == count,
            final(self).partial_verification_count == old(self).partial_verification_count,
            final(self).filtered_verification_count == old(self).filtered_verification_count,
            final(self).size == old(self).size,
            final(self).leaves == old(self).leaves,
            final(self).depth == old(self).depth,
            final(self).split_count == old(self).split_count,
            final(self).innode_stats == old(self).innode_stats,
    {
        self.full_verification_count = count;
    }

    pub fn filtered_verification_count(&mut self, count: usize)
        ensures
            final(self).filtered_verification_count == count,
            final(self).partial_verification_count == old(self).partial_verification_count,
            final(self).full_verification_count == old(self).full_verification_count,
            final(self).size == old(self).size,
            final(self).leaves == old(self).leaves,
            final(self).depth == old(self).depth,
            final(self).split_count == old(self).split_count,
            final(self).innode_stats == old(self).innode_stats,
    {
        self.filtered_verification_count = count;
    }
}

} // verus!
