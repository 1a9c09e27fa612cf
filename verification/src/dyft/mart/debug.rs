//! Figures of a trie.

use crate::dyft::mart::structure::MartIndex;
use crate::dyft::node::traits::{InNodeStatistics, MartArray, TrieCounts};
use crate::dyft::stats::{DyFTStats, InNodeStats};
use vstd::prelude::*;

verus! {

impl MartIndex {
    /// Number of sketches that were taken in.
    pub fn size(&self) -> (r: usize)
        ensures
            r == self.m_ids,
    {
        self.m_ids as usize
    }

    /// Number of leaves.
    pub fn leaves(&self) -> (r: usize)
        ensures
            r == self.m_postings_list@.len(),
    {
        self.m_postings_list.size() as usize
    }

    /// Number of leaves that were split.
    pub fn split_count(&self) -> (r: usize)
        ensures
            r == self.m_split_count,
    {
        self.m_split_count
    }

    /// The nodes of each tier, from the narrowest to the widest: how many
    /// there are and how many of them are free.
    pub open spec fn figures(&self) -> Seq<InNodeStats> {
        seq![
            (InNodeStats {
                k: 2,
                num: self.m_array_2.spec_num_nodes() as usize,
                empty: self.m_array_2.spec_num_empty() as usize,
            }),
            (InNodeStats {
                k: 4,
                num: self.m_array_4.spec_num_nodes() as usize,
                empty: self.m_array_4.spec_num_empty() as usize,
            }),
            (InNodeStats {
                k: 8,
                num: self.m_array_8.spec_num_nodes() as usize,
                empty: self.m_array_8.spec_num_empty() as usize,
            }),
            (InNodeStats {
                k: 16,
                num: self.m_array_16.spec_num_nodes() as usize,
                empty: self.m_array_16.spec_num_empty() as usize,
            }),
            (InNodeStats {
                k: 32,
                num: self.m_array_32.spec_num_nodes() as usize,
                empty: self.m_array_32.spec_num_empty() as usize,
            }),
            (InNodeStats {
                k: 64,
                num: self.m_array_64.spec_num_nodes() as usize,
                empty: self.m_array_64.spec_num_empty() as usize,
            }),
            (InNodeStats {
                k: 128,
                num: self.m_array_128.spec_num_nodes() as usize,
                empty: self.m_array_128.spec_num_empty() as usize,
            }),
            (InNodeStats {
                k: 256,
                num: self.m_array_256.spec_num_nodes() as usize,
                empty: self.m_array_256.spec_num_empty() as usize,
            }),
        ]
    }

    /// The nodes of each tier, from the narrowest to the widest: how many
    /// there are and how many of them are free.
    pub fn innode_stats(&self) -> (r: Vec<InNodeStats>)
        requires
            self.arenas_wf(),
        ensures
            r@ == self.figures(),
    {
        let mut out: Vec<InNodeStats> = Vec::new();
        out.push(self.m_array_2.innode_stats());
        out.push(self.m_array_4.innode_stats());
        out.push(self.m_array_8.innode_stats());
        out.push(self.m_array_16.innode_stats());
        out.push(self.m_array_32.innode_stats());
        out.push(self.m_array_64.innode_stats());
        out.push(self.m_array_128.innode_stats());
        out.push(self.m_array_256.innode_stats());
        assert(out@ =~= self.figures());
        out
    }

    /// The figures of the trie; the counts of the verification are 0.
    pub fn stats(&self) -> (r: DyFTStats)
        requires
            self.arenas_wf(),
        ensures
            r.size == self.m_ids,
            r.leaves == self.m_postings_list@.len(),
            r.depth == self.m_max_depth,
            r.split_count == self.m_split_count,
            r.innode_stats@ == self.figures(),
            r.partial_verification_count == 0,
            r.full_verification_count == 0,
            r.filtered_verification_count == 0,
    {
        DyFTStats {
            size: self.size(),
            leaves: self.leaves(),
            split_count: self.split_count(),
            depth: self.max_depth(),
            innode_stats: self.innode_stats(),
            partial_verification_count: 0,
            full_verification_count: 0,
            filtered_verification_count: 0,
        }
    }
}

} // verus!
