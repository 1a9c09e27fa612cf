//! The index as its users see it: the hashing of curves into sketches and
//! the trie over the sketches.

use crate::config::{IndexConfig, LshConfig};
use crate::dyft::bit_tools::vcode_array::VCodeArray;
use crate::dyft::bit_tools::vcode_tools::{words, VCodeTools, VCodeToolsBase};
use crate::dyft::constants::factors::split_choice;
use crate::dyft::constants::tables::ipc_of;
use crate::dyft::mart::export::{MartExporter, MartTrieExport};
use crate::dyft::mart::model::TrieModel;
use crate::dyft::mart::query::DyFTPartialVerificationResult;
use crate::dyft::mart::structure::{MartConfig, MartIndex};
use crate::dyft::stats::{DyFTStats, InNodeStats};
use crate::lsh::tensored::{GridCurve, TensoredMultiHash};
use vstd::prelude::*;

verus! {

/// Figures that an index reports about itself.
pub trait DyFTStatistics {
    /// The index is in a state in which it can be asked for its figures.
    spec fn counted(&self) -> bool;

    /// Number of sketches that were taken in.
    spec fn spec_size(&self) -> nat;

    /// Number of leaves.
    spec fn spec_leaves(&self) -> nat;

    /// The greatest depth at which a sketch was put into a leaf.
    spec fn spec_depth(&self) -> nat;

    /// Number of leaves that were split.
    spec fn spec_split_count(&self) -> nat;

    /// The nodes of each tier.
    spec fn spec_innode_stats(&self) -> Seq<InNodeStats>;

    fn stats(&self) -> (r: DyFTStats)
        requires
            self.counted(),
        ensures
            r.size == self.spec_size(),
            r.leaves == self.spec_leaves(),
            r.depth == self.spec_depth(),
            r.split_count == self.spec_split_count(),
            r.innode_stats@ == self.spec_innode_stats(),
            r.partial_verification_count == 0,
            r.full_verification_count == 0,
            r.filtered_verification_count == 0,
    ;

    fn size(&self) -> (r: usize)
        requires
            self.counted(),
        ensures
            r == self.spec_size(),
    ;

    fn leaves(&self) -> (r: usize)
        requires
            self.counted(),
        ensures
            r == self.spec_leaves(),
    ;

    fn depth(&self) -> (r: usize)
        requires
            self.counted(),
        ensures
            r == self.spec_depth(),
    ;

    fn split_count(&self) -> (r: usize)
        requires
            self.counted(),
        ensures
            r == self.spec_split_count(),
    ;

    fn innode_stats(&self) -> (r: Vec<InNodeStats>)
        requires
            self.counted(),
        ensures
            r@ == self.spec_innode_stats(),
    ;
}

/// Hash functions for curves together with a trie over the sketches that
/// they give.
pub struct DyftIndex<T: VCodeTools> {
    pub m_hasher: TensoredMultiHash<T>,
    pub m_index: MartIndex,
}

impl<T: VCodeTools> DyFTStatistics for DyftIndex<T> {
    open spec fn counted(&self) -> bool {
        self.m_index.arenas_wf()
    }

    open spec fn spec_size(&self) -> nat {
        self.m_index.m_ids as nat
    }

    open spec fn spec_leaves(&self) -> nat {
        self.m_index.m_postings_list@.len()
    }

    open spec fn spec_depth(&self) -> nat {
        self.m_index.m_max_depth as nat
    }

    open spec fn spec_split_count(&self) -> nat {
        self.m_index.m_split_count as nat
    }

    open spec fn spec_innode_stats(&self) -> Seq<InNodeStats> {
        self.m_index.figures()
    }

    fn stats(&self) -> (r: DyFTStats) {
        self.m_index.stats()
    }

    fn size(&self) -> (r: usize) {
        self.m_index.size()
    }

    fn leaves(&self) -> (r: usize) {
        self.m_index.leaves()
    }

    fn depth(&self) -> (r: usize) {
        self.m_index.max_depth()
    }

    fn split_count(&self) -> (r: usize) {
        self.m_index.split_count()
    }

    fn innode_stats(&self) -> (r: Vec<InNodeStats>) {
        self.m_index.innode_stats()
    }
}

impl<T: VCodeTools> DyftIndex<T> {
    /// The hash functions and the trie are in order.
    pub open spec fn wf(&self) -> bool {
        &&& self.m_hasher.wf()
        &&& self.m_index.wf()
    }

    /// Number of labels that the trie reads of a sketch: the positions of
    /// a hash, 64 at most, by the number of positions that go into one
    /// label.
    pub open spec fn labels_per_sketch(bits: nat) -> nat {
        let positions: nat = if T::width() < 64 {
            T::width()
        } else {
            64
        };
        (positions / (ipc_of(bits) as nat)) as nat
    }

    /// The index without sketches for the given settings, with hash
    /// functions for curves of up to `max_len` points made of the given
    /// coefficients, or nothing if the coefficients are not as many as the
    /// hash functions take. The trie reads the labels of a sketch from
    /// the first on.
    pub fn new(
        config: &IndexConfig<MartConfig>,
        max_len: usize,
        coefficients: Vec<T>,
        thresholds_by_depth: Vec<u32>,
    ) -> (r: Option<Self>)
        requires
            1 <= config.index.bits <= 8,
            config.index.errors <= 16,
        ensures
            r is Some == TensoredMultiHash::<T>::shaped(
                config.lsh.l as nat,
                config.lsh.k as nat,
                max_len as nat,
                coefficients@.len(),
            ),
            r is Some ==> {
                let index = r->0.m_index;
                let hasher = r->0.m_hasher;
                &&& r->0.wf()
                &&& hasher.m_hashes == config.lsh.l
                &&& hasher.m_concatenations == config.lsh.k
                &&& index.m_bits == config.index.bits
                &&& index.m_errors == config.index.errors
                &&& index.m_radius == config.index.radius
                &&& index.m_begin == 0
                &&& index.m_end == Self::labels_per_sketch(config.index.bits as nat)
                &&& index.m_ids == 0
                &&& index.m_split_count == 0
                &&& index.m_splitthreshold == split_choice(
                    config.index.splitthreshold,
                    thresholds_by_depth,
                )
                &&& index.model() == TrieModel::empty(
                    index.m_rootptr,
                    index.m_end as nat,
                    config.index.bits as nat,
                )
            },
    {
        let lsh: &LshConfig = config.lsh_params();
        let mart_config: &MartConfig = config.index_params();
        let width = T::n_dim();
        let positions: usize = if width < 64 {
            width
        } else {
            64
        };
        let bits = mart_config.bits;
        let ipc: usize = 8 / bits;
        proof {
            T::lemma_width();
            assert(ipc == ipc_of(bits as nat));
            assert(1 <= ipc <= 8) by {
                assert(bits == 1 || bits == 2 || bits == 3 || bits == 4 || bits == 5 || bits == 6
                    || bits == 7 || bits == 8);
            }
        }
        let end: usize = positions / ipc;
        proof {
            assert(1 <= end <= 64) by (nonlinear_arith)
                requires
                    end == positions / ipc,
                    1 <= ipc <= 8,
                    8 <= positions <= 64,
            ;
            assert(end * ipc <= 512) by (nonlinear_arith)
                requires
                    1 <= end <= 64,
                    1 <= ipc <= 8,
            ;
        }
        let m_hasher = match TensoredMultiHash::<T>::init(lsh.l, lsh.k, max_len, coefficients) {
            Some(h) => h,
            None => {
                return None;
            },
        };
        let m_index = MartIndex::new(mart_config, 0, end, thresholds_by_depth);
        Some(DyftIndex { m_hasher, m_index })
    }

    /// Number of sketches that were taken in.
    pub fn size(&self) -> (r: usize)
        ensures
            r == self.m_index.m_ids,
    {
        self.m_index.size()
    }

    /// Takes in the sketches of `vcodes` from the one after the last that
    /// was taken in up to, but not including, the `n`-th.
    pub fn build(&mut self, vcodes: &VCodeArray<T>, n: usize)
        requires
            old(self).wf(),
            old(self).m_index.consistent(vcodes),
            old(self).m_index.m_ids < n ==> old(self).m_index.room_for(
                n - old(self).m_index.m_ids,
            ),
        ensures
            final(self).wf(),
            final(self).m_hasher == old(self).m_hasher,
            final(self).m_index.consistent(vcodes),
            final(self).m_index.same_config(old(self).m_index),
            final(self).m_index.m_ids == if old(self).m_index.m_ids < n && old(self).m_index.m_ids
                < vcodes.spec_size() {
                if n < vcodes.spec_size() {
                    n as int
                } else {
                    vcodes.spec_size() as int
                }
            } else {
                old(self).m_index.m_ids as int
            },
            exists|states: Seq<MartIndex>|
                states.len() == final(self).m_index.m_ids - old(self).m_index.m_ids + 1
                    && states[0] == old(self).m_index && states.last() == final(self).m_index
                    && #[trigger] MartIndex::steps(states, vcodes),
    {
        self.m_index.build(vcodes, n)
    }

    /// Takes the sketch `vcode`, the next of `database`, into the trie.
    pub fn append(&mut self, vcode: &[T], database: &VCodeArray<T>)
        requires
            old(self).wf(),
            old(self).m_index.room_for(1),
            old(self).m_index.consistent(database),
            old(self).m_index.m_ids < database.spec_size(),
            vcode@ == database.sketch(old(self).m_index.m_ids as int),
        ensures
            final(self).wf(),
            final(self).m_hasher == old(self).m_hasher,
            final(self).m_index.consistent(database),
            final(self).m_index.same_config(old(self).m_index),
            final(self).m_index.db@ == old(self).m_index.db@.push(
                old(self).m_index.labels_of(words(vcode@)),
            ),
            final(self).m_index.m_ids == old(self).m_index.m_ids + 1,
            old(self).m_index.step(final(self).m_index, database),
    {
        self.m_index.append(vcode, database)
    }

    /// The ids of the sketches that may lie within the allowed distance of
    /// the sketch `vcode`: the posting lists of the leaves whose paths lie
    /// within that distance of the labels of `vcode`, each leaf once.
    pub fn trie_search(&self, vcode: &[T]) -> (r: Vec<u32>)
        requires
            self.wf(),
            self.m_index.m_bits <= vcode@.len(),
        ensures
            forall|id: u32|
                #[trigger] r@.contains(id) <==> self.m_index.model().emits(
                    self.m_index.labels_of(words(vcode@)),
                    self.m_index.m_errors as nat,
                    id,
                ),
            exists|leaves: Seq<u32>| #[trigger]
                self.m_index.model().found(
                    self.m_index.labels_of(words(vcode@)),
                    self.m_index.m_errors as nat,
                    leaves,
                    r@,
                ),
    {
        self.m_index.trie_search(vcode)
    }

    /// The pairs of a query of `qvcodes` and a sketch of `vcodes` that the
    /// search finds and whose sketches lie within the Hamming radius of
    /// each other, query by query in the order of the search.
    pub fn trie_query_collect(&self, vcodes: &VCodeArray<T>, qvcodes: &VCodeArray<T>) -> (r: Vec<
        (usize, usize),
    >)
        requires
            self.wf(),
            self.m_index.consistent(vcodes),
            qvcodes.wf(),
            self.m_index.m_bits <= qvcodes.spec_bits(),
        ensures
            forall|q: usize, c: usize|
                #[trigger] r@.contains((q, c)) <==> self.m_index.finds(qvcodes, q as int, c as int)
                    && vcodes.within(
                    c as int,
                    qvcodes.sketch(q as int),
                    self.m_index.m_radius as nat,
                ),
            exists|candidates: Seq<(usize, usize)>| #[trigger]
                self.m_index.candidates_of(qvcodes, candidates) && r@
                    == crate::dyft::mart::query::close_pairs(
                    candidates,
                    vcodes,
                    qvcodes,
                    self.m_index.m_radius as nat,
                    candidates.len() as int,
                ),
    {
        self.m_index.trie_query(vcodes, qvcodes)
    }

    /// The outcome of the queries `qvcodes` with verification: of the
    /// pairs that the search finds, those whose sketches lie within the
    /// lower radius of each other are kept unseen, those beyond it but
    /// within the radius are kept if `decider` accepts them, and the
    /// others are dropped.
    pub fn trie_query_collect_with_verification<F: Fn(usize, usize) -> bool>(
        &self,
        vcodes: &VCodeArray<T>,
        qvcodes: &VCodeArray<T>,
        decider: F,
    ) -> (r: DyFTPartialVerificationResult)
        requires
            self.wf(),
            self.m_index.consistent(vcodes),
            qvcodes.wf(),
            self.m_index.m_bits <= qvcodes.spec_bits(),
            forall|q: usize, c: usize| decider.requires((q, c)),
        ensures
            exists|candidates: Seq<(usize, usize)>, accepted: Seq<bool>| #[trigger]
                self.m_index.verified(vcodes, qvcodes, decider, candidates, accepted, r),
    {
        self.m_index.trie_query_partial_verification(vcodes, qvcodes, decider)
    }

    /// The sketches of the curves of a dataset.
    pub fn hash_dataset(&self, dataset: &[GridCurve]) -> (r: VCodeArray<T>)
        requires
            self.wf(),
            forall|i: int|
                0 <= i < dataset@.len() ==> self.m_hasher.curve_fits(#[trigger] &dataset@[i]),
        ensures
            r.wf(),
            r.spec_bits() == self.m_index.m_bits,
            r@.len() == dataset@.len() * self.m_hasher.m_hashes,
            forall|p: int|
                0 <= p < r@.len() ==> (#[trigger] r@[p]).val() == self.m_hasher.dataset_hash(
                    dataset@,
                    p,
                ),
    {
        self.m_hasher.hash_to_vcodes(dataset, self.m_index.m_bits)
    }

    /// The sketches of the curves of a set of queries.
    pub fn hash_queryset(&self, dataset: &[GridCurve]) -> (r: VCodeArray<T>)
        requires
            self.wf(),
            forall|i: int|
                0 <= i < dataset@.len() ==> self.m_hasher.curve_fits(#[trigger] &dataset@[i]),
        ensures
            r.wf(),
            r.spec_bits() == self.m_index.m_bits,
            r@.len() == dataset@.len() * self.m_hasher.m_hashes,
            forall|p: int|
                0 <= p < r@.len() ==> (#[trigger] r@[p]).val() == self.m_hasher.dataset_hash(
                    dataset@,
                    p,
                ),
    {
        self.m_hasher.hash_query_to_vcodes(dataset, self.m_index.m_bits)
    }
}

impl<T: VCodeTools> MartExporter for DyftIndex<T> {
    open spec fn exportable(&self) -> bool {
        self.m_index.wf()
    }

    open spec fn shown_by(&self, export: &MartTrieExport) -> bool {
        self.m_index.shown_by(export)
    }

    fn export(self) -> (r: MartTrieExport) {
        self.m_index.export()
    }
}

} // verus!
