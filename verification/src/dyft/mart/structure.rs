//! The trie: one arena for each tier, the posting lists of the leaves,
//! and the tables of the search.

use crate::dyft::constants::factors::SplitThresholds;
use crate::dyft::constants::tables::{ipc_of, HamTables};
use crate::dyft::mart::heap::{heap_of, live_in, node_in, ArenaViews};
use crate::dyft::mart::model::TrieModel;
use crate::dyft::node::common::{MartEdge, MartNodeTypes, MartPointer, MART_NILID};
use crate::dyft::node::dense::MartDense;
use crate::dyft::node::full::MartFull;
use crate::dyft::node::model::{distinct_labels, edges_map, no_nil_edges, NodeModel};
use crate::dyft::node::node_types::{
    MartNode128, MartNode16, MartNode2, MartNode256, MartNode32, MartNode4, MartNode64, MartNode8,
};
use crate::dyft::node::sparse::MartSparse;
use crate::dyft::node::traits::{arena_ok, is_live, MartArray};
use crate::dyft::sparse::sparse_table::SparseTable;
use vstd::prelude::*;

verus! {

/// The settings of a trie.
#[derive(Debug, Clone, Copy)]
pub struct MartConfig {
    /// Number of vertical words of a sketch, from 1 to 8.
    pub bits: usize,
    /// The number of postings at which a leaf is split, if it is the same
    /// at every depth.
    pub splitthreshold: Option<u32>,
    /// Hamming distance within which a candidate is kept.
    pub radius: u32,
    /// Distance that the search may use up on its way down the trie, at
    /// most 16.
    pub errors: u8,
}

pub struct MartIndex {
    pub m_array_2: MartSparse<MartNode2>,
    pub m_array_4: MartSparse<MartNode4>,
    pub m_array_8: MartSparse<MartNode8>,
    pub m_array_16: MartSparse<MartNode16>,
    pub m_array_32: MartSparse<MartNode32>,
    pub m_array_64: MartDense<MartNode64>,
    pub m_array_128: MartDense<MartNode128>,
    pub m_array_256: MartFull<MartNode256>,
    pub m_edges: Vec<MartEdge>,
    pub m_rootptr: MartPointer,
    pub m_postings_list: SparseTable,
    pub m_splitthreshold: SplitThresholds,
    pub m_split_count: usize,
    pub m_radius: u32,
    pub m_errors: u8,
    pub m_tables: HamTables,
    pub m_max_depth: usize,
    pub m_bits: usize,
    pub m_end: usize,
    pub m_begin: usize,
    pub m_ids: u32,
    /// The labels on the way from the root to each node.
    pub paths: Ghost<Map<MartPointer, Seq<u8>>>,
    /// The labels on the way from the root to each leaf.
    pub leaf_paths: Ghost<Map<u32, Seq<u8>>>,
    /// The labels of each sketch that was taken in, by its id.
    pub db: Ghost<Seq<Seq<u8>>>,
}

impl MartIndex {
    /// The nodes of the arena of tier `t`.
    pub open spec fn arena(&self, t: MartNodeTypes) -> Seq<Option<NodeModel>> {
        match t {
            MartNodeTypes::Mart2Node => self.m_array_2.nodes(),
            MartNodeTypes::Mart4Node => self.m_array_4.nodes(),
            MartNodeTypes::Mart8Node => self.m_array_8.nodes(),
            MartNodeTypes::Mart16Node => self.m_array_16.nodes(),
            MartNodeTypes::Mart32Node => self.m_array_32.nodes(),
            MartNodeTypes::Mart64Node => self.m_array_64.nodes(),
            MartNodeTypes::Mart128Node => self.m_array_128.nodes(),
            MartNodeTypes::Mart256Node => self.m_array_256.nodes(),
            _ => Seq::empty(),
        }
    }

    /// The free nodes of the arena of tier `t`.
    pub open spec fn arena_free(&self, t: MartNodeTypes) -> Seq<u32> {
        match t {
            MartNodeTypes::Mart2Node => self.m_array_2.free_list(),
            MartNodeTypes::Mart4Node => self.m_array_4.free_list(),
            MartNodeTypes::Mart8Node => self.m_array_8.free_list(),
            MartNodeTypes::Mart16Node => self.m_array_16.free_list(),
            MartNodeTypes::Mart32Node => self.m_array_32.free_list(),
            MartNodeTypes::Mart64Node => self.m_array_64.free_list(),
            MartNodeTypes::Mart128Node => self.m_array_128.free_list(),
            MartNodeTypes::Mart256Node => self.m_array_256.free_list(),
            _ => Seq::empty(),
        }
    }

    /// The nodes of all arenas.
    pub open spec fn arenas(&self) -> ArenaViews {
        Map::new(|t: MartNodeTypes| t.is_inner(), |t: MartNodeTypes| self.arena(t))
    }

    /// Whether `p` refers to a node in use.
    pub open spec fn live(&self, p: MartPointer) -> bool {
        live_in(self.arenas(), p)
    }

    /// The node that `p` refers to.
    pub open spec fn node(&self, p: MartPointer) -> NodeModel {
        node_in(self.arenas(), p)
    }

    /// The children of every node in use.
    pub open spec fn heap(&self) -> Map<MartPointer, Map<u8, MartPointer>> {
        heap_of(self.arenas())
    }

    /// Number of labels of a sketch.
    pub open spec fn width(&self) -> nat {
        (self.m_end - self.m_begin) as nat
    }

    pub open spec fn model(&self) -> TrieModel {
        TrieModel {
            heap: self.heap(),
            postings: self.m_postings_list@,
            paths: self.paths@,
            leaf_paths: self.leaf_paths@,
            db: self.db@,
            root: self.m_rootptr,
            width: self.width(),
            bits: self.m_bits as nat,
        }
    }

    /// Every arena is in order.
    pub open spec fn arenas_wf(&self) -> bool {
        &&& self.m_array_2.wf()
        &&& self.m_array_4.wf()
        &&& self.m_array_8.wf()
        &&& self.m_array_16.wf()
        &&& self.m_array_32.wf()
        &&& self.m_array_64.wf()
        &&& self.m_array_128.wf()
        &&& self.m_array_256.wf()
    }

    /// The settings are in their ranges, and the tables are those of the
    /// number of bits.
    pub open spec fn config_wf(&self) -> bool {
        &&& 1 <= self.m_bits <= 8
        &&& self.m_errors <= 16
        &&& self.m_begin < self.m_end
        &&& self.m_end * ipc_of(self.m_bits as nat) <= usize::MAX
        &&& self.m_tables.wf()
        &&& self.m_tables.spec_bits() == self.m_bits
        &&& self.m_rootptr == (MartPointer { nid: 0, ntype: MartNodeTypes::Mart256Node })
    }

    pub open spec fn wf(&self) -> bool {
        &&& self.config_wf()
        &&& self.arenas_wf()
        &&& self.m_postings_list.wf()
        &&& self.model().wf()
        &&& self.m_ids == self.db@.len()
        &&& self.m_postings_list.total() == self.m_ids
        &&& self.m_split_count <= self.m_ids
    }

    /// A trie has no more leaves than sketches: every leaf holds an id.
    pub proof fn lemma_leaves_bound(&self)
        requires
            self.wf(),
        ensures
            self.m_postings_list@.len() <= self.m_ids,
    {
        let lists = self.m_postings_list@;
        assert forall|i: int| 0 <= i < lists.len() implies (#[trigger] lists[i]) is Some
            && lists[i]->0.len() >= 1 by {
            assert(self.model().posting_ok(i as u32));
        }
        self.m_postings_list.lemma_total_lists();
    }

    /// What the arenas say of their nodes.
    pub proof fn lemma_arenas(&self)
        requires
            self.arenas_wf(),
        ensures
            forall|t: MartNodeTypes|
                t.is_inner() ==> arena_ok(
                    #[trigger] self.arena(t),
                    self.arena_free(t),
                    crate::dyft::node::common::fanout_of(t),
                ),
            forall|p: MartPointer| #[trigger] self.live(p) ==> p.nid != MART_NILID,
    {
        self.m_array_2.lemma_wf();
        self.m_array_4.lemma_wf();
        self.m_array_8.lemma_wf();
        self.m_array_16.lemma_wf();
        self.m_array_32.lemma_wf();
        self.m_array_64.lemma_wf();
        self.m_array_128.lemma_wf();
        self.m_array_256.lemma_wf();
        assert forall|t: MartNodeTypes| t.is_inner() implies arena_ok(
            #[trigger] self.arena(t),
            self.arena_free(t),
            crate::dyft::node::common::fanout_of(t),
        ) by {}
    }

    /// The trie without sketches for the given settings and byte
    /// positions.
    pub fn new(
        config: &MartConfig,
        bit_pos_begin: usize,
        bit_pos_end: usize,
        thresholds_by_depth: Vec<u32>,
    ) -> (r: Self)
        requires
            1 <= config.bits <= 8,
            config.errors <= 16,
            bit_pos_begin < bit_pos_end,
            bit_pos_end * ipc_of(config.bits as nat) <= usize::MAX,
        ensures
            r.wf(),
            r.model() == TrieModel::empty(
                r.m_rootptr,
                (bit_pos_end - bit_pos_begin) as nat,
                config.bits as nat,
            ),
            r.m_bits == config.bits,
            r.m_errors == config.errors,
            r.m_radius == config.radius,
            r.m_begin == bit_pos_begin,
            r.m_end == bit_pos_end,
            r.m_ids == 0,
            r.m_split_count == 0,
            r.m_max_depth == 0,
            r.m_splitthreshold == crate::dyft::constants::factors::split_choice(
                config.splitthreshold,
                thresholds_by_depth,
            ),
    {
        let tables = HamTables::new(config.bits);
        let m_array_2 = MartSparse::<MartNode2>::new();
        let m_array_4 = MartSparse::<MartNode4>::new();
        let m_array_8 = MartSparse::<MartNode8>::new();
        let m_array_16 = MartSparse::<MartNode16>::new();
        let m_array_32 = MartSparse::<MartNode32>::new();
        let m_array_64 = MartDense::<MartNode64>::new();
        let m_array_128 = MartDense::<MartNode128>::new();
        let mut m_array_256 = MartFull::<MartNode256>::new();
        let m_rootptr = m_array_256.make_node();
        let m_edges: Vec<MartEdge> = Vec::with_capacity(256);
        let m_postings_list = SparseTable::new();
        let m_splitthreshold = crate::dyft::constants::factors::DyftFactors::split_thresholds(
            config.splitthreshold,
            thresholds_by_depth,
        );
        let index = MartIndex {
            m_array_2,
            m_array_4,
            m_array_8,
            m_array_16,
            m_array_32,
            m_array_64,
            m_array_128,
            m_array_256,
            m_edges,
            m_rootptr,
            m_postings_list,
            m_splitthreshold,
            m_split_count: 0,
            m_radius: config.radius,
            m_errors: config.errors,
            m_tables: tables,
            m_max_depth: 0,
            m_bits: config.bits,
            m_end: bit_pos_end,
            m_begin: bit_pos_begin,
            m_ids: 0,
            paths: Ghost(Map::empty().insert(m_rootptr, Seq::empty())),
            leaf_paths: Ghost(Map::empty()),
            db: Ghost(Seq::empty()),
        };
        proof {
            let want = TrieModel::empty(
                m_rootptr,
                (bit_pos_end - bit_pos_begin) as nat,
                config.bits as nat,
            );
            assert(index.heap() =~= want.heap) by {
                assert forall|p: MartPointer| index.live(p) == (p == m_rootptr) by {}
                assert(index.node(m_rootptr).edges =~= Map::<u8, MartPointer>::empty());
            }
            TrieModel::lemma_empty_wf(
                m_rootptr,
                (bit_pos_end - bit_pos_begin) as nat,
                config.bits as nat,
            );
        }
        index
    }

    /// The root of the trie.
    pub fn root(&self) -> (r: &MartPointer)
        ensures
            *r == self.m_rootptr,
    {
        &self.m_rootptr
    }

    /// The greatest depth at which a sketch was put into a leaf.
    pub fn max_depth(&self) -> (r: usize)
        ensures
            r == self.m_max_depth,
    {
        self.m_max_depth
    }

    /// The posting lists of the leaves.
    pub fn posting_list(&self) -> (r: &SparseTable)
        ensures
            *r == self.m_postings_list,
    {
        &self.m_postings_list
    }

    /// The child of node `ptr` under `label`, if there is one.
    pub fn perform_find_child(&self, ptr: MartPointer, label: u8) -> (r: Option<MartPointer>)
        requires
            self.arenas_wf(),
            self.live(ptr),
        ensures
            r == self.node(ptr).child(label),
    {
        match ptr.ntype() {
            MartNodeTypes::Mart2Node => self.m_array_2.find_child(ptr, label),
            MartNodeTypes::Mart4Node => self.m_array_4.find_child(ptr, label),
            MartNodeTypes::Mart8Node => self.m_array_8.find_child(ptr, label),
            MartNodeTypes::Mart16Node => self.m_array_16.find_child(ptr, label),
            MartNodeTypes::Mart32Node => self.m_array_32.find_child(ptr, label),
            MartNodeTypes::Mart64Node => self.m_array_64.find_child(ptr, label),
            MartNodeTypes::Mart128Node => self.m_array_128.find_child(ptr, label),
            MartNodeTypes::Mart256Node => self.m_array_256.find_child(ptr, label),
            _ => None,
        }
    }

    /// All edges of node `ptr`.
    pub fn perform_find_children(&self, ptr: &MartPointer) -> (r: Vec<MartEdge>)
        requires
            self.arenas_wf(),
            self.live(*ptr),
        ensures
            edges_map(r@) == self.node(*ptr).edges,
            distinct_labels(r@),
            no_nil_edges(r@),
    {
        match ptr.ntype() {
            MartNodeTypes::Mart2Node => self.m_array_2.children(ptr),
            MartNodeTypes::Mart4Node => self.m_array_4.children(ptr),
            MartNodeTypes::Mart8Node => self.m_array_8.children(ptr),
            MartNodeTypes::Mart16Node => self.m_array_16.children(ptr),
            MartNodeTypes::Mart32Node => self.m_array_32.children(ptr),
            MartNodeTypes::Mart64Node => self.m_array_64.children(ptr),
            MartNodeTypes::Mart128Node => self.m_array_128.children(ptr),
            MartNodeTypes::Mart256Node => self.m_array_256.children(ptr),
            _ => Vec::new(),
        }
    }
}

} // verus!
