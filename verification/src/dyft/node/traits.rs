//! What the arenas of all tiers have in common.

use crate::dyft::node::common::{
    MartCursor, MartEdge, MartInsertFlags, MartNodeTypes, MartPointer, MART_NILID,
};
use crate::dyft::node::model::{distinct_labels, edges_map, no_nil_edges, NodeModel};
use crate::dyft::stats::InNodeStats;
use vstd::prelude::*;

verus! {

/// Whether node `nid` exists and is in use.
pub open spec fn is_live(nodes: Seq<Option<NodeModel>>, nid: u32) -> bool {
    nid < nodes.len() && nodes[nid as int] is Some
}

/// The free nodes are exactly the nodes without a model, each once; the
/// nodes in use are well formed.
pub open spec fn arena_ok(nodes: Seq<Option<NodeModel>>, free: Seq<u32>, slots: nat) -> bool {
    &&& nodes.len() <= u32::MAX
    &&& free.no_duplicates()
    &&& forall|i: int|
        0 <= i < free.len() ==> (#[trigger] free[i]) < nodes.len() && nodes[free[i] as int] is None
    &&& forall|nid: int|
        0 <= nid < nodes.len() && (#[trigger] nodes[nid]) is None ==> free.contains(nid as u32)
    &&& forall|nid: int|
        0 <= nid < nodes.len() && (#[trigger] nodes[nid]) is Some ==> nodes[nid]->0.well_formed(
            slots,
        )
}

/// The slot that a label added to a node gets: the label itself where
/// slots go by label, else the number of children so far.
pub open spec fn slot_for(by_label: bool, header: u8, label: u8) -> int {
    if by_label {
        label as int
    } else {
        header as int
    }
}

/// What an insertion of `ptr` under `label` into the node that the cursor
/// `mc0` stands on comes to. `full` says whether the node has no room.
pub open spec fn insert_outcome(
    before: Seq<Option<NodeModel>>,
    after: Seq<Option<NodeModel>>,
    mc0: MartCursor,
    mc1: MartCursor,
    label: u8,
    ptr: MartPointer,
    flag: MartInsertFlags,
    full: bool,
    slot: int,
) -> bool {
    let nid = mc0.nptr.nid as int;
    let node = before[nid]->0;
    if node.edges.contains_key(label) {
        &&& flag == MartInsertFlags::MartFound
        &&& after == before
        &&& mc1.offset == node.slot_of[label]
        &&& mc1.pptr == mc0.nptr
        &&& mc1.nptr == node.edges[label]
    } else if full {
        &&& flag == MartInsertFlags::MartNeededToExpand
        &&& after == before
        &&& mc1 == mc0
    } else {
        &&& flag == MartInsertFlags::MartInserted
        &&& after == before.update(nid, Some(node.with_edge(label, ptr, slot)))
        &&& mc1.offset == slot
        &&& mc1.pptr == mc0.nptr
        &&& mc1.nptr == ptr
    }
}

/// What making a node that is `node` comes to: the first free node is
/// taken if there is one, else a node is added at the end.
pub open spec fn made_node(
    before: Seq<Option<NodeModel>>,
    free_before: Seq<u32>,
    after: Seq<Option<NodeModel>>,
    free_after: Seq<u32>,
    r: MartPointer,
    tier: MartNodeTypes,
    node: NodeModel,
) -> bool {
    &&& r.ntype == tier
    &&& if free_before.len() > 0 {
        &&& r.nid == free_before[0]
        &&& free_after == free_before.drop_first()
        &&& after == before.update(r.nid as int, Some(node))
    } else {
        &&& r.nid == before.len()
        &&& free_after == free_before
        &&& after == before.push(Some(node))
    }
}

/// Index of the edge with label `l`.
pub open spec fn index_of_label(s: Seq<MartEdge>, l: u8) -> int {
    choose|i: int| 0 <= i < s.len() && (#[trigger] s[i]).label == l
}

/// The node that holds exactly the edges `s`, each in the slot of its
/// index, or of its label where slots go by label.
pub open spec fn edges_model(s: Seq<MartEdge>, by_label: bool) -> NodeModel {
    NodeModel {
        edges: edges_map(s),
        slot_of: Map::new(
            |l: u8| edges_map(s).contains_key(l),
            |l: u8|
                if by_label {
                    l as int
                } else {
                    index_of_label(s, l)
                },
        ),
        header: (s.len() % 256) as u8,
    }
}

/// The byte layout of the nodes of one arena: a header byte, then label
/// bytes up to `ptrs_offset`, then `slots` stored references of five bytes.
pub trait MartOffsets: Sized {
    /// Fan-out of the tier.
    spec fn spec_k() -> nat;

    /// Offset of the first stored reference within a node.
    spec fn spec_ptrs_offset() -> nat;

    /// Size of a node in bytes.
    spec fn spec_bytes() -> nat;

    /// Number of stored references in a node.
    spec fn spec_slots() -> nat;

    fn k() -> (r: usize)
        ensures
            r == Self::spec_k(),
            r <= 256,
    ;

    fn ptrs_offset() -> (r: usize)
        ensures
            r == Self::spec_ptrs_offset(),
    ;

    fn bytes() -> (r: usize)
        ensures
            r == Self::spec_bytes(),
    ;
}

/// The layout describes a node: at least one slot, at most 256, and a
/// fan-out that the slots can hold.
pub open spec fn layout_ok<T: MartOffsets>() -> bool {
    &&& 1 <= T::spec_k() <= 256
    &&& T::spec_k() <= T::spec_slots() <= 256
    &&& 1 <= T::spec_ptrs_offset() <= 257
    &&& T::spec_bytes() == T::spec_ptrs_offset() + 5 * T::spec_slots()
}

/// The arena of one tier: its nodes, made, filled, searched and re-linked
/// through references.
pub trait MartArray: Sized {
    /// The nodes by id: what each holds, or nothing where it is free.
    spec fn nodes(&self) -> Seq<Option<NodeModel>>;

    /// The free nodes, in the order in which they will be handed out.
    spec fn free_list(&self) -> Seq<u32>;

    spec fn wf(&self) -> bool;

    /// The tag of the references into this arena.
    spec fn tier() -> MartNodeTypes;

    /// Fan-out of the tier.
    spec fn capacity() -> nat;

    /// Number of slots of a node.
    spec fn slots() -> nat;

    /// Whether the slot of a child is its label.
    spec fn by_label() -> bool;

    /// Whether a node with as many children as the fan-out refuses more.
    spec fn expands() -> bool;

    proof fn lemma_wf(&self)
        requires
            self.wf(),
        ensures
            arena_ok(self.nodes(), self.free_list(), Self::slots()),
            1 <= Self::capacity() <= Self::slots() <= 256,
    ;

    fn insert_ptr(&mut self, mc: &mut MartCursor, label: u8, ptr: &MartPointer) -> (flag:
        MartInsertFlags)
        requires
            old(self).wf(),
            old(mc).nptr.ntype == Self::tier(),
            is_live(old(self).nodes(), old(mc).nptr.nid),
            ptr.nid != MART_NILID,
        ensures
            final(self).wf(),
            final(self).free_list() == old(self).free_list(),
            insert_outcome(
                old(self).nodes(),
                final(self).nodes(),
                *old(mc),
                *final(mc),
                label,
                *ptr,
                flag,
                Self::expands() && old(self).nodes()[old(mc).nptr.nid as int]->0.header
                    == Self::capacity(),
                slot_for(
                    Self::by_label(),
                    old(self).nodes()[old(mc).nptr.nid as int]->0.header,
                    label,
                ),
            ),
    ;

    /// Makes a node without children: the first free node if there is one,
    /// else a new one.
    fn make_node(&mut self) -> (r: MartPointer)
        requires
            old(self).wf(),
            old(self).free_list().len() == 0 ==> old(self).nodes().len() < u32::MAX,
        ensures
            final(self).wf(),
            made_node(
                old(self).nodes(),
                old(self).free_list(),
                final(self).nodes(),
                final(self).free_list(),
                r,
                Self::tier(),
                NodeModel::empty(),
            ),
    ;

    /// Makes a node that holds the given edges.
    fn make_node_with_edges(&mut self, edges: &[MartEdge]) -> (r: MartPointer)
        requires
            old(self).wf(),
            old(self).free_list().len() == 0 ==> old(self).nodes().len() < u32::MAX,
            edges@.len() <= Self::capacity(),
            distinct_labels(edges@),
            no_nil_edges(edges@),
        ensures
            final(self).wf(),
            made_node(
                old(self).nodes(),
                old(self).free_list(),
                final(self).nodes(),
                final(self).free_list(),
                r,
                Self::tier(),
                edges_model(edges@, Self::by_label()),
            ),
    ;

    /// Puts the node that the cursor stands on in place of the child that
    /// it was reached by.
    fn update_srcptr(&mut self, mc: &MartCursor)
        requires
            old(self).wf(),
            mc.pptr.ntype == Self::tier(),
            is_live(old(self).nodes(), mc.pptr.nid),
            old(self).nodes()[mc.pptr.nid as int]->0.occupied(mc.offset as int),
            mc.nptr.nid != MART_NILID,
        ensures
            final(self).wf(),
            final(self).free_list() == old(self).free_list(),
            final(self).nodes() == old(self).nodes().update(
                mc.pptr.nid as int,
                Some(
                    old(self).nodes()[mc.pptr.nid as int]->0.with_child_at(
                        mc.offset as int,
                        mc.nptr,
                    ),
                ),
            ),
    ;

    /// The child of node `ptr` under `label`, if there is one.
    fn find_child(&self, ptr: MartPointer, label: u8) -> (r: Option<MartPointer>)
        requires
            self.wf(),
            ptr.ntype == Self::tier(),
            is_live(self.nodes(), ptr.nid),
        ensures
            r == self.nodes()[ptr.nid as int]->0.child(label),
    ;

    /// All edges of node `ptr`.
    fn children(&self, ptr: &MartPointer) -> (r: Vec<MartEdge>)
        requires
            self.wf(),
            ptr.ntype == Self::tier(),
            is_live(self.nodes(), ptr.nid),
        ensures
            edges_map(r@) == self.nodes()[ptr.nid as int]->0.edges,
            distinct_labels(r@),
            no_nil_edges(r@),
    ;
}

/// An arena whose nodes can be emptied and given back.
pub trait MartArrayExtractable: MartArray {
    /// Adds `nptr` under `label`, which the node does not have yet, without
    /// looking for it.
    fn append_ptr(&mut self, mc: &mut MartCursor, label: u8, nptr: &MartPointer) -> (flag:
        MartInsertFlags)
        requires
            old(self).wf(),
            old(mc).nptr.ntype == Self::tier(),
            is_live(old(self).nodes(), old(mc).nptr.nid),
            nptr.nid != MART_NILID,
            !old(self).nodes()[old(mc).nptr.nid as int]->0.edges.contains_key(label),
            old(self).nodes()[old(mc).nptr.nid as int]->0.header < Self::capacity(),
        ensures
            final(self).wf(),
            final(self).free_list() == old(self).free_list(),
            flag == MartInsertFlags::MartInserted,
            insert_outcome(
                old(self).nodes(),
                final(self).nodes(),
                *old(mc),
                *final(mc),
                label,
                *nptr,
                flag,
                false,
                slot_for(
                    Self::by_label(),
                    old(self).nodes()[old(mc).nptr.nid as int]->0.header,
                    label,
                ),
            ),
    ;

    /// Takes all edges out of the node that the cursor stands on and puts
    /// the node at the end of the free nodes.
    fn extract_edges(&mut self, mc: &MartCursor) -> (r: Vec<MartEdge>)
        requires
            old(self).wf(),
            mc.nptr.ntype == Self::tier(),
            is_live(old(self).nodes(), mc.nptr.nid),
        ensures
            final(self).wf(),
            final(self).nodes() == old(self).nodes().update(mc.nptr.nid as int, None),
            final(self).free_list() == old(self).free_list().push(mc.nptr.nid),
            edges_map(r@) == old(self).nodes()[mc.nptr.nid as int]->0.edges,
            distinct_labels(r@),
            no_nil_edges(r@),
            r@.len() <= Self::capacity(),
    ;
}

/// Counts over the nodes of an arena.
pub trait TrieCounts {
    /// Number of nodes, in use or free.
    spec fn spec_num_nodes(&self) -> nat;

    /// Number of free nodes.
    spec fn spec_num_empty(&self) -> nat;

    spec fn counts_wf(&self) -> bool;

    fn num_nodes(&self) -> (r: usize)
        requires
            self.counts_wf(),
        ensures
            r == self.spec_num_nodes(),
    ;

    fn num_empty(&self) -> (r: usize)
        requires
            self.counts_wf(),
        ensures
            r == self.spec_num_empty(),
    ;
}

/// The figures of the nodes of an arena.
pub trait InNodeStatistics: TrieCounts {
    /// Fan-out of the nodes.
    spec fn spec_fanout() -> nat;

    fn fanout() -> (r: usize)
        ensures
            r == Self::spec_fanout(),
    ;

    /// The fan-out of the nodes, how many there are and how many of them
    /// are free.
    fn innode_stats(&self) -> (r: InNodeStats)
        requires
            self.counts_wf(),
        ensures
            r.k == Self::spec_fanout(),
            r.num == self.spec_num_nodes(),
            r.empty == self.spec_num_empty(),
    {
        InNodeStats { k: Self::fanout(), num: self.num_nodes(), empty: self.num_empty() }
    }
}

} // verus!
