//! The arena of the widest tier: a node holds a stored reference for each
//! of the 256 labels.

use crate::dyft::node::common::{
    lemma_nil_bytes, MartCursor, MartEdge, MartInsertFlags, MartNodeTypes, MartPointer,
    MART_NILID,
};
use crate::dyft::node::mart_vec::{fresh_node, lemma_with_ptr, stored_ptr, with_ptr, MartVec};
use crate::dyft::node::model::{
    distinct_labels, edges_map, lemma_edges_map_eq, no_nil_edges, NodeModel,
};
use crate::dyft::node::node_types::IntoMartNode;
use crate::dyft::node::offsets::MartFullOffsets;
use crate::dyft::node::traits::{
    InNodeStatistics,
    arena_ok, edges_model, insert_outcome, is_live, layout_ok, made_node, slot_for, MartArray,
    MartOffsets, TrieCounts,
};
use vstd::prelude::*;

verus! {

/// The reference stored for label `l`, unless it is empty.
pub open spec fn full_child(node: Seq<u8>, l: u8) -> Option<MartPointer> {
    stored_ptr(node, 1 + 5 * l)
}

/// What a node of the widest tier holds: under each label the reference
/// stored for it, unless that is empty.
pub open spec fn full_model(node: Seq<u8>) -> NodeModel {
    NodeModel {
        edges: Map::new(|l: u8| full_child(node, l) is Some, |l: u8| full_child(node, l)->0),
        slot_of: Map::new(|l: u8| full_child(node, l) is Some, |l: u8| l as int),
        header: node[0],
    }
}

/// A node as it is made holds nothing.
pub proof fn lemma_full_fresh()
    ensures
        full_model(fresh_node(1281)) == NodeModel::empty(),
{
    let node = fresh_node(1281);
    let m = full_model(node);
    assert forall|l: u8| !m.edges.contains_key(l) by {
        let s = node.subrange(1 + 5 * l, 1 + 5 * l + 5);
        assert(s[0] == 0xFF && s[1] == 0xFF && s[2] == 0xFF && s[3] == 0xFF);
    }
    assert(m.edges =~= Map::<u8, MartPointer>::empty());
    assert(m.slot_of =~= Map::<u8, int>::empty());
}

/// Setting the header changes nothing but the header.
pub proof fn lemma_full_header(node: Seq<u8>, v: u8)
    requires
        node.len() == 1281,
    ensures
        full_model(node.update(0, v)) == (NodeModel { header: v, ..full_model(node) }),
{
    let new = node.update(0, v);
    assert forall|l: u8| #[trigger] full_child(new, l) == full_child(node, l) by {
        assert(new.subrange(1 + 5 * l, 1 + 5 * l + 5) =~= node.subrange(1 + 5 * l, 1 + 5 * l + 5));
    }
    assert(full_model(new).edges =~= full_model(node).edges);
    assert(full_model(new).slot_of =~= full_model(node).slot_of);
}

/// Storing a reference under a label changes the child under that label
/// and nothing else.
pub proof fn lemma_full_store(node: Seq<u8>, label: u8, ptr: MartPointer)
    requires
        node.len() == 1281,
        ptr.nid != MART_NILID,
    ensures
        full_model(with_ptr(node, 1 + 5 * label, ptr)) == (NodeModel {
            edges: full_model(node).edges.insert(label, ptr),
            slot_of: full_model(node).slot_of.insert(label, label as int),
            header: node[0],
        }),
        with_ptr(node, 1 + 5 * label, ptr).len() == 1281,
{
    let new = with_ptr(node, 1 + 5 * label, ptr);
    lemma_with_ptr(node, 1 + 5 * label, ptr);
    assert forall|l: u8| l != label implies #[trigger] full_child(new, l) == full_child(
        node,
        l,
    ) by {}
    assert(full_model(new).edges =~= full_model(node).edges.insert(label, ptr));
    assert(full_model(new).slot_of =~= full_model(node).slot_of.insert(label, label as int));
}

/// Every node of the widest tier is well formed.
pub proof fn lemma_full_well_formed(node: Seq<u8>)
    requires
        node.len() == 1281,
    ensures
        full_model(node).well_formed(256),
{
    let m = full_model(node);
    assert forall|l: u8| #[trigger] m.edges.contains_key(l) implies 0 <= m.slot_of[l] < 256
        && m.edges[l].nid != MART_NILID by {
        lemma_nil_bytes(node.subrange(1 + 5 * l, 1 + 5 * l + 5));
    }
    assert(m.slot_of.dom() =~= m.edges.dom());
}

/// The label whose child a slot holds is the slot.
pub proof fn lemma_full_label_at(node: Seq<u8>, slot: int)
    requires
        full_model(node).occupied(slot),
    ensures
        0 <= slot < 256,
        full_model(node).label_at(slot) == slot,
        full_model(node).edges.contains_key(slot as u8),
{
    let m = full_model(node);
    let l = choose|l: u8| m.edges.contains_key(l) && #[trigger] m.slot_of[l] == slot;
    assert(m.slot_of[l] == l);
    let l2 = m.label_at(slot);
    assert(m.edges.contains_key(l2) && m.slot_of[l2] == slot);
}

pub struct MartFull<T: IntoMartNode> {
    pub inner: MartVec<MartFullOffsets<T>>,
}

impl<T: IntoMartNode> MartFull<T> {
    /// The arena without nodes.
    pub fn new() -> (r: Self)
        requires
            1 <= T::spec_bytes(),
        ensures
            r.wf(),
            r.nodes() == Seq::<Option<NodeModel>>::empty(),
    {
        let r = Self { inner: MartVec::new(T::bytes()) };
        assert(r.nodes() =~= Seq::<Option<NodeModel>>::empty());
        r
    }

    pub fn internals(&self) -> (r: &MartVec<MartFullOffsets<T>>)
        ensures
            *r == self.inner,
    {
        &self.inner
    }

    /// Number of nodes.
    pub fn len(&self) -> (r: usize)
        requires
            self.wf(),
        ensures
            r == self.nodes().len(),
    {
        self.inner.len()
    }

    /// The header of node `node_id`.
    pub fn header(&self, node_id: u32) -> (r: u8)
        requires
            self.wf(),
            node_id < self.nodes().len(),
        ensures
            r == self.nodes()[node_id as int]->0.header,
    {
        self.inner.header(node_id)
    }

    /// The child of node `ptr` under `label`, if there is one.
    pub fn find(&self, ptr: u32, label: u8) -> (r: Option<MartPointer>)
        requires
            self.wf(),
            ptr < self.nodes().len(),
        ensures
            r == self.nodes()[ptr as int]->0.child(label),
    {
        self.inner.ptr(ptr, label as usize)
    }

    /// The arena after node `nid` became `node`.
    proof fn lemma_node_changed(&self, before: Seq<Seq<u8>>, nid: int, node: Seq<u8>)
        requires
            0 <= nid < before.len(),
            self.inner@ == before.update(nid, node),
        ensures
            self.nodes() == Seq::new(before.len(), |i: int| Some(full_model(before[i]))).update(
                nid,
                Some(full_model(node)),
            ),
    {
        assert(self.nodes() =~= Seq::new(before.len(), |i: int| Some(full_model(before[i]))).update(
            nid,
            Some(full_model(node)),
        ));
    }
}

impl<T: IntoMartNode> MartArray for MartFull<T> {
    open spec fn nodes(&self) -> Seq<Option<NodeModel>> {
        Seq::new(self.inner@.len(), |i: int| Some(full_model(self.inner@[i])))
    }

    open spec fn free_list(&self) -> Seq<u32> {
        Seq::empty()
    }

    open spec fn wf(&self) -> bool {
        self.inner.wf()
    }

    open spec fn tier() -> MartNodeTypes {
        T::spec_type_id()
    }

    open spec fn capacity() -> nat {
        T::spec_bytes()
    }

    open spec fn slots() -> nat {
        256
    }

    open spec fn by_label() -> bool {
        true
    }

    open spec fn expands() -> bool {
        false
    }

    proof fn lemma_wf(&self) {
        self.inner.lemma_nodes();
        assert forall|nid: int|
            0 <= nid < self.nodes().len() && (#[trigger] self.nodes()[nid]) is Some implies self.nodes()[nid]->0.well_formed(
        256) by {
            lemma_full_well_formed(self.inner@[nid]);
        }
    }

    fn insert_ptr(&mut self, mc: &mut MartCursor, label: u8, ptr: &MartPointer) -> (flag:
        MartInsertFlags) {
        let node_id = mc.nptr.nid;
        let offset: usize = label as usize;
        let ghost before = self.inner@;
        let ghost n0 = self.nodes();
        proof {
            self.inner.lemma_nodes();
        }
        match self.inner.ptr(node_id, offset) {
            Some(mptr) => {
                mc.update(offset, &mptr);
                MartInsertFlags::MartFound
            },
            None => {
                self.inner.header_inc(node_id);
                let ghost mid = self.inner@[node_id as int];
                self.inner.set_ptr(node_id, offset, ptr);
                mc.update(offset, ptr);
                proof {
                    let node = before[node_id as int];
                    lemma_full_header(node, mid[0]);
                    lemma_full_store(mid, label, *ptr);
                    let new = with_ptr(mid, 1 + 5 * label, *ptr);
                    assert(self.inner@ =~= before.update(node_id as int, new));
                    self.lemma_node_changed(before, node_id as int, new);
                    assert(self.nodes() =~= n0.update(
                        node_id as int,
                        Some(n0[node_id as int]->0.with_edge(label, *ptr, label as int)),
                    ));
                }
                MartInsertFlags::MartInserted
            },
        }
    }

    fn make_node(&mut self) -> (r: MartPointer) {
        let ghost n0 = self.nodes();
        let node_id = self.inner.next_node_id();
        self.inner.create_node();
        proof {
            lemma_full_fresh();
            assert(self.nodes() =~= n0.push(Some(NodeModel::empty())));
        }
        MartPointer::new(node_id, T::type_id())
    }

    fn make_node_with_edges(&mut self, edges: &[MartEdge]) -> (r: MartPointer) {
        let ghost n0 = self.nodes();
        let ghost b0 = self.inner@;
        let node_id = self.inner.next_node_id();
        self.inner.create_node();
        let header = (edges.len() % 256) as u8;
        self.inner.set_header(node_id, header);
        proof {
            lemma_full_fresh();
            lemma_full_header(fresh_node(1281), header);
        }
        let mut i: usize = 0;
        while i < edges.len()
            invariant
                i <= edges@.len(),
                self.inner.wf(),
                node_id == b0.len(),
                self.inner@.len() == b0.len() + 1,
                forall|k: int| 0 <= k < b0.len() ==> self.inner@[k] == b0[k],
                self.inner@[node_id as int].len() == 1281,
                no_nil_edges(edges@),
                full_model(self.inner@[node_id as int]).edges == edges_map(
                    edges@.subrange(0, i as int),
                ),
                full_model(self.inner@[node_id as int]).header == header,
            decreases edges@.len() - i,
        {
            let edge = edges[i];
            let offset: usize = edge.label as usize;
            let ghost node = self.inner@[node_id as int];
            self.inner.set_ptr(node_id, offset, &edge.ptr);
            proof {
                lemma_full_store(node, edge.label, edge.ptr);
                assert(edges@.subrange(0, i + 1).drop_last() =~= edges@.subrange(0, i as int));
            }
            i = i + 1;
        }
        proof {
            assert(edges@.subrange(0, edges@.len() as int) =~= edges@);
            let m = full_model(self.inner@[node_id as int]);
            let want = edges_model(edges@, true);
            assert(m.slot_of =~= want.slot_of);
            assert(m == want);
            assert(self.nodes() =~= n0.push(Some(want)));
        }
        MartPointer::new(node_id, T::type_id())
    }

    fn update_srcptr(&mut self, mc: &MartCursor) {
        let ghost before = self.inner@;
        let ghost n0 = self.nodes();
        proof {
            self.inner.lemma_nodes();
            lemma_full_label_at(before[mc.pptr.nid as int], mc.offset as int);
        }
        self.inner.update_src(mc);
        proof {
            let node = before[mc.pptr.nid as int];
            lemma_full_store(node, mc.offset as u8, mc.nptr);
            let new = with_ptr(node, 1 + 5 * mc.offset, mc.nptr);
            self.lemma_node_changed(before, mc.pptr.nid as int, new);
            let m = full_model(node);
            assert(m.slot_of.insert(mc.offset as u8, mc.offset as int) =~= m.slot_of);
            assert(self.nodes() =~= n0.update(
                mc.pptr.nid as int,
                Some(m.with_child_at(mc.offset as int, mc.nptr)),
            ));
        }
    }

    fn find_child(&self, ptr: MartPointer, label: u8) -> (r: Option<MartPointer>) {
        self.inner.ptr(ptr.nid(), label as usize)
    }

    fn children(&self, ptr: &MartPointer) -> (r: Vec<MartEdge>) {
        let node_id = ptr.nid();
        let ghost m = full_model(self.inner@[node_id as int]);
        let mut out: Vec<MartEdge> = Vec::new();
        let mut l: usize = 0;
        proof {
            self.inner.lemma_nodes();
            lemma_full_well_formed(self.inner@[node_id as int]);
        }
        while l < 256
            invariant
                l <= 256,
                self.inner.wf(),
                node_id < self.inner@.len(),
                m == full_model(self.inner@[node_id as int]),
                m.well_formed(256),
                forall|j: int| 0 <= j < out@.len() ==> (#[trigger] out@[j]).label < l,
                distinct_labels(out@),
                forall|j: int|
                    0 <= j < out@.len() ==> m.edges.contains_key((#[trigger] out@[j]).label)
                        && m.edges[out@[j].label] == out@[j].ptr,
                forall|k: u8|
                    k < l && m.edges.contains_key(k) ==> exists|j: int|
                        0 <= j < out@.len() && (#[trigger] out@[j]).label == k,
            decreases 256 - l,
        {
            let label = l as u8;
            let ghost prev = out@;
            match self.inner.ptr(node_id, l) {
                Some(p) => {
                    out.push(MartEdge { label, ptr: p });
                    proof {
                        assert forall|k: u8| k < l + 1 && m.edges.contains_key(k) implies exists|
                            j: int,
                        |
                            0 <= j < out@.len() && (#[trigger] out@[j]).label == k by {
                            if k < l {
                                let j = choose|j: int|
                                    0 <= j < prev.len() && (#[trigger] prev[j]).label == k;
                                assert(out@[j].label == k);
                            } else {
                                assert(out@[prev.len() as int].label == k);
                            }
                        }
                    }
                },
                None => {},
            }
            l = l + 1;
        }
        proof {
            lemma_edges_map_eq(out@, m.edges);
        }
        out
    }
}

impl<T: IntoMartNode> TrieCounts for MartFull<T> {
    open spec fn spec_num_nodes(&self) -> nat {
        self.inner@.len()
    }

    open spec fn spec_num_empty(&self) -> nat {
        0
    }

    open spec fn counts_wf(&self) -> bool {
        self.inner.wf()
    }

    fn num_nodes(&self) -> (r: usize) {
        self.inner.len()
    }

    fn num_empty(&self) -> (r: usize) {
        0
    }
}

impl<T: IntoMartNode> InNodeStatistics for MartFull<T> {
    open spec fn spec_fanout() -> nat {
        T::spec_bytes()
    }

    fn fanout() -> (r: usize) {
        T::bytes()
    }
}

} // verus!
