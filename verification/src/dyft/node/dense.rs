//! The arenas of the two tiers below the widest: a node holds, for each of
//! the 256 labels, the index of the slot of its child or 0xFF, and then
//! the slots.

use crate::dyft::node::common::{
    lemma_nil_bytes, lemma_ptr_round_trip, nil_nid_bytes, ptr_bytes, ptr_of_bytes, MartCursor,
    MartEdge, MartInsertFlags, MartNodeTypes, MartPointer, MART_NILID, MART_NIL_LABEL,
};
use crate::dyft::node::empty_node_stack::{blank_node, EmptyNodes};
use crate::dyft::node::mart_labels::ByteLabels;
use crate::dyft::node::mart_vec::{fresh_node, lemma_with_ptr, stored_ptr, with_ptr, MartVec};
use crate::dyft::node::model::{
    distinct_labels, edges_map, lemma_distinct_bounded, lemma_edges_map, lemma_edges_map_eq,
    no_nil_edges, NodeModel,
};
use crate::dyft::node::node_types::IntoMartNode;
use crate::dyft::node::offsets::MartDenseOffsets;
use crate::dyft::node::traits::{
    InNodeStatistics,
    arena_ok, edges_model, index_of_label, insert_outcome, is_live, layout_ok, made_node,
    slot_for, MartArray, MartArrayExtractable, MartOffsets, TrieCounts,
};
use vstd::prelude::*;

verus! {

/// The slot index stored for label `l`; 0xFF where the label has no child.
pub open spec fn dense_slot(node: Seq<u8>, l: u8) -> u8 {
    node[1 + l]
}

/// The bytes of slot `s`.
pub open spec fn dense_slot_bytes(node: Seq<u8>, s: u8) -> Seq<u8> {
    node.subrange(257 + 5 * s, 262 + 5 * s)
}

/// What a node of this layout holds.
pub open spec fn dense_model(node: Seq<u8>) -> NodeModel {
    NodeModel {
        edges: Map::new(
            |l: u8| dense_slot(node, l) != 0xFF,
            |l: u8| ptr_of_bytes(dense_slot_bytes(node, dense_slot(node, l))),
        ),
        slot_of: Map::new(|l: u8| dense_slot(node, l) != 0xFF, |l: u8| dense_slot(node, l) as int),
        header: node[0],
    }
}

/// The node has the size of its layout, no more children than `k`, every
/// child in a slot of its own below the header, and none of them nil.
pub open spec fn dense_node_ok(node: Seq<u8>, k: nat) -> bool {
    &&& node.len() == 257 + 5 * k
    &&& node[0] <= k
    &&& forall|l: u8| #[trigger]
        dense_slot(node, l) != 0xFF ==> dense_slot(node, l) < node[0] && !nil_nid_bytes(
            dense_slot_bytes(node, dense_slot(node, l)),
        )
    &&& forall|l1: u8, l2: u8|
        dense_slot(node, l1) != 0xFF && #[trigger] dense_slot(node, l1) == #[trigger] dense_slot(
            node,
            l2,
        ) ==> l1 == l2
}

/// A node as it is made holds nothing.
pub proof fn lemma_dense_fresh(k: nat)
    ensures
        dense_model(fresh_node(257 + 5 * k)) == NodeModel::empty(),
        dense_node_ok(fresh_node(257 + 5 * k), k),
        blank_node(257 + 5 * k).update(0, 0u8) == fresh_node(257 + 5 * k),
{
    let node = fresh_node(257 + 5 * k);
    let m = dense_model(node);
    assert forall|l: u8| dense_slot(node, l) == 0xFF by {}
    assert(m.edges =~= Map::<u8, MartPointer>::empty());
    assert(m.slot_of =~= Map::<u8, int>::empty());
    assert(blank_node(257 + 5 * k).update(0, 0u8) =~= node);
}

/// A node in order is well formed.
pub proof fn lemma_dense_well_formed(node: Seq<u8>, k: nat)
    requires
        dense_node_ok(node, k),
    ensures
        dense_model(node).well_formed(k),
{
    let m = dense_model(node);
    assert forall|l: u8| #[trigger] m.edges.contains_key(l) implies 0 <= m.slot_of[l] < k
        && m.edges[l].nid != MART_NILID by {
        assert(dense_slot(node, l) != 0xFF);
        lemma_nil_bytes(dense_slot_bytes(node, dense_slot(node, l)));
    }
    assert(m.slot_of.dom() =~= m.edges.dom());
    assert forall|l1: u8, l2: u8|
        m.edges.contains_key(l1) && m.edges.contains_key(l2) && #[trigger] m.slot_of[l1]
            == #[trigger] m.slot_of[l2] implies l1 == l2 by {
        assert(dense_slot(node, l1) == dense_slot(node, l2));
    }
}

/// The node after a child was added in the next unused slot.
pub open spec fn dense_added(node: Seq<u8>, label: u8, ptr: MartPointer) -> Seq<u8> {
    with_ptr(
        node.update(0, (node[0] + 1) as u8).update(1 + label, node[0]),
        257 + 5 * node[0],
        ptr,
    )
}

/// Adding a child under a label that the node does not have.
pub proof fn lemma_dense_add(node: Seq<u8>, k: nat, label: u8, ptr: MartPointer)
    requires
        dense_node_ok(node, k),
        k <= 254,
        dense_slot(node, label) == 0xFF,
        node[0] < k,
        ptr.nid != MART_NILID,
    ensures
        dense_node_ok(dense_added(node, label, ptr), k),
        dense_model(dense_added(node, label, ptr)) == dense_model(node).with_edge(
            label,
            ptr,
            node[0] as int,
        ),
{
    let h = node[0];
    let mid = node.update(0, (h + 1) as u8).update(1 + label, h);
    let new = dense_added(node, label, ptr);
    lemma_with_ptr(mid, 257 + 5 * h, ptr);
    lemma_ptr_round_trip(ptr);
    assert(dense_slot_bytes(new, h) =~= ptr_bytes(ptr));
    assert forall|l: u8| l != label implies #[trigger] dense_slot(new, l) == dense_slot(node, l) by {}
    assert(dense_slot(new, label) == h);
    assert forall|l: u8| #[trigger] dense_slot(new, l) != 0xFF implies dense_slot(new, l) < new[0]
        && !nil_nid_bytes(dense_slot_bytes(new, dense_slot(new, l))) by {
        if l != label {
            let s = dense_slot(node, l);
            assert(s < h);
            assert(dense_slot_bytes(new, s) =~= dense_slot_bytes(node, s));
        }
    }
    assert forall|l1: u8, l2: u8|
        dense_slot(new, l1) != 0xFF && #[trigger] dense_slot(new, l1) == #[trigger] dense_slot(
            new,
            l2,
        ) implies l1 == l2 by {
        if l1 != label && l2 != label {
            assert(dense_slot(node, l1) == dense_slot(node, l2));
        } else if l1 != label {
            assert(dense_slot(node, l1) < h);
        } else if l2 != label {
            assert(dense_slot(node, l2) != 0xFF);
            assert(dense_slot(node, l2) < h);
        }
    }
    let m = dense_model(node);
    let want = m.with_edge(label, ptr, h as int);
    let got = dense_model(new);
    assert forall|l: u8| got.edges.contains_key(l) implies got.edges[l] == want.edges[l] by {
        if l != label {
            let s = dense_slot(node, l);
            assert(s < h);
            assert(dense_slot_bytes(new, s) =~= dense_slot_bytes(node, s));
        }
    }
    assert(got.edges =~= want.edges);
    assert(got.slot_of =~= want.slot_of);
}

/// Putting another reference into an occupied slot.
pub proof fn lemma_dense_replace(node: Seq<u8>, k: nat, slot: int, ptr: MartPointer)
    requires
        dense_node_ok(node, k),
        dense_model(node).occupied(slot),
        ptr.nid != MART_NILID,
    ensures
        0 <= slot < k,
        dense_node_ok(with_ptr(node, 257 + 5 * slot, ptr), k),
        dense_model(with_ptr(node, 257 + 5 * slot, ptr)) == dense_model(node).with_child_at(
            slot,
            ptr,
        ),
{
    let m = dense_model(node);
    let l0 = m.label_at(slot);
    assert(m.edges.contains_key(l0) && m.slot_of[l0] == slot);
    assert(dense_slot(node, l0) != 0xFF);
    assert(dense_slot(node, l0) < node[0]);
    let new = with_ptr(node, 257 + 5 * slot, ptr);
    lemma_with_ptr(node, 257 + 5 * slot, ptr);
    lemma_ptr_round_trip(ptr);
    assert(dense_slot_bytes(new, slot as u8) =~= ptr_bytes(ptr));
    assert forall|l: u8| #[trigger] dense_slot(new, l) == dense_slot(node, l) by {}
    assert forall|l: u8| #[trigger] dense_slot(new, l) != 0xFF implies dense_slot(new, l) < new[0]
        && !nil_nid_bytes(dense_slot_bytes(new, dense_slot(new, l))) by {
        let s = dense_slot(node, l);
        assert(dense_slot(node, l) != 0xFF);
        assert(s < node[0]);
        if s != slot {
            assert(dense_slot_bytes(new, s) =~= dense_slot_bytes(node, s));
        }
    }
    assert forall|l1: u8, l2: u8|
        dense_slot(new, l1) != 0xFF && #[trigger] dense_slot(new, l1) == #[trigger] dense_slot(
            new,
            l2,
        ) implies l1 == l2 by {
        assert(dense_slot(node, l1) == dense_slot(node, l2));
    }
    let want = m.with_child_at(slot, ptr);
    let got = dense_model(new);
    assert forall|l: u8| got.edges.contains_key(l) implies got.edges[l] == want.edges[l] by {
        let s = dense_slot(node, l);
        assert(dense_slot(node, l) != 0xFF);
        assert(s < node[0]);
        if l != l0 {
            assert(dense_slot(node, l) != dense_slot(node, l0));
            assert(dense_slot_bytes(new, s) =~= dense_slot_bytes(node, s));
        }
    }
    assert(got.edges =~= want.edges);
    assert(got.slot_of =~= want.slot_of);
}

/// A node under construction: its header is set, and the first `i` of the
/// edges `s` are in place, edge `j` in slot `j`.
pub open spec fn dense_filled(node: Seq<u8>, k: nat, s: Seq<MartEdge>, i: int) -> bool {
    &&& node.len() == 257 + 5 * k
    &&& node[0] == s.len()
    &&& forall|l: u8| #[trigger]
        dense_slot(node, l) != 0xFF ==> dense_slot(node, l) < i && s[dense_slot(node, l) as int].label
            == l
    &&& forall|j: int|
        0 <= j < i ==> dense_slot(node, (#[trigger] s[j]).label) == j && dense_slot_bytes(
            node,
            j as u8,
        ) == ptr_bytes(s[j].ptr)
}

/// Placing edge `i` of a node under construction.
pub proof fn lemma_dense_fill(node: Seq<u8>, k: nat, s: Seq<MartEdge>, i: int)
    requires
        dense_filled(node, k, s, i),
        0 <= i < s.len() <= k <= 254,
        distinct_labels(s),
    ensures
        dense_filled(
            with_ptr(node.update(1 + s[i].label, i as u8), 257 + 5 * i, s[i].ptr),
            k,
            s,
            i + 1,
        ),
{
    let label = s[i].label;
    let mid = node.update(1 + label, i as u8);
    let new = with_ptr(mid, 257 + 5 * i, s[i].ptr);
    lemma_with_ptr(mid, 257 + 5 * i, s[i].ptr);
    assert(dense_slot_bytes(new, i as u8) =~= ptr_bytes(s[i].ptr));
    assert forall|l: u8| l != label implies #[trigger] dense_slot(new, l) == dense_slot(node, l) by {}
    assert(dense_slot(new, label) == i);
    assert forall|j: int| 0 <= j < i + 1 implies dense_slot(new, (#[trigger] s[j]).label) == j
        && dense_slot_bytes(new, j as u8) == ptr_bytes(s[j].ptr) by {
        if j < i {
            assert(s[j].label != s[i].label);
            assert(dense_slot(node, s[j].label) == j);
            assert(dense_slot_bytes(new, j as u8) =~= dense_slot_bytes(node, j as u8));
        }
    }
}

/// A node whose edges are all in place is in order and holds those edges.
pub proof fn lemma_dense_filled(node: Seq<u8>, k: nat, s: Seq<MartEdge>)
    requires
        dense_filled(node, k, s, s.len() as int),
        s.len() <= k <= 254,
        distinct_labels(s),
        no_nil_edges(s),
    ensures
        dense_node_ok(node, k),
        dense_model(node) == edges_model(s, false),
{
    lemma_edges_map(s);
    assert forall|l: u8| #[trigger] dense_slot(node, l) != 0xFF implies dense_slot(node, l) < node[0]
        && !nil_nid_bytes(dense_slot_bytes(node, dense_slot(node, l))) by {
        let j = dense_slot(node, l) as int;
        assert(s[j].label == l);
        assert(dense_slot_bytes(node, j as u8) == ptr_bytes(s[j].ptr));
        lemma_ptr_round_trip(s[j].ptr);
    }
    assert forall|l1: u8, l2: u8|
        dense_slot(node, l1) != 0xFF && #[trigger] dense_slot(node, l1) == #[trigger] dense_slot(
            node,
            l2,
        ) implies l1 == l2 by {
        assert(s[dense_slot(node, l1) as int].label == l1);
        assert(s[dense_slot(node, l2) as int].label == l2);
    }
    let got = dense_model(node);
    let want = edges_model(s, false);
    assert forall|l: u8| got.edges.contains_key(l) == want.edges.contains_key(l) by {
        if got.edges.contains_key(l) {
            let j = dense_slot(node, l) as int;
            assert(s[j].label == l);
        }
        if want.edges.contains_key(l) {
            let j = choose|j: int| 0 <= j < s.len() && (#[trigger] s[j]).label == l;
            assert(dense_slot(node, s[j].label) == j);
        }
    }
    assert forall|l: u8| got.edges.contains_key(l) implies got.edges[l] == want.edges[l]
        && got.slot_of[l] == want.slot_of[l] by {
        let j = dense_slot(node, l) as int;
        assert(s[j].label == l);
        assert(dense_slot_bytes(node, j as u8) == ptr_bytes(s[j].ptr));
        lemma_ptr_round_trip(s[j].ptr);
        assert(edges_map(s)[s[j].label] == s[j].ptr);
        let j2 = index_of_label(s, l);
        assert(s[j2].label == l);
        if j2 != j {
            assert(s[j2].label != s[j].label);
        }
    }
    assert(got.edges =~= want.edges);
    assert(got.slot_of =~= want.slot_of);
}

pub struct MartDense<T: IntoMartNode> {
    pub inner: EmptyNodes<MartDenseOffsets<T>>,
}

impl<T: IntoMartNode> MartDense<T> {
    /// The slot index that means that a label has no child.
    pub const NIL_IDX: u8 = 0xFF;

    /// The arena without nodes.
    pub fn new() -> (r: Self)
        requires
            2 <= T::spec_bytes() <= 254,
        ensures
            r.wf(),
            r.nodes() == Seq::<Option<NodeModel>>::empty(),
            r.free_list() == Seq::<u32>::empty(),
    {
        let v: MartVec<MartDenseOffsets<T>> = MartVec::new(MartDenseOffsets::<T>::bytes());
        let r = Self { inner: EmptyNodes::new(ByteLabels::new(v)) };
        proof {
            crate::dyft::node::empty_node_stack::lemma_links_small(
                seq![blank_node(8)],
                0,
            );
            assert(r.nodes() =~= Seq::<Option<NodeModel>>::empty());
            r.lemma_empty_links();
        }
        r
    }

    proof fn lemma_empty_links(&self)
        requires
            self.inner.free@ == Seq::<u32>::empty(),
        ensures
            crate::dyft::node::empty_node_stack::links_ok(self.inner.nodes(), self.inner.free@),
    {
        reveal(crate::dyft::node::empty_node_stack::links_ok);
    }

    pub fn internals(&self) -> (r: &MartVec<MartDenseOffsets<T>>)
        ensures
            *r == self.inner.inner.inner,
    {
        &self.inner.inner.inner
    }

    /// The slot of the child under `label` in node `node_id`, if there is
    /// one.
    fn ptr_offset(&self, node_id: u32, label: u8) -> (r: Option<usize>)
        requires
            self.inner.wf(),
            node_id < self.inner.nodes().len(),
        ensures
            r == if dense_slot(self.inner.nodes()[node_id as int], label) == 0xFF {
                None
            } else {
                Some(dense_slot(self.inner.nodes()[node_id as int], label) as usize)
            },
    {
        let offset = self.inner.label(node_id, label as usize);
        if offset == 0xFF {
            None
        } else {
            Some(offset as usize)
        }
    }

    /// The child of node `ptr` under `label`, if there is one.
    pub fn find(&self, ptr: u32, label: u8) -> (r: Option<MartPointer>)
        requires
            self.wf(),
            is_live(self.nodes(), ptr),
        ensures
            r == self.nodes()[ptr as int]->0.child(label),
    {
        proof {
            self.lemma_node(ptr);
        }
        match self.ptr_offset(ptr, label) {
            Some(offset) => {
                proof {
                    let node = self.inner.nodes()[ptr as int];
                    assert(dense_slot(node, label) != 0xFF);
                    assert(node.subrange(257 + 5 * offset, 257 + 5 * offset + 5)
                        =~= dense_slot_bytes(node, offset as u8));
                }
                self.inner.ptr(ptr, offset)
            },
            None => None,
        }
    }

    /// What is known of a node in use.
    proof fn lemma_node(&self, nid: u32)
        requires
            self.wf(),
            is_live(self.nodes(), nid),
        ensures
            self.inner.live(nid),
            dense_node_ok(self.inner.nodes()[nid as int], T::spec_bytes()),
            self.nodes()[nid as int] == Some(dense_model(self.inner.nodes()[nid as int])),
    {
    }

    /// The arena after node `nid`, in use before and after, became `node`.
    proof fn lemma_node_changed(&self, now: Self, nid: u32, node: Seq<u8>)
        requires
            self.wf(),
            self.inner.live(nid),
            now.inner.wf(),
            now.inner.free@ == self.inner.free@,
            now.inner.nodes() == self.inner.nodes().update(nid as int, node),
            dense_node_ok(node, T::spec_bytes()),
        ensures
            now.wf(),
            now.free_list() == self.free_list(),
            now.nodes() == self.nodes().update(nid as int, Some(dense_model(node))),
    {
        assert(now.nodes() =~= self.nodes().update(nid as int, Some(dense_model(node))));
    }

    /// Adds `ptr` under `label`, which node `node_id` does not have, in
    /// the next unused slot.
    fn add_edge(&mut self, mc: &mut MartCursor, label: u8, ptr: &MartPointer)
        requires
            old(self).wf(),
            is_live(old(self).nodes(), old(mc).nptr.nid),
            ptr.nid != MART_NILID,
            !old(self).nodes()[old(mc).nptr.nid as int]->0.edges.contains_key(label),
            old(self).nodes()[old(mc).nptr.nid as int]->0.header < T::spec_bytes(),
        ensures
            final(self).wf(),
            final(self).free_list() == old(self).free_list(),
            insert_outcome(
                old(self).nodes(),
                final(self).nodes(),
                *old(mc),
                *final(mc),
                label,
                *ptr,
                MartInsertFlags::MartInserted,
                false,
                old(self).nodes()[old(mc).nptr.nid as int]->0.header as int,
            ),
    {
        let node_id = mc.nptr.nid;
        let ghost node = self.inner.nodes()[node_id as int];
        proof {
            self.lemma_node(node_id);
            self.inner.inner.inner.lemma_nodes();
        }
        let header = self.inner.header(node_id);
        self.inner.set_header(node_id, header + 1);
        self.inner.set_label(node_id, label as usize, header);
        self.inner.set_ptr(node_id, header as usize, ptr);
        mc.update(header as usize, ptr);
        proof {
            lemma_dense_add(node, T::spec_bytes(), label, *ptr);
            assert(self.inner.nodes() =~= old(self).inner.nodes().update(
                node_id as int,
                dense_added(node, label, *ptr),
            ));
            old(self).lemma_node_changed(*self, node_id, dense_added(node, label, *ptr));
        }
    }

    /// The edges of node `node_id`, by ascending label.
    fn edges_of(&self, node_id: u32) -> (r: Vec<MartEdge>)
        requires
            self.wf(),
            is_live(self.nodes(), node_id),
        ensures
            edges_map(r@) == self.nodes()[node_id as int]->0.edges,
            distinct_labels(r@),
            no_nil_edges(r@),
            r@.len() <= T::spec_bytes(),
    {
        let ghost node = self.inner.nodes()[node_id as int];
        let ghost m = dense_model(node);
        let mut out: Vec<MartEdge> = Vec::new();
        let mut l: usize = 0;
        proof {
            self.lemma_node(node_id);
            lemma_dense_well_formed(node, T::spec_bytes());
        }
        while l < 256
            invariant
                l <= 256,
                self.wf(),
                is_live(self.nodes(), node_id),
                node == self.inner.nodes()[node_id as int],
                m == dense_model(node),
                dense_node_ok(node, T::spec_bytes()),
                m.well_formed(T::spec_bytes()),
                forall|j: int| 0 <= j < out@.len() ==> (#[trigger] out@[j]).label < l,
                distinct_labels(out@),
                forall|j: int|
                    0 <= j < out@.len() ==> m.edges.contains_key((#[trigger] out@[j]).label)
                        && m.edges[out@[j].label] == out@[j].ptr,
                forall|k: u8|
                    k < l && m.edges.contains_key(k) ==> exists|j: int|
                        0 <= j < out@.len() && (#[trigger] out@[j]).label == k,
            decreases 256 - l,
        {
            let label = l as u8;
            let ghost prev = out@;
            match self.find(node_id, label) {
                Some(p) => {
                    out.push(MartEdge { label, ptr: p });
                    proof {
                        assert forall|k: u8| k < l + 1 && m.edges.contains_key(k) implies exists|
                            j: int,
                        |
                            0 <= j < out@.len() && (#[trigger] out@[j]).label == k by {
                            if k < l {
                                let j = choose|j: int|
                                    0 <= j < prev.len() && (#[trigger] prev[j]).label == k;
                                assert(out@[j].label == k);
                            } else {
                                assert(out@[prev.len() as int].label == k);
                            }
                        }
                    }
                },
                None => {},
            }
            l = l + 1;
        }
        proof {
            lemma_edges_map_eq(out@, m.edges);
            let slots = Seq::new(out@.len(), |j: int| m.slot_of[out@[j].label]);
            assert(slots.no_duplicates()) by {
                assert forall|i: int, j: int|
                    0 <= i < slots.len() && 0 <= j < slots.len() && i != j implies slots[i]
                    != slots[j] by {
                    assert(out@[i].label != out@[j].label);
                }
            }
            assert forall|j: int| 0 <= j < slots.len() implies 0 <= #[trigger] slots[j]
                < T::spec_bytes() by {
                assert(m.edges.contains_key(out@[j].label));
            }
            lemma_distinct_bounded(slots, T::spec_bytes() as int);
        }
        out
    }
}

impl<T: IntoMartNode> MartArray for MartDense<T> {
    open spec fn nodes(&self) -> Seq<Option<NodeModel>> {
        Seq::new(
            self.inner.nodes().len(),
            |i: int|
                if self.inner.free@.contains(i as u32) {
                    None
                } else {
                    Some(dense_model(self.inner.nodes()[i]))
                },
        )
    }

    open spec fn free_list(&self) -> Seq<u32> {
        self.inner.free@
    }

    open spec fn wf(&self) -> bool {
        &&& self.inner.wf()
        &&& 2 <= T::spec_bytes() <= 254
        &&& forall|i: int|
            0 <= i < self.inner.nodes().len() && !self.inner.free@.contains(i as u32)
                ==> dense_node_ok(#[trigger] self.inner.nodes()[i], T::spec_bytes())
    }

    open spec fn tier() -> MartNodeTypes {
        T::spec_type_id()
    }

    open spec fn capacity() -> nat {
        T::spec_bytes()
    }

    open spec fn slots() -> nat {
        T::spec_bytes()
    }

    open spec fn by_label() -> bool {
        false
    }

    open spec fn expands() -> bool {
        true
    }

    proof fn lemma_wf(&self) {
        crate::dyft::node::empty_node_stack::lemma_links_head(
            self.inner.nodes(),
            self.inner.free@,
        );
        assert forall|nid: int|
            0 <= nid < self.nodes().len() && (#[trigger] self.nodes()[nid]) is Some implies self.nodes()[nid]->0.well_formed(
        T::spec_bytes()) by {
            assert(dense_node_ok(self.inner.nodes()[nid], T::spec_bytes()));
            lemma_dense_well_formed(self.inner.nodes()[nid], T::spec_bytes());
        }
        assert forall|i: int| 0 <= i < self.free_list().len() implies (#[trigger] self.free_list()[i])
            < self.nodes().len() && self.nodes()[self.free_list()[i] as int] is None by {
            assert(self.inner.free@.contains(self.inner.free@[i]));
        }
    }

    fn insert_ptr(&mut self, mc: &mut MartCursor, label: u8, ptr: &MartPointer) -> (flag:
        MartInsertFlags) {
        let node_id = mc.nptr.nid;
        proof {
            self.lemma_node(node_id);
        }
        let header = self.inner.header(node_id);
        match self.find(node_id, label) {
            Some(p) => {
                let offset = self.inner.label(node_id, label as usize);
                mc.update(offset as usize, &p);
                MartInsertFlags::MartFound
            },
            None => {
                if (header as usize) < T::bytes() {
                    self.add_edge(mc, label, ptr);
                    MartInsertFlags::MartInserted
                } else {
                    MartInsertFlags::MartNeededToExpand
                }
            },
        }
    }

    fn make_node(&mut self) -> (r: MartPointer) {
        let id = self.make_fresh();
        MartPointer::new(id, T::type_id())
    }

    fn make_node_with_edges(&mut self, edges: &[MartEdge]) -> (r: MartPointer) {
        let ghost before = *self;
        let node_id = self.make_fresh();
        let ghost made = *self;
        proof {
            self.lemma_node(node_id);
            self.inner.inner.inner.lemma_nodes();
        }
        assert(edges@.len() <= 254);
        self.inner.set_header(node_id, edges.len() as u8);
        let mut idx: usize = 0;
        while idx < edges.len()
            invariant
                idx <= edges@.len() <= T::spec_bytes() <= 254,
                self.inner.wf(),
                self.inner.live(node_id),
                self.inner.free@ == made.inner.free@,
                self.inner.nodes().len() == made.inner.nodes().len(),
                forall|j: int|
                    0 <= j < self.inner.nodes().len() && j != node_id ==> self.inner.nodes()[j]
                        == made.inner.nodes()[j],
                distinct_labels(edges@),
                dense_filled(
                    self.inner.nodes()[node_id as int],
                    T::spec_bytes(),
                    edges@,
                    idx as int,
                ),
            decreases edges@.len() - idx,
        {
            let edge = edges[idx];
            let ghost node = self.inner.nodes()[node_id as int];
            self.inner.set_label(node_id, edge.label as usize, idx as u8);
            self.inner.set_ptr(node_id, idx, &edge.ptr);
            proof {
                lemma_dense_fill(node, T::spec_bytes(), edges@, idx as int);
            }
            idx = idx + 1;
        }
        proof {
            let node = self.inner.nodes()[node_id as int];
            lemma_dense_filled(node, T::spec_bytes(), edges@);
            assert(self.inner.nodes() =~= made.inner.nodes().update(node_id as int, node));
            made.lemma_node_changed(*self, node_id, node);
            let want = Some(edges_model(edges@, false));
            before.lemma_wf();
            if before.free_list().len() > 0 {
                assert(self.nodes() =~= before.nodes().update(node_id as int, want));
            } else {
                assert(self.nodes() =~= before.nodes().push(want));
            }
        }
        MartPointer::new(node_id, T::type_id())
    }

    fn update_srcptr(&mut self, mc: &MartCursor) {
        let ghost node = self.inner.nodes()[mc.pptr.nid as int];
        proof {
            self.lemma_node(mc.pptr.nid);
            lemma_dense_replace(node, T::spec_bytes(), mc.offset as int, mc.nptr);
        }
        self.inner.set_ptr(mc.pptr.nid(), mc.offset, mc.nptr());
        proof {
            old(self).lemma_node_changed(
                *self,
                mc.pptr.nid,
                with_ptr(node, 257 + 5 * mc.offset, mc.nptr),
            );
        }
    }

    fn find_child(&self, ptr: MartPointer, label: u8) -> (r: Option<MartPointer>) {
        self.find(ptr.nid(), label)
    }

    fn children(&self, ptr: &MartPointer) -> (r: Vec<MartEdge>) {
        self.edges_of(ptr.nid())
    }
}

impl<T: IntoMartNode> MartDense<T> {
    /// Makes a node without children and with the bytes of a new node.
    fn make_fresh(&mut self) -> (id: u32)
        requires
            old(self).wf(),
            old(self).free_list().len() == 0 ==> old(self).nodes().len() < u32::MAX,
        ensures
            final(self).wf(),
            made_node(
                old(self).nodes(),
                old(self).free_list(),
                final(self).nodes(),
                final(self).free_list(),
                MartPointer { nid: id, ntype: T::spec_type_id() },
                T::spec_type_id(),
                NodeModel::empty(),
            ),
            is_live(final(self).nodes(), id),
            final(self).inner.nodes()[id as int] == fresh_node(257 + 5 * T::spec_bytes()),
    {
        let ghost before = *self;
        proof {
            self.lemma_wf();
            lemma_dense_fresh(T::spec_bytes());
        }
        match self.inner.empty_node_pop() {
            Some(head) => {
                assert(before.inner.free@.contains(before.inner.free@[0]));
                assert(!self.inner.free@.contains(head)) by {
                    if self.inner.free@.contains(head) {
                        let i = choose|i: int|
                            0 <= i < self.inner.free@.len() && self.inner.free@[i] == head;
                        assert(before.inner.free@[i + 1] == head);
                    }
                }
                self.inner.set_header(head, 0);
                proof {
                    before.lemma_made(*self, head);
                }
                head
            },
            None => {
                let id = self.inner.create_node();
                proof {
                    assert(self.nodes() =~= before.nodes().push(Some(NodeModel::empty())));
                }
                id
            },
        }
    }

    /// The arena after the first free node was taken and its header set
    /// to 0.
    proof fn lemma_made(&self, now: Self, head: u32)
        requires
            self.wf(),
            self.inner.free@.len() > 0,
            head == self.inner.free@[0],
            now.inner.wf(),
            now.inner.free@ == self.inner.free@.drop_first(),
            now.inner.nodes().len() == self.inner.nodes().len(),
            now.inner.nodes()[head as int] == fresh_node(T::spec_bytes() * 5 + 257),
            forall|j: u32|
                self.inner.live(j) ==> now.inner.nodes()[j as int] == self.inner.nodes()[j as int],
        ensures
            now.wf(),
            now.nodes() == self.nodes().update(head as int, Some(NodeModel::empty())),
    {
        lemma_dense_fresh(T::spec_bytes());
        crate::dyft::node::empty_node_stack::lemma_links_head(
            self.inner.nodes(),
            self.inner.free@,
        );
        let f0 = self.inner.free@;
        let f1 = now.inner.free@;
        assert forall|j: u32| j != head implies f1.contains(j) == f0.contains(j) by {
            if f0.contains(j) {
                let i = choose|i: int| 0 <= i < f0.len() && f0[i] == j;
                assert(f1[i - 1] == j);
            }
            if f1.contains(j) {
                let i = choose|i: int| 0 <= i < f1.len() && f1[i] == j;
                assert(f0[i + 1] == j);
            }
        }
        assert(!f1.contains(head)) by {
            if f1.contains(head) {
                let i = choose|i: int| 0 <= i < f1.len() && f1[i] == head;
                assert(f0[i + 1] == head);
            }
        }
        assert(f0.contains(head));
        assert forall|i: int|
            0 <= i < now.inner.nodes().len() && !f1.contains(i as u32) implies dense_node_ok(
            #[trigger] now.inner.nodes()[i],
            T::spec_bytes(),
        ) by {
            if i != head {
                assert(self.inner.live(i as u32));
            }
        }
        assert forall|i: int| 0 <= i < now.nodes().len() implies #[trigger] now.nodes()[i]
            == self.nodes().update(head as int, Some(NodeModel::empty()))[i] by {
            if i != head {
                assert(f1.contains(i as u32) == f0.contains(i as u32));
                if !f0.contains(i as u32) {
                    assert(self.inner.live(i as u32));
                }
            }
        }
        assert(now.nodes() =~= self.nodes().update(head as int, Some(NodeModel::empty())));
    }
}

impl<T: IntoMartNode> MartArrayExtractable for MartDense<T> {
    fn append_ptr(&mut self, mc: &mut MartCursor, label: u8, nptr: &MartPointer) -> (flag:
        MartInsertFlags) {
        self.add_edge(mc, label, nptr);
        MartInsertFlags::MartInserted
    }

    fn extract_edges(&mut self, mc: &MartCursor) -> (r: Vec<MartEdge>) {
        let node_id = mc.nptr.nid;
        let extract = self.edges_of(node_id);
        proof {
            self.lemma_node(node_id);
        }
        self.inner.empty_node_push(node_id);
        proof {
            let f0 = old(self).inner.free@;
            let f1 = self.inner.free@;
            assert forall|j: u32| f1.contains(j) == (f0.contains(j) || j == node_id) by {
                if f0.contains(j) {
                    let i = choose|i: int| 0 <= i < f0.len() && f0[i] == j;
                    assert(f1[i] == j);
                }
                if j == node_id {
                    assert(f1[f0.len() as int] == j);
                }
            }
            assert forall|i: int|
                0 <= i < self.inner.nodes().len() && !f1.contains(i as u32) implies dense_node_ok(
                #[trigger] self.inner.nodes()[i],
                T::spec_bytes(),
            ) by {
                assert(old(self).inner.live(i as u32));
            }
            assert forall|i: int| 0 <= i < self.nodes().len() implies #[trigger] self.nodes()[i]
                == old(self).nodes().update(node_id as int, None)[i] by {
                if i != node_id {
                    if !f0.contains(i as u32) {
                        assert(old(self).inner.live(i as u32));
                    }
                }
            }
            assert(self.nodes() =~= old(self).nodes().update(node_id as int, None));
        }
        extract
    }
}

impl<T: IntoMartNode> TrieCounts for MartDense<T> {
    open spec fn spec_num_nodes(&self) -> nat {
        self.inner.nodes().len()
    }

    open spec fn spec_num_empty(&self) -> nat {
        self.inner.free@.len()
    }

    open spec fn counts_wf(&self) -> bool {
        self.wf()
    }

    fn num_nodes(&self) -> (r: usize) {
        self.inner.inner.inner.len()
    }

    fn num_empty(&self) -> (r: usize) {
        self.inner.num_empty()
    }
}

impl<T: IntoMartNode> InNodeStatistics for MartDense<T> {
    open spec fn spec_fanout() -> nat {
        T::spec_bytes()
    }

    fn fanout() -> (r: usize) {
        T::bytes()
    }
}

} // verus!
