//! The arenas of the five narrow tiers: a node holds the labels of its
//! children one after the other, and then their slots in the same order.

use crate::dyft::node::common::{
    lemma_nil_bytes, lemma_ptr_round_trip, nil_nid_bytes, ptr_bytes, ptr_of_bytes, MartCursor,
    MartEdge, MartInsertFlags, MartNodeTypes, MartPointer, MART_NILID,
};
use crate::dyft::node::empty_node_stack::{blank_node, lemma_links_head, links_ok, EmptyNodes};
use crate::dyft::node::mart_labels::ByteLabels;
use crate::dyft::node::mart_vec::{fresh_node, lemma_with_ptr, with_ptr, MartVec};
use crate::dyft::node::model::{
    distinct_labels, edges_map, lemma_edges_map, lemma_edges_map_eq, no_nil_edges, NodeModel,
};
use crate::dyft::node::node_types::IntoMartNode;
use crate::dyft::node::offsets::MartSparseOffsets;
use crate::dyft::node::traits::{
    InNodeStatistics,
    edges_model, index_of_label, insert_outcome, is_live, made_node, MartArray,
    MartArrayExtractable, MartOffsets, TrieCounts,
};
use vstd::prelude::*;

verus! {

/// The label of slot `i`.
pub open spec fn sparse_label(node: Seq<u8>, i: int) -> u8 {
    node[1 + i]
}

/// Whether one of the children has label `l`.
pub open spec fn sparse_has(node: Seq<u8>, l: u8) -> bool {
    exists|i: int| 0 <= i < node[0] && #[trigger] sparse_label(node, i) == l
}

/// The slot of the child with label `l`.
pub open spec fn sparse_slot(node: Seq<u8>, l: u8) -> int {
    choose|i: int| 0 <= i < node[0] && #[trigger] sparse_label(node, i) == l
}

/// The bytes of slot `i` of a node of fan-out `k`.
pub open spec fn sparse_slot_bytes(node: Seq<u8>, k: nat, i: int) -> Seq<u8> {
    node.subrange(1 + k + 5 * i, 6 + k + 5 * i)
}

/// What a node of this layout and fan-out `k` holds.
pub open spec fn sparse_model(node: Seq<u8>, k: nat) -> NodeModel {
    NodeModel {
        edges: Map::new(
            |l: u8| sparse_has(node, l),
            |l: u8| ptr_of_bytes(sparse_slot_bytes(node, k, sparse_slot(node, l))),
        ),
        slot_of: Map::new(|l: u8| sparse_has(node, l), |l: u8| sparse_slot(node, l)),
        header: node[0],
    }
}

/// The node has the size of its layout, no more children than `k`, no
/// label twice, and no child that is nil.
pub open spec fn sparse_node_ok(node: Seq<u8>, k: nat) -> bool {
    &&& node.len() == 1 + 6 * k
    &&& node[0] <= k
    &&& forall|i: int|
        0 <= i < node[0] ==> !nil_nid_bytes(#[trigger] sparse_slot_bytes(node, k, i))
    &&& forall|i: int, j: int|
        0 <= i < node[0] && 0 <= j < node[0] && i != j ==> #[trigger] sparse_label(node, i)
            != #[trigger] sparse_label(node, j)
}

/// The child under the label of slot `i` is the reference in slot `i`.
pub proof fn lemma_sparse_slot(node: Seq<u8>, k: nat, i: int)
    requires
        sparse_node_ok(node, k),
        0 <= i < node[0],
    ensures
        sparse_has(node, sparse_label(node, i)),
        sparse_slot(node, sparse_label(node, i)) == i,
        sparse_model(node, k).edges.contains_key(sparse_label(node, i)),
        sparse_model(node, k).edges[sparse_label(node, i)] == ptr_of_bytes(
            sparse_slot_bytes(node, k, i),
        ),
        sparse_model(node, k).slot_of[sparse_label(node, i)] == i,
{
    let l = sparse_label(node, i);
    let j = sparse_slot(node, l);
    assert(0 <= j < node[0] && sparse_label(node, j) == l);
}

/// A node as it is made holds nothing.
pub proof fn lemma_sparse_fresh(k: nat)
    ensures
        sparse_model(fresh_node(1 + 6 * k), k) == NodeModel::empty(),
        sparse_node_ok(fresh_node(1 + 6 * k), k),
        blank_node(1 + 6 * k).update(0, 0u8) == fresh_node(1 + 6 * k),
{
    let node = fresh_node(1 + 6 * k);
    let m = sparse_model(node, k);
    assert(m.edges =~= Map::<u8, MartPointer>::empty());
    assert(m.slot_of =~= Map::<u8, int>::empty());
    assert(blank_node(1 + 6 * k).update(0, 0u8) =~= node);
}

/// A node in order is well formed.
pub proof fn lemma_sparse_well_formed(node: Seq<u8>, k: nat)
    requires
        sparse_node_ok(node, k),
    ensures
        sparse_model(node, k).well_formed(k),
{
    let m = sparse_model(node, k);
    assert forall|l: u8| #[trigger] m.edges.contains_key(l) implies 0 <= m.slot_of[l] < k
        && m.edges[l].nid != MART_NILID by {
        let i = sparse_slot(node, l);
        assert(0 <= i < node[0] && sparse_label(node, i) == l);
        assert(!nil_nid_bytes(sparse_slot_bytes(node, k, i)));
        lemma_nil_bytes(sparse_slot_bytes(node, k, i));
    }
    assert(m.slot_of.dom() =~= m.edges.dom());
    assert forall|l1: u8, l2: u8|
        m.edges.contains_key(l1) && m.edges.contains_key(l2) && #[trigger] m.slot_of[l1]
            == #[trigger] m.slot_of[l2] implies l1 == l2 by {
        let i = sparse_slot(node, l1);
        let j = sparse_slot(node, l2);
        assert(0 <= i < node[0] && sparse_label(node, i) == l1);
        assert(0 <= j < node[0] && sparse_label(node, j) == l2);
    }
}

/// The node after a child was added in the next unused slot.
pub open spec fn sparse_added(node: Seq<u8>, k: nat, label: u8, ptr: MartPointer) -> Seq<u8> {
    with_ptr(
        node.update(0, (node[0] + 1) as u8).update(1 + node[0], label),
        1 + k + 5 * node[0],
        ptr,
    )
}

/// Adding a child under a label that the node does not have.
pub proof fn lemma_sparse_add(node: Seq<u8>, k: nat, label: u8, ptr: MartPointer)
    requires
        sparse_node_ok(node, k),
        k <= 255,
        !sparse_has(node, label),
        node[0] < k,
        ptr.nid != MART_NILID,
    ensures
        sparse_node_ok(sparse_added(node, k, label, ptr), k),
        sparse_model(sparse_added(node, k, label, ptr), k) == sparse_model(node, k).with_edge(
            label,
            ptr,
            node[0] as int,
        ),
{
    let h = node[0] as int;
    let mid = node.update(0, (h + 1) as u8).update(1 + h, label);
    let new = sparse_added(node, k, label, ptr);
    lemma_with_ptr(mid, 1 + k + 5 * h, ptr);
    lemma_ptr_round_trip(ptr);
    assert(sparse_slot_bytes(new, k, h) =~= ptr_bytes(ptr));
    assert forall|i: int| 0 <= i < h implies #[trigger] sparse_label(new, i) == sparse_label(
        node,
        i,
    ) && sparse_slot_bytes(new, k, i) == sparse_slot_bytes(node, k, i) by {
        assert(sparse_slot_bytes(new, k, i) =~= sparse_slot_bytes(node, k, i));
    }
    assert(sparse_label(new, h) == label);
    assert forall|i: int| 0 <= i < new[0] implies !nil_nid_bytes(
        #[trigger] sparse_slot_bytes(new, k, i),
    ) by {
        if i < h {
            assert(sparse_label(new, i) == sparse_label(node, i));
            assert(!nil_nid_bytes(sparse_slot_bytes(node, k, i)));
        }
    }
    assert forall|i: int, j: int| 0 <= i < new[0] && 0 <= j < new[0] && i != j implies #[trigger]
        sparse_label(new, i) != #[trigger] sparse_label(new, j) by {
        if i < h {
            assert(sparse_label(new, i) == sparse_label(node, i));
        }
        if j < h {
            assert(sparse_label(new, j) == sparse_label(node, j));
        }
    }
    let m = sparse_model(node, k);
    let want = m.with_edge(label, ptr, h);
    let got = sparse_model(new, k);
    assert forall|l: u8| got.edges.contains_key(l) == want.edges.contains_key(l) by {
        if sparse_has(new, l) {
            let i = sparse_slot(new, l);
            assert(0 <= i < new[0] && sparse_label(new, i) == l);
            if i < h {
                assert(sparse_label(node, i) == l);
            }
        }
        if sparse_has(node, l) {
            let i = sparse_slot(node, l);
            assert(0 <= i < node[0] && sparse_label(node, i) == l);
            assert(sparse_label(new, i) == l);
        }
        if l == label {
            assert(sparse_label(new, h) == l);
        }
    }
    assert forall|l: u8| got.edges.contains_key(l) implies got.edges[l] == want.edges[l]
        && got.slot_of[l] == want.slot_of[l] by {
        let i = sparse_slot(new, l);
        assert(0 <= i < new[0] && sparse_label(new, i) == l);
        if l != label {
            let j = sparse_slot(node, l);
            assert(0 <= j < node[0] && sparse_label(node, j) == l);
            assert(sparse_label(new, j) == l);
            assert(i == j);
        } else {
            assert(sparse_label(new, h) == l);
            assert(i == h);
        }
    }
    assert(got.edges =~= want.edges);
    assert(got.slot_of =~= want.slot_of);
}

/// Putting another reference into an occupied slot.
pub proof fn lemma_sparse_replace(node: Seq<u8>, k: nat, slot: int, ptr: MartPointer)
    requires
        sparse_node_ok(node, k),
        sparse_model(node, k).occupied(slot),
        ptr.nid != MART_NILID,
    ensures
        0 <= slot < node[0],
        slot < k,
        sparse_node_ok(with_ptr(node, 1 + k + 5 * slot, ptr), k),
        sparse_model(with_ptr(node, 1 + k + 5 * slot, ptr), k) == sparse_model(
            node,
            k,
        ).with_child_at(slot, ptr),
{
    let m = sparse_model(node, k);
    let l0 = m.label_at(slot);
    assert(m.edges.contains_key(l0) && m.slot_of[l0] == slot);
    assert(0 <= slot < node[0] && sparse_label(node, slot) == l0);
    let new = with_ptr(node, 1 + k + 5 * slot, ptr);
    lemma_with_ptr(node, 1 + k + 5 * slot, ptr);
    lemma_ptr_round_trip(ptr);
    assert(sparse_slot_bytes(new, k, slot) =~= ptr_bytes(ptr));
    assert forall|i: int| 0 <= i < node[0] implies #[trigger] sparse_label(new, i) == sparse_label(
        node,
        i,
    ) && (i != slot ==> sparse_slot_bytes(new, k, i) == sparse_slot_bytes(node, k, i)) by {
        if i != slot {
            assert(sparse_slot_bytes(new, k, i) =~= sparse_slot_bytes(node, k, i));
        }
    }
    assert forall|i: int| 0 <= i < new[0] implies !nil_nid_bytes(
        #[trigger] sparse_slot_bytes(new, k, i),
    ) by {
        if i != slot {
            assert(sparse_label(new, i) == sparse_label(node, i));
            assert(!nil_nid_bytes(sparse_slot_bytes(node, k, i)));
        }
    }
    assert forall|i: int, j: int| 0 <= i < new[0] && 0 <= j < new[0] && i != j implies #[trigger]
        sparse_label(new, i) != #[trigger] sparse_label(new, j) by {
        assert(sparse_label(new, i) == sparse_label(node, i));
        assert(sparse_label(new, j) == sparse_label(node, j));
    }
    let want = m.with_child_at(slot, ptr);
    let got = sparse_model(new, k);
    assert forall|l: u8| got.edges.contains_key(l) == want.edges.contains_key(l) by {
        if sparse_has(new, l) {
            let i = sparse_slot(new, l);
            assert(0 <= i < new[0] && sparse_label(new, i) == l);
            assert(sparse_label(node, i) == l);
        }
        if sparse_has(node, l) {
            let i = sparse_slot(node, l);
            assert(0 <= i < node[0] && sparse_label(node, i) == l);
            assert(sparse_label(new, i) == l);
        }
    }
    assert forall|l: u8| got.edges.contains_key(l) implies got.edges[l] == want.edges[l]
        && got.slot_of[l] == want.slot_of[l] by {
        let i = sparse_slot(new, l);
        assert(0 <= i < new[0] && sparse_label(new, i) == l);
        let j = sparse_slot(node, l);
        assert(sparse_label(node, i) == l);
        assert(0 <= j < node[0] && sparse_label(node, j) == l);
        assert(i == j);
    }
    assert(got.edges =~= want.edges);
    assert(got.slot_of =~= want.slot_of);
}

/// A node under construction: its header is set, and the first `i` of the
/// edges `s` are in place, edge `j` in slot `j`.
pub open spec fn sparse_filled(node: Seq<u8>, k: nat, s: Seq<MartEdge>, i: int) -> bool {
    &&& node.len() == 1 + 6 * k
    &&& node[0] == s.len()
    &&& forall|j: int|
        0 <= j < i ==> #[trigger] sparse_label(node, j) == s[j].label && sparse_slot_bytes(
            node,
            k,
            j,
        ) == ptr_bytes(s[j].ptr)
}

/// Placing edge `i` of a node under construction.
pub proof fn lemma_sparse_fill(node: Seq<u8>, k: nat, s: Seq<MartEdge>, i: int)
    requires
        sparse_filled(node, k, s, i),
        0 <= i < s.len() <= k <= 255,
    ensures
        sparse_filled(
            with_ptr(node.update(1 + i, s[i].label), 1 + k + 5 * i, s[i].ptr),
            k,
            s,
            i + 1,
        ),
{
    let mid = node.update(1 + i, s[i].label);
    let pos = 1 + k + 5 * i;
    let new = with_ptr(mid, pos, s[i].ptr);
    lemma_sparse_fill_bytes(node, k, s[i].label, s[i].ptr, i);
    assert(new.len() == 1 + 6 * k);
    assert(new[0] == s.len());
    assert forall|j: int| 0 <= j < i + 1 implies #[trigger] sparse_label(new, j) == s[j].label
        && sparse_slot_bytes(new, k, j) == ptr_bytes(s[j].ptr) by {
        if j < i {
            assert(sparse_label(node, j) == s[j].label);
            assert(sparse_slot_bytes(node, k, j) == ptr_bytes(s[j].ptr));
            assert(sparse_label(new, j) == sparse_label(node, j));
            assert(sparse_slot_bytes(new, k, j) == sparse_slot_bytes(node, k, j));
        } else {
            assert(j == i);
            assert(sparse_label(new, i) == s[i].label);
            assert(sparse_slot_bytes(new, k, i) == ptr_bytes(s[i].ptr));
        }
    }
    assert(sparse_filled(new, k, s, i + 1));
}

/// The bytes of a node after a label and a reference were put in slot
/// `i`: that label and that reference in slot `i`, the header and the
/// slots before it as they were.
proof fn lemma_sparse_fill_bytes(node: Seq<u8>, k: nat, label: u8, ptr: MartPointer, i: int)
    requires
        node.len() == 1 + 6 * k,
        0 <= i < k <= 255,
    ensures
        ({
            let new = with_ptr(node.update(1 + i, label), 1 + k + 5 * i, ptr);
            &&& new.len() == node.len()
            &&& new[0] == node[0]
            &&& sparse_label(new, i) == label
            &&& sparse_slot_bytes(new, k, i) == ptr_bytes(ptr)
            &&& forall|j: int|
                0 <= j < i ==> #[trigger] sparse_label(new, j) == sparse_label(node, j)
                    && sparse_slot_bytes(new, k, j) == sparse_slot_bytes(node, k, j)
        }),
{
    let mid = node.update(1 + i, label);
    let pos = 1 + k + 5 * i;
    let new = with_ptr(mid, pos, ptr);
    assert(mid.len() == node.len());
    assert(0 <= pos && pos + 5 <= mid.len());
    lemma_with_ptr(mid, pos, ptr);
    assert(new.len() == node.len());
    assert(new[0] == mid[0]);
    assert(mid[0] == node[0]);
    assert(new[1 + i] == mid[1 + i]);
    assert(mid[1 + i] == label);
    assert(new.subrange(pos, pos + 5) =~= ptr_bytes(ptr));
    assert(sparse_slot_bytes(new, k, i) == new.subrange(pos, pos + 5));
    assert forall|j: int| 0 <= j < i implies #[trigger] sparse_label(new, j) == sparse_label(
        node,
        j,
    ) && sparse_slot_bytes(new, k, j) == sparse_slot_bytes(node, k, j) by {
        assert(new[1 + j] == mid[1 + j]);
        assert(mid[1 + j] == node[1 + j]);
        let from = 1 + k + 5 * j;
        assert forall|t: int| from <= t < from + 5 implies new[t] == node[t] by {
            assert(new[t] == mid[t]);
            assert(mid[t] == node[t]);
        }
        assert(new.subrange(from, from + 5) =~= node.subrange(from, from + 5));
    }
}

/// A node whose edges are all in place is in order and holds those edges.
pub proof fn lemma_sparse_filled(node: Seq<u8>, k: nat, s: Seq<MartEdge>)
    requires
        sparse_filled(node, k, s, s.len() as int),
        s.len() <= k <= 255,
        distinct_labels(s),
        no_nil_edges(s),
    ensures
        sparse_node_ok(node, k),
        sparse_model(node, k) == edges_model(s, false),
{
    lemma_edges_map(s);
    assert forall|i: int| 0 <= i < node[0] implies !nil_nid_bytes(
        #[trigger] sparse_slot_bytes(node, k, i),
    ) by {
        assert(sparse_label(node, i) == s[i].label);
        lemma_ptr_round_trip(s[i].ptr);
    }
    assert forall|i: int, j: int| 0 <= i < node[0] && 0 <= j < node[0] && i != j implies #[trigger]
        sparse_label(node, i) != #[trigger] sparse_label(node, j) by {
        assert(s[i].label != s[j].label);
    }
    let got = sparse_model(node, k);
    let want = edges_model(s, false);
    assert forall|l: u8| got.edges.contains_key(l) == want.edges.contains_key(l) by {
        if sparse_has(node, l) {
            let i = sparse_slot(node, l);
            assert(0 <= i < node[0] && sparse_label(node, i) == l);
            assert(s[i].label == l);
        }
        if want.edges.contains_key(l) {
            let j = choose|j: int| 0 <= j < s.len() && (#[trigger] s[j]).label == l;
            assert(sparse_label(node, j) == l);
        }
    }
    assert forall|l: u8| got.edges.contains_key(l) implies got.edges[l] == want.edges[l]
        && got.slot_of[l] == want.slot_of[l] by {
        let i = sparse_slot(node, l);
        assert(0 <= i < node[0] && sparse_label(node, i) == l);
        assert(s[i].label == l);
        lemma_ptr_round_trip(s[i].ptr);
        assert(edges_map(s)[s[i].label] == s[i].ptr);
        let j2 = index_of_label(s, l);
        assert(s[j2].label == l);
        if j2 != i {
            assert(s[j2].label != s[i].label);
        }
    }
    assert(got.edges =~= want.edges);
    assert(got.slot_of =~= want.slot_of);
}

pub struct MartSparse<T: IntoMartNode> {
    pub inner: EmptyNodes<MartSparseOffsets<T>>,
}

impl<T: IntoMartNode> MartSparse<T> {
    /// The arena without nodes.
    pub fn new() -> (r: Self)
        requires
            2 <= T::spec_bytes() <= 255,
        ensures
            r.wf(),
            r.nodes() == Seq::<Option<NodeModel>>::empty(),
            r.free_list() == Seq::<u32>::empty(),
    {
        let v: MartVec<MartSparseOffsets<T>> = MartVec::new(MartSparseOffsets::<T>::bytes());
        let r = Self { inner: EmptyNodes::new(ByteLabels::new(v)) };
        proof {
            reveal(links_ok);
            assert(r.nodes() =~= Seq::<Option<NodeModel>>::empty());
        }
        r
    }

    pub fn internals(&self) -> (r: &MartVec<MartSparseOffsets<T>>)
        ensures
            *r == self.inner.inner.inner,
    {
        &self.inner.inner.inner
    }

    /// The slot of the child under `label` in node `node_id`, if there is
    /// one: the labels in use are compared one after the other.
    fn adaptive_search(&self, node_id: u32, label: u8) -> (r: Option<usize>)
        requires
            self.wf(),
            is_live(self.nodes(), node_id),
        ensures
            match r {
                Some(i) => i < self.inner.nodes()[node_id as int][0] && sparse_label(
                    self.inner.nodes()[node_id as int],
                    i as int,
                ) == label,
                None => !sparse_has(self.inner.nodes()[node_id as int], label),
            },
    {
        proof {
            self.lemma_node(node_id);
        }
        let m_num = self.inner.header(node_id) as usize;
        let mut i: usize = 0;
        while i < m_num
            invariant
                i <= m_num,
                self.wf(),
                is_live(self.nodes(), node_id),
                self.inner.live(node_id),
                sparse_node_ok(self.inner.nodes()[node_id as int], T::spec_bytes()),
                m_num == self.inner.nodes()[node_id as int][0],
                forall|j: int|
                    0 <= j < i ==> #[trigger] sparse_label(self.inner.nodes()[node_id as int], j)
                        != label,
            decreases m_num - i,
        {
            if self.inner.label(node_id, i) == label {
                return Some(i);
            }
            i = i + 1;
        }
        None
    }

    /// The child of node `ptr` under `label`, if there is one.
    pub fn find(&self, ptr: u32, label: u8) -> (r: Option<MartPointer>)
        requires
            self.wf(),
            is_live(self.nodes(), ptr),
        ensures
            r == self.nodes()[ptr as int]->0.child(label),
    {
        proof {
            self.lemma_node(ptr);
        }
        match self.adaptive_search(ptr, label) {
            Some(offset) => {
                proof {
                    let node = self.inner.nodes()[ptr as int];
                    let k = T::spec_bytes();
                    lemma_sparse_slot(node, k, offset as int);
                    assert(node.subrange(1 + k + 5 * offset, 1 + k + 5 * offset + 5)
                        =~= sparse_slot_bytes(node, k, offset as int));
                }
                self.inner.ptr(ptr, offset)
            },
            None => None,
        }
    }

    /// What is known of a node in use.
    proof fn lemma_node(&self, nid: u32)
        requires
            self.wf(),
            is_live(self.nodes(), nid),
        ensures
            self.inner.live(nid),
            sparse_node_ok(self.inner.nodes()[nid as int], T::spec_bytes()),
            self.nodes()[nid as int] == Some(
                sparse_model(self.inner.nodes()[nid as int], T::spec_bytes()),
            ),
    {
    }

    /// The arena after node `nid`, in use before and after, became `node`.
    proof fn lemma_node_changed(&self, now: Self, nid: u32, node: Seq<u8>)
        requires
            self.wf(),
            self.inner.live(nid),
            now.inner.wf(),
            now.inner.free@ == self.inner.free@,
            now.inner.nodes() == self.inner.nodes().update(nid as int, node),
            sparse_node_ok(node, T::spec_bytes()),
        ensures
            now.wf(),
            now.free_list() == self.free_list(),
            now.nodes() == self.nodes().update(
                nid as int,
                Some(sparse_model(node, T::spec_bytes())),
            ),
    {
        assert(now.nodes() =~= self.nodes().update(
            nid as int,
            Some(sparse_model(node, T::spec_bytes())),
        ));
    }

    /// Adds `ptr` under `label`, which the node that the cursor stands on
    /// does not have, in the next unused slot.
    fn add_edge(&mut self, mc: &mut MartCursor, label: u8, ptr: &MartPointer)
        requires
            old(self).wf(),
            is_live(old(self).nodes(), old(mc).nptr.nid),
            ptr.nid != MART_NILID,
            !old(self).nodes()[old(mc).nptr.nid as int]->0.edges.contains_key(label),
            old(self).nodes()[old(mc).nptr.nid as int]->0.header < T::spec_bytes(),
        ensures
            final(self).wf(),
            final(self).free_list() == old(self).free_list(),
            insert_outcome(
                old(self).nodes(),
                final(self).nodes(),
                *old(mc),
                *final(mc),
                label,
                *ptr,
                MartInsertFlags::MartInserted,
                false,
                old(self).nodes()[old(mc).nptr.nid as int]->0.header as int,
            ),
    {
        let node_id = mc.nptr.nid;
        let ghost node = self.inner.nodes()[node_id as int];
        proof {
            self.lemma_node(node_id);
            self.inner.inner.inner.lemma_nodes();
        }
        let header = self.inner.header(node_id);
        self.inner.set_header(node_id, header + 1);
        self.inner.set_label(node_id, header as usize, label);
        self.inner.set_ptr(node_id, header as usize, ptr);
        mc.update(header as usize, ptr);
        proof {
            let k = T::spec_bytes();
            lemma_sparse_add(node, k, label, *ptr);
            assert(self.inner.nodes() =~= old(self).inner.nodes().update(
                node_id as int,
                sparse_added(node, k, label, *ptr),
            ));
            old(self).lemma_node_changed(*self, node_id, sparse_added(node, k, label, *ptr));
        }
    }

    /// The edges of node `node_id`, slot by slot.
    fn edges_of(&self, node_id: u32) -> (r: Vec<MartEdge>)
        requires
            self.wf(),
            is_live(self.nodes(), node_id),
        ensures
            edges_map(r@) == self.nodes()[node_id as int]->0.edges,
            distinct_labels(r@),
            no_nil_edges(r@),
            r@.len() <= T::spec_bytes(),
    {
        let ghost node = self.inner.nodes()[node_id as int];
        let ghost k = T::spec_bytes();
        let ghost m = sparse_model(node, k);
        let mut out: Vec<MartEdge> = Vec::new();
        proof {
            self.lemma_node(node_id);
            lemma_sparse_well_formed(node, k);
        }
        let h = self.inner.header(node_id) as usize;
        let mut idx: usize = 0;
        while idx < h
            invariant
                idx <= h,
                h == node[0],
                self.wf(),
                is_live(self.nodes(), node_id),
                self.inner.live(node_id),
                node == self.inner.nodes()[node_id as int],
                k == T::spec_bytes(),
                m == sparse_model(node, k),
                sparse_node_ok(node, k),
                m.well_formed(k),
                out@.len() == idx,
                forall|j: int|
                    0 <= j < idx ==> (#[trigger] out@[j]).label == sparse_label(node, j)
                        && out@[j].ptr == ptr_of_bytes(sparse_slot_bytes(node, k, j)),
            decreases h - idx,
        {
            let label = self.inner.label(node_id, idx);
            proof {
                lemma_sparse_slot(node, k, idx as int);
                assert(node.subrange(1 + k + 5 * idx, 1 + k + 5 * idx + 5) =~= sparse_slot_bytes(
                    node,
                    k,
                    idx as int,
                ));
                lemma_nil_bytes(sparse_slot_bytes(node, k, idx as int));
            }
            match self.inner.ptr(node_id, idx) {
                Some(p) => {
                    out.push(MartEdge { label, ptr: p });
                },
                None => {
                    assert(false);
                },
            }
            idx = idx + 1;
        }
        proof {
            assert forall|j: int| 0 <= j < out@.len() implies m.edges.contains_key(
                (#[trigger] out@[j]).label,
            ) && m.edges[out@[j].label] == out@[j].ptr && out@[j].ptr.nid != MART_NILID by {
                lemma_sparse_slot(node, k, j);
            }
            assert forall|l: u8| m.edges.contains_key(l) implies exists|j: int|
                0 <= j < out@.len() && (#[trigger] out@[j]).label == l by {
                let i = sparse_slot(node, l);
                assert(0 <= i < node[0] && sparse_label(node, i) == l);
                assert(out@[i].label == l);
            }
            assert forall|i: int, j: int|
                0 <= i < out@.len() && 0 <= j < out@.len() && i != j implies (
            #[trigger] out@[i]).label != (#[trigger] out@[j]).label by {
                assert(sparse_label(node, i) != sparse_label(node, j));
            }
            lemma_edges_map_eq(out@, m.edges);
        }
        out
    }

    /// The edges of node `ptr`, slot by slot.
    pub fn linear_scan(&self, ptr: u32) -> (r: Vec<MartEdge>)
        requires
            self.wf(),
            is_live(self.nodes(), ptr),
        ensures
            edges_map(r@) == self.nodes()[ptr as int]->0.edges,
            distinct_labels(r@),
            no_nil_edges(r@),
            r@.len() <= T::spec_bytes(),
    {
        self.edges_of(ptr)
    }

    /// Makes a node without children and with the bytes of a new node.
    fn make_fresh(&mut self) -> (id: u32)
        requires
            old(self).wf(),
            old(self).free_list().len() == 0 ==> old(self).nodes().len() < u32::MAX,
        ensures
            final(self).wf(),
            made_node(
                old(self).nodes(),
                old(self).free_list(),
                final(self).nodes(),
                final(self).free_list(),
                MartPointer { nid: id, ntype: T::spec_type_id() },
                T::spec_type_id(),
                NodeModel::empty(),
            ),
            is_live(final(self).nodes(), id),
            final(self).inner.nodes()[id as int] == fresh_node(1 + 6 * T::spec_bytes()),
    {
        let ghost before = *self;
        proof {
            self.lemma_wf();
            lemma_sparse_fresh(T::spec_bytes());
        }
        match self.inner.empty_node_pop() {
            Some(head) => {
                assert(before.inner.free@.contains(before.inner.free@[0]));
                assert(!self.inner.free@.contains(head)) by {
                    if self.inner.free@.contains(head) {
                        let i = choose|i: int|
                            0 <= i < self.inner.free@.len() && self.inner.free@[i] == head;
                        assert(before.inner.free@[i + 1] == head);
                    }
                }
                self.inner.set_header(head, 0);
                proof {
                    before.lemma_made(*self, head);
                }
                head
            },
            None => {
                let id = self.inner.create_node();
                proof {
                    assert(self.nodes() =~= before.nodes().push(Some(NodeModel::empty())));
                }
                id
            },
        }
    }

    /// The arena after the first free node was taken and its header set
    /// to 0.
    proof fn lemma_made(&self, now: Self, head: u32)
        requires
            self.wf(),
            self.inner.free@.len() > 0,
            head == self.inner.free@[0],
            now.inner.wf(),
            now.inner.free@ == self.inner.free@.drop_first(),
            now.inner.nodes().len() == self.inner.nodes().len(),
            now.inner.nodes()[head as int] == fresh_node(1 + 6 * T::spec_bytes()),
            forall|j: u32|
                self.inner.live(j) ==> now.inner.nodes()[j as int] == self.inner.nodes()[j as int],
        ensures
            now.wf(),
            now.nodes() == self.nodes().update(head as int, Some(NodeModel::empty())),
    {
        lemma_sparse_fresh(T::spec_bytes());
        lemma_links_head(self.inner.nodes(), self.inner.free@);
        let f0 = self.inner.free@;
        let f1 = now.inner.free@;
        assert forall|j: u32| j != head implies f1.contains(j) == f0.contains(j) by {
            if f0.contains(j) {
                let i = choose|i: int| 0 <= i < f0.len() && f0[i] == j;
                assert(f1[i - 1] == j);
            }
            if f1.contains(j) {
                let i = choose|i: int| 0 <= i < f1.len() && f1[i] == j;
                assert(f0[i + 1] == j);
            }
        }
        assert(!f1.contains(head)) by {
            if f1.contains(head) {
                let i = choose|i: int| 0 <= i < f1.len() && f1[i] == head;
                assert(f0[i + 1] == head);
            }
        }
        assert(f0.contains(head));
        assert forall|i: int|
            0 <= i < now.inner.nodes().len() && !f1.contains(i as u32) implies sparse_node_ok(
            #[trigger] now.inner.nodes()[i],
            T::spec_bytes(),
        ) by {
            if i != head {
                assert(self.inner.live(i as u32));
            }
        }
        assert forall|i: int| 0 <= i < now.nodes().len() implies #[trigger] now.nodes()[i]
            == self.nodes().update(head as int, Some(NodeModel::empty()))[i] by {
            if i != head {
                assert(f1.contains(i as u32) == f0.contains(i as u32));
                if !f0.contains(i as u32) {
                    assert(self.inner.live(i as u32));
                }
            }
        }
        assert(now.nodes() =~= self.nodes().update(head as int, Some(NodeModel::empty())));
    }
}

impl<T: IntoMartNode> MartArray for MartSparse<T> {
    open spec fn nodes(&self) -> Seq<Option<NodeModel>> {
        Seq::new(
            self.inner.nodes().len(),
            |i: int|
                if self.inner.free@.contains(i as u32) {
                    None
                } else {
                    Some(sparse_model(self.inner.nodes()[i], T::spec_bytes()))
                },
        )
    }

    open spec fn free_list(&self) -> Seq<u32> {
        self.inner.free@
    }

    open spec fn wf(&self) -> bool {
        &&& self.inner.wf()
        &&& 2 <= T::spec_bytes() <= 255
        &&& forall|i: int|
            0 <= i < self.inner.nodes().len() && !self.inner.free@.contains(i as u32)
                ==> sparse_node_ok(#[trigger] self.inner.nodes()[i], T::spec_bytes())
    }

    open spec fn tier() -> MartNodeTypes {
        T::spec_type_id()
    }

    open spec fn capacity() -> nat {
        T::spec_bytes()
    }

    open spec fn slots() -> nat {
        T::spec_bytes()
    }

    open spec fn by_label() -> bool {
        false
    }

    open spec fn expands() -> bool {
        true
    }

    proof fn lemma_wf(&self) {
        lemma_links_head(self.inner.nodes(), self.inner.free@);
        assert forall|nid: int|
            0 <= nid < self.nodes().len() && (#[trigger] self.nodes()[nid]) is Some implies self.nodes()[nid]->0.well_formed(
        T::spec_bytes()) by {
            assert(sparse_node_ok(self.inner.nodes()[nid], T::spec_bytes()));
            lemma_sparse_well_formed(self.inner.nodes()[nid], T::spec_bytes());
        }
        assert forall|i: int| 0 <= i < self.free_list().len() implies (#[trigger] self.free_list()[i])
            < self.nodes().len() && self.nodes()[self.free_list()[i] as int] is None by {
            assert(self.inner.free@.contains(self.inner.free@[i]));
        }
    }

    fn insert_ptr(&mut self, mc: &mut MartCursor, label: u8, ptr: &MartPointer) -> (flag:
        MartInsertFlags) {
        let node_id = mc.nptr.nid;
        proof {
            self.lemma_node(node_id);
        }
        let header = self.inner.header(node_id);
        match self.adaptive_search(node_id, label) {
            Some(offset) => {
                proof {
                    let node = self.inner.nodes()[node_id as int];
                    let k = T::spec_bytes();
                    lemma_sparse_slot(node, k, offset as int);
                    assert(node.subrange(1 + k + 5 * offset, 1 + k + 5 * offset + 5)
                        =~= sparse_slot_bytes(node, k, offset as int));
                    lemma_nil_bytes(sparse_slot_bytes(node, k, offset as int));
                }
                match self.inner.ptr(node_id, offset) {
                    Some(p) => {
                        mc.update(offset, &p);
                    },
                    None => {
                        assert(false);
                    },
                }
                MartInsertFlags::MartFound
            },
            None => {
                if (header as usize) < T::bytes() {
                    self.add_edge(mc, label, ptr);
                    MartInsertFlags::MartInserted
                } else {
                    MartInsertFlags::MartNeededToExpand
                }
            },
        }
    }

    fn make_node(&mut self) -> (r: MartPointer) {
        let id = self.make_fresh();
        MartPointer::new(id, T::type_id())
    }

    fn make_node_with_edges(&mut self, edges: &[MartEdge]) -> (r: MartPointer) {
        let ghost before = *self;
        let node_id = self.make_fresh();
        let ghost made = *self;
        proof {
            self.lemma_node(node_id);
            self.inner.inner.inner.lemma_nodes();
        }
        assert(edges@.len() <= 255);
        self.inner.set_header(node_id, edges.len() as u8);
        let mut idx: usize = 0;
        while idx < edges.len()
            invariant
                idx <= edges@.len() <= T::spec_bytes() <= 255,
                self.inner.wf(),
                self.inner.live(node_id),
                self.inner.free@ == made.inner.free@,
                self.inner.nodes().len() == made.inner.nodes().len(),
                forall|j: int|
                    0 <= j < self.inner.nodes().len() && j != node_id ==> self.inner.nodes()[j]
                        == made.inner.nodes()[j],
                sparse_filled(
                    self.inner.nodes()[node_id as int],
                    T::spec_bytes(),
                    edges@,
                    idx as int,
                ),
            decreases edges@.len() - idx,
        {
            let edge = edges[idx];
            let ghost node = self.inner.nodes()[node_id as int];
            self.inner.set_label(node_id, idx, edge.label);
            self.inner.set_ptr(node_id, idx, &edge.ptr);
            proof {
                lemma_sparse_fill(node, T::spec_bytes(), edges@, idx as int);
            }
            idx = idx + 1;
        }
        proof {
            let node = self.inner.nodes()[node_id as int];
            lemma_sparse_filled(node, T::spec_bytes(), edges@);
            assert(self.inner.nodes() =~= made.inner.nodes().update(node_id as int, node));
            made.lemma_node_changed(*self, node_id, node);
            let want = Some(edges_model(edges@, false));
            before.lemma_wf();
            if before.free_list().len() > 0 {
                assert(self.nodes() =~= before.nodes().update(node_id as int, want));
            } else {
                assert(self.nodes() =~= before.nodes().push(want));
            }
        }
        MartPointer::new(node_id, T::type_id())
    }

    fn update_srcptr(&mut self, mc: &MartCursor) {
        let ghost node = self.inner.nodes()[mc.pptr.nid as int];
        let ghost k = T::spec_bytes();
        proof {
            self.lemma_node(mc.pptr.nid);
            lemma_sparse_replace(node, k, mc.offset as int, mc.nptr);
        }
        self.inner.set_ptr(mc.pptr.nid(), mc.offset, mc.nptr());
        proof {
            old(self).lemma_node_changed(
                *self,
                mc.pptr.nid,
                with_ptr(node, 1 + k + 5 * mc.offset, mc.nptr),
            );
        }
    }

    fn find_child(&self, ptr: MartPointer, label: u8) -> (r: Option<MartPointer>) {
        self.find(ptr.nid(), label)
    }

    fn children(&self, ptr: &MartPointer) -> (r: Vec<MartEdge>) {
        self.edges_of(ptr.nid())
    }
}

impl<T: IntoMartNode> MartArrayExtractable for MartSparse<T> {
    fn append_ptr(&mut self, mc: &mut MartCursor, label: u8, nptr: &MartPointer) -> (flag:
        MartInsertFlags) {
        self.add_edge(mc, label, nptr);
        MartInsertFlags::MartInserted
    }

    fn extract_edges(&mut self, mc: &MartCursor) -> (r: Vec<MartEdge>) {
        let node_id = mc.nptr.nid;
        let extract = self.edges_of(node_id);
        proof {
            self.lemma_node(node_id);
        }
        self.inner.empty_node_push(node_id);
        proof {
            let f0 = old(self).inner.free@;
            let f1 = self.inner.free@;
            assert forall|j: u32| f1.contains(j) == (f0.contains(j) || j == node_id) by {
                if f0.contains(j) {
                    let i = choose|i: int| 0 <= i < f0.len() && f0[i] == j;
                    assert(f1[i] == j);
                }
                if j == node_id {
                    assert(f1[f0.len() as int] == j);
                }
            }
            assert forall|i: int|
                0 <= i < self.inner.nodes().len() && !f1.contains(i as u32) implies sparse_node_ok(
                #[trigger] self.inner.nodes()[i],
                T::spec_bytes(),
            ) by {
                assert(old(self).inner.live(i as u32));
            }
            assert forall|i: int| 0 <= i < self.nodes().len() implies #[trigger] self.nodes()[i]
                == old(self).nodes().update(node_id as int, None)[i] by {
                if i != node_id {
                    if !f0.contains(i as u32) {
                        assert(old(self).inner.live(i as u32));
                    }
                }
            }
            assert(self.nodes() =~= old(self).nodes().update(node_id as int, None));
        }
        extract
    }
}

impl<T: IntoMartNode> TrieCounts for MartSparse<T> {
    open spec fn spec_num_nodes(&self) -> nat {
        self.inner.nodes().len()
    }

    open spec fn spec_num_empty(&self) -> nat {
        self.inner.free@.len()
    }

    open spec fn counts_wf(&self) -> bool {
        self.wf()
    }

    fn num_nodes(&self) -> (r: usize) {
        self.inner.inner.inner.len()
    }

    fn num_empty(&self) -> (r: usize) {
        self.inner.num_empty()
    }
}

impl<T: IntoMartNode> InNodeStatistics for MartSparse<T> {
    open spec fn spec_fanout() -> nat {
        T::spec_bytes()
    }

    fn fanout() -> (r: usize) {
        T::bytes()
    }
}

} // verus!
