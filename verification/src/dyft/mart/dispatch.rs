//! The operations on nodes, each handed to the arena that the tag of the
//! reference names, and the move of a full node to the next tier.

use crate::dyft::constants::label_distance::label_distance;
use crate::dyft::constants::tables::{ipc_of, label_count, HamTables};
use crate::dyft::mart::heap::{
    heap_of, lemma_moved, lemma_with_new_node, lemma_with_node, lemma_without_node, live_in,
    grown, moved, node_in, rooms, with_new_node, with_node, without_node, ArenaViews,
};
use crate::dyft::mart::structure::MartIndex;
use crate::dyft::node::common::{
    fanout_of, MartCursor, MartEdge, MartInsertFlags, MartNodeTypes, MartPointer, MART_NILID,
};
use crate::dyft::node::model::{
    distinct_labels, edges_map, lemma_edges_map, no_nil_edges, NodeModel,
};
use crate::dyft::node::traits::{
    arena_ok, edges_model, insert_outcome, is_live, made_node, slot_for, MartArray,
    MartArrayExtractable,
};
use vstd::prelude::*;

verus! {

/// The smallest tier whose nodes hold `n` children.
pub open spec fn fit_tier(n: nat) -> MartNodeTypes {
    if n <= 2 {
        MartNodeTypes::Mart2Node
    } else if n <= 4 {
        MartNodeTypes::Mart4Node
    } else if n <= 8 {
        MartNodeTypes::Mart8Node
    } else if n <= 16 {
        MartNodeTypes::Mart16Node
    } else if n <= 32 {
        MartNodeTypes::Mart32Node
    } else if n <= 64 {
        MartNodeTypes::Mart64Node
    } else if n <= 128 {
        MartNodeTypes::Mart128Node
    } else {
        MartNodeTypes::Mart256Node
    }
}

/// The tier after `t` in the order of the fan-outs 2, 4, 8, 16, 32, 64,
/// 128, 256; the widest tier has none after it.
pub open spec fn next_tier(t: MartNodeTypes) -> MartNodeTypes {
    match t {
        MartNodeTypes::Mart2Node => MartNodeTypes::Mart4Node,
        MartNodeTypes::Mart4Node => MartNodeTypes::Mart8Node,
        MartNodeTypes::Mart8Node => MartNodeTypes::Mart16Node,
        MartNodeTypes::Mart16Node => MartNodeTypes::Mart32Node,
        MartNodeTypes::Mart32Node => MartNodeTypes::Mart64Node,
        MartNodeTypes::Mart64Node => MartNodeTypes::Mart128Node,
        MartNodeTypes::Mart128Node => MartNodeTypes::Mart256Node,
        other => other,
    }
}

/// The children of the nodes in use after `ptr` was added under `label`
/// to node `x`.
pub open spec fn heap_inserted(
    heap: Map<MartPointer, Map<u8, MartPointer>>,
    x: MartPointer,
    label: u8,
    ptr: MartPointer,
) -> Map<MartPointer, Map<u8, MartPointer>> {
    heap.insert(x, heap[x].insert(label, ptr))
}

/// The children of the nodes in use after node `x`, the child of `p` under
/// `plabel`, moved to `x2` and got `ptr` under `label`.
pub open spec fn heap_promoted(
    heap: Map<MartPointer, Map<u8, MartPointer>>,
    x: MartPointer,
    x2: MartPointer,
    p: MartPointer,
    plabel: u8,
    label: u8,
    ptr: MartPointer,
) -> Map<MartPointer, Map<u8, MartPointer>> {
    heap.remove(x).insert(p, heap[p].insert(plabel, x2)).insert(x2, heap[x].insert(label, ptr))
}

/// Empties the node that the cursor stands on and makes a node with its
/// edges in the next tier.
pub fn promote_nodes<A: MartArrayExtractable, B: MartArray>(
    from: &mut A,
    to: &mut B,
    mc: &MartCursor,
) -> (r: MartPointer)
    requires
        old(from).wf(),
        old(to).wf(),
        mc.nptr.ntype == A::tier(),
        is_live(old(from).nodes(), mc.nptr.nid),
        old(to).nodes().len() < u32::MAX,
        A::capacity() <= B::capacity(),
        A::capacity() < 256,
    ensures
        final(from).wf(),
        final(to).wf(),
        final(from).nodes() == old(from).nodes().update(mc.nptr.nid as int, None),
        final(from).free_list() == old(from).free_list().push(mc.nptr.nid),
        r.ntype == B::tier(),
        r.nid <= old(to).nodes().len(),
        !is_live(old(to).nodes(), r.nid),
        is_live(final(to).nodes(), r.nid),
        final(to).nodes()[r.nid as int]->0.edges == old(from).nodes()[mc.nptr.nid as int]->0.edges,
        final(to).nodes()[r.nid as int]->0.header <= A::capacity(),
        final(to).nodes() == if r.nid < old(to).nodes().len() {
            old(to).nodes().update(r.nid as int, final(to).nodes()[r.nid as int])
        } else {
            old(to).nodes().push(final(to).nodes()[r.nid as int])
        },
{
    proof {
        to.lemma_wf();
        from.lemma_wf();
    }
    let m_edges = from.extract_edges(mc);
    let r = to.make_node_with_edges(m_edges.as_slice());
    proof {
        assert(old(to).free_list().len() > 0 ==> old(to).free_list()[0] == r.nid);
    }
    r
}

/// The edges of node `ptr` whose labels are among the labels in range at
/// a distance of at most `radius` from `label`: each of those labels is
/// looked up in turn.
pub fn brute_force<A: MartArray>(
    arena: &A,
    ptr: MartPointer,
    label: u8,
    radius: u8,
    tables: &HamTables,
) -> (r: Vec<MartEdge>)
    requires
        arena.wf(),
        ptr.ntype == A::tier(),
        is_live(arena.nodes(), ptr.nid),
        tables.wf(),
        radius <= ipc_of(tables.spec_bits()),
    ensures
        scan_sound(arena.nodes()[ptr.nid as int]->0.edges, r@),
        r@.len() <= 256,
        forall|l: u8|
            arena.nodes()[ptr.nid as int]->0.edges.contains_key(l) && l < label_count(
                tables.spec_bits(),
            ) && label < label_count(tables.spec_bits()) && label_distance(
                tables.spec_bits(),
                label,
                l,
            ) <= radius ==> #[trigger] scan_has(r@, l),
        distinct_labels(r@),
        forall|i: int|
            0 <= i < r@.len() ==> label_distance(tables.spec_bits(), label, (#[trigger] r@[i]).label)
                <= radius,
{
    let ghost node = arena.nodes()[ptr.nid as int]->0;
    proof {
        tables.lemma_order_ok();
    }
    let n = tables.within(radius);
    let mut out: Vec<MartEdge> = Vec::new();
    let mut k: usize = 0;
    while k < n
        invariant
            k <= n,
            n == tables.positions()[radius + 1],
            n <= tables.order().len(),
            arena.wf(),
            ptr.ntype == A::tier(),
            is_live(arena.nodes(), ptr.nid),
            tables.wf(),
            node == arena.nodes()[ptr.nid as int]->0,
            scan_sound(node.edges, out@),
            out@.len() <= k,
            tables.order().len() <= 256,
            distinct_labels(out@),
            forall|i: int| 0 <= i < out@.len() ==> #[trigger] masked(out@, i, label, tables.order(), k as int),
            forall|j: int|
                0 <= j < k && node.edges.contains_key(label ^ tables.order()[j]) ==> scan_has(
                    out@,
                    label ^ #[trigger] tables.order()[j],
                ),
        decreases n - k,
    {
        let other = label ^ tables.mask(k);
        let ghost prev = out@;
        match arena.find_child(ptr, other) {
            Some(p) => {
                out.push(MartEdge { label: other, ptr: p });
                proof {
                    assert(out@[prev.len() as int].label == other);
                    assert forall|i: int| 0 <= i < out@.len() implies #[trigger] masked(
                        out@,
                        i,
                        label,
                        tables.order(),
                        k + 1,
                    ) by {
                        if i < prev.len() {
                            assert(masked(prev, i, label, tables.order(), k as int));
                            let j = choose|j: int|
                                0 <= j < k && prev[i].label == label ^ #[trigger] tables.order()[j];
                            assert(out@[i].label == label ^ tables.order()[j]);
                        } else {
                            assert(out@[i].label == label ^ tables.order()[k as int]);
                        }
                    }
                    assert forall|i: int, j: int|
                        0 <= i < out@.len() && 0 <= j < out@.len() && i != j implies (
                    #[trigger] out@[i]).label != (#[trigger] out@[j]).label by {
                        if i < prev.len() && j < prev.len() {
                            assert(prev[i].label != prev[j].label);
                        } else {
                            let old_one = if i < prev.len() {
                                i
                            } else {
                                j
                            };
                            assert(masked(prev, old_one, label, tables.order(), k as int));
                            let w = choose|w: int|
                                0 <= w < k && prev[old_one].label == label
                                    ^ #[trigger] tables.order()[w];
                            tables.lemma_order_distinct(w, k as int);
                            let x = tables.order()[w];
                            let y = tables.order()[k as int];
                            assert(x != y ==> label ^ x != label ^ y) by (bit_vector);
                        }
                    }
                    assert forall|j: int|
                        0 <= j < k && node.edges.contains_key(
                            label ^ tables.order()[j],
                        ) implies scan_has(out@, label ^ #[trigger] tables.order()[j]) by {
                        let w = choose|w: int|
                            0 <= w < prev.len() && (#[trigger] prev[w]).label == label
                                ^ tables.order()[j];
                        assert(out@[w].label == label ^ tables.order()[j]);
                    }
                }
            },
            None => {
                proof {
                    assert forall|i: int| 0 <= i < out@.len() implies #[trigger] masked(
                        out@,
                        i,
                        label,
                        tables.order(),
                        k + 1,
                    ) by {
                        assert(masked(out@, i, label, tables.order(), k as int));
                        let j = choose|j: int|
                            0 <= j < k && out@[i].label == label ^ #[trigger] tables.order()[j];
                        assert(0 <= j < k + 1);
                    }
                }
            },
        }
        k = k + 1;
    }
    proof {
        assert forall|l: u8|
            node.edges.contains_key(l) && l < label_count(tables.spec_bits()) && label
                < label_count(tables.spec_bits()) && label_distance(tables.spec_bits(), label, l)
                <= radius implies #[trigger] scan_has(out@, l) by {
            tables.lemma_covers(label, l);
            let d = label_distance(tables.spec_bits(), label, l) as int;
            let j = choose|j: int|
                0 <= j < tables.positions()[d + 1] && label ^ #[trigger] tables.order()[j] == l;
            crate::dyft::constants::tables::lemma_positions_mono(
                tables.positions(),
                ipc_of(tables.spec_bits()),
                d + 1,
                radius + 1,
            );
            tables.lemma_order_ok();
        }
        assert forall|i: int| 0 <= i < out@.len() implies label_distance(
            tables.spec_bits(),
            label,
            (#[trigger] out@[i]).label,
        ) <= radius by {
            assert(masked(out@, i, label, tables.order(), k as int));
            let j = choose|j: int| 0 <= j < k && out@[i].label == label ^ #[trigger] tables.order()[j];
            tables.lemma_entry(label, j, radius as int);
        }
    }
    out
}

/// Edge `i` of the scan has the label that one of the first `k` masks of
/// `order` makes of `label`.
pub open spec fn masked(s: Seq<MartEdge>, i: int, label: u8, order: Seq<u8>, k: int) -> bool {
    exists|j: int| 0 <= j < k && s[i].label == label ^ #[trigger] order[j]
}

/// Every edge of the scan is an edge of the node.
pub open spec fn scan_sound(edges: Map<u8, MartPointer>, s: Seq<MartEdge>) -> bool {
    forall|j: int|
        0 <= j < s.len() ==> edges.contains_key((#[trigger] s[j]).label) && edges[s[j].label]
            == s[j].ptr
}

/// The scan has an edge with label `l`.
pub open spec fn scan_has(s: Seq<MartEdge>, l: u8) -> bool {
    exists|j: int| 0 <= j < s.len() && (#[trigger] s[j]).label == l
}

impl MartIndex {
    /// Everything but the arenas is the same in `other`.
    pub open spec fn same_rest(&self, other: Self) -> bool {
        &&& self.m_rootptr == other.m_rootptr
        &&& self.m_postings_list == other.m_postings_list
        &&& self.m_splitthreshold == other.m_splitthreshold
        &&& self.m_split_count == other.m_split_count
        &&& self.m_radius == other.m_radius
        &&& self.m_errors == other.m_errors
        &&& self.m_tables == other.m_tables
        &&& self.m_max_depth == other.m_max_depth
        &&& self.m_bits == other.m_bits
        &&& self.m_end == other.m_end
        &&& self.m_begin == other.m_begin
        &&& self.m_ids == other.m_ids
        &&& self.paths == other.paths
        &&& self.leaf_paths == other.leaf_paths
        &&& self.db == other.db
        &&& self.m_edges == other.m_edges
    }

    /// Every arena has room for `n` more nodes.
    pub open spec fn node_room(&self, n: int) -> bool {
        rooms(self.arenas(), n)
    }

    /// No arena has more than `n` nodes more than in `before`.
    pub open spec fn grown_by(&self, before: Self, n: int) -> bool {
        grown(before.arenas(), self.arenas(), n)
    }

    /// The node that the cursor stands on is in use and does not have
    /// `label`; it is the child of the node `mc.pptr` under `plabel`,
    /// stored in slot `mc.offset`.
    pub open spec fn expandable(&self, mc: MartCursor, label: u8, plabel: u8) -> bool {
        &&& self.live(mc.nptr)
        &&& !self.node(mc.nptr).edges.contains_key(label)
        &&& self.live(mc.pptr)
        &&& mc.pptr != mc.nptr
        &&& self.node(mc.pptr).edges.contains_key(plabel)
        &&& self.node(mc.pptr).edges[plabel] == mc.nptr
        &&& self.node(mc.pptr).slot_of[plabel] == mc.offset
    }

    /// What the move of the node that the cursor `mc0` stood on comes to:
    /// the node is given back, a node of the next tier has its children
    /// and `ptr` under `label`, and the parent leads to that node.
    pub open spec fn expanded(
        &self,
        after: Self,
        mc0: MartCursor,
        mc1: MartCursor,
        label: u8,
        ptr: MartPointer,
        plabel: u8,
    ) -> bool {
        &&& !self.live(mc1.pptr)
        &&& after.live(mc1.pptr)
        &&& mc1.pptr.ntype.is_inner()
        &&& mc1.pptr.ntype == next_tier(mc0.nptr.ntype)
        &&& mc1.pptr != mc0.pptr
        &&& mc1.nptr == ptr
        &&& after.node(mc1.pptr).edges == self.node(mc0.nptr).edges.insert(label, ptr)
        &&& after.node(mc1.pptr).slot_of[label] == mc1.offset
        &&& after.heap() == heap_promoted(
            self.heap(),
            mc0.nptr,
            mc1.pptr,
            mc0.pptr,
            plabel,
            label,
            ptr,
        )
        &&& after.grown_by(*self, 1)
        &&& forall|q: MartPointer|
            self.live(q) && q != mc0.nptr && q != mc0.pptr ==> after.node(q) == self.node(q)
        &&& after.node(mc0.pptr).slot_of == self.node(mc0.pptr).slot_of
    }

    /// The slot of a label of a node in use is occupied, by that label.
    pub proof fn lemma_slot(&self, p: MartPointer, l: u8, slot: int)
        requires
            self.arenas_wf(),
            self.live(p),
            self.node(p).edges.contains_key(l),
            self.node(p).slot_of[l] == slot,
        ensures
            self.node(p).occupied(slot),
            self.node(p).label_at(slot) == l,
            self.node(p).with_child_at(slot, self.node(p).edges[l]) == self.node(p),
    {
        self.lemma_arenas();
        let n = self.node(p);
        assert(arena_ok(self.arena(p.ntype), self.arena_free(p.ntype), fanout_of(p.ntype)));
        assert(self.arena(p.ntype)[p.nid as int] is Some);
        assert(n.well_formed(fanout_of(p.ntype)));
        let l2 = n.label_at(slot);
        assert(n.edges.contains_key(l2) && n.slot_of[l2] == slot);
        assert(n.edges.insert(l, n.edges[l]) =~= n.edges);
    }

    /// What a plain insertion comes to among all nodes.
    pub proof fn lemma_inserted(
        &self,
        after: Self,
        mc0: MartCursor,
        mc1: MartCursor,
        label: u8,
        ptr: MartPointer,
        flag: MartInsertFlags,
    )
        requires
            self.live(mc0.nptr),
            flag != MartInsertFlags::MartNeededToExpand,
            insert_outcome(
                self.arena(mc0.nptr.ntype),
                after.arena(mc0.nptr.ntype),
                mc0,
                mc1,
                label,
                ptr,
                flag,
                mc0.nptr.ntype != MartNodeTypes::Mart256Node && self.node(mc0.nptr).header
                    == fanout_of(mc0.nptr.ntype),
                slot_for(
                    mc0.nptr.ntype == MartNodeTypes::Mart256Node,
                    self.node(mc0.nptr).header,
                    label,
                ),
            ),
            forall|t: MartNodeTypes| t != mc0.nptr.ntype ==> after.arena(t) == self.arena(t),
        ensures
            self.inserted(after, mc0, mc1, label, ptr, flag),
    {
        let x = mc0.nptr;
        let node = self.node(x);
        if node.edges.contains_key(label) {
            assert(after.arenas() =~= self.arenas());
            assert(after.grown_by(*self, 0));
        } else {
            let n2 = node.with_edge(label, ptr, mc1.offset as int);
            assert(after.arenas() =~= with_node(self.arenas(), x, n2));
            lemma_with_node(self.arenas(), x, n2);
        }
    }

    /// What an insertion without a move comes to: the label was there and
    /// nothing changed, or it was added to the node.
    pub open spec fn inserted(
        &self,
        after: Self,
        mc0: MartCursor,
        mc1: MartCursor,
        label: u8,
        ptr: MartPointer,
        flag: MartInsertFlags,
    ) -> bool {
        let x = mc0.nptr;
        let node = self.node(x);
        &&& mc1.pptr == x
        &&& after.grown_by(*self, 0)
        &&& if node.edges.contains_key(label) {
            &&& flag == MartInsertFlags::MartFound
            &&& after.arenas() == self.arenas()
            &&& mc1.nptr == node.edges[label]
            &&& mc1.offset == node.slot_of[label]
        } else {
            &&& flag == MartInsertFlags::MartInserted
            &&& mc1.nptr == ptr
            &&& after.live(x)
            &&& after.node(x).edges == node.edges.insert(label, ptr)
            &&& after.node(x).slot_of[label] == mc1.offset
            &&& after.heap() == heap_inserted(self.heap(), x, label, ptr)
            &&& forall|q: MartPointer| self.live(q) && q != x ==> after.node(q) == self.node(q)
            &&& forall|q: MartPointer| after.live(q) == self.live(q)
        }
    }

    /// Whether node `x` has as many children as its tier holds and can be
    /// moved to a wider tier.
    pub open spec fn full_node(&self, x: MartPointer) -> bool {
        x.ntype != MartNodeTypes::Mart256Node && self.node(x).header == fanout_of(x.ntype)
    }

    /// What an insertion comes to: if the label is not there and the node
    /// is full, the node is moved to the next tier and the label added
    /// there; else the label was there and nothing changed, or it was
    /// added to the node.
    pub open spec fn insert_result(
        &self,
        after: Self,
        mc0: MartCursor,
        mc1: MartCursor,
        label: u8,
        ptr: MartPointer,
        plabel: u8,
        flag: MartInsertFlags,
    ) -> bool {
        &&& flag != MartInsertFlags::MartNeededToExpand
        &&& if !self.node(mc0.nptr).edges.contains_key(label) && self.full_node(mc0.nptr) {
            &&& flag == MartInsertFlags::MartInserted
            &&& self.expandable(mc0, label, plabel)
            &&& self.expanded(after, mc0, mc1, label, ptr, plabel)
        } else {
            self.inserted(after, mc0, mc1, label, ptr, flag)
        }
    }

    /// Every arena has room for one more node.
    pub proof fn lemma_room(&self)
        requires
            self.node_room(1),
        ensures
            self.m_array_2.nodes().len() < u32::MAX,
            self.m_array_4.nodes().len() < u32::MAX,
            self.m_array_8.nodes().len() < u32::MAX,
            self.m_array_16.nodes().len() < u32::MAX,
            self.m_array_32.nodes().len() < u32::MAX,
            self.m_array_64.nodes().len() < u32::MAX,
            self.m_array_128.nodes().len() < u32::MAX,
            self.m_array_256.nodes().len() < u32::MAX,
    {
        let av = self.arenas();
        assert(av[MartNodeTypes::Mart2Node].len() + 1 <= u32::MAX);
        assert(av[MartNodeTypes::Mart4Node].len() + 1 <= u32::MAX);
        assert(av[MartNodeTypes::Mart8Node].len() + 1 <= u32::MAX);
        assert(av[MartNodeTypes::Mart16Node].len() + 1 <= u32::MAX);
        assert(av[MartNodeTypes::Mart32Node].len() + 1 <= u32::MAX);
        assert(av[MartNodeTypes::Mart64Node].len() + 1 <= u32::MAX);
        assert(av[MartNodeTypes::Mart128Node].len() + 1 <= u32::MAX);
        assert(av[MartNodeTypes::Mart256Node].len() + 1 <= u32::MAX);
    }

    /// Puts the node that the cursor stands on in place of the child that
    /// it was reached by.
    pub fn perform_update_srcptr(&mut self, mc: &MartCursor)
        requires
            old(self).arenas_wf(),
            old(self).live(mc.pptr),
            old(self).node(mc.pptr).occupied(mc.offset as int),
            mc.nptr.nid != MART_NILID,
        ensures
            final(self).arenas_wf(),
            old(self).same_rest(*final(self)),
            final(self).arenas() == with_node(
                old(self).arenas(),
                mc.pptr,
                old(self).node(mc.pptr).with_child_at(mc.offset as int, mc.nptr),
            ),
            final(self).grown_by(*old(self), 0),
    {
        match mc.ptype() {
            MartNodeTypes::Mart2Node => {
                self.m_array_2.update_srcptr(mc);
            },
            MartNodeTypes::Mart4Node => {
                self.m_array_4.update_srcptr(mc);
            },
            MartNodeTypes::Mart8Node => {
                self.m_array_8.update_srcptr(mc);
            },
            MartNodeTypes::Mart16Node => {
                self.m_array_16.update_srcptr(mc);
            },
            MartNodeTypes::Mart32Node => {
                self.m_array_32.update_srcptr(mc);
            },
            MartNodeTypes::Mart64Node => {
                self.m_array_64.update_srcptr(mc);
            },
            MartNodeTypes::Mart128Node => {
                self.m_array_128.update_srcptr(mc);
            },
            MartNodeTypes::Mart256Node => {
                self.m_array_256.update_srcptr(mc);
            },
            _ => {},
        }
        proof {
            assert(self.arenas() =~= with_node(
                old(self).arenas(),
                mc.pptr,
                old(self).node(mc.pptr).with_child_at(mc.offset as int, mc.nptr),
            ));
            lemma_with_node(
                old(self).arenas(),
                mc.pptr,
                old(self).node(mc.pptr).with_child_at(mc.offset as int, mc.nptr),
            );
        }
    }

    /// Makes a node with the edges in `m_edges` in the smallest tier that
    /// holds them, and lets the cursor stand on it.
    pub fn perform_make_node(&mut self, mc: &mut MartCursor)
        requires
            old(self).arenas_wf(),
            old(self).node_room(1),
            old(self).m_edges@.len() <= 256,
            distinct_labels(old(self).m_edges@),
            no_nil_edges(old(self).m_edges@),
        ensures
            final(self).arenas_wf(),
            old(self).same_rest(*final(self)),
            final(mc).pptr == old(mc).pptr,
            final(mc).offset == old(mc).offset,
            final(mc).nptr.ntype == fit_tier(old(self).m_edges@.len()),
            !old(self).live(final(mc).nptr),
            final(self).live(final(mc).nptr),
            final(self).node(final(mc).nptr).edges == edges_map(old(self).m_edges@),
            final(self).arenas() == with_new_node(
                old(self).arenas(),
                final(mc).nptr,
                final(self).node(final(mc).nptr),
            ),
            final(mc).nptr.nid <= old(self).arena(final(mc).nptr.ntype).len(),
            final(self).grown_by(*old(self), 1),
    {
        proof {
            self.lemma_arenas();
            self.lemma_room();
        }
        let n_edges = self.m_edges.len();
        let nptr = if n_edges <= 2 {
            self.m_array_2.make_node_with_edges(self.m_edges.as_slice())
        } else if n_edges <= 4 {
            self.m_array_4.make_node_with_edges(self.m_edges.as_slice())
        } else if n_edges <= 8 {
            self.m_array_8.make_node_with_edges(self.m_edges.as_slice())
        } else if n_edges <= 16 {
            self.m_array_16.make_node_with_edges(self.m_edges.as_slice())
        } else if n_edges <= 32 {
            self.m_array_32.make_node_with_edges(self.m_edges.as_slice())
        } else if n_edges <= 64 {
            self.m_array_64.make_node_with_edges(self.m_edges.as_slice())
        } else if n_edges <= 128 {
            self.m_array_128.make_node_with_edges(self.m_edges.as_slice())
        } else {
            self.m_array_256.make_node_with_edges(self.m_edges.as_slice())
        };
        mc.nptr = nptr;
        proof {
            let t = nptr.ntype;
            assert(old(self).arena_free(t).len() > 0 ==> old(self).arena_free(t)[0] == nptr.nid);
            assert(self.arenas() =~= with_new_node(old(self).arenas(), nptr, self.node(nptr)));
            lemma_with_new_node(old(self).arenas(), nptr, self.node(nptr));
        }
    }

    /// Moves the node that the cursor stands on, which is full, from tier
    /// 2 to tier 4, and adds `new_ptr` under `label` there.
    fn expand_2(&mut self, mc: &mut MartCursor, label: u8, new_ptr: &MartPointer, Ghost(
        plabel,
    ): Ghost<u8>) -> (flag: MartInsertFlags)
        requires
            old(self).arenas_wf(),
            old(self).node_room(1),
            old(mc).nptr.ntype == MartNodeTypes::Mart2Node,
            old(self).expandable(*old(mc), label, plabel),
            new_ptr.nid != MART_NILID,
        ensures
            final(self).arenas_wf(),
            old(self).same_rest(*final(self)),
            flag == MartInsertFlags::MartInserted,
            old(self).expanded(*final(self), *old(mc), *final(mc), label, *new_ptr, plabel),
    {
        let ghost before = *self;
        let ghost av = self.arenas();
        let ghost x = mc.nptr;
        let ghost p = mc.pptr;
        let ghost offset = mc.offset as int;
        let ghost pn = self.node(p).with_child_at(offset, MartPointer { nid: 0, ntype: x.ntype });
        proof {
            self.lemma_arenas();
            self.lemma_room();
            self.lemma_slot(p, plabel, offset);
        }
        let nptr = promote_nodes(&mut self.m_array_2, &mut self.m_array_4, mc);
        mc.nptr = nptr;
        let ghost n2 = self.node(nptr);
        let ghost pn = before.node(p).with_child_at(offset, nptr);
        proof {
            assert(self.arenas() =~= with_new_node(without_node(av, x), nptr, n2));
            lemma_moved(av, x, nptr, n2, p, pn, n2);
        }
        self.perform_update_srcptr(mc);
        let flag = self.m_array_4.append_ptr(mc, label, new_ptr);
        proof {
            let n3 = self.node(nptr);
            assert(self.arenas() =~= moved(av, x, nptr, n2, p, pn, n3));
            lemma_moved(av, x, nptr, n2, p, pn, n3);
            assert(self.heap() =~= heap_promoted(before.heap(), x, nptr, p, plabel, label, *new_ptr));
        }
        flag
    }

    /// Adds `ptr` under `label` to the node of tier 2 that the cursor
    /// stands on, unless the label is there; if the node is full it is
    /// moved to tier 4 first.
    fn insert_2(&mut self, mc: &mut MartCursor, label: u8, ptr: &MartPointer, Ghost(
        plabel,
    ): Ghost<u8>) -> (flag: MartInsertFlags)
        requires
            old(self).arenas_wf(),
            old(self).node_room(1),
            old(self).live(old(mc).nptr),
            old(mc).nptr.ntype == MartNodeTypes::Mart2Node,
            ptr.nid != MART_NILID,
            !old(self).node(old(mc).nptr).edges.contains_key(label) ==> old(self).expandable(
                *old(mc),
                label,
                plabel,
            ),
        ensures
            final(self).arenas_wf(),
            old(self).same_rest(*final(self)),
            old(self).insert_result(*final(self), *old(mc), *final(mc), label, *ptr, plabel, flag),
    {
        let ghost before = *self;
        let flag = self.m_array_2.insert_ptr(mc, label, ptr);
        match flag {
            MartInsertFlags::MartNeededToExpand => {
                proof {
                    assert(self.arenas() =~= before.arenas());
                }
                self.expand_2(mc, label, ptr, Ghost(plabel))
            },
            _ => {
                proof {
                    before.lemma_inserted(*self, *old(mc), *mc, label, *ptr, flag);
                }
                flag
            },
        }
    }

    /// Moves the node that the cursor stands on, which is full, from tier
    /// 4 to tier 8, and adds `new_ptr` under `label` there.
    fn expand_4(&mut self, mc: &mut MartCursor, label: u8, new_ptr: &MartPointer, Ghost(
        plabel,
    ): Ghost<u8>) -> (flag: MartInsertFlags)
        requires
            old(self).arenas_wf(),
            old(self).node_room(1),
            old(mc).nptr.ntype == MartNodeTypes::Mart4Node,
            old(self).expandable(*old(mc), label, plabel),
            new_ptr.nid != MART_NILID,
        ensures
            final(self).arenas_wf(),
            old(self).same_rest(*final(self)),
            flag == MartInsertFlags::MartInserted,
            old(self).expanded(*final(self), *old(mc), *final(mc), label, *new_ptr, plabel),
    {
        let ghost before = *self;
        let ghost av = self.arenas();
        let ghost x = mc.nptr;
        let ghost p = mc.pptr;
        let ghost offset = mc.offset as int;
        let ghost pn = self.node(p).with_child_at(offset, MartPointer { nid: 0, ntype: x.ntype });
        proof {
            self.lemma_arenas();
            self.lemma_room();
            self.lemma_slot(p, plabel, offset);
        }
        let nptr = promote_nodes(&mut self.m_array_4, &mut self.m_array_8, mc);
        mc.nptr = nptr;
        let ghost n2 = self.node(nptr);
        let ghost pn = before.node(p).with_child_at(offset, nptr);
        proof {
            assert(self.arenas() =~= with_new_node(without_node(av, x), nptr, n2));
            lemma_moved(av, x, nptr, n2, p, pn, n2);
        }
        self.perform_update_srcptr(mc);
        let flag = self.m_array_8.append_ptr(mc, label, new_ptr);
        proof {
            let n3 = self.node(nptr);
            assert(self.arenas() =~= moved(av, x, nptr, n2, p, pn, n3));
            lemma_moved(av, x, nptr, n2, p, pn, n3);
            assert(self.heap() =~= heap_promoted(before.heap(), x, nptr, p, plabel, label, *new_ptr));
        }
        flag
    }

    /// Adds `ptr` under `label` to the node of tier 4 that the cursor
    /// stands on, unless the label is there; if the node is full it is
    /// moved to tier 8 first.
    fn insert_4(&mut self, mc: &mut MartCursor, label: u8, ptr: &MartPointer, Ghost(
        plabel,
    ): Ghost<u8>) -> (flag: MartInsertFlags)
        requires
            old(self).arenas_wf(),
            old(self).node_room(1),
            old(self).live(old(mc).nptr),
            old(mc).nptr.ntype == MartNodeTypes::Mart4Node,
            ptr.nid != MART_NILID,
            !old(self).node(old(mc).nptr).edges.contains_key(label) ==> old(self).expandable(
                *old(mc),
                label,
                plabel,
            ),
        ensures
            final(self).arenas_wf(),
            old(self).same_rest(*final(self)),
            old(self).insert_result(*final(self), *old(mc), *final(mc), label, *ptr, plabel, flag),
    {
        let ghost before = *self;
        let flag = self.m_array_4.insert_ptr(mc, label, ptr);
        match flag {
            MartInsertFlags::MartNeededToExpand => {
                proof {
                    assert(self.arenas() =~= before.arenas());
                }
                self.expand_4(mc, label, ptr, Ghost(plabel))
            },
            _ => {
                proof {
                    before.lemma_inserted(*self, *old(mc), *mc, label, *ptr, flag);
                }
                flag
            },
        }
    }

    /// Moves the node that the cursor stands on, which is full, from tier
    /// 8 to tier 16, and adds `new_ptr` under `label` there.
    fn expand_8(&mut self, mc: &mut MartCursor, label: u8, new_ptr: &MartPointer, Ghost(
        plabel,
    ): Ghost<u8>) -> (flag: MartInsertFlags)
        requires
            old(self).arenas_wf(),
            old(self).node_room(1),
            old(mc).nptr.ntype == MartNodeTypes::Mart8Node,
            old(self).expandable(*old(mc), label, plabel),
            new_ptr.nid != MART_NILID,
        ensures
            final(self).arenas_wf(),
            old(self).same_rest(*final(self)),
            flag == MartInsertFlags::MartInserted,
            old(self).expanded(*final(self), *old(mc), *final(mc), label, *new_ptr, plabel),
    {
        let ghost before = *self;
        let ghost av = self.arenas();
        let ghost x = mc.nptr;
        let ghost p = mc.pptr;
        let ghost offset = mc.offset as int;
        let ghost pn = self.node(p).with_child_at(offset, MartPointer { nid: 0, ntype: x.ntype });
        proof {
            self.lemma_arenas();
            self.lemma_room();
            self.lemma_slot(p, plabel, offset);
        }
        let nptr = promote_nodes(&mut self.m_array_8, &mut self.m_array_16, mc);
        mc.nptr = nptr;
        let ghost n2 = self.node(nptr);
        let ghost pn = before.node(p).with_child_at(offset, nptr);
        proof {
            assert(self.arenas() =~= with_new_node(without_node(av, x), nptr, n2));
            lemma_moved(av, x, nptr, n2, p, pn, n2);
        }
        self.perform_update_srcptr(mc);
        let flag = self.m_array_16.append_ptr(mc, label, new_ptr);
        proof {
            let n3 = self.node(nptr);
            assert(self.arenas() =~= moved(av, x, nptr, n2, p, pn, n3));
            lemma_moved(av, x, nptr, n2, p, pn, n3);
            assert(self.heap() =~= heap_promoted(before.heap(), x, nptr, p, plabel, label, *new_ptr));
        }
        flag
    }

    /// Adds `ptr` under `label` to the node of tier 8 that the cursor
    /// stands on, unless the label is there; if the node is full it is
    /// moved to tier 16 first.
    fn insert_8(&mut self, mc: &mut MartCursor, label: u8, ptr: &MartPointer, Ghost(
        plabel,
    ): Ghost<u8>) -> (flag: MartInsertFlags)
        requires
            old(self).arenas_wf(),
            old(self).node_room(1),
            old(self).live(old(mc).nptr),
            old(mc).nptr.ntype == MartNodeTypes::Mart8Node,
            ptr.nid != MART_NILID,
            !old(self).node(old(mc).nptr).edges.contains_key(label) ==> old(self).expandable(
                *old(mc),
                label,
                plabel,
            ),
        ensures
            final(self).arenas_wf(),
            old(self).same_rest(*final(self)),
            old(self).insert_result(*final(self), *old(mc), *final(mc), label, *ptr, plabel, flag),
    {
        let ghost before = *self;
        let flag = self.m_array_8.insert_ptr(mc, label, ptr);
        match flag {
            MartInsertFlags::MartNeededToExpand => {
                proof {
                    assert(self.arenas() =~= before.arenas());
                }
                self.expand_8(mc, label, ptr, Ghost(plabel))
            },
            _ => {
                proof {
                    before.lemma_inserted(*self, *old(mc), *mc, label, *ptr, flag);
                }
                flag
            },
        }
    }

    /// Moves the node that the cursor stands on, which is full, from tier
    /// 16 to tier 32, and adds `new_ptr` under `label` there.
    fn expand_16(&mut self, mc: &mut MartCursor, label: u8, new_ptr: &MartPointer, Ghost(
        plabel,
    ): Ghost<u8>) -> (flag: MartInsertFlags)
        requires
            old(self).arenas_wf(),
            old(self).node_room(1),
            old(mc).nptr.ntype == MartNodeTypes::Mart16Node,
            old(self).expandable(*old(mc), label, plabel),
            new_ptr.nid != MART_NILID,
        ensures
            final(self).arenas_wf(),
            old(self).same_rest(*final(self)),
            flag == MartInsertFlags::MartInserted,
            old(self).expanded(*final(self), *old(mc), *final(mc), label, *new_ptr, plabel),
    {
        let ghost before = *self;
        let ghost av = self.arenas();
        let ghost x = mc.nptr;
        let ghost p = mc.pptr;
        let ghost offset = mc.offset as int;
        let ghost pn = self.node(p).with_child_at(offset, MartPointer { nid: 0, ntype: x.ntype });
        proof {
            self.lemma_arenas();
            self.lemma_room();
            self.lemma_slot(p, plabel, offset);
        }
        let nptr = promote_nodes(&mut self.m_array_16, &mut self.m_array_32, mc);
        mc.nptr = nptr;
        let ghost n2 = self.node(nptr);
        let ghost pn = before.node(p).with_child_at(offset, nptr);
        proof {
            assert(self.arenas() =~= with_new_node(without_node(av, x), nptr, n2));
            lemma_moved(av, x, nptr, n2, p, pn, n2);
        }
        self.perform_update_srcptr(mc);
        let flag = self.m_array_32.append_ptr(mc, label, new_ptr);
        proof {
            let n3 = self.node(nptr);
            assert(self.arenas() =~= moved(av, x, nptr, n2, p, pn, n3));
            lemma_moved(av, x, nptr, n2, p, pn, n3);
            assert(self.heap() =~= heap_promoted(before.heap(), x, nptr, p, plabel, label, *new_ptr));
        }
        flag
    }

    /// Adds `ptr` under `label` to the node of tier 16 that the cursor
    /// stands on, unless the label is there; if the node is full it is
    /// moved to tier 32 first.
    fn insert_16(&mut self, mc: &mut MartCursor, label: u8, ptr: &MartPointer, Ghost(
        plabel,
    ): Ghost<u8>) -> (flag: MartInsertFlags)
        requires
            old(self).arenas_wf(),
            old(self).node_room(1),
            old(self).live(old(mc).nptr),
            old(mc).nptr.ntype == MartNodeTypes::Mart16Node,
            ptr.nid != MART_NILID,
            !old(self).node(old(mc).nptr).edges.contains_key(label) ==> old(self).expandable(
                *old(mc),
                label,
                plabel,
            ),
        ensures
            final(self).arenas_wf(),
            old(self).same_rest(*final(self)),
            old(self).insert_result(*final(self), *old(mc), *final(mc), label, *ptr, plabel, flag),
    {
        let ghost before = *self;
        let flag = self.m_array_16.insert_ptr(mc, label, ptr);
        match flag {
            MartInsertFlags::MartNeededToExpand => {
                proof {
                    assert(self.arenas() =~= before.arenas());
                }
                self.expand_16(mc, label, ptr, Ghost(plabel))
            },
            _ => {
                proof {
                    before.lemma_inserted(*self, *old(mc), *mc, label, *ptr, flag);
                }
                flag
            },
        }
    }

    /// Moves the node that the cursor stands on, which is full, from tier
    /// 32 to tier 64, and adds `new_ptr` under `label` there.
    fn expand_32(&mut self, mc: &mut MartCursor, label: u8, new_ptr: &MartPointer, Ghost(
        plabel,
    ): Ghost<u8>) -> (flag: MartInsertFlags)
        requires
            old(self).arenas_wf(),
            old(self).node_room(1),
            old(mc).nptr.ntype == MartNodeTypes::Mart32Node,
            old(self).expandable(*old(mc), label, plabel),
            new_ptr.nid != MART_NILID,
        ensures
            final(self).arenas_wf(),
            old(self).same_rest(*final(self)),
            flag == MartInsertFlags::MartInserted,
            old(self).expanded(*final(self), *old(mc), *final(mc), label, *new_ptr, plabel),
    {
        let ghost before = *self;
        let ghost av = self.arenas();
        let ghost x = mc.nptr;
        let ghost p = mc.pptr;
        let ghost offset = mc.offset as int;
        let ghost pn = self.node(p).with_child_at(offset, MartPointer { nid: 0, ntype: x.ntype });
        proof {
            self.lemma_arenas();
            self.lemma_room();
            self.lemma_slot(p, plabel, offset);
        }
        let nptr = promote_nodes(&mut self.m_array_32, &mut self.m_array_64, mc);
        mc.nptr = nptr;
        let ghost n2 = self.node(nptr);
        let ghost pn = before.node(p).with_child_at(offset, nptr);
        proof {
            assert(self.arenas() =~= with_new_node(without_node(av, x), nptr, n2));
            lemma_moved(av, x, nptr, n2, p, pn, n2);
        }
        self.perform_update_srcptr(mc);
        let flag = self.m_array_64.append_ptr(mc, label, new_ptr);
        proof {
            let n3 = self.node(nptr);
            assert(self.arenas() =~= moved(av, x, nptr, n2, p, pn, n3));
            lemma_moved(av, x, nptr, n2, p, pn, n3);
            assert(self.heap() =~= heap_promoted(before.heap(), x, nptr, p, plabel, label, *new_ptr));
        }
        flag
    }

    /// Adds `ptr` under `label` to the node of tier 32 that the cursor
    /// stands on, unless the label is there; if the node is full it is
    /// moved to tier 64 first.
    fn insert_32(&mut self, mc: &mut MartCursor, label: u8, ptr: &MartPointer, Ghost(
        plabel,
    ): Ghost<u8>) -> (flag: MartInsertFlags)
        requires
            old(self).arenas_wf(),
            old(self).node_room(1),
            old(self).live(old(mc).nptr),
            old(mc).nptr.ntype == MartNodeTypes::Mart32Node,
            ptr.nid != MART_NILID,
            !old(self).node(old(mc).nptr).edges.contains_key(label) ==> old(self).expandable(
                *old(mc),
                label,
                plabel,
            ),
        ensures
            final(self).arenas_wf(),
            old(self).same_rest(*final(self)),
            old(self).insert_result(*final(self), *old(mc), *final(mc), label, *ptr, plabel, flag),
    {
        let ghost before = *self;
        let flag = self.m_array_32.insert_ptr(mc, label, ptr);
        match flag {
            MartInsertFlags::MartNeededToExpand => {
                proof {
                    assert(self.arenas() =~= before.arenas());
                }
                self.expand_32(mc, label, ptr, Ghost(plabel))
            },
            _ => {
                proof {
                    before.lemma_inserted(*self, *old(mc), *mc, label, *ptr, flag);
                }
                flag
            },
        }
    }

    /// Moves the node that the cursor stands on, which is full, from tier
    /// 64 to tier 128, and adds `new_ptr` under `label` there.
    fn expand_64(&mut self, mc: &mut MartCursor, label: u8, new_ptr: &MartPointer, Ghost(
        plabel,
    ): Ghost<u8>) -> (flag: MartInsertFlags)
        requires
            old(self).arenas_wf(),
            old(self).node_room(1),
            old(mc).nptr.ntype == MartNodeTypes::Mart64Node,
            old(self).expandable(*old(mc), label, plabel),
            new_ptr.nid != MART_NILID,
        ensures
            final(self).arenas_wf(),
            old(self).same_rest(*final(self)),
            flag == MartInsertFlags::MartInserted,
            old(self).expanded(*final(self), *old(mc), *final(mc), label, *new_ptr, plabel),
    {
        let ghost before = *self;
        let ghost av = self.arenas();
        let ghost x = mc.nptr;
        let ghost p = mc.pptr;
        let ghost offset = mc.offset as int;
        let ghost pn = self.node(p).with_child_at(offset, MartPointer { nid: 0, ntype: x.ntype });
        proof {
            self.lemma_arenas();
            self.lemma_room();
            self.lemma_slot(p, plabel, offset);
        }
        let nptr = promote_nodes(&mut self.m_array_64, &mut self.m_array_128, mc);
        mc.nptr = nptr;
        let ghost n2 = self.node(nptr);
        let ghost pn = before.node(p).with_child_at(offset, nptr);
        proof {
            assert(self.arenas() =~= with_new_node(without_node(av, x), nptr, n2));
            lemma_moved(av, x, nptr, n2, p, pn, n2);
        }
        self.perform_update_srcptr(mc);
        let flag = self.m_array_128.append_ptr(mc, label, new_ptr);
        proof {
            let n3 = self.node(nptr);
            assert(self.arenas() =~= moved(av, x, nptr, n2, p, pn, n3));
            lemma_moved(av, x, nptr, n2, p, pn, n3);
            assert(self.heap() =~= heap_promoted(before.heap(), x, nptr, p, plabel, label, *new_ptr));
        }
        flag
    }

    /// Adds `ptr` under `label` to the node of tier 64 that the cursor
    /// stands on, unless the label is there; if the node is full it is
    /// moved to tier 128 first.
    fn insert_64(&mut self, mc: &mut MartCursor, label: u8, ptr: &MartPointer, Ghost(
        plabel,
    ): Ghost<u8>) -> (flag: MartInsertFlags)
        requires
            old(self).arenas_wf(),
            old(self).node_room(1),
            old(self).live(old(mc).nptr),
            old(mc).nptr.ntype == MartNodeTypes::Mart64Node,
            ptr.nid != MART_NILID,
            !old(self).node(old(mc).nptr).edges.contains_key(label) ==> old(self).expandable(
                *old(mc),
                label,
                plabel,
            ),
        ensures
            final(self).arenas_wf(),
            old(self).same_rest(*final(self)),
            old(self).insert_result(*final(self), *old(mc), *final(mc), label, *ptr, plabel, flag),
    {
        let ghost before = *self;
        let flag = self.m_array_64.insert_ptr(mc, label, ptr);
        match flag {
            MartInsertFlags::MartNeededToExpand => {
                proof {
                    assert(self.arenas() =~= before.arenas());
                }
                self.expand_64(mc, label, ptr, Ghost(plabel))
            },
            _ => {
                proof {
                    before.lemma_inserted(*self, *old(mc), *mc, label, *ptr, flag);
                }
                flag
            },
        }
    }

    /// Moves the node that the cursor stands on, which is full, from tier
    /// 128 to tier 256, and adds `new_ptr` under `label` there.
    fn expand_128(&mut self, mc: &mut MartCursor, label: u8, new_ptr: &MartPointer, Ghost(
        plabel,
    ): Ghost<u8>) -> (flag: MartInsertFlags)
        requires
            old(self).arenas_wf(),
            old(self).node_room(1),
            old(mc).nptr.ntype == MartNodeTypes::Mart128Node,
            old(self).expandable(*old(mc), label, plabel),
            new_ptr.nid != MART_NILID,
        ensures
            final(self).arenas_wf(),
            old(self).same_rest(*final(self)),
            flag == MartInsertFlags::MartInserted,
            old(self).expanded(*final(self), *old(mc), *final(mc), label, *new_ptr, plabel),
    {
        let ghost before = *self;
        let ghost av = self.arenas();
        let ghost x = mc.nptr;
        let ghost p = mc.pptr;
        let ghost offset = mc.offset as int;
        let ghost pn = self.node(p).with_child_at(offset, MartPointer { nid: 0, ntype: x.ntype });
        proof {
            self.lemma_arenas();
            self.lemma_room();
            self.lemma_slot(p, plabel, offset);
        }
        let nptr = promote_nodes(&mut self.m_array_128, &mut self.m_array_256, mc);
        mc.nptr = nptr;
        let ghost n2 = self.node(nptr);
        let ghost pn = before.node(p).with_child_at(offset, nptr);
        proof {
            assert(self.arenas() =~= with_new_node(without_node(av, x), nptr, n2));
            lemma_moved(av, x, nptr, n2, p, pn, n2);
        }
        self.perform_update_srcptr(mc);
        let flag = self.m_array_256.insert_ptr(mc, label, new_ptr);
        proof {
            let n3 = self.node(nptr);
            assert(self.arenas() =~= moved(av, x, nptr, n2, p, pn, n3));
            lemma_moved(av, x, nptr, n2, p, pn, n3);
            assert(self.heap() =~= heap_promoted(before.heap(), x, nptr, p, plabel, label, *new_ptr));
        }
        flag
    }

    /// Adds `ptr` under `label` to the node of tier 128 that the cursor
    /// stands on, unless the label is there; if the node is full it is
    /// moved to tier 256 first.
    fn insert_128(&mut self, mc: &mut MartCursor, label: u8, ptr: &MartPointer, Ghost(
        plabel,
    ): Ghost<u8>) -> (flag: MartInsertFlags)
        requires
            old(self).arenas_wf(),
            old(self).node_room(1),
            old(self).live(old(mc).nptr),
            old(mc).nptr.ntype == MartNodeTypes::Mart128Node,
            ptr.nid != MART_NILID,
            !old(self).node(old(mc).nptr).edges.contains_key(label) ==> old(self).expandable(
                *old(mc),
                label,
                plabel,
            ),
        ensures
            final(self).arenas_wf(),
            old(self).same_rest(*final(self)),
            old(self).insert_result(*final(self), *old(mc), *final(mc), label, *ptr, plabel, flag),
    {
        let ghost before = *self;
        let flag = self.m_array_128.insert_ptr(mc, label, ptr);
        match flag {
            MartInsertFlags::MartNeededToExpand => {
                proof {
                    assert(self.arenas() =~= before.arenas());
                }
                self.expand_128(mc, label, ptr, Ghost(plabel))
            },
            _ => {
                proof {
                    before.lemma_inserted(*self, *old(mc), *mc, label, *ptr, flag);
                }
                flag
            },
        }
    }

    /// Adds `ptr` under `label` to the node of the widest tier that the
    /// cursor stands on, unless the label is there.
    fn insert_256(&mut self, mc: &mut MartCursor, label: u8, ptr: &MartPointer, Ghost(
        plabel,
    ): Ghost<u8>) -> (flag: MartInsertFlags)
        requires
            old(self).arenas_wf(),
            old(self).live(old(mc).nptr),
            old(mc).nptr.ntype == MartNodeTypes::Mart256Node,
            ptr.nid != MART_NILID,
        ensures
            final(self).arenas_wf(),
            old(self).same_rest(*final(self)),
            old(self).insert_result(*final(self), *old(mc), *final(mc), label, *ptr, plabel, flag),
    {
        let ghost before = *self;
        let flag = self.m_array_256.insert_ptr(mc, label, ptr);
        proof {
            before.lemma_inserted(*self, *old(mc), *mc, label, *ptr, flag);
        }
        flag
    }

    /// The label under which the parent that the cursor knows holds the
    /// node that the cursor stands on: the label of the slot that the
    /// cursor names.
    pub open spec fn parent_label(&self, mc: MartCursor) -> u8 {
        self.node(mc.pptr).label_at(mc.offset as int)
    }

    /// Adds `ptr` under `label` to the node that the cursor stands on,
    /// unless the label is there; a full node is moved to the next tier
    /// first, and its parent is told.
    pub fn perform_insert_ptr(&mut self, mc: &mut MartCursor, label: u8, ptr: &MartPointer) -> (flag:
        MartInsertFlags)
        requires
            old(self).arenas_wf(),
            old(self).node_room(1),
            old(self).live(old(mc).nptr),
            ptr.nid != MART_NILID,
            old(mc).nptr.ntype != MartNodeTypes::Mart256Node && !old(self).node(
                old(mc).nptr,
            ).edges.contains_key(label) ==> old(self).expandable(
                *old(mc),
                label,
                old(self).parent_label(*old(mc)),
            ),
        ensures
            final(self).arenas_wf(),
            old(self).same_rest(*final(self)),
            old(self).insert_result(
                *final(self),
                *old(mc),
                *final(mc),
                label,
                *ptr,
                old(self).parent_label(*old(mc)),
                flag,
            ),
    {
        let ghost plabel = self.parent_label(*mc);
        match mc.ntype() {
            MartNodeTypes::Mart2Node => self.insert_2(mc, label, ptr, Ghost(plabel)),
            MartNodeTypes::Mart4Node => self.insert_4(mc, label, ptr, Ghost(plabel)),
            MartNodeTypes::Mart8Node => self.insert_8(mc, label, ptr, Ghost(plabel)),
            MartNodeTypes::Mart16Node => self.insert_16(mc, label, ptr, Ghost(plabel)),
            MartNodeTypes::Mart32Node => self.insert_32(mc, label, ptr, Ghost(plabel)),
            MartNodeTypes::Mart64Node => self.insert_64(mc, label, ptr, Ghost(plabel)),
            MartNodeTypes::Mart128Node => self.insert_128(mc, label, ptr, Ghost(plabel)),
            MartNodeTypes::Mart256Node => self.insert_256(mc, label, ptr, Ghost(plabel)),
            _ => {
                assert(false);
                MartInsertFlags::MartFound
            },
        }
    }

    /// The edges of node `ptr` that the search may follow from `label`
    /// within `radius`: all edges of a node of a tier up to 32, and of
    /// a wider node those under the labels in range within `radius`, each
    /// edge once.
    pub fn perform_inner_scan(&self, ptr: MartPointer, radius: u8, label: u8) -> (r: Vec<MartEdge>)
        requires
            self.arenas_wf(),
            self.live(ptr),
            self.m_tables.wf(),
            radius <= ipc_of(self.m_tables.spec_bits()),
        ensures
            scan_sound(self.node(ptr).edges, r@),
            r@.len() <= 256,
            forall|l: u8|
                self.node(ptr).edges.contains_key(l) && l < label_count(
                    self.m_tables.spec_bits(),
                ) && label < label_count(self.m_tables.spec_bits()) && label_distance(
                    self.m_tables.spec_bits(),
                    label,
                    l,
                ) <= radius ==> #[trigger] scan_has(r@, l),
            distinct_labels(r@),
            fanout_of(ptr.ntype) <= 32 ==> edges_map(r@) == self.node(ptr).edges,
            fanout_of(ptr.ntype) > 32 ==> forall|i: int|
                0 <= i < r@.len() ==> label_distance(
                    self.m_tables.spec_bits(),
                    label,
                    (#[trigger] r@[i]).label,
                ) <= radius,
    {
        let r = match ptr.ntype() {
            MartNodeTypes::Mart2Node => self.m_array_2.linear_scan(ptr.nid()),
            MartNodeTypes::Mart4Node => self.m_array_4.linear_scan(ptr.nid()),
            MartNodeTypes::Mart8Node => self.m_array_8.linear_scan(ptr.nid()),
            MartNodeTypes::Mart16Node => self.m_array_16.linear_scan(ptr.nid()),
            MartNodeTypes::Mart32Node => self.m_array_32.linear_scan(ptr.nid()),
            MartNodeTypes::Mart64Node => brute_force(&self.m_array_64, ptr, label, radius, &self.m_tables),
            MartNodeTypes::Mart128Node => brute_force(&self.m_array_128, ptr, label, radius, &self.m_tables),
            MartNodeTypes::Mart256Node => brute_force(&self.m_array_256, ptr, label, radius, &self.m_tables),
            _ => Vec::new(),
        };
        proof {
            lemma_edges_map(r@);
            if fanout_of(ptr.ntype) <= 32 {
                assert forall|l: u8| self.node(ptr).edges.contains_key(l) implies #[trigger] scan_has(
                    r@,
                    l,
                ) by {
                    let j = choose|j: int| 0 <= j < r@.len() && (#[trigger] r@[j]).label == l;
                }
                assert forall|j: int| 0 <= j < r@.len() implies self.node(ptr).edges.contains_key(
                    (#[trigger] r@[j]).label,
                ) && self.node(ptr).edges[r@[j].label] == r@[j].ptr by {}
            }
        }
        r
    }
}

} // verus!
