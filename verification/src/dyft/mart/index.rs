//! Taking a sketch into the trie.

use crate::dyft::bit_tools::bits::bit8;
use crate::dyft::bit_tools::vcode_array::VCodeArray;
use crate::dyft::bit_tools::vcode_tools::{words, VCodeTools};
use crate::dyft::byte_pack::{labels_spec, lemma_pack_bit, pack_spec, BytePack};
use crate::dyft::constants::tables::{ipc_of, label_count, lemma_label_range};
use crate::dyft::mart::dispatch::{heap_inserted, heap_promoted, next_tier};
use crate::dyft::mart::model::{is_prefix, leaf_ptr, TrieModel};
use crate::dyft::mart::structure::MartIndex;
use crate::dyft::node::common::{
    MartCursor, MartInsertFlags, MartNodeTypes, MartPointer, MART_NILID,
};
use crate::dyft::sparse::sparse_group::lists_extended;
use vstd::prelude::*;

verus! {

/// How the trie grew when a sketch was taken in.
pub enum Growth {
    /// A leaf was there.
    Found,
    /// A leaf was added to a node.
    Added,
    /// Node `x`, the child of `p` under `plabel`, moved to the next tier,
    /// and a leaf was added to it there.
    Moved { x: MartPointer, p: MartPointer, plabel: u8 },
}

/// A label of a sketch is in range.
pub proof fn lemma_pack_in_range(x: Seq<u64>, bits: nat, bpos: nat)
    requires
        1 <= bits <= 8,
    ensures
        pack_spec(x, ipc_of(bits) as nat, bits, bpos) < label_count(bits),
{
    let ipc = ipc_of(bits) as nat;
    assert(ipc * bits <= 8) by (nonlinear_arith)
        requires
            ipc == 8int / (bits as int),
            1 <= bits,
    ;
    let l = pack_spec(x, ipc, bits, bpos);
    assert forall|t: nat| (8nat / bits) * bits <= t implies !#[trigger] bit8(l, t) by {
        lemma_pack_bit(x, ipc, bits, bpos, t);
    }
    lemma_label_range(bits, l);
}

impl MartIndex {
    /// The labels of a sketch: one for each byte position of the trie.
    pub open spec fn labels_of(&self, x: Seq<u64>) -> Seq<u8> {
        labels_spec(
            x,
            ipc_of(self.m_bits as nat) as nat,
            self.m_bits as nat,
            self.m_begin as nat,
            self.m_end as nat,
        )
    }

    /// The sketches that were taken in are the first sketches of
    /// `database`, which has as many vertical words per sketch as the
    /// trie.
    pub open spec fn consistent<T: VCodeTools>(&self, database: &VCodeArray<T>) -> bool {
        &&& database.wf()
        &&& database.spec_bits() == self.m_bits
        &&& self.db@.len() <= database.spec_size()
        &&& forall|id: int|
            0 <= id < self.db@.len() ==> #[trigger] self.db@[id] == self.labels_of(
                words(database.sketch(id)),
            )
    }

    /// The labels of a sketch are as many as the trie is wide, and in
    /// range.
    pub proof fn lemma_labels(&self, x: Seq<u64>)
        requires
            self.config_wf(),
        ensures
            self.labels_of(x).len() == self.width(),
            forall|j: int|
                0 <= j < self.labels_of(x).len() ==> (#[trigger] self.labels_of(x)[j])
                    < label_count(self.m_bits as nat),
    {
        assert forall|j: int| 0 <= j < self.labels_of(x).len() implies (#[trigger] self.labels_of(
            x,
        )[j]) < label_count(self.m_bits as nat) by {
            lemma_pack_in_range(x, self.m_bits as nat, (self.m_begin + j) as nat);
        }
    }

    /// How many positions of a sketch go into one label.
    pub fn ints_per_chunk(&self) -> (r: usize)
        requires
            self.config_wf(),
        ensures
            r == ipc_of(self.m_bits as nat),
            1 <= r <= 8,
            r * self.m_bits <= 8,
    {
        let r = 8 / self.m_bits;
        assert(r * self.m_bits <= 8 && 1 <= r) by (nonlinear_arith)
            requires
                r == 8int / (self.m_bits as int),
                1 <= self.m_bits <= 8,
        ;
        r
    }

    /// The labels of a sketch.
    pub fn byte_pack_iter<T: VCodeTools>(&self, vcode: &[T]) -> (r: Vec<u8>)
        requires
            self.config_wf(),
            self.m_bits <= vcode@.len(),
        ensures
            r@ == self.labels_of(words(vcode@)),
    {
        let ipc = self.ints_per_chunk();
        BytePack::<T>::pack_iter(vcode, self.m_begin, self.m_end, self.m_bits, ipc)
    }

    /// The label of a sketch at byte position `bpos`.
    pub fn byte_pack_bit_pos<T: VCodeTools>(&self, vcode: &[T], bpos: usize) -> (r: u8)
        requires
            self.config_wf(),
            self.m_bits <= vcode@.len(),
            bpos < self.m_end,
        ensures
            r == pack_spec(
                words(vcode@),
                ipc_of(self.m_bits as nat) as nat,
                self.m_bits as nat,
                bpos as nat,
            ),
    {
        let ipc = self.ints_per_chunk();
        assert(bpos * ipc + ipc <= self.m_end * ipc) by (nonlinear_arith)
            requires
                bpos < self.m_end,
                ipc >= 0,
        ;
        BytePack::<T>::pack(vcode, ipc, self.m_bits, bpos)
    }

    /// The depth, in positions of a sketch, of a leaf that was reached at
    /// byte position `byte_pos`.
    pub fn depth(&self, byte_pos: usize) -> (r: usize)
        requires
            self.config_wf(),
            self.m_begin < byte_pos <= self.m_end,
        ensures
            r == ipc_of(self.m_bits as nat) * (byte_pos - self.m_begin - 1),
    {
        let ipc = self.ints_per_chunk();
        assert(ipc * (byte_pos - self.m_begin - 1) <= self.m_end * ipc) by (nonlinear_arith)
            requires
                self.m_begin < byte_pos <= self.m_end,
                ipc >= 0,
        ;
        ipc * (byte_pos - self.m_begin - 1)
    }

    /// The id of the next sketch.
    fn inc_id(&mut self) -> (id: u32)
        requires
            old(self).m_ids < u32::MAX,
        ensures
            id == old(self).m_ids,
            final(self).m_ids == old(self).m_ids + 1,
            final(self).arenas() == old(self).arenas(),
            final(self).m_postings_list == old(self).m_postings_list,
            final(self).paths == old(self).paths,
            final(self).leaf_paths == old(self).leaf_paths,
            final(self).db == old(self).db,
            final(self).same_config(*old(self)),
            final(self).arenas_wf() == old(self).arenas_wf(),
            final(self).m_split_count == old(self).m_split_count,
            final(self).m_max_depth == old(self).m_max_depth,
    {
        let id = self.m_ids;
        self.m_ids = self.m_ids + 1;
        id
    }

    /// The settings and counters are those of `other`.
    pub open spec fn same_config(&self, other: Self) -> bool {
        &&& self.m_rootptr == other.m_rootptr
        &&& self.m_splitthreshold == other.m_splitthreshold
        &&& self.m_radius == other.m_radius
        &&& self.m_errors == other.m_errors
        &&& self.m_tables == other.m_tables
        &&& self.m_bits == other.m_bits
        &&& self.m_end == other.m_end
        &&& self.m_begin == other.m_begin
    }

    /// The cursor stands on a node in use at depth `i` on the way of
    /// `labels`, and knows the parent of that node and the slot that
    /// leads to it.
    pub open spec fn cursor_ok(&self, mc: MartCursor, labels: Seq<u8>, i: int) -> bool {
        &&& self.live(mc.nptr)
        &&& self.paths@[mc.nptr] == labels.subrange(0, i)
        &&& i == 0 ==> mc.nptr == self.m_rootptr
        &&& i > 0 ==> self.parent_ok(mc, labels[i - 1]) && self.paths@[mc.pptr] == labels.subrange(
            0,
            i - 1,
        )
    }

    /// The node `mc.pptr` is in use and has the node or leaf `mc.nptr` as
    /// its child under `l`, in slot `mc.offset`.
    pub open spec fn parent_ok(&self, mc: MartCursor, l: u8) -> bool {
        &&& self.live(mc.pptr)
        &&& mc.pptr != mc.nptr
        &&& self.node(mc.pptr).edges.contains_key(l)
        &&& self.node(mc.pptr).edges[l] == mc.nptr
        &&& self.node(mc.pptr).slot_of[l] == mc.offset
    }

    /// What walking down the way of `labels` and adding a leaf where the
    /// way ends comes to.
    pub open spec fn walked(
        &self,
        after: Self,
        labels: Seq<u8>,
        mc: MartCursor,
        ptr: MartPointer,
        pos: int,
        growth: Growth,
    ) -> bool {
        let l = labels[pos - 1];
        &&& 1 <= pos <= labels.len()
        &&& mc.nptr.ntype == MartNodeTypes::MartLeafNode
        &&& after.parent_ok(mc, l)
        &&& after.grown_by(*self, 1)
        &&& match growth {
            Growth::Found => {
                &&& after.arenas() == self.arenas()
                &&& after.m_postings_list == self.m_postings_list
                &&& self.paths@[mc.pptr] == labels.subrange(0, pos - 1)
            },
            Growth::Added => {
                &&& mc.nptr == ptr
                &&& self.live(mc.pptr)
                &&& !self.full_node(mc.pptr)
                &&& !self.node(mc.pptr).edges.contains_key(l)
                &&& self.paths@[mc.pptr] == labels.subrange(0, pos - 1)
                &&& after.heap() == heap_inserted(self.heap(), mc.pptr, l, ptr)
                &&& after.m_postings_list@ == self.m_postings_list@.push(None)
                &&& after.m_postings_list.total() == self.m_postings_list.total()
            },
            Growth::Moved { x, p, plabel } => {
                &&& mc.nptr == ptr
                &&& self.live(x)
                &&& self.live(p)
                &&& !self.live(mc.pptr)
                &&& mc.pptr.ntype.is_inner()
                &&& self.full_node(x)
                &&& mc.pptr.ntype == next_tier(x.ntype)
                &&& self.node(p).edges.contains_key(plabel)
                &&& self.node(p).edges[plabel] == x
                &&& !self.node(x).edges.contains_key(l)
                &&& self.paths@[x] == labels.subrange(0, pos - 1)
                &&& after.heap() == heap_promoted(self.heap(), x, mc.pptr, p, plabel, l, ptr)
                &&& after.m_postings_list@ == self.m_postings_list@.push(None)
                &&& after.m_postings_list.total() == self.m_postings_list.total()
            },
        }
    }

    /// Walks down the way of `labels` from the root until a leaf is found
    /// or a label is missing; there a leaf is added, with an empty posting
    /// list. Returns the byte position after the last label used.
    fn iter_append(&mut self, labels: &Vec<u8>, mc: &mut MartCursor, ptr: MartPointer) -> (r: (
        usize,
        Ghost<Growth>,
    ))
        requires
            old(self).config_wf(),
            old(self).arenas_wf(),
            old(self).m_postings_list.wf(),
            old(self).model().wf(),
            old(self).node_room(1),
            old(self).m_postings_list@.len() < u32::MAX,
            old(mc).nptr == old(self).m_rootptr,
            labels@.len() == old(self).width(),
            ptr == leaf_ptr(old(self).m_postings_list@.len() as u32),
        ensures
            final(self).arenas_wf(),
            final(self).m_postings_list.wf(),
            final(self).same_config(*old(self)),
            final(self).m_ids == old(self).m_ids,
            final(self).paths == old(self).paths,
            final(self).leaf_paths == old(self).leaf_paths,
            final(self).db == old(self).db,
            final(self).m_split_count == old(self).m_split_count,
            final(self).m_max_depth == old(self).m_max_depth,
            old(self).m_begin < r.0 <= old(self).m_end,
            old(self).walked(
                *final(self),
                labels@,
                *final(mc),
                ptr,
                r.0 - old(self).m_begin,
                r.1@,
            ),
    {
        let ghost before = *self;
        let ghost m = self.model();
        let w = labels.len();
        let mut i: usize = 0;
        proof {
            assert(labels@.subrange(0, 0) =~= Seq::<u8>::empty());
            self.lemma_arenas();
        }
        loop
            invariant
                i < w,
                before == *old(self),
                w == labels@.len(),
                w == before.width(),
                before.config_wf(),
                before.model().wf(),
                before.node_room(1),
                before.m_postings_list@.len() < u32::MAX,
                before.m_postings_list.wf(),
                m == before.model(),
                self.arenas_wf(),
                before.same_rest(*self),
                self.arenas() == before.arenas(),
                ptr == leaf_ptr(before.m_postings_list@.len() as u32),
                self.cursor_ok(*mc, labels@, i as int),
            decreases w - i,
        {
            let label = labels[i];
            let ghost plabel = if i > 0 {
                labels@[i - 1]
            } else {
                0u8
            };
            let ghost mc0 = *mc;
            let ghost mid = *self;
            proof {
                if mc.nptr.ntype != MartNodeTypes::Mart256Node && !self.node(
                    mc.nptr,
                ).edges.contains_key(label) {
                    assert(self.expandable(*mc, label, plabel));
                    self.lemma_slot(mc.pptr, plabel, mc.offset as int);
                    assert(self.parent_label(*mc) == plabel);
                }
            }
            let flag = self.perform_insert_ptr(mc, label, &ptr);
            match flag {
                MartInsertFlags::MartInserted => {
                    let ghost s1 = *self;
                    self.m_postings_list.push();
                    let ghost growth = if !mid.full_node(mc0.nptr) {
                        Growth::Added
                    } else {
                        Growth::Moved { x: mc0.nptr, p: mc0.pptr, plabel }
                    };
                    proof {
                        assert(self.arenas() =~= s1.arenas());
                        assert(mid.heap() == before.heap());
                        assert(labels@.subrange(0, i + 1 - 1) =~= labels@.subrange(0, i as int));
                    }
                    return (self.m_begin + i + 1, Ghost(growth));
                },
                _ => {
                    proof {
                        assert(mid.inserted(*self, mc0, *mc, label, ptr, flag));
                        assert(m.heap.contains_key(mc0.nptr));
                        m.lemma_child(mc0.nptr, label);
                        assert(labels@.subrange(0, i as int).push(label) =~= labels@.subrange(
                            0,
                            i + 1,
                        ));
                    }
                    if mc.is_leaf() {
                        return (self.m_begin + i + 1, Ghost(Growth::Found));
                    }
                    i = i + 1;
                },
            }
        }
    }

    /// Where the way of `labels` ends after the sketch was taken in: at the
    /// leaf that the cursor stands on, which holds the id of the sketch.
    pub open spec fn landed(&self, labels: Seq<u8>, mc: MartCursor, byte_pos: int) -> bool {
        let pos = byte_pos - self.m_begin;
        &&& 1 <= pos <= labels.len()
        &&& mc.nptr.ntype == MartNodeTypes::MartLeafNode
        &&& mc.nptr.nid < self.m_postings_list@.len()
        &&& self.leaf_paths@[mc.nptr.nid] == labels.subrange(0, pos)
        &&& self.parent_ok(mc, labels[pos - 1])
        &&& self.model().holds(mc.nptr.nid, (self.m_ids - 1) as u32)
    }

    /// The paths of the nodes after the trie grew.
    pub open spec fn grown_paths(&self, growth: Growth, x2: MartPointer) -> Map<
        MartPointer,
        Seq<u8>,
    > {
        match growth {
            Growth::Moved { x, p, plabel } => self.paths@.remove(x).insert(x2, self.paths@[x]),
            _ => self.paths@,
        }
    }

    /// The paths of the leaves after the trie grew by leaf `k` under label
    /// `l`, if it grew by a leaf.
    pub open spec fn grown_leaf_paths(&self, growth: Growth, x2: MartPointer, k: u32, l: u8) -> Map<
        u32,
        Seq<u8>,
    > {
        match growth {
            Growth::Found => self.leaf_paths@,
            Growth::Added => self.leaf_paths@.insert(k, self.paths@[x2].push(l)),
            Growth::Moved { x, p, plabel } => self.leaf_paths@.insert(k, self.paths@[x].push(l)),
        }
    }

    /// What is common to the ways in which the trie grows by a sketch.
    pub open spec fn grows(
        &self,
        mid: Self,
        after: Self,
        growth: Growth,
        labels: Seq<u8>,
        mc: MartCursor,
        pos: int,
    ) -> bool {
        &&& self.wf()
        &&& self.m_ids < u32::MAX
        &&& self.m_postings_list@.len() < u32::MAX
        &&& labels.len() == self.width()
        &&& forall|j: int|
            0 <= j < labels.len() ==> (#[trigger] labels[j]) < label_count(self.m_bits as nat)
        &&& after.arenas_wf()
        &&& after.m_postings_list.wf()
        &&& after.same_config(*self)
        &&& after.m_ids == self.m_ids + 1
        &&& after.m_split_count == self.m_split_count
        &&& self.walked(mid, labels, mc, leaf_ptr(self.m_postings_list@.len() as u32), pos, growth)
        &&& mid.arenas() == after.arenas()
        &&& mid.m_postings_list.wf()
        &&& mc.nptr.nid < mid.m_postings_list@.len()
        &&& after.m_postings_list@ == lists_extended(
            mid.m_postings_list@,
            mc.nptr.nid as int,
            seq![self.m_ids],
        )
        &&& after.m_postings_list.total() == mid.m_postings_list.total() + 1
        &&& after.paths@ == self.grown_paths(growth, mc.pptr)
        &&& after.leaf_paths@ == self.grown_leaf_paths(
            growth,
            mc.pptr,
            mc.nptr.nid,
            labels[pos - 1],
        )
        &&& after.db@ == self.db@.push(labels)
    }

    /// The trie after the id of a sketch was added to a leaf that was
    /// there.
    proof fn lemma_grown_found(
        &self,
        mid: Self,
        after: Self,
        labels: Seq<u8>,
        mc: MartCursor,
        pos: int,
    )
        requires
            self.grows(mid, after, Growth::Found, labels, mc, pos),
        ensures
            after.model() == self.model().with_posting(mc.nptr.nid, labels),
            after.model().wf(),
            after.landed(labels, mc, pos + self.m_begin),
    {
        let m = self.model();
        let k = mc.nptr.nid;
        let l = labels[pos - 1];
        let x2 = mc.pptr;
        let new_id = self.m_ids;
        assert(labels.subrange(0, pos - 1).push(l) =~= labels.subrange(0, pos));
        assert(m.heap.contains_key(x2));
        m.lemma_child(x2, l);
        assert(m.posting_ok(k));
        m.lemma_with_posting(k, labels);
        let want = m.with_posting(k, labels);
        assert(m.postings[k as int]->0 + seq![new_id] =~= m.postings[k as int]->0.push(new_id));
        assert(after.model().postings =~= want.postings);
        assert(after.model().heap =~= want.heap);
        assert(after.parent_ok(mc, l));
        assert(after.leaf_paths@[k] == labels.subrange(0, pos));
        let list = after.m_postings_list@[k as int]->0;
        assert(list[list.len() - 1] == new_id);
        assert(after.model().holds(k, new_id));
    }

    /// The trie after a leaf with the id of a sketch was added to a node.
    proof fn lemma_grown_added(
        &self,
        mid: Self,
        after: Self,
        labels: Seq<u8>,
        mc: MartCursor,
        pos: int,
    )
        requires
            self.grows(mid, after, Growth::Added, labels, mc, pos),
        ensures
            after.model() == self.model().with_leaf(mc.pptr, labels[pos - 1], labels),
            after.model().wf(),
            after.landed(labels, mc, pos + self.m_begin),
    {
        let m = self.model();
        let l = labels[pos - 1];
        let x2 = mc.pptr;
        let new_id = self.m_ids;
        assert(labels.subrange(0, pos - 1).push(l) =~= labels.subrange(0, pos));
        m.lemma_with_leaf(x2, l, labels);
        let want = m.with_leaf(x2, l, labels);
        assert(Seq::<u32>::empty() + seq![new_id] =~= seq![new_id]);
        assert(after.model().postings =~= want.postings);
        assert(after.model().heap =~= want.heap);
        let k = mc.nptr.nid;
        assert(after.parent_ok(mc, l));
        assert(after.leaf_paths@[k] == labels.subrange(0, pos));
        let list = after.m_postings_list@[k as int]->0;
        assert(list[list.len() - 1] == new_id);
        assert(after.model().holds(k, new_id));
    }

    /// The trie after a node moved to the next tier and got a leaf with
    /// the id of a sketch.
    proof fn lemma_grown_moved(
        &self,
        mid: Self,
        after: Self,
        labels: Seq<u8>,
        mc: MartCursor,
        pos: int,
        x: MartPointer,
        p: MartPointer,
        plabel: u8,
    )
        requires
            self.grows(mid, after, Growth::Moved { x, p, plabel }, labels, mc, pos),
        ensures
            after.model() == self.model().promoted(x, mc.pptr, p, plabel).with_leaf(
                mc.pptr,
                labels[pos - 1],
                labels,
            ),
            after.model().wf(),
            after.landed(labels, mc, pos + self.m_begin),
    {
        let m = self.model();
        let l = labels[pos - 1];
        let x2 = mc.pptr;
        let new_id = self.m_ids;
        after.lemma_arenas();
        assert(after.live(x2));
        assert(labels.subrange(0, pos - 1).push(l) =~= labels.subrange(0, pos));
        m.lemma_promoted(x, x2, p, plabel);
        let m1 = m.promoted(x, x2, p, plabel);
        m1.lemma_with_leaf(x2, l, labels);
        let want = m1.with_leaf(x2, l, labels);
        assert(Seq::<u32>::empty() + seq![new_id] =~= seq![new_id]);
        assert(after.model().postings =~= want.postings);
        assert(p != x2);
        assert(m1.heap[x2] == m.heap[x]);
        assert(after.model().heap =~= want.heap);
        let k = mc.nptr.nid;
        assert(after.parent_ok(mc, l));
        assert(after.leaf_paths@[k] == labels.subrange(0, pos));
        let list = after.m_postings_list@[k as int]->0;
        assert(list[list.len() - 1] == new_id);
        assert(after.model().holds(k, new_id));
    }

    /// The trie after a sketch was taken in is in order, and the sketch is
    /// where its way ends.
    pub proof fn lemma_grown(
        &self,
        mid: Self,
        after: Self,
        growth: Growth,
        labels: Seq<u8>,
        mc: MartCursor,
        pos: int,
    )
        requires
            self.grows(mid, after, growth, labels, mc, pos),
        ensures
            after.wf(),
            after.landed(labels, mc, pos + self.m_begin),
            after.grown_by(*self, 1),
            after.m_postings_list@.len() <= self.m_postings_list@.len() + 1,
    {
        let k = mc.nptr.nid;
        let l = labels[pos - 1];
        assert(labels.subrange(0, pos - 1).push(l) =~= labels.subrange(0, pos));
        match growth {
            Growth::Found => {
                self.lemma_grown_found(mid, after, labels, mc, pos);
            },
            Growth::Added => {
                self.lemma_grown_added(mid, after, labels, mc, pos);
            },
            Growth::Moved { x, p, plabel } => {
                self.lemma_grown_moved(mid, after, labels, mc, pos, x, p, plabel);
            },
        }
    }

    /// Takes in the sketch with the labels `labels` under the next id: its
    /// id is added to the leaf on its way, or to a new leaf where the way
    /// ends. Returns the byte position after the last label used.
    pub fn insert_sketch(&mut self, labels: &Vec<u8>, mc: &mut MartCursor) -> (byte_pos: usize)
        requires
            old(self).wf(),
            old(self).node_room(1),
            old(self).m_postings_list@.len() < u32::MAX,
            old(self).m_ids < u32::MAX,
            labels@.len() == old(self).width(),
            forall|j: int|
                0 <= j < labels@.len() ==> (#[trigger] labels@[j]) < label_count(
                    old(self).m_bits as nat,
                ),
        ensures
            final(self).wf(),
            final(self).same_config(*old(self)),
            final(self).db@ == old(self).db@.push(labels@),
            final(self).m_split_count == old(self).m_split_count,
            final(self).m_max_depth == old(self).m_max_depth,
            final(self).grown_by(*old(self), 1),
            final(self).m_postings_list@.len() <= old(self).m_postings_list@.len() + 1,
            final(self).m_ids == old(self).m_ids + 1,
            final(self).landed(labels@, *final(mc), byte_pos as int),
            old(self).took_in(*final(self), labels@, *final(mc), byte_pos as int),
    {
        let ghost before = *self;
        let ghost m = self.model();
        let new_id = self.inc_id();
        *mc = MartCursor::from_next(&self.m_rootptr);
        let ptr = MartPointer::leaf(self.m_postings_list.size());
        proof {
            assert(self.arenas() =~= before.arenas());
            assert(self.model().heap =~= m.heap);
        }
        let ghost s0 = *self;
        let (byte_pos, Ghost(growth)) = self.iter_append(labels, mc, ptr);
        let leaf_pos = mc.nptr.nid();
        let ghost mid = *self;
        let ghost pos = byte_pos - self.m_begin;
        let ghost l = labels@[pos - 1];
        let ghost x2 = mc.pptr;
        let ghost k = leaf_pos;
        proof {
            before.lemma_arenas();
            self.lemma_arenas();
            assert(labels@.subrange(0, pos - 1).push(l) =~= labels@.subrange(0, pos));
            if growth is Found {
                assert(self.arenas() =~= before.arenas());
                assert(m.heap.contains_key(x2));
                m.lemma_child(x2, l);
                assert(m.posting_ok(k));
            }
        }
        self.m_postings_list.insert(leaf_pos, new_id);
        proof {
            self.paths@ = before.grown_paths(growth, x2);
            self.leaf_paths@ = before.grown_leaf_paths(growth, x2, k, l);
            self.db@ = before.db@.push(labels@);
            assert(self.arenas() =~= mid.arenas());
            assert(s0.walked(mid, labels@, *mc, ptr, pos, growth));
            assert(s0.heap() =~= before.heap());
            assert(before.walked(mid, labels@, *mc, ptr, pos, growth));
            before.lemma_grown(mid, *self, growth, labels@, *mc, pos);
            assert(before.grows(mid, *self, growth, labels@, *mc, byte_pos - before.m_begin));
        }
        byte_pos
    }

    /// The trie took in the sketch with the labels `labels` under the next
    /// id, and the cursor `mc` stands on the leaf that holds it, whose
    /// path ends before the byte position `byte_pos`: the way of the
    /// labels was walked from the root; where it came to a leaf, the id
    /// was added to the list of that leaf; where a label was missing, a
    /// leaf with the next free leaf id was added under that label, to the
    /// node itself if it had room and else to a node of the next tier
    /// that took its place, and the id is the list of that leaf.
    pub open spec fn took_in(&self, after: Self, labels: Seq<u8>, mc: MartCursor, byte_pos: int) -> bool {
        exists|mid: Self, growth: Growth| #[trigger]
            self.grows(mid, after, growth, labels, mc, byte_pos - self.m_begin)
    }
}

} // verus!
