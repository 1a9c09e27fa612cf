//! The byte vector of one arena, seen as a sequence of nodes of equal
//! size.

use crate::dyft::node::common::{
    lemma_nil_bytes, lemma_ptr_round_trip, nil_nid_bytes, ptr_bytes, ptr_of_bytes, MartCursor,
    MartPointer, MART_NILID, MART_PTR_SIZE,
};
use crate::dyft::node::traits::{layout_ok, MartOffsets};
use core::marker::PhantomData;
use vstd::prelude::*;
use vstd::slice::slice_subrange;

verus! {

/// A node as it is made: header 0, every other byte 0xFF.
pub open spec fn fresh_node(bytes: nat) -> Seq<u8> {
    Seq::new(
        bytes,
        |i: int|
            if i == 0 {
                0u8
            } else {
                0xFFu8
            },
    )
}

/// The reference stored at byte `pos` of a node, unless its id bytes are
/// all 0xFF.
pub open spec fn stored_ptr(node: Seq<u8>, pos: int) -> Option<MartPointer> {
    let s = node.subrange(pos, pos + 5);
    if nil_nid_bytes(s) {
        None
    } else {
        Some(ptr_of_bytes(s))
    }
}

/// The node with the reference `p` stored at byte `pos`.
pub open spec fn with_ptr(node: Seq<u8>, pos: int, p: MartPointer) -> Seq<u8> {
    let b = ptr_bytes(p);
    node.update(pos, b[0]).update(pos + 1, b[1]).update(pos + 2, b[2]).update(pos + 3, b[3]).update(
        pos + 4,
        b[4],
    )
}

/// What a node holds after a reference was stored in it: that reference at
/// its place, every byte elsewhere as before.
pub proof fn lemma_with_ptr(node: Seq<u8>, pos: int, p: MartPointer)
    requires
        0 <= pos,
        pos + 5 <= node.len(),
    ensures
        with_ptr(node, pos, p).len() == node.len(),
        stored_ptr(with_ptr(node, pos, p), pos) == if p.nid == MART_NILID {
            None
        } else {
            Some(p)
        },
        forall|i: int|
            0 <= i < node.len() && !(pos <= i < pos + 5) ==> with_ptr(node, pos, p)[i] == node[i],
        forall|q: int|
            0 <= q && q + 5 <= node.len() && (q + 5 <= pos || pos + 5 <= q) ==> stored_ptr(
                with_ptr(node, pos, p),
                q,
            ) == stored_ptr(node, q),
{
    let new = with_ptr(node, pos, p);
    lemma_ptr_round_trip(p);
    assert(new.subrange(pos, pos + 5) =~= ptr_bytes(p));
    assert forall|q: int|
        0 <= q && q + 5 <= node.len() && (q + 5 <= pos || pos + 5 <= q) implies stored_ptr(new, q)
        == stored_ptr(node, q) by {
        assert(new.subrange(q, q + 5) =~= node.subrange(q, q + 5));
    }
}

/// Node `i` ends where node `i + 1` begins, and before any later node.
pub proof fn lemma_node_ranges(b: int, i: int, j: int)
    by (nonlinear_arith)
    requires
        0 <= i < j,
        0 <= b,
    ensures
        0 <= i * b,
        i * b + b <= j * b,
{
}

/// A byte vector of `c` whole nodes has `c` nodes.
pub proof fn lemma_node_count(len: int, b: int, c: int)
    by (nonlinear_arith)
    requires
        b >= 1,
        c >= 0,
        len == c * b,
    ensures
        len / b == c,
        (len + b) / b == c + 1,
        len + b == (c + 1) * b,
{
}

pub struct MartVec<T: MartOffsets> {
    pub m_nodes: Vec<u8>,
    pub t_phantom: PhantomData<T>,
}

impl<T: MartOffsets> View for MartVec<T> {
    type V = Seq<Seq<u8>>;

    /// The nodes, each as its bytes.
    open spec fn view(&self) -> Seq<Seq<u8>> {
        Seq::new(
            self.m_nodes@.len() / T::spec_bytes(),
            |i: int| self.m_nodes@.subrange(i * T::spec_bytes(), i * T::spec_bytes() + T::spec_bytes()),
        )
    }
}

impl<T: MartOffsets> MartVec<T> {
    /// The layout is in order and the bytes are whole nodes, no more than
    /// a node id can name.
    pub open spec fn wf(&self) -> bool {
        &&& layout_ok::<T>()
        &&& self.m_nodes@.len() == self@.len() * T::spec_bytes()
        &&& self@.len() <= u32::MAX
    }

    /// Every node has the size that the layout gives.
    pub proof fn lemma_nodes(&self)
        requires
            self.wf(),
        ensures
            forall|i: int| 0 <= i < self@.len() ==> (#[trigger] self@[i]).len() == T::spec_bytes(),
    {
        let b = T::spec_bytes() as int;
        assert forall|i: int| 0 <= i < self@.len() implies (#[trigger] self@[i]).len() == b by {
            if i + 1 < self@.len() {
                lemma_node_ranges(b, i, i + 1);
                lemma_node_ranges(b, i + 1, self@.len() as int);
            } else {
                lemma_node_ranges(b, i, i + 1);
            }
        }
    }

    /// Node `i` lies within the bytes.
    pub proof fn lemma_node_bounds(&self, i: int)
        requires
            self.wf(),
            0 <= i < self@.len(),
        ensures
            0 <= i * T::spec_bytes(),
            i * T::spec_bytes() + T::spec_bytes() <= self.m_nodes@.len(),
    {
        let b = T::spec_bytes() as int;
        lemma_node_ranges(b, i, i + 1);
        if i + 1 < self@.len() {
            lemma_node_ranges(b, i + 1, self@.len() as int);
        }
    }

    /// The vector after byte `off` of node `nid` was set to `v`.
    proof fn lemma_write(&self, now: Self, nid: int, off: int, v: u8)
        requires
            self.wf(),
            0 <= nid < self@.len(),
            0 <= off < T::spec_bytes(),
            now.m_nodes@ == self.m_nodes@.update(nid * T::spec_bytes() + off, v),
        ensures
            now.wf(),
            now@ == self@.update(nid, self@[nid].update(off, v)),
    {
        let b = T::spec_bytes() as int;
        self.lemma_node_bounds(nid);
        assert forall|i: int| 0 <= i < self@.len() implies #[trigger] now@[i] == self@.update(
            nid,
            self@[nid].update(off, v),
        )[i] by {
            self.lemma_node_bounds(i);
            if i < nid {
                lemma_node_ranges(b, i, nid);
            } else if nid < i {
                lemma_node_ranges(b, nid, i);
            }
            if i == nid {
                assert(now@[i] =~= self@[nid].update(off, v));
            } else {
                assert(now@[i] =~= self@[i]);
            }
        }
        assert(now@ =~= self@.update(nid, self@[nid].update(off, v)));
    }

    pub fn new(n: usize) -> (r: Self)
        requires
            layout_ok::<T>(),
        ensures
            r.wf(),
            r@ == Seq::<Seq<u8>>::empty(),
    {
        let r = Self { m_nodes: Vec::with_capacity(n), t_phantom: PhantomData };
        proof {
            lemma_node_count(0, T::spec_bytes() as int, 0);
            assert(r@ =~= Seq::<Seq<u8>>::empty());
        }
        r
    }

    /// Number of nodes.
    pub fn len(&self) -> (r: usize)
        requires
            self.wf(),
        ensures
            r == self@.len(),
    {
        self.m_nodes.len() / T::bytes()
    }

    /// Index of the first byte of node `node_id`.
    pub fn header_index(&self, node_id: u32) -> (r: usize)
        requires
            self.wf(),
            node_id < self@.len(),
        ensures
            r == node_id * T::spec_bytes(),
            r + T::spec_bytes() <= self.m_nodes@.len(),
            r + T::spec_bytes() <= usize::MAX,
    {
        proof {
            self.lemma_node_bounds(node_id as int);
        }
        let len = self.m_nodes.len();
        (node_id as usize) * T::bytes()
    }

    /// Index of the first byte of stored reference `child` of node
    /// `node_id`.
    pub fn ptr_index(&self, node_id: u32, child: usize) -> (r: usize)
        requires
            self.wf(),
            node_id < self@.len(),
            child < T::spec_slots(),
        ensures
            r == node_id * T::spec_bytes() + T::spec_ptrs_offset() + 5 * child,
            r + 5 <= self.m_nodes@.len(),
    {
        T::ptrs_offset() + self.header_index(node_id) + child * MART_PTR_SIZE
    }

    /// Byte `off` of node `node_id`.
    pub fn read(&self, node_id: u32, off: usize) -> (r: u8)
        requires
            self.wf(),
            node_id < self@.len(),
            off < T::spec_bytes(),
        ensures
            r == self@[node_id as int][off as int],
    {
        let idx = self.header_index(node_id) + off;
        self.m_nodes[idx]
    }

    /// Sets byte `off` of node `node_id`.
    pub fn write(&mut self, node_id: u32, off: usize, v: u8)
        requires
            old(self).wf(),
            node_id < old(self)@.len(),
            off < T::spec_bytes(),
        ensures
            final(self).wf(),
            final(self)@ == old(self)@.update(
                node_id as int,
                old(self)@[node_id as int].update(off as int, v),
            ),
    {
        let ghost before = *self;
        let idx = self.header_index(node_id) + off;
        self.m_nodes.set(idx, v);
        proof {
            before.lemma_write(*self, node_id as int, off as int, v);
        }
    }

    /// The bytes of node `node_id`.
    pub fn node(&self, node_id: u32) -> (r: &[u8])
        requires
            self.wf(),
            node_id < self@.len(),
        ensures
            r@ == self@[node_id as int],
    {
        let start = self.header_index(node_id);
        slice_subrange(self.m_nodes.as_slice(), start, start + T::bytes())
    }

    /// The bytes of node `node_id` after its header.
    pub fn node_without_header(&self, node_id: u32) -> (r: &[u8])
        requires
            self.wf(),
            node_id < self@.len(),
        ensures
            r@ == self@[node_id as int].subrange(1, T::spec_bytes() as int),
    {
        let start = self.header_index(node_id) + 1;
        let r = slice_subrange(self.m_nodes.as_slice(), start, start + (T::bytes() - 1));
        assert(r@ =~= self@[node_id as int].subrange(1, T::spec_bytes() as int));
        r
    }

    /// All bytes of the arena.
    pub fn bytes(&self) -> (r: &[u8])
        ensures
            r@ == self.m_nodes@,
    {
        self.m_nodes.as_slice()
    }

    /// The labels of a node of the sparse layout: the `K` bytes after its
    /// header.
    pub fn byte_labels_slice(&self, node_id: u32) -> (r: &[u8])
        requires
            self.wf(),
            node_id < self@.len(),
            T::spec_ptrs_offset() == 1 + T::spec_k(),
        ensures
            r@ == self@[node_id as int].subrange(1, 1 + T::spec_k() as int),
    {
        let start = self.header_index(node_id) + 1;
        let r = slice_subrange(self.m_nodes.as_slice(), start, start + T::k());
        assert(r@ =~= self@[node_id as int].subrange(1, 1 + T::spec_k() as int));
        r
    }

    /// The id that the next new node gets.
    pub fn next_node_id(&self) -> (r: u32)
        requires
            self.wf(),
        ensures
            r == self@.len(),
    {
        (self.m_nodes.len() / T::bytes()) as u32
    }

    /// Appends a node: header 0, every other byte 0xFF.
    pub fn create_node(&mut self) -> (r: u32)
        requires
            old(self).wf(),
            old(self)@.len() < u32::MAX,
        ensures
            final(self).wf(),
            r == old(self)@.len(),
            final(self)@ == old(self)@.push(fresh_node(T::spec_bytes())),
    {
        let node_id = self.next_node_id();
        let ghost before = *self;
        let b = T::bytes();
        self.m_nodes.push(0);
        let mut i: usize = 1;
        while i < b
            invariant
                1 <= i <= b,
                b == T::spec_bytes(),
                self.m_nodes@.len() == before.m_nodes@.len() + i,
                self.m_nodes@.subrange(0, before.m_nodes@.len() as int) == before.m_nodes@,
                forall|k: int|
                    0 <= k < i ==> self.m_nodes@[before.m_nodes@.len() + k] == fresh_node(
                        b as nat,
                    )[k],
            decreases b - i,
        {
            let ghost prev = self.m_nodes@;
            self.m_nodes.push(0xFF);
            assert(self.m_nodes@.subrange(0, before.m_nodes@.len() as int) =~= prev.subrange(
                0,
                before.m_nodes@.len() as int,
            ));
            i = i + 1;
        }
        proof {
            let bi = b as int;
            let c = before@.len() as int;
            lemma_node_count(before.m_nodes@.len() as int, bi, c);
            assert(self@.len() == c + 1);
            assert forall|k: int| 0 <= k < c + 1 implies #[trigger] self@[k] == before@.push(
                fresh_node(b as nat),
            )[k] by {
                if k < c {
                    before.lemma_node_bounds(k);
                    let prefix = self.m_nodes@.subrange(0, before.m_nodes@.len() as int);
                    assert forall|j: int| 0 <= j < bi implies #[trigger] self@[k][j]
                        == before@[k][j] by {
                        assert(prefix[k * bi + j] == before.m_nodes@[k * bi + j]);
                    }
                    assert(self@[k] =~= before@[k]);
                } else {
                    assert(self@[k] =~= fresh_node(b as nat));
                }
            }
            assert(self@ =~= before@.push(fresh_node(b as nat)));
        }
        node_id
    }

    /// The header of node `node_id`: the number of its children.
    pub fn header(&self, node_id: u32) -> (r: u8)
        requires
            self.wf(),
            node_id < self@.len(),
        ensures
            r == self@[node_id as int][0],
    {
        self.read(node_id, 0)
    }

    /// Sets the header of node `node_id`.
    pub fn set_header(&mut self, node_id: u32, v: u8)
        requires
            old(self).wf(),
            node_id < old(self)@.len(),
        ensures
            final(self).wf(),
            final(self)@ == old(self)@.update(
                node_id as int,
                old(self)@[node_id as int].update(0, v),
            ),
    {
        self.write(node_id, 0, v)
    }

    /// Adds one to the header of node `node_id`; 255 is followed by 0.
    pub fn header_inc(&mut self, node_id: u32)
        requires
            old(self).wf(),
            node_id < old(self)@.len(),
        ensures
            final(self).wf(),
            final(self)@ == old(self)@.update(
                node_id as int,
                old(self)@[node_id as int].update(
                    0,
                    if old(self)@[node_id as int][0] == 255 {
                        0u8
                    } else {
                        (old(self)@[node_id as int][0] + 1) as u8
                    },
                ),
            ),
    {
        let h = self.header(node_id);
        self.set_header(node_id, h.wrapping_add(1));
    }

    /// Stored reference `idx` of node `node_id`, unless its id bytes are
    /// all 0xFF.
    pub fn ptr(&self, node_id: u32, idx: usize) -> (r: Option<MartPointer>)
        requires
            self.wf(),
            node_id < self@.len(),
            idx < T::spec_slots(),
        ensures
            r == stored_ptr(self@[node_id as int], T::spec_ptrs_offset() + 5 * idx),
    {
        proof {
            self.lemma_nodes();
        }
        let off = T::ptrs_offset() + idx * MART_PTR_SIZE;
        let raw: [u8; 5] = [
            self.read(node_id, off),
            self.read(node_id, off + 1),
            self.read(node_id, off + 2),
            self.read(node_id, off + 3),
            self.read(node_id, off + 4),
        ];
        assert(raw@ =~= self@[node_id as int].subrange(off as int, off + 5));
        if raw[0] == 0xFF && raw[1] == 0xFF && raw[2] == 0xFF && raw[3] == 0xFF {
            None
        } else {
            Some(MartPointer::from_raw(&raw))
        }
    }

    /// Stores `ptr` as reference `idx` of node `node_id`.
    pub fn set_ptr(&mut self, node_id: u32, idx: usize, ptr: &MartPointer)
        requires
            old(self).wf(),
            node_id < old(self)@.len(),
            idx < T::spec_slots(),
        ensures
            final(self).wf(),
            final(self)@ == old(self)@.update(
                node_id as int,
                with_ptr(old(self)@[node_id as int], T::spec_ptrs_offset() + 5 * idx, *ptr),
            ),
    {
        let ghost before = self@;
        proof {
            self.lemma_nodes();
        }
        let off = T::ptrs_offset() + idx * MART_PTR_SIZE;
        let raw = ptr.to_raw();
        self.write(node_id, off, raw[0]);
        self.write(node_id, off + 1, raw[1]);
        self.write(node_id, off + 2, raw[2]);
        self.write(node_id, off + 3, raw[3]);
        self.write(node_id, off + 4, raw[4]);
        assert(self@ =~= before.update(
            node_id as int,
            with_ptr(before[node_id as int], off as int, *ptr),
        ));
    }

    /// Stores the node that the cursor stands on into the slot of its
    /// parent from which it was reached.
    pub fn update_src(&mut self, mc: &MartCursor)
        requires
            old(self).wf(),
            mc.pptr.nid < old(self)@.len(),
            mc.offset < T::spec_slots(),
        ensures
            final(self).wf(),
            final(self)@ == old(self)@.update(
                mc.pptr.nid as int,
                with_ptr(
                    old(self)@[mc.pptr.nid as int],
                    T::spec_ptrs_offset() + 5 * mc.offset,
                    mc.nptr,
                ),
            ),
    {
        self.set_ptr(mc.pptr.nid(), mc.offset, mc.nptr());
    }
}

} // verus!
