//! The nodes of an arena that are not in use, as a circular doubly linked
//! list threaded through their first eight bytes: four of the id of the
//! previous free node, four of the next.

use crate::dyft::node::common::{nid_of_bytes, MartCursor, MartPointer};
use crate::dyft::node::mart_labels::ByteLabels;
use crate::dyft::node::mart_vec::{fresh_node, stored_ptr, with_ptr, MartVec};
use crate::dyft::node::traits::MartOffsets;
use vstd::prelude::*;

verus! {

/// Offset of the link to the previous free node.
pub const PREV_LINK: usize = 0;

/// Offset of the link to the next free node.
pub const NEXT_LINK: usize = 4;

/// The node id stored at byte `off` of a node.
#[verifier::opaque]
pub open spec fn link_at(node: Seq<u8>, off: int) -> u32 {
    nid_of_bytes(node[off], node[off + 1], node[off + 2], node[off + 3])
}

/// The node with the id `v` stored at byte `off`.
#[verifier::opaque]
pub open spec fn with_link(node: Seq<u8>, off: int, v: u32) -> Seq<u8> {
    node.update(off, (v % 0x100) as u8).update(off + 1, ((v / 0x100) % 0x100) as u8).update(
        off + 2,
        ((v / 0x1_0000) % 0x100) as u8,
    ).update(off + 3, (v / 0x100_0000) as u8)
}

/// A node whose bytes are all 0xFF.
pub open spec fn blank_node(bytes: nat) -> Seq<u8> {
    Seq::new(bytes, |i: int| 0xFFu8)
}

/// Index of the successor of entry `i` in a circle of `n`.
pub open spec fn next_index(i: int, n: int) -> int {
    if i + 1 == n {
        0
    } else {
        i + 1
    }
}

/// Index of the predecessor of entry `i` in a circle of `n`.
pub open spec fn prev_index(i: int, n: int) -> int {
    if i == 0 {
        n - 1
    } else {
        i - 1
    }
}

/// The free nodes `free`, each once and in this order, are linked into a
/// circle through their bytes.
#[verifier::opaque]
pub open spec fn links_ok(nodes: Seq<Seq<u8>>, free: Seq<u32>) -> bool {
    &&& free.no_duplicates()
    &&& forall|i: int| 0 <= i < free.len() ==> (#[trigger] free[i]) < nodes.len()
    &&& forall|i: int|
        0 <= i < free.len() ==> link_at(nodes[(#[trigger] free[i]) as int], 4) == free[next_index(
            i,
            free.len() as int,
        )]
    &&& forall|i: int|
        0 <= i < free.len() ==> link_at(nodes[(#[trigger] free[i]) as int], 0) == free[prev_index(
            i,
            free.len() as int,
        )]
}

/// What storing a link changes: that link, and nothing else in the node.
pub proof fn lemma_with_link(node: Seq<u8>, off: int, v: u32)
    requires
        off == 0 || off == 4,
        node.len() >= 8,
    ensures
        with_link(node, off, v).len() == node.len(),
        link_at(with_link(node, off, v), off) == v,
        link_at(with_link(node, off, v), 4 - off) == link_at(node, 4 - off),
        forall|i: int| 8 <= i < node.len() ==> with_link(node, off, v)[i] == node[i],
{
    reveal(link_at);
    reveal(with_link);
}

/// The nodes after the id `v` was stored at byte `off` of node `x`.
pub open spec fn set_link(nodes: Seq<Seq<u8>>, x: u32, off: int, v: u32) -> Seq<Seq<u8>> {
    nodes.update(x as int, with_link(nodes[x as int], off, v))
}

/// What storing a link changes among the nodes: that link of that node.
pub proof fn lemma_set_link(nodes: Seq<Seq<u8>>, x: u32, off: int, v: u32)
    requires
        off == 0 || off == 4,
        x < nodes.len(),
        nodes[x as int].len() >= 8,
    ensures
        set_link(nodes, x, off, v).len() == nodes.len(),
        set_link(nodes, x, off, v)[x as int].len() == nodes[x as int].len(),
        link_at(set_link(nodes, x, off, v)[x as int], off) == v,
        link_at(set_link(nodes, x, off, v)[x as int], 4 - off) == link_at(nodes[x as int], 4 - off),
        forall|y: int|
            0 <= y < nodes.len() && y != x ==> #[trigger] set_link(nodes, x, off, v)[y] == nodes[y],
{
    lemma_with_link(nodes[x as int], off, v);
}

/// The circle after node `value` was linked in at its end.
pub proof fn lemma_push_links(n0: Seq<Seq<u8>>, f0: Seq<u32>, value: u32, n4: Seq<Seq<u8>>)
    requires
        links_ok(n0, f0),
        f0.len() > 0,
        value < n0.len(),
        !f0.contains(value),
        forall|i: int| 0 <= i < n0.len() ==> (#[trigger] n0[i]).len() >= 8,
        n4 == set_link(
            set_link(
                set_link(set_link(n0, value, 0, f0[f0.len() - 1]), value, 4, f0[0]),
                f0[f0.len() - 1],
                4,
                value,
            ),
            f0[0],
            0,
            value,
        ),
    ensures
        links_ok(n4, f0.push(value)),
        n4.len() == n0.len(),
        forall|j: int|
            0 <= j < n0.len() && j != value && j != f0[0] && j != f0[f0.len() - 1] ==> n4[j]
                == n0[j],
{
    reveal(links_ok);
    let n = f0.len() as int;
    let head = f0[0];
    let tail = f0[n - 1];
    let n1 = set_link(n0, value, 0, tail);
    let n2 = set_link(n1, value, 4, head);
    let n3 = set_link(n2, tail, 4, value);
    lemma_set_link(n0, value, 0, tail);
    lemma_set_link(n1, value, 4, head);
    lemma_set_link(n2, tail, 4, value);
    lemma_set_link(n3, head, 0, value);
    assert(f0.contains(head));
    assert(f0.contains(tail));
    let f1 = f0.push(value);
    assert(f1.no_duplicates()) by {
        assert forall|i: int, j: int| 0 <= i < f1.len() && 0 <= j < f1.len() && i != j implies f1[i]
            != f1[j] by {
            if i < n {
                assert(f0.contains(f0[i]));
            }
            if j < n {
                assert(f0.contains(f0[j]));
            }
        }
    }
    assert forall|i: int| 0 <= i < f1.len() implies link_at(n4[(#[trigger] f1[i]) as int], 4)
        == f1[next_index(i, f1.len() as int)] by {
        if i < n {
            assert(f0.contains(f0[i]));
            assert(link_at(n0[f0[i] as int], 4) == f0[next_index(i, n)]);
            if i < n - 1 {
                assert(f0[i] != f0[n - 1]);
            }
        }
    }
    assert forall|i: int| 0 <= i < f1.len() implies link_at(n4[(#[trigger] f1[i]) as int], 0)
        == f1[prev_index(i, f1.len() as int)] by {
        if i < n {
            assert(f0.contains(f0[i]));
            assert(link_at(n0[f0[i] as int], 0) == f0[prev_index(i, n)]);
            if 0 < i {
                assert(f0[i] != f0[0]);
            }
        }
    }
}

/// The circle after its first node was unlinked.
pub proof fn lemma_pop_links(n0: Seq<Seq<u8>>, f0: Seq<u32>, n2: Seq<Seq<u8>>)
    requires
        links_ok(n0, f0),
        f0.len() >= 2,
        forall|i: int| 0 <= i < n0.len() ==> (#[trigger] n0[i]).len() >= 8,
        n2 == set_link(set_link(n0, f0[1], 0, f0[f0.len() - 1]), f0[f0.len() - 1], 4, f0[1]),
    ensures
        links_ok(n2, f0.drop_first()),
        n2.len() == n0.len(),
        forall|j: int|
            0 <= j < n0.len() && j != f0[1] && j != f0[f0.len() - 1] ==> n2[j] == n0[j],
{
    reveal(links_ok);
    let n = f0.len() as int;
    let next = f0[1];
    let tail = f0[n - 1];
    let n1 = set_link(n0, next, 0, tail);
    lemma_set_link(n0, next, 0, tail);
    lemma_set_link(n1, tail, 4, next);
    let f1 = f0.drop_first();
    assert(f1.no_duplicates()) by {
        assert forall|i: int, j: int| 0 <= i < f1.len() && 0 <= j < f1.len() && i != j implies f1[i]
            != f1[j] by {
            assert(f0[i + 1] != f0[j + 1]);
        }
    }
    assert forall|i: int| 0 <= i < f1.len() implies link_at(n2[(#[trigger] f1[i]) as int], 4)
        == f1[next_index(i, f1.len() as int)] by {
        assert(f1[i] == f0[i + 1]);
        assert(link_at(n0[f0[i + 1] as int], 4) == f0[next_index(i + 1, n)]);
        if i + 1 < n - 1 {
            assert(f0[i + 1] != f0[n - 1]);
        }
    }
    assert forall|i: int| 0 <= i < f1.len() implies link_at(n2[(#[trigger] f1[i]) as int], 0)
        == f1[prev_index(i, f1.len() as int)] by {
        assert(f1[i] == f0[i + 1]);
        assert(link_at(n0[f0[i + 1] as int], 0) == f0[prev_index(i + 1, n)]);
        if i + 1 > 1 {
            assert(f0[i + 1] != f0[1]);
        }
    }
}

/// A circle stays a circle when nodes outside it change.
pub proof fn lemma_links_frame(n0: Seq<Seq<u8>>, n1: Seq<Seq<u8>>, f: Seq<u32>)
    requires
        links_ok(n0, f),
        n1.len() >= n0.len(),
        forall|i: int| 0 <= i < f.len() ==> n1[(#[trigger] f[i]) as int] == n0[f[i] as int],
    ensures
        links_ok(n1, f),
{
    reveal(links_ok);
}

/// No more nodes are free than there are.
pub proof fn lemma_free_count(f: Seq<u32>, len: nat)
    requires
        f.no_duplicates(),
        forall|i: int| 0 <= i < f.len() ==> (#[trigger] f[i]) < len,
    ensures
        f.len() <= len,
{
    let g = Seq::new(f.len(), |i: int| f[i] as int);
    assert(g.no_duplicates()) by {
        assert forall|i: int, j: int| 0 <= i < g.len() && 0 <= j < g.len() && i != j implies g[i]
            != g[j] by {
            assert(f[i] != f[j]);
        }
    }
    assert forall|i: int| 0 <= i < g.len() implies 0 <= #[trigger] g[i] < len by {
        assert(f[i] < len);
    }
    crate::dyft::node::model::lemma_distinct_bounded(g, len as int);
}

/// What a circle says of its first node.
pub proof fn lemma_links_head(nodes: Seq<Seq<u8>>, f: Seq<u32>)
    requires
        links_ok(nodes, f),
    ensures
        f.no_duplicates(),
        forall|i: int| 0 <= i < f.len() ==> (#[trigger] f[i]) < nodes.len(),
        f.len() > 0 ==> link_at(nodes[f[0] as int], 0) == f[f.len() - 1],
        f.len() > 1 ==> link_at(nodes[f[0] as int], 4) == f[1] && f[1] != f[0] && f[f.len() - 1]
            != f[0],
        f.len() == 1 ==> link_at(nodes[f[0] as int], 4) == f[0],
        forall|i: int|
            0 <= i < f.len() - 1 ==> link_at(nodes[(#[trigger] f[i]) as int], 4) == f[i + 1],
{
    reveal(links_ok);
}

/// A circle of one node, linked to itself, and the empty circle.
pub proof fn lemma_links_small(nodes: Seq<Seq<u8>>, v: u32)
    requires
        v < nodes.len(),
        nodes[v as int].len() >= 8,
    ensures
        links_ok(nodes, Seq::<u32>::empty()),
        links_ok(set_link(set_link(nodes, v, 0, v), v, 4, v), seq![v]),
{
    reveal(links_ok);
    lemma_set_link(nodes, v, 0, v);
    lemma_set_link(set_link(nodes, v, 0, v), v, 4, v);
}

pub struct EmptyNodes<T: MartOffsets> {
    /// The first free node.
    pub m_head_nid: Option<u32>,
    /// Number of free nodes.
    pub m_num_empty: usize,
    /// The free nodes in the order of the circle, from the first.
    pub free: Ghost<Seq<u32>>,
    pub inner: ByteLabels<T>,
}

impl<T: MartOffsets> EmptyNodes<T> {
    /// The nodes of the arena, each as its bytes.
    pub open spec fn nodes(&self) -> Seq<Seq<u8>> {
        self.inner.inner@
    }

    /// The free nodes, in the order in which they will be handed out.
    pub open spec fn free_list(&self) -> Seq<u32> {
        self.free@
    }

    /// Whether node `nid` exists and is in use.
    pub open spec fn live(&self, nid: u32) -> bool {
        nid < self.nodes().len() && !self.free@.contains(nid)
    }

    /// The bytes are whole nodes of at least eight bytes, the free nodes
    /// form a circle, and head and count agree with it.
    pub open spec fn wf(&self) -> bool {
        &&& self.inner.inner.wf()
        &&& T::spec_bytes() >= 8
        &&& links_ok(self.nodes(), self.free@)
        &&& self.m_num_empty == self.free@.len()
        &&& self.m_head_nid == if self.free@.len() > 0 {
            Some(self.free@[0])
        } else {
            None
        }
    }

    pub fn new(inner: ByteLabels<T>) -> (r: Self)
        ensures
            r.inner == inner,
            r.free_list() == Seq::<u32>::empty(),
            r.m_head_nid is None,
            r.m_num_empty == 0,
    {
        Self { m_head_nid: None, m_num_empty: 0, free: Ghost(Seq::empty()), inner }
    }

    /// The first free node, if there is one.
    pub fn head(&self) -> (r: Option<u32>)
        ensures
            r == self.m_head_nid,
    {
        self.m_head_nid
    }

    /// Number of free nodes.
    pub fn num_empty(&self) -> (r: usize)
        ensures
            r == self.m_num_empty,
    {
        self.m_num_empty
    }

    /// The node id stored at byte `off` of node `node_id`.
    fn node_ref(&self, node_id: u32, off: usize) -> (r: u32)
        requires
            self.inner.inner.wf(),
            T::spec_bytes() >= 8,
            node_id < self.nodes().len(),
            off == 0 || off == 4,
        ensures
            r == link_at(self.nodes()[node_id as int], off as int),
    {
        let b0 = self.inner.inner.read(node_id, off);
        let b1 = self.inner.inner.read(node_id, off + 1);
        let b2 = self.inner.inner.read(node_id, off + 2);
        let b3 = self.inner.inner.read(node_id, off + 3);
        proof {
            reveal(link_at);
        }
        (b0 as u32) + 0x100 * (b1 as u32) + 0x1_0000 * (b2 as u32) + 0x100_0000 * (b3 as u32)
    }

    /// Stores the node id `value` at byte `off` of node `node_id`.
    fn set_node_ref(&mut self, node_id: u32, off: usize, value: u32)
        requires
            old(self).inner.inner.wf(),
            T::spec_bytes() >= 8,
            node_id < old(self).nodes().len(),
            off == 0 || off == 4,
        ensures
            final(self).inner.inner.wf(),
            final(self).m_head_nid == old(self).m_head_nid,
            final(self).m_num_empty == old(self).m_num_empty,
            final(self).free == old(self).free,
            final(self).nodes() == old(self).nodes().update(
                node_id as int,
                with_link(old(self).nodes()[node_id as int], off as int, value),
            ),
    {
        let ghost before = self.nodes();
        self.inner.inner.write(node_id, off, (value % 0x100) as u8);
        self.inner.inner.write(node_id, off + 1, ((value / 0x100) % 0x100) as u8);
        self.inner.inner.write(node_id, off + 2, ((value / 0x1_0000) % 0x100) as u8);
        self.inner.inner.write(node_id, off + 3, (value / 0x100_0000) as u8);
        proof {
            reveal(with_link);
        }
        assert(self.nodes() =~= before.update(
            node_id as int,
            with_link(before[node_id as int], off as int, value),
        ));
    }

    /// The free node before `node_id` in the circle, unless that is
    /// `node_id` itself.
    fn prev_ref(&self, node_id: u32) -> (r: Option<u32>)
        requires
            self.inner.inner.wf(),
            T::spec_bytes() >= 8,
            node_id < self.nodes().len(),
        ensures
            r == Self::map_node_ref(link_at(self.nodes()[node_id as int], 0), node_id),
    {
        let v = self.node_ref(node_id, PREV_LINK);
        if v == node_id {
            None
        } else {
            Some(v)
        }
    }

    /// The free node after `node_id` in the circle, unless that is
    /// `node_id` itself.
    fn next_ref(&self, node_id: u32) -> (r: Option<u32>)
        requires
            self.inner.inner.wf(),
            T::spec_bytes() >= 8,
            node_id < self.nodes().len(),
        ensures
            r == Self::map_node_ref(link_at(self.nodes()[node_id as int], 4), node_id),
    {
        let v = self.node_ref(node_id, NEXT_LINK);
        if v == node_id {
            None
        } else {
            Some(v)
        }
    }

    /// A link, unless it leads back to the node that holds it.
    pub open spec fn map_node_ref(link: u32, node_id: u32) -> Option<u32> {
        if link == node_id {
            None
        } else {
            Some(link)
        }
    }

    fn set_prev_ref(&mut self, node_id: u32, prev_node_id: u32)
        requires
            old(self).inner.inner.wf(),
            T::spec_bytes() >= 8,
            node_id < old(self).nodes().len(),
        ensures
            final(self).inner.inner.wf(),
            final(self).m_head_nid == old(self).m_head_nid,
            final(self).m_num_empty == old(self).m_num_empty,
            final(self).free == old(self).free,
            final(self).nodes() == old(self).nodes().update(
                node_id as int,
                with_link(old(self).nodes()[node_id as int], 0, prev_node_id),
            ),
    {
        self.set_node_ref(node_id, PREV_LINK, prev_node_id)
    }

    fn set_next_ref(&mut self, node_id: u32, next_node_id: u32)
        requires
            old(self).inner.inner.wf(),
            T::spec_bytes() >= 8,
            node_id < old(self).nodes().len(),
        ensures
            final(self).inner.inner.wf(),
            final(self).m_head_nid == old(self).m_head_nid,
            final(self).m_num_empty == old(self).m_num_empty,
            final(self).free == old(self).free,
            final(self).nodes() == old(self).nodes().update(
                node_id as int,
                with_link(old(self).nodes()[node_id as int], 4, next_node_id),
            ),
    {
        self.set_node_ref(node_id, NEXT_LINK, next_node_id)
    }

    /// Sets every byte of node `node_id` to 0xFF.
    fn reset_node(&mut self, node_id: u32)
        requires
            old(self).inner.inner.wf(),
            node_id < old(self).nodes().len(),
        ensures
            final(self).inner.inner.wf(),
            final(self).m_head_nid == old(self).m_head_nid,
            final(self).m_num_empty == old(self).m_num_empty,
            final(self).free == old(self).free,
            final(self).nodes() == old(self).nodes().update(
                node_id as int,
                blank_node(T::spec_bytes()),
            ),
    {
        let ghost before = self.nodes();
        let b = T::bytes();
        let mut i: usize = 0;
        proof {
            self.inner.inner.lemma_nodes();
        }
        while i < b
            invariant
                i <= b,
                b == T::spec_bytes(),
                self.inner.inner.wf(),
                node_id < before.len(),
                before[node_id as int].len() == b,
                self.m_head_nid == old(self).m_head_nid,
                self.m_num_empty == old(self).m_num_empty,
                self.free == old(self).free,
                self.nodes().len() == before.len(),
                forall|j: int|
                    0 <= j < before.len() && j != node_id ==> self.nodes()[j] == before[j],
                self.nodes()[node_id as int].len() == b,
                forall|k: int| 0 <= k < i ==> self.nodes()[node_id as int][k] == 0xFFu8,
            decreases b - i,
        {
            self.inner.inner.write(node_id, i, 0xFF);
            i = i + 1;
        }
        assert(self.nodes()[node_id as int] =~= blank_node(T::spec_bytes()));
        assert(self.nodes() =~= before.update(node_id as int, blank_node(T::spec_bytes())));
    }

    /// Puts node `value` at the end of the free nodes.
    pub fn empty_node_push(&mut self, value: u32)
        requires
            old(self).wf(),
            old(self).live(value),
        ensures
            final(self).wf(),
            final(self).free_list() == old(self).free_list().push(value),
            final(self).nodes().len() == old(self).nodes().len(),
            forall|j: u32|
                old(self).live(j) && j != value ==> final(self).nodes()[j as int] == old(self).nodes()[j as int],
    {
        let ghost n0 = self.nodes();
        let ghost f0 = self.free@;
        let ghost n = f0.len() as int;
        proof {
            self.inner.inner.lemma_nodes();
            lemma_links_head(n0, f0);
        }
        match self.m_head_nid {
            Some(head) => {
                let prev = match self.prev_ref(head) {
                    Some(p) => p,
                    None => head,
                };
                self.set_prev_ref(value, prev);
                self.set_next_ref(value, head);
                self.set_next_ref(prev, value);
                self.set_prev_ref(head, value);
                proof {
                    lemma_push_links(n0, f0, value, self.nodes());
                    assert(f0.contains(f0[0]));
                    assert(f0.contains(f0[n - 1]));
                    assert(f0.push(value)[0] == f0[0]);
                    lemma_links_head(self.nodes(), f0.push(value));
                }
            },
            None => {
                self.set_prev_ref(value, value);
                self.set_next_ref(value, value);
                self.m_head_nid = Some(value);
                proof {
                    lemma_links_small(n0, value);
                    assert(f0.push(value) =~= seq![value]);
                    lemma_links_head(self.nodes(), f0.push(value));
                }
            },
        }
        proof {
            lemma_free_count(f0.push(value), n0.len());
        }
        self.m_num_empty = self.m_num_empty + 1;
        self.free = Ghost(f0.push(value));
    }

    /// Takes the first free node out of the circle and sets all its bytes
    /// to 0xFF.
    pub fn empty_node_pop(&mut self) -> (r: Option<u32>)
        requires
            old(self).wf(),
        ensures
            final(self).wf(),
            final(self).nodes().len() == old(self).nodes().len(),
            old(self).free_list().len() == 0 ==> r is None && final(self).free_list() == old(self).free_list() && final(self).nodes() == old(self).nodes(),
            old(self).free_list().len() > 0 ==> r == Some(old(self).free_list()[0]) && final(self).free_list() == old(self).free_list().drop_first() && final(self).nodes()[old(self).free_list()[0] as int] == blank_node(T::spec_bytes()),
            forall|j: u32|
                old(self).live(j) ==> final(self).nodes()[j as int] == old(self).nodes()[j as int],
    {
        let ghost n0 = self.nodes();
        let ghost f0 = self.free@;
        let ghost n = f0.len() as int;
        proof {
            self.inner.inner.lemma_nodes();
            lemma_links_head(n0, f0);
        }
        match self.m_head_nid {
            Some(head) => {
                let prev = self.prev_ref(head);
                let ghost f1 = f0.drop_first();
                assert(f0.contains(f0[0]));
                match self.next_ref(head) {
                    Some(next) => {
                        assert(n >= 2);
                        self.m_head_nid = Some(next);
                        let prev = match prev {
                            Some(p) => p,
                            None => next,
                        };
                        self.set_prev_ref(next, prev);
                        self.set_next_ref(prev, next);
                        let ghost n2 = self.nodes();
                        self.m_num_empty = self.m_num_empty - 1;
                        self.reset_node(head);
                        proof {
                            lemma_pop_links(n0, f0, n2);
                            assert(f0.contains(f0[1]));
                            assert(f0.contains(f0[n - 1]));
                            assert forall|i: int| 0 <= i < f1.len() implies self.nodes()[(
                            #[trigger] f1[i]) as int] == n2[f1[i] as int] by {
                                assert(f0[i + 1] != f0[0]);
                            }
                            lemma_links_frame(n2, self.nodes(), f1);
                        }
                    },
                    None => {
                        assert(n == 1);
                        self.m_head_nid = None;
                        self.m_num_empty = 0;
                        self.reset_node(head);
                        proof {
                            lemma_links_small(self.nodes(), head);
                            assert(f1 =~= Seq::<u32>::empty());
                        }
                    },
                }
                self.free = Ghost(f1);
                Some(head)
            },
            None => None,
        }
    }

    /// Byte `off` of node `node_id`.
    pub fn read(&self, node_id: u32, off: usize) -> (r: u8)
        requires
            self.wf(),
            node_id < self.nodes().len(),
            off < T::spec_bytes(),
        ensures
            r == self.nodes()[node_id as int][off as int],
    {
        self.inner.inner.read(node_id, off)
    }

    /// Sets byte `off` of node `node_id`, which is in use.
    pub fn write(&mut self, node_id: u32, off: usize, v: u8)
        requires
            old(self).wf(),
            old(self).live(node_id),
            off < T::spec_bytes(),
        ensures
            final(self).wf(),
            final(self).free_list() == old(self).free_list(),
            final(self).nodes() == old(self).nodes().update(
                node_id as int,
                old(self).nodes()[node_id as int].update(off as int, v),
            ),
    {
        let ghost n0 = self.nodes();
        self.inner.inner.write(node_id, off, v);
        proof {
            old(self).lemma_live_changed(*self, node_id);
        }
    }

    /// The header of node `node_id`.
    pub fn header(&self, node_id: u32) -> (r: u8)
        requires
            self.wf(),
            node_id < self.nodes().len(),
        ensures
            r == self.nodes()[node_id as int][0],
    {
        self.inner.inner.header(node_id)
    }

    /// Sets the header of node `node_id`, which is in use.
    pub fn set_header(&mut self, node_id: u32, v: u8)
        requires
            old(self).wf(),
            old(self).live(node_id),
        ensures
            final(self).wf(),
            final(self).free_list() == old(self).free_list(),
            final(self).nodes() == old(self).nodes().update(
                node_id as int,
                old(self).nodes()[node_id as int].update(0, v),
            ),
    {
        self.write(node_id, 0, v)
    }

    /// Label byte `idx` of node `node_id`.
    pub fn label(&self, node_id: u32, idx: usize) -> (r: u8)
        requires
            self.wf(),
            node_id < self.nodes().len(),
            1 + idx < T::spec_ptrs_offset(),
        ensures
            r == self.nodes()[node_id as int][1 + idx],
    {
        self.inner.label(node_id, idx)
    }

    /// Sets label byte `idx` of node `node_id`, which is in use.
    pub fn set_label(&mut self, node_id: u32, idx: usize, value: u8)
        requires
            old(self).wf(),
            old(self).live(node_id),
            1 + idx < T::spec_ptrs_offset(),
        ensures
            final(self).wf(),
            final(self).free_list() == old(self).free_list(),
            final(self).nodes() == old(self).nodes().update(
                node_id as int,
                old(self).nodes()[node_id as int].update(1 + idx, value),
            ),
    {
        self.write(node_id, 1 + idx, value)
    }

    /// Stored reference `idx` of node `node_id`, unless it is empty.
    pub fn ptr(&self, node_id: u32, idx: usize) -> (r: Option<MartPointer>)
        requires
            self.wf(),
            node_id < self.nodes().len(),
            idx < T::spec_slots(),
        ensures
            r == stored_ptr(self.nodes()[node_id as int], T::spec_ptrs_offset() + 5 * idx),
    {
        self.inner.inner.ptr(node_id, idx)
    }

    /// Stores `ptr` as reference `idx` of node `node_id`, which is in use.
    pub fn set_ptr(&mut self, node_id: u32, idx: usize, ptr: &MartPointer)
        requires
            old(self).wf(),
            old(self).live(node_id),
            idx < T::spec_slots(),
        ensures
            final(self).wf(),
            final(self).free_list() == old(self).free_list(),
            final(self).nodes() == old(self).nodes().update(
                node_id as int,
                with_ptr(old(self).nodes()[node_id as int], T::spec_ptrs_offset() + 5 * idx, *ptr),
            ),
    {
        self.inner.inner.set_ptr(node_id, idx, ptr);
        proof {
            old(self).lemma_live_changed(*self, node_id);
        }
    }

    /// Appends a node: header 0, every other byte 0xFF.
    pub fn create_node(&mut self) -> (r: u32)
        requires
            old(self).wf(),
            old(self).nodes().len() < u32::MAX,
        ensures
            final(self).wf(),
            r == old(self).nodes().len(),
            final(self).free_list() == old(self).free_list(),
            final(self).nodes() == old(self).nodes().push(fresh_node(T::spec_bytes())),
    {
        let r = self.inner.inner.create_node();
        proof {
            lemma_links_head(old(self).nodes(), self.free@);
            lemma_links_frame(old(self).nodes(), self.nodes(), self.free@);
        }
        r
    }

    /// The arena after a node in use changed.
    proof fn lemma_live_changed(&self, now: Self, nid: u32)
        requires
            self.wf(),
            self.live(nid),
            now.inner.inner.wf(),
            now.free == self.free,
            now.m_head_nid == self.m_head_nid,
            now.m_num_empty == self.m_num_empty,
            now.nodes().len() == self.nodes().len(),
            forall|j: int| 0 <= j < self.nodes().len() && j != nid ==> now.nodes()[j] == self.nodes()[j],
        ensures
            now.wf(),
    {
        lemma_links_head(self.nodes(), self.free@);
        assert forall|i: int| 0 <= i < self.free@.len() implies now.nodes()[(
        #[trigger] self.free@[i]) as int] == self.nodes()[self.free@[i] as int] by {
            assert(self.free@.contains(self.free@[i]));
        }
        lemma_links_frame(self.nodes(), now.nodes(), self.free@);
    }

    /// The byte offsets of the free nodes within the arena, in the order
    /// of the circle from its head.
    pub fn empty_nodes_iter(&self) -> (r: Vec<u32>)
        requires
            self.wf(),
            self.nodes().len() * T::spec_bytes() <= u32::MAX,
        ensures
            r@.len() == self.free_list().len(),
            forall|i: int|
                0 <= i < r@.len() ==> #[trigger] r@[i] == self.free_list()[i] * T::spec_bytes(),
    {
        let ids = self.iter_empty();
        let bytes = T::bytes();
        let mut out: Vec<u32> = Vec::new();
        let mut i: usize = 0;
        while i < ids.len()
            invariant
                i <= ids@.len(),
                ids@ == self.free_list(),
                bytes == T::spec_bytes(),
                self.wf(),
                self.nodes().len() * T::spec_bytes() <= u32::MAX,
                out@.len() == i,
                forall|w: int| 0 <= w < i ==> #[trigger] out@[w] == ids@[w] * T::spec_bytes(),
            decreases ids@.len() - i,
        {
            let id = ids[i];
            proof {
                reveal(links_ok);
                assert(self.free@[i as int] < self.nodes().len());
                assert(id * bytes <= self.nodes().len() * bytes) by (nonlinear_arith)
                    requires
                        id < self.nodes().len(),
                        bytes >= 0,
                ;
            }
            out.push(id * (bytes as u32));
            i = i + 1;
        }
        out
    }

    /// The free nodes, in the order of the circle from its head.
    pub fn iter_empty(&self) -> (r: Vec<u32>)
        requires
            self.wf(),
        ensures
            r@ == self.free_list(),
    {
        let mut out: Vec<u32> = Vec::new();
        proof {
            self.inner.inner.lemma_nodes();
            lemma_links_head(self.nodes(), self.free@);
        }
        match self.m_head_nid {
            Some(head) => {
                let mut cur = head;
                let mut i: usize = 0;
                while i < self.m_num_empty
                    invariant
                        self.wf(),
                        forall|k: int|
                            0 <= k < self.free@.len() ==> (#[trigger] self.free@[k])
                                < self.nodes().len(),
                        forall|k: int|
                            0 <= k < self.free@.len() - 1 ==> link_at(
                                self.nodes()[(#[trigger] self.free@[k]) as int],
                                4,
                            ) == self.free@[k + 1],
                        i <= self.m_num_empty,
                        out@ == self.free@.subrange(0, i as int),
                        i < self.m_num_empty ==> cur == self.free@[i as int],
                    decreases self.m_num_empty - i,
                {
                    out.push(cur);
                    assert(out@ =~= self.free@.subrange(0, i + 1));
                    cur = self.node_ref(cur, NEXT_LINK);
                    i = i + 1;
                }
                assert(out@ =~= self.free@);
            },
            None => {
                assert(out@ =~= self.free@);
            },
        }
        out
    }
}

} // verus!
