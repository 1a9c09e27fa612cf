//! The trie apart from its bytes: which node holds which children, which
//! path of labels leads to each node and leaf, and which ids each leaf
//! holds.

use crate::dyft::constants::tables::label_count;
use crate::dyft::node::common::{MartNodeTypes, MartPointer, MART_NILID};
use vstd::prelude::*;

verus! {

pub struct TrieModel {
    /// The children of each node in use, by label.
    pub heap: Map<MartPointer, Map<u8, MartPointer>>,
    /// The posting list of each leaf.
    pub postings: Seq<Option<Seq<u32>>>,
    /// The labels on the way from the root to each node.
    pub paths: Map<MartPointer, Seq<u8>>,
    /// The labels on the way from the root to each leaf.
    pub leaf_paths: Map<u32, Seq<u8>>,
    /// The labels of each sketch that was taken in, by its id.
    pub db: Seq<Seq<u8>>,
    pub root: MartPointer,
    /// Number of labels of a sketch.
    pub width: nat,
    /// Number of bits per position.
    pub bits: nat,
}

/// The reference to leaf `k`.
pub open spec fn leaf_ptr(k: u32) -> MartPointer {
    MartPointer { nid: k, ntype: MartNodeTypes::MartLeafNode }
}

/// Whether `p` is a beginning of `s`.
pub open spec fn is_prefix(p: Seq<u8>, s: Seq<u8>) -> bool {
    p.len() <= s.len() && s.subrange(0, p.len() as int) == p
}

impl TrieModel {
    /// A node in use is a node of one of the tiers, and its path is
    /// shorter than a sketch.
    pub open spec fn node_ok(self, p: MartPointer) -> bool {
        &&& p.ntype.is_inner()
        &&& p.nid != MART_NILID
        &&& self.paths.contains_key(p)
        &&& self.paths[p].len() < self.width
    }

    /// The child under label `l` of node `p` is a node in use or a leaf,
    /// and its path is that of `p` followed by `l`.
    pub open spec fn edge_ok(self, p: MartPointer, l: u8) -> bool {
        let c = self.heap[p][l];
        &&& l < label_count(self.bits)
        &&& c.nid != MART_NILID
        &&& c.ntype != MartNodeTypes::MartNilNode
        &&& c.ntype.is_inner() ==> self.heap.contains_key(c) && self.paths[c] == self.paths[p].push(
            l,
        )
        &&& c.ntype == MartNodeTypes::MartLeafNode ==> self.leaf_paths.contains_key(c.nid)
            && self.leaf_paths[c.nid] == self.paths[p].push(l)
    }

    /// Node `q` has `c` as its child under the last label of `path`, and
    /// its own path is the rest of `path`.
    pub open spec fn is_parent(self, q: MartPointer, path: Seq<u8>, c: MartPointer) -> bool {
        &&& path.len() >= 1
        &&& self.heap.contains_key(q)
        &&& self.paths[q] == path.drop_last()
        &&& self.heap[q].contains_key(path.last())
        &&& self.heap[q][path.last()] == c
    }

    /// Some node is the parent of `c` at `path`.
    pub open spec fn has_parent(self, path: Seq<u8>, c: MartPointer) -> bool {
        exists|q: MartPointer| #[trigger] self.is_parent(q, path, c)
    }

    /// Leaf `k` has a posting list, and every id in it is the id of a
    /// sketch whose labels begin with the path of the leaf.
    pub open spec fn posting_ok(self, k: u32) -> bool {
        &&& self.leaf_paths.contains_key(k)
        &&& self.postings[k as int] is Some
        &&& self.postings[k as int]->0.len() >= 1
        &&& forall|i: int|
            0 <= i < self.postings[k as int]->0.len() ==> self.id_fits(
                k,
                #[trigger] self.postings[k as int]->0[i],
            )
    }

    /// The id `id` is that of a sketch whose labels begin with the path of
    /// leaf `k`.
    pub open spec fn id_fits(self, k: u32, id: u32) -> bool {
        id < self.db.len() && is_prefix(self.leaf_paths[k], self.db[id as int])
    }

    /// Leaf `k` holds the id `id`.
    pub open spec fn holds(self, k: u32, id: u32) -> bool {
        k < self.postings.len() && self.postings[k as int] is Some && self.postings[k as int]->0.contains(
            id,
        )
    }

    /// Some leaf holds the id `id`.
    pub open spec fn contained(self, id: u32) -> bool {
        exists|k: u32| #[trigger] self.holds(k, id)
    }

    /// A sketch that was taken in has as many labels as the trie is wide,
    /// each of them in range.
    pub open spec fn sketch_ok(self, id: int) -> bool {
        &&& self.db[id].len() == self.width
        &&& forall|j: int| 0 <= j < self.width ==> (#[trigger] self.db[id][j]) < label_count(self.bits)
    }

    pub open spec fn wf(self) -> bool {
        &&& 1 <= self.bits <= 8
        &&& 1 <= self.width
        &&& self.heap.contains_key(self.root)
        &&& self.paths[self.root] == Seq::<u8>::empty()
        &&& self.postings.len() <= u32::MAX
        &&& forall|p: MartPointer| #[trigger] self.paths.contains_key(p) ==> self.heap.contains_key(p)
        &&& forall|p: MartPointer| #[trigger] self.heap.contains_key(p) ==> self.node_ok(p)
        &&& forall|p: MartPointer, l: u8|
            self.heap.contains_key(p) && #[trigger] self.heap[p].contains_key(l) ==> self.edge_ok(
                p,
                l,
            )
        &&& forall|c: MartPointer|
            #[trigger] self.heap.contains_key(c) && c != self.root ==> self.has_parent(
                self.paths[c],
                c,
            )
        &&& forall|k: u32| #[trigger]
            self.leaf_paths.contains_key(k) ==> k < self.postings.len() && self.has_parent(
                self.leaf_paths[k],
                leaf_ptr(k),
            )
        &&& forall|p: MartPointer, q: MartPointer|
            self.heap.contains_key(p) && self.heap.contains_key(q) && #[trigger] self.paths[p]
                == #[trigger] self.paths[q] ==> p == q
        &&& forall|j: u32, k: u32|
            self.leaf_paths.contains_key(j) && self.leaf_paths.contains_key(k)
                && #[trigger] self.leaf_paths[j] == #[trigger] self.leaf_paths[k] ==> j == k
        &&& forall|k: u32| k < self.postings.len() ==> #[trigger] self.posting_ok(k)
        &&& forall|id: u32| id < self.db.len() ==> #[trigger] self.contained(id)
        &&& forall|id: int| 0 <= id < self.db.len() ==> #[trigger] self.sketch_ok(id)
    }

    /// The trie without sketches: a root without children.
    pub open spec fn empty(root: MartPointer, width: nat, bits: nat) -> TrieModel {
        TrieModel {
            heap: Map::empty().insert(root, Map::empty()),
            postings: Seq::empty(),
            paths: Map::empty().insert(root, Seq::empty()),
            leaf_paths: Map::empty(),
            db: Seq::empty(),
            root,
            width,
            bits,
        }
    }

    pub proof fn lemma_empty_wf(root: MartPointer, width: nat, bits: nat)
        requires
            1 <= bits <= 8,
            1 <= width,
            root.ntype.is_inner(),
            root.nid != MART_NILID,
        ensures
            Self::empty(root, width, bits).wf(),
    {
        let m = Self::empty(root, width, bits);
        assert forall|p: MartPointer| #[trigger] m.heap.contains_key(p) implies m.node_ok(p) by {
            assert(p == root);
        }
    }

    /// The trie after the id of a new sketch with the labels `labels` was
    /// added to leaf `k`.
    pub open spec fn with_posting(self, k: u32, labels: Seq<u8>) -> TrieModel {
        TrieModel {
            postings: self.postings.update(
                k as int,
                Some(self.postings[k as int]->0.push(self.db.len() as u32)),
            ),
            db: self.db.push(labels),
            ..self
        }
    }

    pub proof fn lemma_with_posting(self, k: u32, labels: Seq<u8>)
        requires
            self.wf(),
            k < self.postings.len(),
            self.db.len() < u32::MAX,
            labels.len() == self.width,
            forall|j: int| 0 <= j < labels.len() ==> (#[trigger] labels[j]) < label_count(self.bits),
            is_prefix(self.leaf_paths[k], labels),
        ensures
            self.with_posting(k, labels).wf(),
    {
        let m = self.with_posting(k, labels);
        let id = self.db.len() as u32;
        assert forall|p: MartPointer, l: u8|
            m.heap.contains_key(p) && #[trigger] m.heap[p].contains_key(l) implies m.edge_ok(
            p,
            l,
        ) by {
            assert(self.edge_ok(p, l));
        }
        assert forall|c: MartPointer| #[trigger]
            m.heap.contains_key(c) && c != m.root implies m.has_parent(m.paths[c], c) by {
            assert(self.has_parent(self.paths[c], c));
            let q = choose|q: MartPointer| #[trigger] self.is_parent(q, self.paths[c], c);
            assert(m.is_parent(q, m.paths[c], c));
        }
        assert forall|j: u32| #[trigger] m.leaf_paths.contains_key(j) implies j < m.postings.len()
            && m.has_parent(m.leaf_paths[j], leaf_ptr(j)) by {
            assert(self.has_parent(self.leaf_paths[j], leaf_ptr(j)));
            let q = choose|q: MartPointer|
                #[trigger] self.is_parent(q, self.leaf_paths[j], leaf_ptr(j));
            assert(m.is_parent(q, m.leaf_paths[j], leaf_ptr(j)));
        }
        assert forall|j: u32| j < m.postings.len() implies #[trigger] m.posting_ok(j) by {
            assert(self.posting_ok(j));
            let list = m.postings[j as int]->0;
            assert forall|i: int| 0 <= i < list.len() implies m.id_fits(j, #[trigger] list[i]) by {
                if j == k && i == list.len() - 1 {
                } else {
                    assert(self.id_fits(j, self.postings[j as int]->0[i]));
                }
            }
        }
        assert forall|i: u32| i < m.db.len() implies #[trigger] m.contained(i) by {
            if i < self.db.len() {
                assert(self.contained(i));
                let j = choose|j: u32| #[trigger] self.holds(j, i);
                let old_list = self.postings[j as int]->0;
                let w = choose|w: int| 0 <= w < old_list.len() && old_list[w] == i;
                assert(m.postings[j as int]->0[w] == i);
                assert(m.holds(j, i));
            } else {
                let list = m.postings[k as int]->0;
                assert(list[list.len() - 1] == i);
                assert(m.holds(k, i));
            }
        }
        assert forall|i: int| 0 <= i < m.db.len() implies #[trigger] m.sketch_ok(i) by {
            if i < self.db.len() {
                assert(self.sketch_ok(i));
            }
        }
        assert forall|p: MartPointer| #[trigger] m.heap.contains_key(p) implies m.node_ok(p) by {
            assert(self.node_ok(p));
        }
    }
}

} // verus!
