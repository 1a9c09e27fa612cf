//! What the search finds: the leaves whose path lies within the allowed
//! distance of the query.

use crate::dyft::bit_tools::bits::{bit8, lemma_bits_determine_byte};
use crate::dyft::constants::label_distance::{
    chunk_differs, label_dist_upto, label_distance, label_in_range, lemma_label_dist_bound,
};
use crate::dyft::constants::tables::{ipc_of, label_count, lemma_label_range};
use crate::dyft::mart::model::{is_prefix, leaf_ptr, TrieModel};
use crate::dyft::node::common::{MartNodeTypes, MartPointer};
use vstd::prelude::*;

verus! {

/// The sum of the distances between the labels of `path` and the labels of
/// the query `q` at the same places.
pub open spec fn prefix_dist(bits: nat, q: Seq<u8>, path: Seq<u8>) -> nat
    decreases path.len(),
{
    if path.len() == 0 {
        0
    } else {
        prefix_dist(bits, q, path.drop_last()) + label_distance(
            bits,
            q[path.len() - 1],
            path.last(),
        )
    }
}

/// A longer path is at least as far from the query as its beginning.
pub proof fn lemma_prefix_dist_mono(bits: nat, q: Seq<u8>, path: Seq<u8>, n: int)
    requires
        0 <= n <= path.len(),
    ensures
        prefix_dist(bits, q, path.subrange(0, n)) <= prefix_dist(bits, q, path),
    decreases path.len() - n,
{
    if n < path.len() {
        lemma_prefix_dist_mono(bits, q, path.drop_last(), n);
        assert(path.drop_last().subrange(0, n) =~= path.subrange(0, n));
    } else {
        assert(path.subrange(0, n) =~= path);
    }
}

/// The distance of a path that is one label longer.
pub proof fn lemma_prefix_dist_step(bits: nat, q: Seq<u8>, path: Seq<u8>, n: int)
    requires
        0 <= n < path.len(),
    ensures
        prefix_dist(bits, q, path.subrange(0, n + 1)) == prefix_dist(bits, q, path.subrange(0, n))
            + label_distance(bits, q[n], path[n]),
{
    let a = path.subrange(0, n + 1);
    assert(a.drop_last() =~= path.subrange(0, n));
    assert(a.last() == path[n]);
}

/// A label is at distance 0 from itself, and two labels in range at
/// distance 0 are the same.
pub proof fn lemma_distance_zero(bits: nat, a: u8, b: u8)
    requires
        1 <= bits <= 8,
    ensures
        label_distance(bits, a, a) == 0,
        a < label_count(bits) && b < label_count(bits) && label_distance(bits, a, b) == 0 ==> a
            == b,
{
    lemma_no_chunk_differs(bits, a, 8nat / bits);
    lemma_label_range(bits, a);
    lemma_label_range(bits, b);
    if a < label_count(bits) && b < label_count(bits) && label_distance(bits, a, b) == 0 {
        assert forall|t: nat| t < 8 implies #[trigger] bit8(a, t) == bit8(b, t) by {
            if t < (8nat / bits) * bits {
                let j = t / bits;
                assert(j * bits <= t < (j + 1) * bits && j < 8nat / bits) by (nonlinear_arith)
                    requires
                        j == t / bits,
                        bits >= 1,
                        t < (8nat / bits) * bits,
                ;
                lemma_all_chunks_same(bits, a, b, 8nat / bits, j);
                if bit8(a, t) != bit8(b, t) {
                    assert(chunk_differs(a, b, bits, j));
                }
            }
        }
        lemma_bits_determine_byte(a, b);
    }
}

proof fn lemma_no_chunk_differs(bits: nat, a: u8, n: nat)
    ensures
        label_dist_upto(a, a, bits, n) == 0,
    decreases n,
{
    if n > 0 {
        lemma_no_chunk_differs(bits, a, (n - 1) as nat);
    }
}

proof fn lemma_all_chunks_same(bits: nat, a: u8, b: u8, n: nat, j: nat)
    requires
        label_dist_upto(a, b, bits, n) == 0,
        j < n,
    ensures
        !chunk_differs(a, b, bits, j),
    decreases n,
{
    if j < n - 1 {
        lemma_all_chunks_same(bits, a, b, (n - 1) as nat, j);
    }
}

impl TrieModel {
    /// Whether leaf `k` lies within distance `e` of the query `q`.
    pub open spec fn target(self, q: Seq<u8>, e: nat, k: u32) -> bool {
        self.leaf_paths.contains_key(k) && prefix_dist(self.bits, q, self.leaf_paths[k]) <= e
    }

    /// Whether the search for `q` within distance `e` finds the id `id`: it
    /// is held by a leaf that lies within that distance.
    pub open spec fn emits(self, q: Seq<u8>, e: nat, id: u32) -> bool {
        exists|k: u32| #[trigger] self.target(q, e, k) && self.holds(k, id)
    }

    /// Whether leaf `k` lies below node `p`.
    pub open spec fn below(self, p: MartPointer, k: u32) -> bool {
        self.leaf_paths.contains_key(k) && self.heap.contains_key(p) && is_prefix(
            self.paths[p],
            self.leaf_paths[k],
        )
    }

    /// The node at depth `n` on the way to leaf `k`.
    pub proof fn lemma_ancestor(self, k: u32, n: int) -> (p: MartPointer)
        requires
            self.wf(),
            self.leaf_paths.contains_key(k),
            0 <= n < self.leaf_paths[k].len(),
        ensures
            self.heap.contains_key(p),
            self.paths[p] == self.leaf_paths[k].subrange(0, n),
            self.heap[p].contains_key(self.leaf_paths[k][n]),
            n + 1 == self.leaf_paths[k].len() ==> self.heap[p][self.leaf_paths[k][n]] == leaf_ptr(
                k,
            ),
            n + 1 < self.leaf_paths[k].len() ==> self.heap.contains_key(
                self.heap[p][self.leaf_paths[k][n]],
            ) && self.paths[self.heap[p][self.leaf_paths[k][n]]] == self.leaf_paths[k].subrange(
                0,
                n + 1,
            ),
        decreases self.leaf_paths[k].len() - n,
    {
        let path = self.leaf_paths[k];
        if n + 1 == path.len() {
            assert(self.has_parent(path, leaf_ptr(k)));
            let q = choose|q: MartPointer| #[trigger] self.is_parent(q, path, leaf_ptr(k));
            assert(path.drop_last() =~= path.subrange(0, n));
            q
        } else {
            let c = self.lemma_ancestor(k, n + 1);
            assert(c != self.root) by {
                assert(self.paths[c].len() == n + 1);
            }
            assert(self.has_parent(self.paths[c], c));
            let q = choose|q: MartPointer| #[trigger] self.is_parent(q, self.paths[c], c);
            assert(path.subrange(0, n + 1).drop_last() =~= path.subrange(0, n));
            assert(path.subrange(0, n + 1).last() == path[n]);
            q
        }
    }

    /// The child on the way from node `p` to a leaf `k` below it.
    pub proof fn lemma_step_down(self, p: MartPointer, k: u32)
        requires
            self.wf(),
            self.below(p, k),
        ensures
            self.paths[p].len() < self.leaf_paths[k].len(),
            self.heap[p].contains_key(self.leaf_paths[k][self.paths[p].len() as int]),
            self.paths[p].len() + 1 == self.leaf_paths[k].len() ==> self.heap[p][self.leaf_paths[k][self.paths[p].len() as int]]
                == leaf_ptr(k),
            self.paths[p].len() + 1 < self.leaf_paths[k].len() ==> self.below(
                self.heap[p][self.leaf_paths[k][self.paths[p].len() as int]],
                k,
            ) && self.paths[self.heap[p][self.leaf_paths[k][self.paths[p].len() as int]]].len()
                == self.paths[p].len() + 1,
    {
        let path = self.leaf_paths[k];
        let n = self.paths[p].len() as int;
        if n == path.len() {
            // a node does not have the path of a leaf
            assert(path.subrange(0, n) =~= path);
            assert(self.has_parent(path, leaf_ptr(k)));
            let q = choose|q: MartPointer| #[trigger] self.is_parent(q, path, leaf_ptr(k));
            assert(p != self.root) by {
                assert(path.len() >= 1);
            }
            assert(self.has_parent(self.paths[p], p));
            let q2 = choose|q2: MartPointer| #[trigger] self.is_parent(q2, self.paths[p], p);
            assert(q == q2);
            assert(false);
        }
        let a = self.lemma_ancestor(k, n);
        assert(a == p);
        let c = self.heap[p][path[n]];
        if n + 1 < path.len() {
            assert(path.subrange(0, n + 1).len() == n + 1);
            assert(path.subrange(0, (n + 1) as int) =~= path.subrange(0, n + 1));
        }
    }

    /// The child of a node under a label: a leaf whose path is that of
    /// the node followed by the label, or a node in use with that path.
    pub proof fn lemma_child(self, p: MartPointer, l: u8)
        requires
            self.wf(),
            self.heap.contains_key(p),
            self.heap[p].contains_key(l),
        ensures
            self.edge_ok(p, l),
            self.heap[p][l].ntype == MartNodeTypes::MartLeafNode || self.heap[p][l].ntype.is_inner(),
            self.paths[p].len() < self.width,
            self.heap[p][l].ntype.is_inner() ==> self.paths[p].len() + 1 < self.width,
    {
        assert(self.edge_ok(p, l));
        assert(self.node_ok(p));
        let c = self.heap[p][l];
        if c.ntype.is_inner() {
            assert(self.node_ok(c));
        }
    }
}

} // verus!
