//! How the trie changes when a leaf is added and when a node moves to a
//! wider tier, and why it stays in order.

use crate::dyft::constants::tables::label_count;
use crate::dyft::mart::model::{is_prefix, leaf_ptr, TrieModel};
use crate::dyft::node::common::{MartNodeTypes, MartPointer, MART_NILID};
use vstd::prelude::*;

verus! {

impl TrieModel {
    /// No edge leads to the root.
    pub proof fn lemma_root_no_parent(self, p: MartPointer, l: u8)
        requires
            self.wf(),
            self.heap.contains_key(p),
            self.heap[p].contains_key(l),
        ensures
            self.heap[p][l] != self.root,
    {
        assert(self.edge_ok(p, l));
        if self.heap[p][l] == self.root {
            assert(self.paths[self.root].len() == 0);
            assert(self.paths[p].push(l).len() == self.paths[p].len() + 1);
        }
    }

    /// The trie after a leaf with the id of a new sketch was added under
    /// label `l` of node `x`.
    pub open spec fn with_leaf(self, x: MartPointer, l: u8, labels: Seq<u8>) -> TrieModel {
        let k = self.postings.len() as u32;
        TrieModel {
            heap: self.heap.insert(x, self.heap[x].insert(l, leaf_ptr(k))),
            postings: self.postings.push(Some(seq![self.db.len() as u32])),
            leaf_paths: self.leaf_paths.insert(k, self.paths[x].push(l)),
            db: self.db.push(labels),
            ..self
        }
    }

    pub proof fn lemma_with_leaf(self, x: MartPointer, l: u8, labels: Seq<u8>)
        requires
            self.wf(),
            self.heap.contains_key(x),
            !self.heap[x].contains_key(l),
            l < label_count(self.bits),
            self.postings.len() < u32::MAX,
            self.db.len() < u32::MAX,
            labels.len() == self.width,
            forall|j: int| 0 <= j < labels.len() ==> (#[trigger] labels[j]) < label_count(self.bits),
            is_prefix(self.paths[x].push(l), labels),
        ensures
            self.with_leaf(x, l, labels).wf(),
    {
        let m = self.with_leaf(x, l, labels);
        let k = self.postings.len() as u32;
        let id = self.db.len() as u32;
        let path = self.paths[x].push(l);
        assert(!self.leaf_paths.contains_key(k));
        assert forall|p: MartPointer| #[trigger] m.heap.contains_key(p) implies m.node_ok(p) by {
            assert(self.node_ok(p));
        }
        assert forall|p: MartPointer, e: u8|
            m.heap.contains_key(p) && #[trigger] m.heap[p].contains_key(e) implies m.edge_ok(
            p,
            e,
        ) by {
            if p == x && e == l {
            } else {
                assert(self.heap[p].contains_key(e));
                assert(self.edge_ok(p, e));
            }
        }
        assert forall|c: MartPointer| #[trigger]
            m.heap.contains_key(c) && c != m.root implies m.has_parent(m.paths[c], c) by {
            assert(self.has_parent(self.paths[c], c));
            let q = choose|q: MartPointer| #[trigger] self.is_parent(q, self.paths[c], c);
            assert(self.edge_ok(q, self.paths[c].last()));
            if q == x {
                assert(self.paths[c].last() != l);
            }
            assert(m.is_parent(q, m.paths[c], c));
        }
        assert forall|j: u32| #[trigger] m.leaf_paths.contains_key(j) implies j < m.postings.len()
            && m.has_parent(m.leaf_paths[j], leaf_ptr(j)) by {
            if j == k {
                assert(path.drop_last() =~= self.paths[x]);
                assert(m.is_parent(x, path, leaf_ptr(k)));
            } else {
                assert(self.has_parent(self.leaf_paths[j], leaf_ptr(j)));
                let q = choose|q: MartPointer|
                    #[trigger] self.is_parent(q, self.leaf_paths[j], leaf_ptr(j));
                if q == x {
                    assert(self.leaf_paths[j].last() != l);
                }
                assert(m.is_parent(q, m.leaf_paths[j], leaf_ptr(j)));
            }
        }
        assert forall|i: u32, j: u32|
            m.leaf_paths.contains_key(i) && m.leaf_paths.contains_key(j)
                && #[trigger] m.leaf_paths[i] == #[trigger] m.leaf_paths[j] implies i == j by {
            if i == k && j != k {
                self.lemma_leaf_path_taken(x, l, j);
            } else if j == k && i != k {
                self.lemma_leaf_path_taken(x, l, i);
            }
        }
        assert forall|j: u32| j < m.postings.len() implies #[trigger] m.posting_ok(j) by {
            if j < k {
                assert(self.posting_ok(j));
                let list = m.postings[j as int]->0;
                assert forall|i: int| 0 <= i < list.len() implies m.id_fits(j, #[trigger] list[i]) by {
                    assert(self.id_fits(j, self.postings[j as int]->0[i]));
                }
            }
        }
        assert forall|i: u32| i < m.db.len() implies #[trigger] m.contained(i) by {
            if i < self.db.len() {
                assert(self.contained(i));
                let j = choose|j: u32| #[trigger] self.holds(j, i);
                assert(m.holds(j, i));
            } else {
                assert(m.postings[k as int]->0[0] == i);
                assert(m.holds(k, i));
            }
        }
        assert forall|i: int| 0 <= i < m.db.len() implies #[trigger] m.sketch_ok(i) by {
            if i < self.db.len() {
                assert(self.sketch_ok(i));
            }
        }
    }

    /// A leaf whose path is that of node `x` followed by `l` hangs under
    /// label `l` of `x`.
    pub proof fn lemma_leaf_path_taken(self, x: MartPointer, l: u8, j: u32)
        requires
            self.wf(),
            self.heap.contains_key(x),
            self.leaf_paths.contains_key(j),
            self.leaf_paths[j] == self.paths[x].push(l),
        ensures
            self.heap[x].contains_key(l),
            self.heap[x][l] == leaf_ptr(j),
    {
        assert(self.has_parent(self.leaf_paths[j], leaf_ptr(j)));
        let q = choose|q: MartPointer| #[trigger] self.is_parent(q, self.leaf_paths[j], leaf_ptr(j));
        assert(self.leaf_paths[j].drop_last() =~= self.paths[x]);
        assert(self.leaf_paths[j].last() == l);
    }

    /// A node whose path is that of node `x` followed by `l` hangs under
    /// label `l` of `x`.
    pub proof fn lemma_node_path_taken(self, x: MartPointer, l: u8, c: MartPointer)
        requires
            self.wf(),
            self.heap.contains_key(x),
            self.heap.contains_key(c),
            self.paths[c] == self.paths[x].push(l),
        ensures
            self.heap[x].contains_key(l),
            self.heap[x][l] == c,
    {
        assert(c != self.root) by {
            assert(self.paths[c].len() > 0);
        }
        assert(self.has_parent(self.paths[c], c));
        let q = choose|q: MartPointer| #[trigger] self.is_parent(q, self.paths[c], c);
        assert(self.paths[c].drop_last() =~= self.paths[x]);
        assert(self.paths[c].last() == l);
    }

    /// The trie after node `x`, the child of `p` under `l`, moved to `x2`
    /// with all its children.
    pub open spec fn promoted(self, x: MartPointer, x2: MartPointer, p: MartPointer, l: u8) -> TrieModel {
        TrieModel {
            heap: self.heap.remove(x).insert(x2, self.heap[x]).insert(
                p,
                self.heap[p].insert(l, x2),
            ),
            paths: self.paths.remove(x).insert(x2, self.paths[x]),
            ..self
        }
    }

    pub proof fn lemma_promoted(self, x: MartPointer, x2: MartPointer, p: MartPointer, l: u8)
        requires
            self.wf(),
            self.heap.contains_key(x),
            self.heap.contains_key(p),
            self.heap[p].contains_key(l),
            self.heap[p][l] == x,
            !self.heap.contains_key(x2),
            x2.ntype.is_inner(),
            x2.nid != MART_NILID,
        ensures
            self.promoted(x, x2, p, l).wf(),
            x != self.root,
            x != p,
    {
        let m = self.promoted(x, x2, p, l);
        self.lemma_root_no_parent(p, l);
        assert(self.edge_ok(p, l));
        assert(self.paths[x] == self.paths[p].push(l));
        assert(x != p) by {
            assert(self.paths[p].push(l).len() == self.paths[p].len() + 1);
        }
        assert(!self.paths.contains_key(x2));
        // who leads to x
        assert forall|q: MartPointer, e: u8|
            self.heap.contains_key(q) && self.heap[q].contains_key(e) && self.heap[q][e]
                == x implies q == p && e == l by {
            assert(self.edge_ok(q, e));
            assert(self.paths[q].push(e).drop_last() =~= self.paths[q]);
            assert(self.paths[p].push(l).drop_last() =~= self.paths[p]);
            assert(self.paths[q].push(e).last() == e);
        }
        assert forall|q: MartPointer| #[trigger] m.heap.contains_key(q) implies m.node_ok(q) by {
            if q == x2 {
                assert(self.node_ok(x));
            } else {
                assert(self.node_ok(q));
            }
        }
        assert forall|q: MartPointer, e: u8|
            m.heap.contains_key(q) && #[trigger] m.heap[q].contains_key(e) implies m.edge_ok(
            q,
            e,
        ) by {
            if q == p && e == l {
            } else if q == x2 {
                assert(self.edge_ok(x, e));
                let c = self.heap[x][e];
                assert(c != x) by {
                    if c == x {
                        assert(self.paths[x].push(e).len() == self.paths[x].len() + 1);
                    }
                }
                assert(c != x2);
            } else {
                assert(self.heap[q].contains_key(e));
                assert(self.edge_ok(q, e));
                assert(self.heap[q][e] != x);
            }
        }
        assert forall|c: MartPointer| #[trigger]
            m.heap.contains_key(c) && c != m.root implies m.has_parent(m.paths[c], c) by {
            if c == x2 {
                assert(self.paths[x].drop_last() =~= self.paths[p]);
                assert(m.is_parent(p, m.paths[x2], x2));
            } else {
                assert(self.has_parent(self.paths[c], c));
                let q = choose|q: MartPointer| #[trigger] self.is_parent(q, self.paths[c], c);
                if q == x {
                    assert(m.is_parent(x2, m.paths[c], c));
                } else {
                    assert(m.is_parent(q, m.paths[c], c));
                }
            }
        }
        assert forall|j: u32| #[trigger] m.leaf_paths.contains_key(j) implies j < m.postings.len()
            && m.has_parent(m.leaf_paths[j], leaf_ptr(j)) by {
            assert(self.has_parent(self.leaf_paths[j], leaf_ptr(j)));
            let q = choose|q: MartPointer|
                #[trigger] self.is_parent(q, self.leaf_paths[j], leaf_ptr(j));
            if q == x {
                assert(m.is_parent(x2, m.leaf_paths[j], leaf_ptr(j)));
            } else {
                assert(m.is_parent(q, m.leaf_paths[j], leaf_ptr(j)));
            }
        }
        assert forall|a: MartPointer, b: MartPointer|
            m.heap.contains_key(a) && m.heap.contains_key(b) && #[trigger] m.paths[a]
                == #[trigger] m.paths[b] implies a == b by {
            let a0 = if a == x2 {
                x
            } else {
                a
            };
            let b0 = if b == x2 {
                x
            } else {
                b
            };
            assert(self.paths[a0] == self.paths[b0]);
        }
        assert forall|j: u32| j < m.postings.len() implies #[trigger] m.posting_ok(j) by {
            assert(self.posting_ok(j));
            let list = m.postings[j as int]->0;
            assert forall|i: int| 0 <= i < list.len() implies m.id_fits(j, #[trigger] list[i]) by {
                assert(self.id_fits(j, self.postings[j as int]->0[i]));
            }
        }
        assert forall|i: u32| i < m.db.len() implies #[trigger] m.contained(i) by {
            assert(self.contained(i));
            let j = choose|j: u32| #[trigger] self.holds(j, i);
            assert(m.holds(j, i));
        }
        assert forall|i: int| 0 <= i < m.db.len() implies #[trigger] m.sketch_ok(i) by {
            assert(self.sketch_ok(i));
        }
    }
}

} // verus!
