//! How the trie changes when a leaf is split, and why it stays in order.

use crate::dyft::constants::tables::label_count;
use crate::dyft::mart::model::{is_prefix, leaf_ptr, TrieModel};
use crate::dyft::node::common::{MartEdge, MartNodeTypes, MartPointer, MART_NILID};
use crate::dyft::node::model::{distinct_labels, edges_map, lemma_edges_map};
use vstd::prelude::*;

verus! {

/// The leaf that takes list `j` of a split of leaf `k`: `k` itself the
/// first, the leaves from `base` on the others.
pub open spec fn split_leaf(k: u32, base: nat, j: int) -> u32 {
    if j == 0 {
        k
    } else {
        (base + j - 1) as u32
    }
}

/// The edges lead to the leaves of a split of leaf `k`, in their order.
pub open spec fn split_edges(edges: Seq<MartEdge>, k: u32, base: nat) -> bool {
    forall|j: int| 0 <= j < edges.len() ==> (#[trigger] edges[j]).ptr == leaf_ptr(
        split_leaf(k, base, j),
    )
}

/// The ids of list `j` are ids of sketches whose labels begin with `path`
/// followed by label `l`.
pub open spec fn split_list_ok(db: Seq<Seq<u8>>, path: Seq<u8>, l: u8, list: Seq<u32>) -> bool {
    &&& list.len() >= 1
    &&& forall|i: int|
        0 <= i < list.len() ==> (#[trigger] list[i]) < db.len() && is_prefix(
            path.push(l),
            db[list[i] as int],
        )
}

/// Whether one of the lists holds the id `id`.
pub open spec fn in_lists(lists: Seq<Seq<u32>>, id: u32) -> bool {
    exists|j: int| 0 <= j < lists.len() && (#[trigger] lists[j]).contains(id)
}

impl TrieModel {
    /// The trie after leaf `k`, the child of `p` under `l`, was replaced by
    /// the node `y` with the edges `edges`, whose leaves hold the lists
    /// `lists`.
    pub open spec fn split(
        self,
        k: u32,
        y: MartPointer,
        p: MartPointer,
        l: u8,
        edges: Seq<MartEdge>,
        lists: Seq<Seq<u32>>,
    ) -> TrieModel {
        let base = self.postings.len();
        let path = self.leaf_paths[k];
        TrieModel {
            heap: self.heap.insert(y, edges_map(edges)).insert(p, self.heap[p].insert(l, y)),
            paths: self.paths.insert(y, path),
            leaf_paths: Map::new(
                |j: u32| self.leaf_paths.contains_key(j) || base <= j < base + edges.len() - 1,
                |j: u32|
                    if j == k {
                        path.push(edges[0].label)
                    } else if j >= base {
                        path.push(edges[j - base + 1].label)
                    } else {
                        self.leaf_paths[j]
                    },
            ),
            postings: self.postings.update(k as int, Some(lists[0])) + Seq::new(
                (edges.len() - 1) as nat,
                |i: int| Some(lists[i + 1]),
            ),
            ..self
        }
    }

    pub proof fn lemma_split(
        self,
        k: u32,
        y: MartPointer,
        p: MartPointer,
        l: u8,
        edges: Seq<MartEdge>,
        lists: Seq<Seq<u32>>,
    )
        requires
            self.wf(),
            k < self.postings.len(),
            self.heap.contains_key(p),
            self.heap[p].contains_key(l),
            self.heap[p][l] == leaf_ptr(k),
            !self.heap.contains_key(y),
            y.ntype.is_inner(),
            y.nid != MART_NILID,
            self.leaf_paths[k].len() < self.width,
            1 <= edges.len() == lists.len(),
            self.postings.len() + edges.len() - 1 <= u32::MAX,
            distinct_labels(edges),
            forall|j: int| 0 <= j < edges.len() ==> (#[trigger] edges[j]).label < label_count(
                self.bits,
            ),
            split_edges(edges, k, self.postings.len()),
            forall|j: int|
                0 <= j < lists.len() ==> split_list_ok(
                    self.db,
                    self.leaf_paths[k],
                    edges[j].label,
                    #[trigger] lists[j],
                ),
            forall|i: int|
                0 <= i < self.postings[k as int]->0.len() ==> in_lists(
                    lists,
                    #[trigger] self.postings[k as int]->0[i],
                ),
        ensures
            self.split(k, y, p, l, edges, lists).wf(),
    {
        let m = self.split(k, y, p, l, edges, lists);
        let base = self.postings.len();
        let n = edges.len() as int;
        let path = self.leaf_paths[k];
        lemma_edges_map(edges);
        assert(self.edge_ok(p, l));
        assert(path == self.paths[p].push(l));
        assert(path.drop_last() =~= self.paths[p]);
        assert(path.last() == l);
        assert(self.posting_ok(k));
        assert(!self.paths.contains_key(y));
        assert(y != p);
        // the leaves of the split
        assert forall|j: int| 0 <= j < n implies m.leaf_paths.contains_key(
            #[trigger] split_leaf(k, base, j),
        ) && m.leaf_paths[split_leaf(k, base, j)] == path.push(edges[j].label) && m.postings[split_leaf(
            k,
            base,
            j,
        ) as int] == Some(lists[j]) && split_leaf(k, base, j) < m.postings.len() by {}
        // who leads to leaf k
        assert forall|q: MartPointer, e: u8|
            self.heap.contains_key(q) && self.heap[q].contains_key(e) && self.heap[q][e]
                == leaf_ptr(k) implies q == p && e == l by {
            assert(self.edge_ok(q, e));
            assert(self.paths[q].push(e).drop_last() =~= self.paths[q]);
            assert(self.paths[q].push(e).last() == e);
        }
        // no node has the path of leaf k
        assert forall|q: MartPointer| self.heap.contains_key(q) implies #[trigger] self.paths[q]
            != path by {
            if self.paths[q] == path {
                self.lemma_node_path_taken(p, l, q);
            }
        }
        assert forall|q: MartPointer| #[trigger] m.heap.contains_key(q) implies m.node_ok(q) by {
            if q != y {
                assert(self.node_ok(q));
            }
        }
        assert forall|q: MartPointer, e: u8|
            m.heap.contains_key(q) && #[trigger] m.heap[q].contains_key(e) implies m.edge_ok(
            q,
            e,
        ) by {
            if q == p && e == l {
            } else if q == y {
                let j = choose|j: int| 0 <= j < edges.len() && (#[trigger] edges[j]).label == e;
                assert(edges_map(edges)[edges[j].label] == edges[j].ptr);
                assert(m.leaf_paths.contains_key(split_leaf(k, base, j)));
            } else {
                assert(self.heap[q].contains_key(e));
                assert(self.edge_ok(q, e));
                let c = self.heap[q][e];
                assert(c != leaf_ptr(k));
                if c.ntype == MartNodeTypes::MartLeafNode {
                    assert(self.leaf_paths.contains_key(c.nid));
                    assert(c.nid < base);
                }
            }
        }
        assert forall|c: MartPointer| #[trigger]
            m.heap.contains_key(c) && c != m.root implies m.has_parent(m.paths[c], c) by {
            if c == y {
                assert(m.is_parent(p, m.paths[y], y));
            } else {
                assert(self.has_parent(self.paths[c], c));
                let q = choose|q: MartPointer| #[trigger] self.is_parent(q, self.paths[c], c);
                assert(m.is_parent(q, m.paths[c], c));
            }
        }
        assert forall|j: u32| #[trigger] m.leaf_paths.contains_key(j) implies j < m.postings.len()
            && m.has_parent(m.leaf_paths[j], leaf_ptr(j)) by {
            if j == k || j >= base {
                let i: int = if j == k {
                    0
                } else {
                    j - base + 1
                };
                assert(split_leaf(k, base, i) == j);
                let e = edges[i].label;
                assert(path.push(e).drop_last() =~= path);
                assert(edges_map(edges)[edges[i].label] == edges[i].ptr);
                assert(m.is_parent(y, m.leaf_paths[j], leaf_ptr(j)));
            } else {
                assert(self.has_parent(self.leaf_paths[j], leaf_ptr(j)));
                let q = choose|q: MartPointer|
                    #[trigger] self.is_parent(q, self.leaf_paths[j], leaf_ptr(j));
                assert(m.is_parent(q, m.leaf_paths[j], leaf_ptr(j)));
            }
        }
        assert forall|a: MartPointer, b: MartPointer|
            m.heap.contains_key(a) && m.heap.contains_key(b) && #[trigger] m.paths[a]
                == #[trigger] m.paths[b] implies a == b by {
            if a == y && b != y {
                assert(self.paths[b] != path);
            } else if b == y && a != y {
                assert(self.paths[a] != path);
            }
        }
        assert forall|i: u32, j: u32|
            m.leaf_paths.contains_key(i) && m.leaf_paths.contains_key(j)
                && #[trigger] m.leaf_paths[i] == #[trigger] m.leaf_paths[j] implies i == j by {
            let si = i == k || i >= base;
            let sj = j == k || j >= base;
            let ii: int = if i == k {
                0
            } else {
                i - base + 1
            };
            let jj: int = if j == k {
                0
            } else {
                j - base + 1
            };
            if si && sj {
                if ii != jj {
                    assert(edges[ii].label != edges[jj].label);
                    assert(path.push(edges[ii].label).last() == edges[ii].label);
                    assert(path.push(edges[jj].label).last() == edges[jj].label);
                }
            } else if si {
                self.lemma_below_leaf(k, p, l, j, edges[ii].label);
            } else if sj {
                self.lemma_below_leaf(k, p, l, i, edges[jj].label);
            }
        }
        assert forall|j: u32| j < m.postings.len() implies #[trigger] m.posting_ok(j) by {
            if j == k || j >= base {
                let i: int = if j == k {
                    0
                } else {
                    j - base + 1
                };
                assert(split_leaf(k, base, i) == j);
                assert(split_list_ok(self.db, path, edges[i].label, lists[i]));
            } else {
                assert(self.posting_ok(j));
                let list = m.postings[j as int]->0;
                assert forall|i: int| 0 <= i < list.len() implies m.id_fits(j, #[trigger] list[i]) by {
                    assert(self.id_fits(j, self.postings[j as int]->0[i]));
                }
            }
        }
        assert forall|id: u32| id < m.db.len() implies #[trigger] m.contained(id) by {
            assert(self.contained(id));
            let j = choose|j: u32| #[trigger] self.holds(j, id);
            if j == k {
                let old_list = self.postings[k as int]->0;
                let w = choose|w: int| 0 <= w < old_list.len() && old_list[w] == id;
                assert(in_lists(lists, old_list[w]));
                let i = choose|i: int|
                    0 <= i < lists.len() && (#[trigger] lists[i]).contains(old_list[w]);
                assert(split_leaf(k, base, i) < m.postings.len());
                assert(m.holds(split_leaf(k, base, i), id));
            } else {
                assert(m.holds(j, id));
            }
        }
        assert forall|i: int| 0 <= i < m.db.len() implies #[trigger] m.sketch_ok(i) by {
            assert(self.sketch_ok(i));
        }
    }

    /// No leaf has a path that goes on from the path of leaf `k`.
    pub proof fn lemma_below_leaf(self, k: u32, p: MartPointer, l: u8, j: u32, e: u8)
        requires
            self.wf(),
            self.heap.contains_key(p),
            self.heap[p].contains_key(l),
            self.heap[p][l] == leaf_ptr(k),
            self.leaf_paths.contains_key(j),
        ensures
            self.leaf_paths[j] != self.leaf_paths[k].push(e),
    {
        assert(self.edge_ok(p, l));
        let path = self.leaf_paths[k];
        if self.leaf_paths[j] == path.push(e) {
            assert(self.has_parent(self.leaf_paths[j], leaf_ptr(j)));
            let q = choose|q: MartPointer|
                #[trigger] self.is_parent(q, self.leaf_paths[j], leaf_ptr(j));
            assert(path.push(e).drop_last() =~= path);
            assert(self.paths[q] == path);
            self.lemma_node_path_taken(p, l, q);
        }
    }
}

} // verus!
