//! The search finds every leaf within the distance once: what is kept in
//! order for that while the search goes on.

use crate::dyft::mart::model::{is_prefix, leaf_ptr, TrieModel};
use crate::dyft::mart::state::StateType;
use crate::dyft::node::common::{MartEdge, MartNodeTypes, MartPointer};
use crate::dyft::node::model::distinct_labels;
use crate::dyft::mart::dispatch::scan_sound;
use crate::dyft::sparse::sparse_group::list_or_empty;
use vstd::prelude::*;

verus! {

/// A beginning of a path with one more label is a beginning of the path
/// or the whole.
pub proof fn lemma_prefix_of_push(a: Seq<u8>, b: Seq<u8>, l: u8)
    requires
        is_prefix(a, b.push(l)),
    ensures
        is_prefix(a, b) || a == b.push(l),
{
    if a.len() <= b.len() {
        assert(b.subrange(0, a.len() as int) =~= b.push(l).subrange(0, a.len() as int));
    } else {
        assert(b.push(l).subrange(0, a.len() as int) =~= b.push(l));
    }
}

/// What begins with a path with one more label begins with the path.
pub proof fn lemma_prefix_through(b: Seq<u8>, l: u8, x: Seq<u8>)
    requires
        is_prefix(b.push(l), x),
    ensures
        is_prefix(b, x),
        x.len() > b.len(),
        x[b.len() as int] == l,
{
    let bl = b.push(l);
    assert(x.subrange(0, bl.len() as int)[b.len() as int] == l);
    assert(x.subrange(0, b.len() as int) =~= bl.subrange(0, b.len() as int));
    assert(bl.subrange(0, b.len() as int) =~= b);
}

/// Of two paths that go on from the same path with one label each, one
/// begins with the other only if the labels are the same.
pub proof fn lemma_prefix_siblings(b: Seq<u8>, l1: u8, l2: u8)
    requires
        is_prefix(b.push(l1), b.push(l2)),
    ensures
        l1 == l2,
{
    lemma_prefix_through(b, l1, b.push(l2));
}

/// Edge `a` below `j` of `edges` leads to `ptr`.
pub open spec fn from_edge(edges: Seq<MartEdge>, j: int, ptr: MartPointer) -> bool {
    exists|a: int| 0 <= a < j && (#[trigger] edges[a]).ptr == ptr
}

impl TrieModel {
    /// The posting lists of the leaves `leaves`, one after the other.
    pub open spec fn lists_of(self, leaves: Seq<u32>) -> Seq<u32>
        decreases leaves.len(),
    {
        if leaves.len() == 0 {
            Seq::empty()
        } else {
            self.lists_of(leaves.drop_last()) + list_or_empty(self.postings[leaves.last() as int])
        }
    }

    /// Neither of the paths of two nodes begins with the other: no leaf
    /// lies below both.
    pub open spec fn node_apart(self, a: MartPointer, b: MartPointer) -> bool {
        !is_prefix(self.paths[a], self.paths[b]) && !is_prefix(self.paths[b], self.paths[a])
    }

    /// None of the leaves lies below node `p`.
    pub open spec fn clear_of(self, p: MartPointer, leaves: Seq<u32>) -> bool {
        forall|i: int| 0 <= i < leaves.len() ==> !self.below(p, #[trigger] leaves[i])
    }

    /// Node `p` is apart from the nodes of the first `n` states.
    pub open spec fn apart_from(self, p: MartPointer, states: Seq<StateType>, n: int) -> bool {
        forall|i: int| 0 <= i < n ==> self.node_apart(p, (#[trigger] states[i]).nptr)
    }

    /// The leaves that were found are different leaves within the
    /// distance, none of them lies below the node of a state, and the
    /// nodes of the states are apart from each other.
    #[verifier::opaque]
    pub open spec fn tidy(self, q: Seq<u8>, e: nat, states: Seq<StateType>, leaves: Seq<u32>) -> bool {
        &&& leaves.no_duplicates()
        &&& forall|i: int| 0 <= i < leaves.len() ==> self.target(q, e, #[trigger] leaves[i])
        &&& forall|j: int| 0 <= j < states.len() ==> self.clear_of((#[trigger] states[j]).nptr, leaves)
        &&& forall|j: int|
            0 <= j < states.len() ==> self.apart_from((#[trigger] states[j]).nptr, states, j)
    }

    /// What holds of the leaves found and of the states while the edges
    /// `edges` of the node of the state `s` are followed, when the first
    /// `j` have been: beyond `leaves0` and `states0`, which were there
    /// before, there are the leaves and the nodes that these edges lead
    /// to.
    #[verifier::opaque]
    pub open spec fn tidy_at(
        self,
        q: Seq<u8>,
        e: nat,
        s: StateType,
        edges: Seq<MartEdge>,
        j: int,
        states0: Seq<StateType>,
        leaves0: Seq<u32>,
        states: Seq<StateType>,
        leaves: Seq<u32>,
    ) -> bool {
        &&& self.tidy(q, e, states, leaves)
        &&& states0.len() <= states.len()
        &&& leaves0.len() <= leaves.len()
        &&& forall|i: int| 0 <= i < states0.len() ==> #[trigger] states[i] == states0[i]
        &&& forall|i: int| 0 <= i < leaves0.len() ==> #[trigger] leaves[i] == leaves0[i]
        &&& self.clear_of(s.nptr, leaves0)
        &&& self.apart_from(s.nptr, states0, states0.len() as int)
        &&& forall|i: int|
            leaves0.len() <= i < leaves.len() ==> from_edge(edges, j, leaf_ptr(#[trigger] leaves[i]))
        &&& forall|i: int|
            states0.len() <= i < states.len() ==> from_edge(edges, j, (#[trigger] states[i]).nptr)
                && states[i].nptr.ntype.is_inner()
    }

    /// The edges are edges of node `p`, each label once.
    pub open spec fn edges_of_node(self, p: MartPointer, edges: Seq<MartEdge>) -> bool {
        &&& self.heap.contains_key(p)
        &&& scan_sound(self.heap[p], edges)
        &&& distinct_labels(edges)
    }

    /// The path of what edge `a` of node `p` leads to.
    pub proof fn lemma_edge_path(self, p: MartPointer, edges: Seq<MartEdge>, a: int)
        requires
            self.wf(),
            self.edges_of_node(p, edges),
            0 <= a < edges.len(),
        ensures
            edges[a].ptr.ntype.is_inner() ==> self.heap.contains_key(edges[a].ptr)
                && self.paths[edges[a].ptr] == self.paths[p].push(edges[a].label),
            edges[a].ptr.ntype == MartNodeTypes::MartLeafNode ==> self.leaf_paths.contains_key(
                edges[a].ptr.nid,
            ) && self.leaf_paths[edges[a].ptr.nid] == self.paths[p].push(edges[a].label)
                && edges[a].ptr == leaf_ptr(edges[a].ptr.nid),
    {
        assert(self.heap[p].contains_key(edges[a].label));
        assert(self.edge_ok(p, edges[a].label));
    }

    /// At the start of the search nothing was found, and the only state
    /// is that of the root.
    pub proof fn lemma_tidy_start(self, q: Seq<u8>, e: nat, states: Seq<StateType>)
        requires
            states.len() == 1,
        ensures
            self.tidy(q, e, states, Seq::empty()),
            self.lists_of(Seq::empty()) == Seq::<u32>::empty(),
    {
        reveal(TrieModel::tidy);
    }

    /// Before the first edge of the node of a state is followed.
    pub proof fn lemma_tidy_begin(
        self,
        q: Seq<u8>,
        e: nat,
        s: StateType,
        edges: Seq<MartEdge>,
        states: Seq<StateType>,
        leaves: Seq<u32>,
    )
        requires
            self.tidy(q, e, states, leaves),
            self.clear_of(s.nptr, leaves),
            self.apart_from(s.nptr, states, states.len() as int),
        ensures
            self.tidy_at(q, e, s, edges, 0, states, leaves, states, leaves),
    {
        reveal(TrieModel::tidy_at);
    }

    /// After the last edge of the node of a state was followed.
    pub proof fn lemma_tidy_end(
        self,
        q: Seq<u8>,
        e: nat,
        s: StateType,
        edges: Seq<MartEdge>,
        j: int,
        states0: Seq<StateType>,
        leaves0: Seq<u32>,
        states: Seq<StateType>,
        leaves: Seq<u32>,
    )
        requires
            self.tidy_at(q, e, s, edges, j, states0, leaves0, states, leaves),
        ensures
            self.tidy(q, e, states, leaves),
    {
        reveal(TrieModel::tidy_at);
    }

    /// The leaves that were found are different leaves within the
    /// distance.
    pub proof fn lemma_tidy_leaves(self, q: Seq<u8>, e: nat, states: Seq<StateType>, leaves: Seq<u32>)
        requires
            self.tidy(q, e, states, leaves),
        ensures
            leaves.no_duplicates(),
            forall|i: int| 0 <= i < leaves.len() ==> self.target(q, e, #[trigger] leaves[i]),
    {
        reveal(TrieModel::tidy);
    }

    /// The list of the leaves with one more leaf is the list of the
    /// leaves followed by the list of that leaf.
    pub proof fn lemma_lists_push(self, leaves: Seq<u32>, k: u32)
        ensures
            self.lists_of(leaves.push(k)) == self.lists_of(leaves) + list_or_empty(
                self.postings[k as int],
            ),
    {
        assert(leaves.push(k).drop_last() =~= leaves);
    }

    /// The state that was taken from the end of the states: the leaves
    /// found do not lie below its node, and the nodes of the other states
    /// are apart from it.
    pub proof fn lemma_tidy_pop(
        self,
        q: Seq<u8>,
        e: nat,
        states0: Seq<StateType>,
        leaves: Seq<u32>,
        edges: Seq<MartEdge>,
    )
        requires
            self.tidy(q, e, states0, leaves),
            states0.len() >= 1,
        ensures
            self.tidy(q, e, states0.drop_last(), leaves),
            self.clear_of(states0.last().nptr, leaves),
            self.apart_from(states0.last().nptr, states0.drop_last(), states0.len() - 1),
            self.tidy_at(
                q,
                e,
                states0.last(),
                edges,
                0,
                states0.drop_last(),
                leaves,
                states0.drop_last(),
                leaves,
            ),
    {
        reveal(TrieModel::tidy);
        reveal(TrieModel::tidy_at);
        let rest = states0.drop_last();
        let s = states0.last();
        let n = rest.len() as int;
        assert forall|j: int| 0 <= j < rest.len() implies self.clear_of(
            (#[trigger] rest[j]).nptr,
            leaves,
        ) by {
            assert(rest[j] == states0[j]);
        }
        assert forall|j: int| 0 <= j < rest.len() implies self.apart_from(
            (#[trigger] rest[j]).nptr,
            rest,
            j,
        ) by {
            assert(rest[j] == states0[j]);
            assert(self.apart_from(states0[j].nptr, states0, j));
            assert forall|i: int| 0 <= i < j implies self.node_apart(
                rest[j].nptr,
                (#[trigger] rest[i]).nptr,
            ) by {
                assert(rest[i] == states0[i]);
            }
        }
        assert(self.clear_of(states0[n].nptr, leaves));
        assert(self.apart_from(states0[n].nptr, states0, n));
        assert forall|i: int| 0 <= i < n implies self.node_apart(s.nptr, (#[trigger] rest[i]).nptr) by {
            assert(rest[i] == states0[i]);
        }
    }

    /// Following edge `j` to a leaf that lies within the distance: it is
    /// a leaf that was not found before.
    pub proof fn lemma_tidy_leaf(
        self,
        q: Seq<u8>,
        e: nat,
        s: StateType,
        edges: Seq<MartEdge>,
        j: int,
        states0: Seq<StateType>,
        leaves0: Seq<u32>,
        states: Seq<StateType>,
        leaves: Seq<u32>,
    )
        requires
            self.wf(),
            self.edges_of_node(s.nptr, edges),
            0 <= j < edges.len(),
            edges[j].ptr.ntype == MartNodeTypes::MartLeafNode,
            self.target(q, e, edges[j].ptr.nid),
            self.tidy_at(q, e, s, edges, j, states0, leaves0, states, leaves),
        ensures
            self.tidy_at(q, e, s, edges, j + 1, states0, leaves0, states, leaves.push(
                edges[j].ptr.nid,
            )),
    {
        reveal(TrieModel::tidy);
        reveal(TrieModel::tidy_at);
        let p = s.nptr;
        let k = edges[j].ptr.nid;
        let l = edges[j].label;
        let base = self.paths[p];
        let leaves2 = leaves.push(k);
        self.lemma_edge_path(p, edges, j);
        assert(self.leaf_paths[k] == base.push(l));
        assert(base.push(l).subrange(0, base.len() as int) =~= base);
        assert(self.below(p, k));
        // the leaf was not found before
        assert forall|i: int| 0 <= i < leaves.len() implies leaves[i] != k by {
            if i < leaves0.len() {
                assert(leaves[i] == leaves0[i]);
                assert(!self.below(p, leaves0[i]));
            } else {
                assert(from_edge(edges, j, leaf_ptr(leaves[i])));
                let a = choose|a: int| 0 <= a < j && (#[trigger] edges[a]).ptr == leaf_ptr(leaves[i]);
                if leaves[i] == k {
                    self.lemma_edge_path(p, edges, a);
                    assert(base.push(edges[a].label) == base.push(l));
                    assert(base.push(edges[a].label).last() == edges[a].label);
                    assert(base.push(l).last() == l);
                    assert(edges[a].label != edges[j].label);
                }
            }
        }
        assert(leaves2.no_duplicates()) by {
            assert forall|x: int, y: int|
                0 <= x < leaves2.len() && 0 <= y < leaves2.len() && x != y implies leaves2[x]
                != leaves2[y] by {
                if x < leaves.len() && y < leaves.len() {
                    assert(leaves[x] != leaves[y]);
                }
            }
        }
        assert forall|i: int| 0 <= i < leaves2.len() implies self.target(q, e, #[trigger] leaves2[i]) by {
            if i < leaves.len() {
                assert(leaves2[i] == leaves[i]);
            }
        }
        // the leaf does not lie below the node of a state
        assert forall|b: int| 0 <= b < states.len() implies self.clear_of(
            (#[trigger] states[b]).nptr,
            leaves2,
        ) by {
            let t = states[b].nptr;
            assert(self.clear_of(t, leaves));
            assert(!self.below(t, k)) by {
                if self.below(t, k) {
                    if b < states0.len() {
                        assert(states[b] == states0[b]);
                        assert(self.node_apart(p, states0[b].nptr));
                        lemma_prefix_of_push(self.paths[t], base, l);
                        if self.paths[t] == base.push(l) {
                            assert(is_prefix(base, self.paths[t]));
                        }
                    } else {
                        assert(from_edge(edges, j, t));
                        let a = choose|a: int| 0 <= a < j && (#[trigger] edges[a]).ptr == t;
                        self.lemma_edge_path(p, edges, a);
                        lemma_prefix_siblings(base, edges[a].label, l);
                        assert(edges[a].label != edges[j].label);
                    }
                }
            }
            assert forall|i: int| 0 <= i < leaves2.len() implies !self.below(
                t,
                #[trigger] leaves2[i],
            ) by {
                if i < leaves.len() {
                    assert(leaves2[i] == leaves[i]);
                }
            }
        }
        assert forall|i: int| 0 <= i < leaves0.len() implies #[trigger] leaves2[i] == leaves0[i] by {
            assert(leaves2[i] == leaves[i]);
        }
        assert forall|i: int| leaves0.len() <= i < leaves2.len() implies from_edge(
            edges,
            j + 1,
            leaf_ptr(#[trigger] leaves2[i]),
        ) by {
            if i < leaves.len() {
                assert(leaves2[i] == leaves[i]);
                assert(from_edge(edges, j, leaf_ptr(leaves[i])));
                let a = choose|a: int| 0 <= a < j && (#[trigger] edges[a]).ptr == leaf_ptr(leaves[i]);
                assert(0 <= a < j + 1 && edges[a].ptr == leaf_ptr(leaves2[i]));
            } else {
                assert(0 <= j < j + 1 && edges[j].ptr == leaf_ptr(leaves2[i]));
            }
        }
        assert forall|i: int| states0.len() <= i < states.len() implies from_edge(
            edges,
            j + 1,
            (#[trigger] states[i]).nptr,
        ) && states[i].nptr.ntype.is_inner() by {
            assert(from_edge(edges, j, states[i].nptr));
            let a = choose|a: int| 0 <= a < j && (#[trigger] edges[a]).ptr == states[i].nptr;
            assert(0 <= a < j + 1 && edges[a].ptr == states[i].nptr);
        }
    }

    /// Following edge `j` to a node, for which the state `next` is added:
    /// its node is apart from the nodes of the other states, and no leaf
    /// that was found lies below it.
    pub proof fn lemma_tidy_node(
        self,
        q: Seq<u8>,
        e: nat,
        s: StateType,
        edges: Seq<MartEdge>,
        j: int,
        states0: Seq<StateType>,
        leaves0: Seq<u32>,
        states: Seq<StateType>,
        leaves: Seq<u32>,
        next: StateType,
    )
        requires
            self.wf(),
            self.edges_of_node(s.nptr, edges),
            0 <= j < edges.len(),
            edges[j].ptr.ntype.is_inner(),
            next.nptr == edges[j].ptr,
            self.tidy_at(q, e, s, edges, j, states0, leaves0, states, leaves),
        ensures
            self.tidy_at(q, e, s, edges, j + 1, states0, leaves0, states.push(next), leaves),
    {
        reveal(TrieModel::tidy);
        reveal(TrieModel::tidy_at);
        let p = s.nptr;
        let c = edges[j].ptr;
        let l = edges[j].label;
        let base = self.paths[p];
        let states2 = states.push(next);
        let n = states.len() as int;
        self.lemma_edge_path(p, edges, j);
        assert(self.paths[c] == base.push(l));
        // no leaf that was found lies below the node
        assert(self.clear_of(c, leaves)) by {
            assert forall|i: int| 0 <= i < leaves.len() implies !self.below(c, #[trigger] leaves[i]) by {
                if self.below(c, leaves[i]) {
                    let lp = self.leaf_paths[leaves[i]];
                    lemma_prefix_through(base, l, lp);
                    if i < leaves0.len() {
                        assert(leaves[i] == leaves0[i]);
                        assert(!self.below(p, leaves0[i]));
                    } else {
                        assert(from_edge(edges, j, leaf_ptr(leaves[i])));
                        let a = choose|a: int|
                            0 <= a < j && (#[trigger] edges[a]).ptr == leaf_ptr(leaves[i]);
                        self.lemma_edge_path(p, edges, a);
                        lemma_prefix_siblings(base, l, edges[a].label);
                        assert(edges[a].label != edges[j].label);
                    }
                }
            }
        }
        // the node is apart from the nodes of the states
        assert(self.apart_from(c, states2, n)) by {
            assert forall|i: int| 0 <= i < n implies self.node_apart(c, (#[trigger] states2[i]).nptr) by {
                let t = states[i].nptr;
                assert(states2[i] == states[i]);
                if i < states0.len() {
                    assert(states[i] == states0[i]);
                    assert(self.node_apart(p, states0[i].nptr));
                    if is_prefix(self.paths[c], self.paths[t]) {
                        lemma_prefix_through(base, l, self.paths[t]);
                    }
                    if is_prefix(self.paths[t], self.paths[c]) {
                        lemma_prefix_of_push(self.paths[t], base, l);
                        if self.paths[t] == base.push(l) {
                            assert(is_prefix(base, self.paths[t])) by {
                                lemma_prefix_through(base, l, self.paths[t]);
                            }
                        }
                    }
                } else {
                    assert(from_edge(edges, j, t));
                    let a = choose|a: int| 0 <= a < j && (#[trigger] edges[a]).ptr == t;
                    self.lemma_edge_path(p, edges, a);
                    assert(edges[a].label != edges[j].label);
                    if is_prefix(self.paths[c], self.paths[t]) {
                        lemma_prefix_siblings(base, l, edges[a].label);
                    }
                    if is_prefix(self.paths[t], self.paths[c]) {
                        lemma_prefix_siblings(base, edges[a].label, l);
                    }
                }
            }
        }
        assert forall|b: int| 0 <= b < states2.len() implies self.clear_of(
            (#[trigger] states2[b]).nptr,
            leaves,
        ) by {
            if b < n {
                assert(states2[b] == states[b]);
            }
        }
        assert forall|b: int| 0 <= b < states2.len() implies self.apart_from(
            (#[trigger] states2[b]).nptr,
            states2,
            b,
        ) by {
            if b < n {
                assert(states2[b] == states[b]);
                assert(self.apart_from(states[b].nptr, states, b));
                assert forall|i: int| 0 <= i < b implies self.node_apart(
                    states2[b].nptr,
                    (#[trigger] states2[i]).nptr,
                ) by {
                    assert(states2[i] == states[i]);
                }
            }
        }
        assert forall|i: int| 0 <= i < states0.len() implies #[trigger] states2[i] == states0[i] by {
            assert(states2[i] == states[i]);
        }
        assert forall|i: int| leaves0.len() <= i < leaves.len() implies from_edge(
            edges,
            j + 1,
            leaf_ptr(#[trigger] leaves[i]),
        ) by {
            assert(from_edge(edges, j, leaf_ptr(leaves[i])));
            let a = choose|a: int| 0 <= a < j && (#[trigger] edges[a]).ptr == leaf_ptr(leaves[i]);
            assert(0 <= a < j + 1 && edges[a].ptr == leaf_ptr(leaves[i]));
        }
        assert forall|i: int| states0.len() <= i < states2.len() implies from_edge(
            edges,
            j + 1,
            (#[trigger] states2[i]).nptr,
        ) && states2[i].nptr.ntype.is_inner() by {
            if i < n {
                assert(states2[i] == states[i]);
                assert(from_edge(edges, j, states[i].nptr));
                let a = choose|a: int| 0 <= a < j && (#[trigger] edges[a]).ptr == states[i].nptr;
                assert(0 <= a < j + 1 && edges[a].ptr == states2[i].nptr);
            } else {
                assert(0 <= j < j + 1 && edges[j].ptr == states2[i].nptr);
            }
        }
    }

    /// A leaf within the distance below the node of the state that was
    /// taken from the states, found without a state being added.
    pub proof fn lemma_tidy_exact(
        self,
        q: Seq<u8>,
        e: nat,
        p: MartPointer,
        rest: Seq<StateType>,
        leaves: Seq<u32>,
        k: u32,
    )
        requires
            self.wf(),
            self.heap.contains_key(p),
            self.tidy(q, e, rest, leaves),
            self.clear_of(p, leaves),
            self.apart_from(p, rest, rest.len() as int),
            self.target(q, e, k),
            self.below(p, k),
        ensures
            self.tidy(q, e, rest, leaves.push(k)),
    {
        reveal(TrieModel::tidy);
        reveal(TrieModel::tidy_at);
        let leaves2 = leaves.push(k);
        assert forall|i: int| 0 <= i < leaves.len() implies leaves[i] != k by {
            assert(!self.below(p, leaves[i]));
        }
        assert(leaves2.no_duplicates()) by {
            assert forall|x: int, y: int|
                0 <= x < leaves2.len() && 0 <= y < leaves2.len() && x != y implies leaves2[x]
                != leaves2[y] by {
                if x < leaves.len() && y < leaves.len() {
                    assert(leaves[x] != leaves[y]);
                }
            }
        }
        assert forall|i: int| 0 <= i < leaves2.len() implies self.target(q, e, #[trigger] leaves2[i]) by {
            if i < leaves.len() {
                assert(leaves2[i] == leaves[i]);
            }
        }
        assert forall|b: int| 0 <= b < rest.len() implies self.clear_of(
            (#[trigger] rest[b]).nptr,
            leaves2,
        ) by {
            let t = rest[b].nptr;
            assert(self.clear_of(t, leaves));
            assert(self.node_apart(p, t));
            if self.below(t, k) {
                lemma_prefixes_compare(self.paths[p], self.paths[t], self.leaf_paths[k]);
            }
            assert forall|i: int| 0 <= i < leaves2.len() implies !self.below(
                t,
                #[trigger] leaves2[i],
            ) by {
                if i < leaves.len() {
                    assert(leaves2[i] == leaves[i]);
                }
            }
        }
    }

    /// What the search for `q` within the distance `e` gives: the posting
    /// lists, one after the other, of the leaves `leaves`, which are the
    /// leaves within the distance, each once.
    pub open spec fn found(self, q: Seq<u8>, e: nat, leaves: Seq<u32>, ret: Seq<u32>) -> bool {
        &&& leaves.no_duplicates()
        &&& forall|k: u32| leaves.contains(k) <==> #[trigger] self.target(q, e, k)
        &&& ret == self.lists_of(leaves)
    }

    /// A leaf within the distance all of whose ids were found is one of
    /// the leaves that were found.
    pub proof fn lemma_found_leaf(self, q: Seq<u8>, e: nat, leaves: Seq<u32>, ret: Seq<u32>, k: u32)
        requires
            self.wf(),
            self.target(q, e, k),
            forall|i: int| 0 <= i < leaves.len() ==> self.target(q, e, #[trigger] leaves[i]),
            ret == self.lists_of(leaves),
            forall|id: u32| self.holds(k, id) ==> #[trigger] ret.contains(id),
        ensures
            leaves.contains(k),
    {
        assert(self.posting_ok(k));
        let list = self.postings[k as int]->0;
        let id = list[0];
        assert(self.holds(k, id));
        assert(ret.contains(id));
        assert forall|i: int| 0 <= i < leaves.len() implies (#[trigger] leaves[i])
            < self.postings.len() by {
            assert(self.target(q, e, leaves[i]));
        }
        self.lemma_lists_of(leaves, id);
        let i = choose|i: int| 0 <= i < leaves.len() && self.holds(#[trigger] leaves[i], id);
        assert(self.target(q, e, leaves[i]));
        self.lemma_one_leaf(leaves[i], k, id);
    }

    /// The ids of the lists of the leaves are held by these leaves.
    pub proof fn lemma_lists_of(self, leaves: Seq<u32>, id: u32)
        requires
            forall|i: int| 0 <= i < leaves.len() ==> (#[trigger] leaves[i]) < self.postings.len(),
            self.lists_of(leaves).contains(id),
        ensures
            exists|i: int| 0 <= i < leaves.len() && self.holds(#[trigger] leaves[i], id),
        decreases leaves.len(),
    {
        if leaves.len() > 0 {
            let head = self.lists_of(leaves.drop_last());
            let list = list_or_empty(self.postings[leaves.last() as int]);
            let w = choose|w: int| 0 <= w < (head + list).len() && (head + list)[w] == id;
            if w < head.len() {
                assert(head[w] == id);
                assert forall|i: int| 0 <= i < leaves.drop_last().len() implies (
                #[trigger] leaves.drop_last()[i]) < self.postings.len() by {
                    assert(leaves.drop_last()[i] == leaves[i]);
                }
                self.lemma_lists_of(leaves.drop_last(), id);
                let i = choose|i: int|
                    0 <= i < leaves.drop_last().len() && self.holds(
                        #[trigger] leaves.drop_last()[i],
                        id,
                    );
                assert(leaves[i] == leaves.drop_last()[i]);
                assert(self.holds(leaves[i], id));
            } else {
                assert(list[w - head.len()] == id);
                let i = leaves.len() - 1;
                assert(self.holds(leaves[i], id));
            }
        }
    }

    /// An id is held by one leaf only.
    pub proof fn lemma_one_leaf(self, k: u32, k2: u32, id: u32)
        requires
            self.wf(),
            self.leaf_paths.contains_key(k),
            self.leaf_paths.contains_key(k2),
            self.holds(k, id),
            self.holds(k2, id),
        ensures
            k == k2,
    {
        let a = self.leaf_paths[k];
        let b = self.leaf_paths[k2];
        assert(self.posting_ok(k));
        assert(self.posting_ok(k2));
        let la = self.postings[k as int]->0;
        let lb = self.postings[k2 as int]->0;
        let ia = choose|i: int| 0 <= i < la.len() && la[i] == id;
        let ib = choose|i: int| 0 <= i < lb.len() && lb[i] == id;
        assert(self.id_fits(k, la[ia]));
        assert(self.id_fits(k2, lb[ib]));
        let d = self.db[id as int];
        if a.len() <= b.len() {
            self.lemma_leaf_prefix(k, k2, d);
        } else {
            self.lemma_leaf_prefix(k2, k, d);
        }
    }

    /// Where the paths of two leaves begin the same sequence and the
    /// first is not the longer one, the leaves are the same.
    proof fn lemma_leaf_prefix(self, k: u32, k2: u32, d: Seq<u8>)
        requires
            self.wf(),
            self.leaf_paths.contains_key(k),
            self.leaf_paths.contains_key(k2),
            is_prefix(self.leaf_paths[k], d),
            is_prefix(self.leaf_paths[k2], d),
            self.leaf_paths[k].len() <= self.leaf_paths[k2].len(),
        ensures
            k == k2,
    {
        let a = self.leaf_paths[k];
        let b = self.leaf_paths[k2];
        assert(b.subrange(0, a.len() as int) =~= a) by {
            assert(d.subrange(0, b.len() as int).subrange(0, a.len() as int) =~= d.subrange(
                0,
                a.len() as int,
            ));
        }
        if a.len() == b.len() {
            assert(b.subrange(0, a.len() as int) =~= b);
        } else {
            assert(self.has_parent(a, leaf_ptr(k)));
            let n = a.len() - 1;
            let p = self.lemma_ancestor(k, n);
            let second = self.lemma_ancestor(k2, n);
            assert(a.subrange(0, n) =~= b.subrange(0, n));
            assert(p == second);
            assert(a[n] == b[n]);
            let c = self.heap[second][b[n]];
            assert(self.heap.contains_key(c));
            assert(self.node_ok(c));
            assert(c == leaf_ptr(k));
        }
    }
}

/// Where two paths begin the same path, one of them begins the other.
pub proof fn lemma_prefixes_compare(a: Seq<u8>, b: Seq<u8>, x: Seq<u8>)
    requires
        is_prefix(a, x),
        is_prefix(b, x),
    ensures
        is_prefix(a, b) || is_prefix(b, a),
{
    if a.len() <= b.len() {
        assert(b.subrange(0, a.len() as int) =~= x.subrange(0, b.len() as int).subrange(
            0,
            a.len() as int,
        ));
        assert(x.subrange(0, b.len() as int).subrange(0, a.len() as int) =~= x.subrange(
            0,
            a.len() as int,
        ));
    } else {
        assert(a.subrange(0, b.len() as int) =~= x.subrange(0, a.len() as int).subrange(
            0,
            b.len() as int,
        ));
        assert(x.subrange(0, a.len() as int).subrange(0, b.len() as int) =~= x.subrange(
            0,
            b.len() as int,
        ));
    }
}

} // verus!
