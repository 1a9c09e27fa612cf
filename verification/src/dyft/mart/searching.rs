//! The search: from the root down along every way that stays within the
//! allowed distance of the query.

use crate::dyft::bit_tools::vcode_tools::{words, VCodeTools};
use crate::dyft::constants::label_distance::{label_distance, lemma_label_dist_bound};
use crate::dyft::constants::tables::{ipc_of, label_count};
use crate::dyft::mart::dispatch::{scan_has, scan_sound};
use crate::dyft::mart::model::{is_prefix, leaf_ptr, TrieModel};
use crate::dyft::mart::search::{
    lemma_distance_zero, lemma_prefix_dist_mono, lemma_prefix_dist_step, prefix_dist,
};
use crate::dyft::mart::state::StateType;
use crate::dyft::mart::structure::MartIndex;
use crate::dyft::node::common::{MartEdge, MartNodeTypes, MartPointer};
use crate::dyft::node::model::distinct_labels;
use vstd::prelude::*;

verus! {

/// An upper bound of the work below a node that has `h` levels below it.
pub open spec fn weight(h: nat) -> nat
    decreases h,
{
    if h == 0 {
        1
    } else {
        257 * weight((h - 1) as nat)
    }
}

/// An upper bound of the work that the states stand for in a trie of
/// `width` levels.
pub open spec fn total_weight(states: Seq<StateType>, width: nat) -> nat
    decreases states.len(),
{
    if states.len() == 0 {
        0
    } else {
        total_weight(states.drop_last(), width) + weight((width - states.last().bpos) as nat)
    }
}

pub proof fn lemma_weight_pos(h: nat)
    ensures
        weight(h) >= 1,
    decreases h,
{
    if h > 0 {
        lemma_weight_pos((h - 1) as nat);
        assert(257 * weight((h - 1) as nat) >= 1) by (nonlinear_arith)
            requires
                weight((h - 1) as nat) >= 1,
        ;
    }
}

impl TrieModel {
    /// The state stands on a node in use at the depth of its byte position,
    /// and has used up the distance between the path of the node and the
    /// query, which is within `e`.
    pub open spec fn state_ok(self, q: Seq<u8>, e: nat, s: StateType) -> bool {
        &&& self.heap.contains_key(s.nptr)
        &&& self.paths[s.nptr].len() == s.bpos
        &&& prefix_dist(self.bits, q, self.paths[s.nptr]) == s.dist
        &&& s.dist <= e
    }

    pub open spec fn states_ok(self, q: Seq<u8>, e: nat, states: Seq<StateType>) -> bool {
        forall|j: int| 0 <= j < states.len() ==> self.state_ok(q, e, #[trigger] states[j])
    }

    /// Every id that was found is one that the search finds.
    pub open spec fn sound(self, q: Seq<u8>, e: nat, ret: Seq<u32>) -> bool {
        forall|i: int| 0 <= i < ret.len() ==> self.emits(q, e, #[trigger] ret[i])
    }

    /// Every id of leaf `k` was found.
    pub open spec fn done(self, ret: Seq<u32>, k: u32) -> bool {
        forall|id: u32| self.holds(k, id) ==> #[trigger] ret.contains(id)
    }

    /// Leaf `k` lies below the node of one of the states.
    pub open spec fn covered(self, states: Seq<StateType>, k: u32) -> bool {
        exists|j: int| 0 <= j < states.len() && self.below((#[trigger] states[j]).nptr, k)
    }

    /// Every leaf within the distance was found or lies below the node of
    /// a state.
    pub open spec fn complete(self, q: Seq<u8>, e: nat, states: Seq<StateType>, ret: Seq<u32>) -> bool {
        forall|k: u32| #[trigger]
            self.target(q, e, k) ==> self.done(ret, k) || self.covered(states, k)
    }

    /// Every leaf within the distance below node `p` was found or lies
    /// below the node of a state.
    pub open spec fn complete_below(
        self,
        q: Seq<u8>,
        e: nat,
        p: MartPointer,
        states: Seq<StateType>,
        ret: Seq<u32>,
    ) -> bool {
        forall|k: u32| #[trigger]
            self.target(q, e, k) && self.below(p, k) ==> self.done(ret, k) || self.covered(
                states,
                k,
            )
    }
}

impl TrieModel {
    /// Every leaf within the distance below node `p` was found, lies below
    /// the node of a state, or hangs under an edge that is still to be
    /// followed.
    pub open spec fn progress(
        self,
        q: Seq<u8>,
        e: nat,
        p: MartPointer,
        edges: Seq<MartEdge>,
        j: int,
        states: Seq<StateType>,
        ret: Seq<u32>,
    ) -> bool {
        forall|k: u32| #[trigger]
            self.target(q, e, k) && self.below(p, k) ==> self.done(ret, k) || self.covered(
                states,
                k,
            ) || pending(edges, j, self.leaf_paths[k][self.paths[p].len() as int])
    }

    /// Following an edge to a leaf whose ids are found.
    pub proof fn lemma_follow_leaf(
        self,
        q: Seq<u8>,
        e: nat,
        p: MartPointer,
        edges: Seq<MartEdge>,
        j: int,
        states: Seq<StateType>,
        ret1: Seq<u32>,
        ret2: Seq<u32>,
    )
        requires
            self.wf(),
            0 <= j < edges.len(),
            self.heap.contains_key(p),
            self.heap[p].contains_key(edges[j].label),
            self.heap[p][edges[j].label] == edges[j].ptr,
            edges[j].ptr.ntype == MartNodeTypes::MartLeafNode,
            self.progress(q, e, p, edges, j, states, ret1),
            self.done(ret2, edges[j].ptr.nid),
            forall|id: u32| ret1.contains(id) ==> #[trigger] ret2.contains(id),
        ensures
            self.progress(q, e, p, edges, j + 1, states, ret2),
    {
        let c = edges[j].ptr;
        let l = edges[j].label;
        let pos = self.paths[p].len() as int;
        assert forall|k: u32| #[trigger] self.target(q, e, k) && self.below(p, k) implies self.done(
            ret2,
            k,
        ) || self.covered(states, k) || pending(edges, j + 1, self.leaf_paths[k][pos]) by {
            if self.done(ret1, k) {
                assert forall|id: u32| self.holds(k, id) implies #[trigger] ret2.contains(id) by {
                    assert(ret1.contains(id));
                }
            } else if !self.covered(states, k) {
                let lk = self.leaf_paths[k][pos];
                lemma_pending_step(edges, j, lk);
                if lk == l {
                    self.lemma_step_down(p, k);
                    assert(k == c.nid);
                }
            }
        }
    }

    /// Following an edge to a node, for which a state is added.
    pub proof fn lemma_follow_node(
        self,
        q: Seq<u8>,
        e: nat,
        p: MartPointer,
        edges: Seq<MartEdge>,
        j: int,
        states1: Seq<StateType>,
        next: StateType,
        ret: Seq<u32>,
    )
        requires
            self.wf(),
            0 <= j < edges.len(),
            self.heap.contains_key(p),
            self.heap[p].contains_key(edges[j].label),
            self.heap[p][edges[j].label] == edges[j].ptr,
            edges[j].ptr.ntype.is_inner(),
            next.nptr == edges[j].ptr,
            self.progress(q, e, p, edges, j, states1, ret),
        ensures
            self.progress(q, e, p, edges, j + 1, states1.push(next), ret),
    {
        let c = edges[j].ptr;
        let l = edges[j].label;
        let pos = self.paths[p].len() as int;
        let states2 = states1.push(next);
        assert forall|k: u32| #[trigger] self.target(q, e, k) && self.below(p, k) implies self.done(
            ret,
            k,
        ) || self.covered(states2, k) || pending(edges, j + 1, self.leaf_paths[k][pos]) by {
            if self.covered(states1, k) {
                let i = choose|i: int|
                    0 <= i < states1.len() && self.below((#[trigger] states1[i]).nptr, k);
                assert(states2[i] == states1[i]);
                assert(self.below(states2[i].nptr, k));
            } else if !self.done(ret, k) {
                let lk = self.leaf_paths[k][pos];
                lemma_pending_step(edges, j, lk);
                if lk == l {
                    self.lemma_step_down(p, k);
                    assert(self.below(c, k));
                    assert(self.below(states2[states1.len() as int].nptr, k));
                }
            }
        }
    }

    /// The state one level down, along an edge within the distance left.
    pub proof fn lemma_next_state(
        self,
        q: Seq<u8>,
        e: nat,
        s: StateType,
        l: u8,
        next: StateType,
    )
        requires
            self.wf(),
            self.state_ok(q, e, s),
            self.heap[s.nptr].contains_key(l),
            self.heap[s.nptr][l].ntype.is_inner(),
            next.nptr == self.heap[s.nptr][l],
            next.bpos == s.bpos + 1,
            next.dist == s.dist + label_distance(self.bits, q[s.bpos as int], l),
            next.dist <= e,
        ensures
            self.state_ok(q, e, next),
    {
        self.lemma_child(s.nptr, l);
        assert(self.paths[s.nptr].push(l).drop_last() =~= self.paths[s.nptr]);
    }
}

impl TrieModel {
    /// What holds while the edges of the node of a state are followed one
    /// after the other.
    pub open spec fn following(
        self,
        q: Seq<u8>,
        e: nat,
        state: StateType,
        edges: Seq<MartEdge>,
        j: int,
        states0: Seq<StateType>,
        ret0: Seq<u32>,
        states: Seq<StateType>,
        ret: Seq<u32>,
    ) -> bool {
        &&& 0 <= j <= edges.len()
        &&& self.states_ok(q, e, states)
        &&& self.sound(q, e, ret)
        &&& extends(states0, states)
        &&& forall|id: u32| ret0.contains(id) ==> #[trigger] ret.contains(id)
        &&& total_weight(states, self.width) <= total_weight(states0, self.width) + j * weight(
            (self.width - state.bpos - 1) as nat,
        )
        &&& self.progress(q, e, state.nptr, edges, j, states, ret)
    }

    /// The ids of a leaf within the distance are ids that the search
    /// finds.
    pub proof fn lemma_emitted(self, q: Seq<u8>, e: nat, ret0: Seq<u32>, ret1: Seq<u32>, k: u32)
        requires
            self.wf(),
            self.sound(q, e, ret0),
            self.target(q, e, k),
            k < self.postings.len(),
            ret1 == ret0 + crate::dyft::sparse::sparse_group::list_or_empty(self.postings[k as int]),
        ensures
            self.sound(q, e, ret1),
            self.done(ret1, k),
            forall|id: u32| ret0.contains(id) ==> #[trigger] ret1.contains(id),
    {
        let list = crate::dyft::sparse::sparse_group::list_or_empty(self.postings[k as int]);
        assert forall|i: int| 0 <= i < ret1.len() implies self.emits(q, e, #[trigger] ret1[i]) by {
            if i < ret0.len() {
                assert(ret1[i] == ret0[i]);
            } else {
                assert(ret1[i] == list[i - ret0.len()]);
                assert(self.holds(k, ret1[i]));
            }
        }
        assert forall|id: u32| self.holds(k, id) implies #[trigger] ret1.contains(id) by {
            let w = choose|w: int| 0 <= w < list.len() && list[w] == id;
            assert(ret1[ret0.len() + w] == id);
        }
        assert forall|id: u32| ret0.contains(id) implies #[trigger] ret1.contains(id) by {
            let w = choose|w: int| 0 <= w < ret0.len() && ret0[w] == id;
            assert(ret1[w] == id);
        }
    }

    /// A leaf under a node has a posting list.
    pub proof fn lemma_leaf_in_table(self, p: MartPointer, l: u8)
        requires
            self.wf(),
            self.heap.contains_key(p),
            self.heap[p].contains_key(l),
            self.heap[p][l].ntype == MartNodeTypes::MartLeafNode,
        ensures
            self.heap[p][l].nid < self.postings.len(),
    {
        assert(self.edge_ok(p, l));
        assert(self.leaf_paths.contains_key(self.heap[p][l].nid));
    }

    /// Following edge `j` to a leaf and taking its ids.
    pub proof fn lemma_step_leaf(
        self,
        q: Seq<u8>,
        e: nat,
        state: StateType,
        edges: Seq<MartEdge>,
        j: int,
        states0: Seq<StateType>,
        ret0: Seq<u32>,
        states: Seq<StateType>,
        ret1: Seq<u32>,
        ret2: Seq<u32>,
    )
        requires
            self.wf(),
            self.state_ok(q, e, state),
            0 <= j < edges.len(),
            self.heap[state.nptr].contains_key(edges[j].label),
            self.heap[state.nptr][edges[j].label] == edges[j].ptr,
            edges[j].ptr.ntype == MartNodeTypes::MartLeafNode,
            state.dist + label_distance(self.bits, q[state.bpos as int], edges[j].label) <= e,
            self.following(q, e, state, edges, j, states0, ret0, states, ret1),
            ret2 == ret1 + crate::dyft::sparse::sparse_group::list_or_empty(
                self.postings[edges[j].ptr.nid as int],
            ),
        ensures
            edges[j].ptr.nid < self.postings.len(),
            self.target(q, e, edges[j].ptr.nid),
            self.following(q, e, state, edges, j + 1, states0, ret0, states, ret2),
    {
        let p = state.nptr;
        let l = edges[j].label;
        let k = edges[j].ptr.nid;
        let h1 = (self.width - state.bpos - 1) as nat;
        self.lemma_child(p, l);
        assert(self.edge_ok(p, l));
        assert(self.leaf_paths.contains_key(k));
        assert(self.paths[p].push(l).drop_last() =~= self.paths[p]);
        assert(self.target(q, e, k));
        self.lemma_emitted(q, e, ret1, ret2, k);
        self.lemma_follow_leaf(q, e, p, edges, j, states, ret1, ret2);
        assert forall|id: u32| ret0.contains(id) implies #[trigger] ret2.contains(id) by {
            assert(ret1.contains(id));
        }
        lemma_weight_pos(h1);
        assert((j + 1) * weight(h1) == j * weight(h1) + weight(h1)) by (nonlinear_arith);
    }

    /// Following edge `j` to a node and adding a state for it.
    pub proof fn lemma_step_node(
        self,
        q: Seq<u8>,
        e: nat,
        state: StateType,
        edges: Seq<MartEdge>,
        j: int,
        states0: Seq<StateType>,
        ret0: Seq<u32>,
        states1: Seq<StateType>,
        ret: Seq<u32>,
        next: StateType,
    )
        requires
            self.wf(),
            self.state_ok(q, e, state),
            0 <= j < edges.len(),
            self.heap[state.nptr].contains_key(edges[j].label),
            self.heap[state.nptr][edges[j].label] == edges[j].ptr,
            edges[j].ptr.ntype != MartNodeTypes::MartLeafNode,
            next.nptr == edges[j].ptr,
            next.bpos == state.bpos + 1,
            next.dist == state.dist + label_distance(
                self.bits,
                q[state.bpos as int],
                edges[j].label,
            ),
            next.dist <= e,
            self.following(q, e, state, edges, j, states0, ret0, states1, ret),
        ensures
            self.following(q, e, state, edges, j + 1, states0, ret0, states1.push(next), ret),
    {
        let p = state.nptr;
        let l = edges[j].label;
        let w = self.width;
        let h1 = (w - state.bpos - 1) as nat;
        let states2 = states1.push(next);
        self.lemma_child(p, l);
        self.lemma_next_state(q, e, state, l, next);
        assert(states2.drop_last() =~= states1);
        assert(states2.last() == next);
        assert(states2.subrange(0, states0.len() as int) =~= states0) by {
            assert(states1.subrange(0, states0.len() as int) == states0);
        }
        assert(total_weight(states2, w) == total_weight(states1, w) + weight(h1));
        assert((j + 1) * weight(h1) == j * weight(h1) + weight(h1)) by (nonlinear_arith);
        assert forall|i: int| 0 <= i < states2.len() implies self.state_ok(
            q,
            e,
            #[trigger] states2[i],
        ) by {
            if i < states1.len() {
                assert(states2[i] == states1[i]);
            }
        }
        self.lemma_follow_node(q, e, p, edges, j, states1, next, ret);
    }
}

/// `a` is a beginning of `b`.
pub open spec fn extends<A>(a: Seq<A>, b: Seq<A>) -> bool {
    a.len() <= b.len() && b.subrange(0, a.len() as int) == a
}

impl MartIndex {
    /// Adds the ids of leaf `nid` to `ret`.
    fn emit_leaf(&self, nid: u32, ret: &mut Vec<u32>)
        requires
            self.m_postings_list.wf(),
            nid < self.m_postings_list@.len(),
        ensures
            extends(old(ret)@, final(ret)@),
            final(ret)@ == old(ret)@ + crate::dyft::sparse::sparse_group::list_or_empty(
                self.m_postings_list@[nid as int],
            ),
    {
        match self.m_postings_list.access(nid) {
            Some(ids) => {
                ret.extend_from_slice(ids);
                assert(ret@.subrange(0, old(ret)@.len() as int) =~= old(ret)@);
            },
            None => {
                assert(ret@ + Seq::<u32>::empty() =~= ret@);
                assert(ret@.subrange(0, old(ret)@.len() as int) =~= old(ret)@);
            },
        }
    }

    /// The edges of the node of the state that lead on within `radius` of
    /// `label`.
    fn perform_scan(&self, state: &StateType, hamming_distance: &[u8], label: u8, radius: u8) -> (r:
        Vec<MartEdge>)
        requires
            self.config_wf(),
            self.arenas_wf(),
            self.live(state.nptr),
            radius <= ipc_of(self.m_bits as nat),
            hamming_distance@.len() == 256,
            forall|other: u8| #[trigger]
                hamming_distance@[other as int] == label_distance(self.m_bits as nat, label, other),
        ensures
            scan_sound(self.node(state.nptr).edges, r@),
            r@.len() <= 256,
            forall|j: int|
                0 <= j < r@.len() ==> label_distance(
                    self.m_bits as nat,
                    label,
                    (#[trigger] r@[j]).label,
                ) <= radius,
            forall|l: u8|
                self.node(state.nptr).edges.contains_key(l) && l < label_count(
                    self.m_bits as nat,
                ) && label < label_count(self.m_bits as nat) && label_distance(
                    self.m_bits as nat,
                    label,
                    l,
                ) <= radius ==> #[trigger] scan_has(r@, l),
            distinct_labels(r@),
    {
        let all = self.perform_inner_scan(state.nptr, radius, label);
        let mut out: Vec<MartEdge> = Vec::new();
        let mut j: usize = 0;
        while j < all.len()
            invariant
                j <= all@.len(),
                all@.len() <= 256,
                hamming_distance@.len() == 256,
                forall|other: u8| #[trigger]
                    hamming_distance@[other as int] == label_distance(
                        self.m_bits as nat,
                        label,
                        other,
                    ),
                scan_sound(self.node(state.nptr).edges, all@),
                scan_sound(self.node(state.nptr).edges, out@),
                out@.len() <= j,
                distinct_labels(all@),
                distinct_labels(out@),
                forall|i: int| 0 <= i < out@.len() ==> #[trigger] picked(out@, i, all@, j as int),
                forall|i: int|
                    0 <= i < out@.len() ==> label_distance(
                        self.m_bits as nat,
                        label,
                        (#[trigger] out@[i]).label,
                    ) <= radius,
                forall|i: int|
                    0 <= i < j && label_distance(
                        self.m_bits as nat,
                        label,
                        (#[trigger] all@[i]).label,
                    ) <= radius ==> scan_has(out@, all@[i].label),
            decreases all@.len() - j,
        {
            let e = all[j];
            let ghost prev = out@;
            if hamming_distance[e.label as usize] <= radius {
                out.push(e);
                proof {
                    assert(out@[prev.len() as int].label == e.label);
                    assert forall|i: int| 0 <= i < out@.len() implies #[trigger] picked(
                        out@,
                        i,
                        all@,
                        j + 1,
                    ) by {
                        if i < prev.len() {
                            assert(picked(prev, i, all@, j as int));
                            let w = choose|w: int| 0 <= w < j && prev[i] == #[trigger] all@[w];
                            assert(out@[i] == all@[w]);
                        } else {
                            assert(out@[i] == all@[j as int]);
                        }
                    }
                    assert forall|a: int, b: int|
                        0 <= a < out@.len() && 0 <= b < out@.len() && a != b implies (
                    #[trigger] out@[a]).label != (#[trigger] out@[b]).label by {
                        if a < prev.len() && b < prev.len() {
                            assert(prev[a].label != prev[b].label);
                        } else {
                            let old_one = if a < prev.len() {
                                a
                            } else {
                                b
                            };
                            assert(picked(prev, old_one, all@, j as int));
                            let w = choose|w: int| 0 <= w < j && prev[old_one] == #[trigger] all@[w];
                            assert(all@[w].label != all@[j as int].label);
                        }
                    }
                    assert forall|i: int|
                        0 <= i < j && label_distance(
                            self.m_bits as nat,
                            label,
                            (#[trigger] all@[i]).label,
                        ) <= radius implies scan_has(out@, all@[i].label) by {
                        let w = choose|w: int|
                            0 <= w < prev.len() && (#[trigger] prev[w]).label == all@[i].label;
                        assert(out@[w].label == all@[i].label);
                    }
                }
            } else {
                proof {
                    assert forall|i: int| 0 <= i < out@.len() implies #[trigger] picked(
                        out@,
                        i,
                        all@,
                        j + 1,
                    ) by {
                        assert(picked(out@, i, all@, j as int));
                        let w = choose|w: int| 0 <= w < j && out@[i] == #[trigger] all@[w];
                        assert(0 <= w < j + 1);
                    }
                }
            }
            j = j + 1;
        }
        proof {
            assert forall|l: u8|
                self.node(state.nptr).edges.contains_key(l) && l < label_count(
                    self.m_bits as nat,
                ) && label < label_count(self.m_bits as nat) && label_distance(
                    self.m_bits as nat,
                    label,
                    l,
                ) <= radius implies #[trigger] scan_has(out@, l) by {
                assert(scan_has(all@, l));
                let i = choose|i: int| 0 <= i < all@.len() && (#[trigger] all@[i]).label == l;
                assert(scan_has(out@, all@[i].label));
            }
        }
        out
    }

    /// Follows the labels of the query from the node of the state down to
    /// a leaf, if they lead to one.
    fn perform_exact_search(&self, labels: &Vec<u8>, state: &StateType) -> (r: Option<u32>)
        requires
            self.wf(),
            labels@.len() == self.width(),
            forall|j: int|
                0 <= j < labels@.len() ==> (#[trigger] labels@[j]) < label_count(
                    self.m_bits as nat,
                ),
            self.model().state_ok(labels@, self.m_errors as nat, *state),
            state.dist == self.m_errors,
        ensures
            match r {
                Some(k) => self.model().target(labels@, self.m_errors as nat, k) && k
                    < self.m_postings_list@.len() && self.model().below(state.nptr, k)
                    && forall|k2: u32| #[trigger]
                    self.model().target(labels@, self.m_errors as nat, k2) && self.model().below(
                        state.nptr,
                        k2,
                    ) ==> k2 == k,
                None => forall|k2: u32| #[trigger]
                    self.model().target(labels@, self.m_errors as nat, k2) ==> !self.model().below(
                        state.nptr,
                        k2,
                    ),
            },
    {
        let ghost m = self.model();
        let ghost q = labels@;
        let ghost e = self.m_errors as nat;
        let mut ptr = state.nptr;
        let mut pos = state.bpos;
        proof {
            assert(m.paths[ptr].subrange(0, m.paths[ptr].len() as int) =~= m.paths[ptr]);
        }
        loop
            invariant
                self.wf(),
                m == self.model(),
                q == labels@,
                e == self.m_errors,
                labels@.len() == self.width(),
                forall|j: int|
                    0 <= j < labels@.len() ==> (#[trigger] labels@[j]) < label_count(
                        self.m_bits as nat,
                    ),
                m.heap.contains_key(ptr),
                m.heap.contains_key(state.nptr),
                is_prefix(m.paths[state.nptr], m.paths[ptr]),
                m.paths[ptr].len() == pos,
                prefix_dist(m.bits, q, m.paths[ptr]) == e,
                forall|k2: u32| #[trigger]
                    m.target(q, e, k2) && m.below(state.nptr, k2) ==> m.below(ptr, k2),
            decreases self.width() - pos,
        {
            proof {
                assert(m.node_ok(ptr));
            }
            let label = labels[pos];
            match self.perform_find_child(ptr, label) {
                Some(child) => {
                    proof {
                        m.lemma_child(ptr, label);
                        lemma_distance_zero(m.bits, label, label);
                        assert(m.paths[ptr].push(label).drop_last() =~= m.paths[ptr]);
                        assert forall|k2: u32| #[trigger]
                            m.target(q, e, k2) && m.below(ptr, k2) implies m.leaf_paths[k2][pos as int]
                            == label by {
                            self.lemma_exact_label(q, k2, ptr);
                        }
                    }
                    proof {
                        lemma_prefix_longer(m.paths[state.nptr], m.paths[ptr], label);
                    }
                    if child.is_leaf() {
                        proof {
                            assert forall|k2: u32| #[trigger]
                                m.target(q, e, k2) && m.below(state.nptr, k2) implies k2
                                == child.nid by {
                                m.lemma_step_down(ptr, k2);
                            }
                            assert(m.below(state.nptr, child.nid));
                        }
                        return Some(child.nid());
                    }
                    proof {
                        assert forall|k2: u32| #[trigger]
                            m.target(q, e, k2) && m.below(state.nptr, k2) implies m.below(
                            child,
                            k2,
                        ) by {
                            m.lemma_step_down(ptr, k2);
                        }
                    }
                    ptr = child;
                    pos = pos + 1;
                },
                None => {
                    proof {
                        assert forall|k2: u32| #[trigger] m.target(q, e, k2) implies !m.below(
                            state.nptr,
                            k2,
                        ) by {
                            if m.below(state.nptr, k2) {
                                self.lemma_exact_label(q, k2, ptr);
                                m.lemma_step_down(ptr, k2);
                            }
                        }
                    }
                    return None;
                },
            }
        }
    }

    /// Where the distance is used up at node `p`, a leaf within the
    /// distance below `p` goes on with the label of the query.
    proof fn lemma_exact_label(&self, q: Seq<u8>, k: u32, p: MartPointer)
        requires
            self.wf(),
            q.len() == self.width(),
            forall|j: int| 0 <= j < q.len() ==> (#[trigger] q[j]) < label_count(self.m_bits as nat),
            self.model().target(q, self.m_errors as nat, k),
            self.model().below(p, k),
            prefix_dist(self.m_bits as nat, q, self.model().paths[p]) == self.m_errors,
        ensures
            self.model().paths[p].len() < self.model().leaf_paths[k].len(),
            self.model().leaf_paths[k][self.model().paths[p].len() as int] == q[self.model().paths[p].len() as int],
    {
        let m = self.model();
        let path = m.leaf_paths[k];
        let n = m.paths[p].len() as int;
        m.lemma_step_down(p, k);
        m.lemma_child(p, path[n]);
        lemma_prefix_dist_step(m.bits, q, path, n);
        lemma_prefix_dist_mono(m.bits, q, path, n + 1);
        assert(path.subrange(0, n) == m.paths[p]);
        lemma_distance_zero(m.bits, q[n], path[n]);
    }

    /// The ids of a leaf within the distance are ids that the search
    /// finds.
    proof fn lemma_emit_sound(&self, q: Seq<u8>, ret0: Seq<u32>, ret1: Seq<u32>, k: u32)
        requires
            self.wf(),
            self.model().sound(q, self.m_errors as nat, ret0),
            self.model().target(q, self.m_errors as nat, k),
            k < self.m_postings_list@.len(),
            ret1 == ret0 + crate::dyft::sparse::sparse_group::list_or_empty(
                self.m_postings_list@[k as int],
            ),
        ensures
            self.model().sound(q, self.m_errors as nat, ret1),
            self.model().done(ret1, k),
            forall|id: u32| ret0.contains(id) ==> #[trigger] ret1.contains(id),
    {
        let m = self.model();
        let e = self.m_errors as nat;
        let list = crate::dyft::sparse::sparse_group::list_or_empty(self.m_postings_list@[k as int]);
        assert forall|i: int| 0 <= i < ret1.len() implies m.emits(q, e, #[trigger] ret1[i]) by {
            if i < ret0.len() {
                assert(ret1[i] == ret0[i]);
            } else {
                assert(ret1[i] == list[i - ret0.len()]);
                assert(m.holds(k, ret1[i]));
            }
        }
        assert forall|id: u32| m.holds(k, id) implies #[trigger] ret1.contains(id) by {
            let w = choose|w: int| 0 <= w < list.len() && list[w] == id;
            assert(ret1[ret0.len() + w] == id);
        }
        assert forall|id: u32| ret0.contains(id) implies #[trigger] ret1.contains(id) by {
            let w = choose|w: int| 0 <= w < ret0.len() && ret0[w] == id;
            assert(ret1[w] == id);
        }
    }

    /// Follows edge `j` of the node of the state: to the ids of a leaf, or
    /// to a state one level down.
    fn follow_edge(
        &self,
        state: &StateType,
        edge: MartEdge,
        dist: u8,
        states: &mut Vec<StateType>,
        ret: &mut Vec<u32>,
        Ghost(q): Ghost<Seq<u8>>,
        Ghost(edges): Ghost<Seq<MartEdge>>,
        Ghost(j): Ghost<int>,
        Ghost(states0): Ghost<Seq<StateType>>,
        Ghost(ret0): Ghost<Seq<u32>>,
        Ghost(leaves0): Ghost<Seq<u32>>,
        Ghost(leaves1): Ghost<Seq<u32>>,
    ) -> (leaves: Ghost<Seq<u32>>)
        requires
            self.m_postings_list.wf(),
            self.model().wf(),
            self.model().state_ok(q, self.m_errors as nat, *state),
            self.model().edges_of_node(state.nptr, edges),
            self.model().tidy_at(
                q,
                self.m_errors as nat,
                *state,
                edges,
                j,
                states0,
                leaves0,
                old(states)@,
                leaves1,
            ),
            old(ret)@ == self.model().lists_of(leaves1),
            state.bpos < usize::MAX,
            0 <= j < edges.len(),
            edges[j] == edge,
            self.model().heap[state.nptr].contains_key(edge.label),
            self.model().heap[state.nptr][edge.label] == edge.ptr,
            dist == label_distance(self.m_bits as nat, q[state.bpos as int], edge.label),
            state.dist + dist <= self.m_errors,
            self.model().following(
                q,
                self.m_errors as nat,
                *state,
                edges,
                j,
                states0,
                ret0,
                old(states)@,
                old(ret)@,
            ),
        ensures
            self.model().following(
                q,
                self.m_errors as nat,
                *state,
                edges,
                j + 1,
                states0,
                ret0,
                final(states)@,
                final(ret)@,
            ),
            self.model().tidy_at(
                q,
                self.m_errors as nat,
                *state,
                edges,
                j + 1,
                states0,
                leaves0,
                final(states)@,
                leaves@,
            ),
            final(ret)@ == self.model().lists_of(leaves@),
    {
        let ghost m = self.model();
        let ghost e = self.m_errors as nat;
        let ghost ret1 = ret@;
        let ghost states1 = states@;
        match edge.ptr.ntype() {
            MartNodeTypes::MartLeafNode => {
                proof {
                    m.lemma_leaf_in_table(state.nptr, edge.label);
                }
                self.emit_leaf(edge.ptr.nid(), ret);
                let ghost leaves2 = leaves1.push(edge.ptr.nid);
                proof {
                    m.lemma_step_leaf(q, e, *state, edges, j, states0, ret0, states1, ret1, ret@);
                    m.lemma_tidy_leaf(q, e, *state, edges, j, states0, leaves0, states1, leaves1);
                    m.lemma_lists_push(leaves1, edge.ptr.nid);
                    assert(m.postings == self.m_postings_list@);
                }
                Ghost(leaves2)
            },
            _ => {
                let next = state.next(edge.ptr.nid(), edge.ptr.ntype(), dist);
                states.push(next);
                proof {
                    m.lemma_step_node(q, e, *state, edges, j, states0, ret0, states1, ret@, next);
                    m.lemma_child(state.nptr, edge.label);
                    m.lemma_tidy_node(
                        q,
                        e,
                        *state,
                        edges,
                        j,
                        states0,
                        leaves0,
                        states1,
                        leaves1,
                        next,
                    );
                }
                Ghost(leaves1)
            },
        }
    }

    /// Goes on from a state that has distance left: every edge of its node
    /// within the distance left is followed, to the ids of a leaf or to a
    /// state one level down.
    fn expand_state(
        &self,
        state: &StateType,
        labels: &Vec<u8>,
        states: &mut Vec<StateType>,
        ret: &mut Vec<u32>,
        Ghost(leaves0): Ghost<Seq<u32>>,
    ) -> (found: Ghost<Seq<u32>>)
        requires
            self.wf(),
            labels@.len() == self.width(),
            forall|j: int|
                0 <= j < labels@.len() ==> (#[trigger] labels@[j]) < label_count(
                    self.m_bits as nat,
                ),
            self.model().state_ok(labels@, self.m_errors as nat, *state),
            state.dist < self.m_errors,
            self.model().states_ok(labels@, self.m_errors as nat, old(states)@),
            self.model().sound(labels@, self.m_errors as nat, old(ret)@),
            self.model().tidy(labels@, self.m_errors as nat, old(states)@, leaves0),
            self.model().clear_of(state.nptr, leaves0),
            self.model().apart_from(state.nptr, old(states)@, old(states)@.len() as int),
            old(ret)@ == self.model().lists_of(leaves0),
        ensures
            self.model().tidy(labels@, self.m_errors as nat, final(states)@, found@),
            final(ret)@ == self.model().lists_of(found@),
            self.model().states_ok(labels@, self.m_errors as nat, final(states)@),
            self.model().sound(labels@, self.m_errors as nat, final(ret)@),
            extends(old(states)@, final(states)@),
            forall|id: u32| old(ret)@.contains(id) ==> #[trigger] final(ret)@.contains(id),
            self.model().complete_below(
                labels@,
                self.m_errors as nat,
                state.nptr,
                final(states)@,
                final(ret)@,
            ),
            total_weight(final(states)@, self.width()) <= total_weight(old(states)@, self.width())
                + 256 * weight((self.width() - state.bpos - 1) as nat),
    {
        let ghost m = self.model();
        let ghost q = labels@;
        let ghost e = self.m_errors as nat;
        let ghost p = state.nptr;
        let ghost w = self.width();
        let ghost h1 = (w - state.bpos - 1) as nat;
        proof {
            assert(m.node_ok(p));
        }
        let pos = state.pos();
        let label = labels[pos];
        let hamming_distance = self.m_tables.hamming_distance(label);
        let ipc = self.m_tables.ints_per_chunk();
        let left = self.m_errors - state.dist();
        let radius = if left < ipc {
            left
        } else {
            ipc
        };
        let edges = self.perform_scan(state, hamming_distance, label, radius);
        let ghost states0 = states@;
        let ghost ret0 = ret@;
        let ghost leaves = leaves0;
        let mut j: usize = 0;
        proof {
            assert(states@.subrange(0, states0.len() as int) =~= states0);
            assert(self.node(p).edges == m.heap[p]);
            m.lemma_tidy_begin(q, e, *state, edges@, states0, leaves0);
            assert forall|k: u32| #[trigger] m.target(q, e, k) && m.below(p, k) implies pending(
                edges@,
                0,
                m.leaf_paths[k][pos as int],
            ) by {
                let path = m.leaf_paths[k];
                let lk = path[pos as int];
                m.lemma_step_down(p, k);
                m.lemma_child(p, lk);
                lemma_prefix_dist_step(m.bits, q, path, pos as int);
                lemma_prefix_dist_mono(m.bits, q, path, pos + 1);
                assert(path.subrange(0, pos as int) == m.paths[p]);
                lemma_label_dist_bound(label, lk, self.m_bits as nat, 8nat / (self.m_bits as nat));
                assert(label_distance(self.m_bits as nat, label, lk) <= radius);
                assert(scan_has(edges@, lk));
                let i = choose|i: int| 0 <= i < edges@.len() && (#[trigger] edges@[i]).label == lk;
                assert(0 <= i < edges@.len() && edges@[i].label == lk);
            }
        }
        while j < edges.len()
            invariant
                j <= edges@.len(),
                edges@.len() <= 256,
                self.wf(),
                labels@.len() == self.width(),
                q == labels@,
                m == self.model(),
                p == state.nptr,
                pos == state.bpos,
                label == q[pos as int],
                self.model().state_ok(labels@, self.m_errors as nat, *state),
                state.dist < self.m_errors,
                radius <= self.m_errors - state.dist,
                hamming_distance@.len() == 256,
                forall|other: u8| #[trigger]
                    hamming_distance@[other as int] == label_distance(
                        self.m_bits as nat,
                        label,
                        other,
                    ),
                scan_sound(m.heap[p], edges@),
                distinct_labels(edges@),
                m.heap.contains_key(p),
                m.tidy_at(
                    labels@,
                    self.m_errors as nat,
                    *state,
                    edges@,
                    j as int,
                    states0,
                    leaves0,
                    states@,
                    leaves,
                ),
                ret@ == m.lists_of(leaves),
                forall|i: int|
                    0 <= i < edges@.len() ==> label_distance(
                        self.m_bits as nat,
                        label,
                        (#[trigger] edges@[i]).label,
                    ) <= radius,
                self.model().following(
                    q,
                    self.m_errors as nat,
                    *state,
                    edges@,
                    j as int,
                    states0,
                    ret0,
                    states@,
                    ret@,
                ),
            decreases edges@.len() - j,
        {
            let edge = edges[j];
            let dist = hamming_distance[edge.label as usize];
            proof {
                assert(m.heap[p].contains_key(edge.label) && m.heap[p][edge.label] == edge.ptr);
                assert(m.node_ok(p));
            }
            let Ghost(grown) = self.follow_edge(
                state,
                edge,
                dist,
                states,
                ret,
                Ghost(q),
                Ghost(edges@),
                Ghost(j as int),
                Ghost(states0),
                Ghost(ret0),
                Ghost(leaves0),
                Ghost(leaves),
            );
            proof {
                leaves = grown;
            }
            j = j + 1;
        }
        proof {
            assert(256 * weight(h1) >= j * weight(h1)) by (nonlinear_arith)
                requires
                    j <= 256,
                    weight(h1) >= 0,
            ;
            assert forall|k: u32| #[trigger] m.target(q, e, k) && m.below(p, k) implies m.done(
                ret@,
                k,
            ) || m.covered(states@, k) by {
                let lk = m.leaf_paths[k][pos as int];
                assert(!pending(edges@, j as int, lk));
            }
            m.lemma_tidy_end(q, e, *state, edges@, j as int, states0, leaves0, states@, leaves);
        }
        Ghost(leaves)
    }

    /// The ids of the sketches that may lie within the allowed distance of
    /// the sketch `vcode`: the posting lists of the leaves whose paths lie
    /// within that distance of the labels of `vcode`, each leaf once.
    pub fn trie_search<T: VCodeTools>(&self, vcode: &[T]) -> (ret: Vec<u32>)
        requires
            self.wf(),
            self.m_bits <= vcode@.len(),
        ensures
            forall|id: u32|
                #[trigger] ret@.contains(id) <==> self.model().emits(
                    self.labels_of(words(vcode@)),
                    self.m_errors as nat,
                    id,
                ),
            exists|leaves: Seq<u32>| #[trigger]
                self.model().found(
                    self.labels_of(words(vcode@)),
                    self.m_errors as nat,
                    leaves,
                    ret@,
                ),
    {
        let labels = self.byte_pack_iter(vcode);
        let ghost m = self.model();
        let ghost q = labels@;
        let ghost e = self.m_errors as nat;
        let ghost w = self.width();
        let mut ret: Vec<u32> = Vec::new();
        let mut states: Vec<StateType> = Vec::new();
        let ghost leaves: Seq<u32> = Seq::empty();
        states.push(StateType::new(MartPointer::new(self.m_rootptr.nid(), self.m_rootptr.ntype()), 0, 0));
        proof {
            self.lemma_labels(words(vcode@));
            assert(m.state_ok(q, e, states@[0]));
            m.lemma_tidy_start(q, e, states@);
            assert(ret@ =~= m.lists_of(leaves));
            assert forall|k: u32| #[trigger] m.target(q, e, k) implies m.done(ret@, k) || m.covered(
                states@,
                k,
            ) by {
                assert(m.leaf_paths[k].subrange(0, 0) =~= Seq::<u8>::empty());
                assert(m.below(states@[0].nptr, k));
            }
        }
        while states.len() > 0
            invariant
                self.wf(),
                m == self.model(),
                q == labels@,
                e == self.m_errors,
                w == self.width(),
                labels@.len() == w,
                forall|j: int|
                    0 <= j < labels@.len() ==> (#[trigger] labels@[j]) < label_count(
                        self.m_bits as nat,
                    ),
                m.states_ok(q, e, states@),
                m.sound(q, e, ret@),
                m.complete(q, e, states@, ret@),
                m.tidy(q, e, states@, leaves),
                ret@ == m.lists_of(leaves),
            decreases total_weight(states@, w),
        {
            let ghost states0 = states@;
            let ghost ret0 = ret@;
            let state = states.pop().unwrap();
            let ghost rest = states@;
            proof {
                assert(states0.drop_last() =~= rest);
                assert(states0.last() == state);
                assert(m.state_ok(q, e, states0[states0.len() - 1]));
                assert(m.node_ok(state.nptr));
                assert forall|j: int| 0 <= j < rest.len() implies m.state_ok(q, e, #[trigger] rest[j]) by {
                    assert(rest[j] == states0[j]);
                }
                let h = (w - state.bpos) as nat;
                lemma_weight_pos((h - 1) as nat);
                assert(weight(h) == 257 * weight((h - 1) as nat));
                assert(257 * weight((h - 1) as nat) > 256 * weight((h - 1) as nat))
                    by (nonlinear_arith)
                    requires
                        weight((h - 1) as nat) >= 1,
                ;
                m.lemma_tidy_pop(q, e, states0, leaves, Seq::empty());
            }
            if state.dist() < self.m_errors {
                let Ghost(grown) = self.expand_state(
                    &state,
                    &labels,
                    &mut states,
                    &mut ret,
                    Ghost(leaves),
                );
                proof {
                    leaves = grown;
                }
            } else {
                match self.perform_exact_search(&labels, &state) {
                    Some(k) => {
                        self.emit_leaf(k, &mut ret);
                        proof {
                            self.lemma_emit_sound(q, ret0, ret@, k);
                            m.lemma_tidy_exact(q, e, state.nptr, rest, leaves, k);
                            m.lemma_lists_push(leaves, k);
                            leaves = leaves.push(k);
                        }
                    },
                    None => {},
                }
                proof {
                    assert(states@.subrange(0, rest.len() as int) =~= rest);
                }
            }
            proof {
                assert forall|k: u32| #[trigger] m.target(q, e, k) implies m.done(ret@, k)
                    || m.covered(states@, k) by {
                    if m.done(ret0, k) {
                        assert forall|id: u32| m.holds(k, id) implies #[trigger] ret@.contains(
                            id,
                        ) by {
                            assert(ret0.contains(id));
                        }
                    } else {
                        assert(m.covered(states0, k));
                        let i = choose|i: int|
                            0 <= i < states0.len() && m.below((#[trigger] states0[i]).nptr, k);
                        if i < rest.len() {
                            assert(states@.subrange(0, rest.len() as int)[i] == rest[i]);
                            assert(states@[i] == states0[i]);
                            assert(m.below(states@[i].nptr, k));
                        } else {
                            assert(m.below(state.nptr, k));
                        }
                    }
                }
            }
        }
        proof {
            assert forall|id: u32| #[trigger] ret@.contains(id) <==> m.emits(q, e, id) by {
                if ret@.contains(id) {
                    let i = choose|i: int| 0 <= i < ret@.len() && ret@[i] == id;
                    assert(m.emits(q, e, ret@[i]));
                }
                if m.emits(q, e, id) {
                    let k = choose|k: u32| #[trigger] m.target(q, e, k) && m.holds(k, id);
                    assert(m.done(ret@, k) || m.covered(states@, k));
                    assert(!m.covered(states@, k));
                }
            }
            m.lemma_tidy_leaves(q, e, states@, leaves);
            assert forall|k: u32| #[trigger] m.target(q, e, k) implies leaves.contains(k) by {
                assert(m.done(ret@, k) || m.covered(states@, k));
                assert(!m.covered(states@, k));
                m.lemma_found_leaf(q, e, leaves, ret@, k);
            }
            assert(m.found(q, e, leaves, ret@));
        }
        ret
    }
}

/// A beginning of a path is a beginning of the path with one more label.
pub proof fn lemma_prefix_longer(a: Seq<u8>, b: Seq<u8>, l: u8)
    requires
        is_prefix(a, b),
    ensures
        is_prefix(a, b.push(l)),
{
    assert(b.push(l).subrange(0, a.len() as int) =~= b.subrange(0, a.len() as int));
}

/// Edge `i` of `out` is one of the first `j` edges of `all`.
pub open spec fn picked(out: Seq<MartEdge>, i: int, all: Seq<MartEdge>, j: int) -> bool {
    exists|w: int| 0 <= w < j && out[i] == #[trigger] all[w]
}

/// An edge with label `l` is among the edges from index `j` on.
pub open spec fn pending(edges: Seq<MartEdge>, j: int, l: u8) -> bool {
    exists|i: int| j <= i < edges.len() && (#[trigger] edges[i]).label == l
}

/// An edge that is pending from `j` on is edge `j` or pending from `j + 1`
/// on.
pub proof fn lemma_pending_step(edges: Seq<MartEdge>, j: int, l: u8)
    requires
        0 <= j < edges.len(),
    ensures
        pending(edges, j, l) ==> edges[j].label == l || pending(edges, j + 1, l),
{
    if pending(edges, j, l) {
        let i = choose|i: int| j <= i < edges.len() && (#[trigger] edges[i]).label == l;
        if i > j {
            assert(j + 1 <= i < edges.len() && edges[i].label == l);
        }
    }
}

} // verus!
