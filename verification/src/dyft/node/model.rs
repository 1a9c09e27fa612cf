//! What a node is, apart from its bytes: the children under its labels
//! and the slots that hold them.

use crate::dyft::node::common::{MartEdge, MartPointer, MART_NILID};
use vstd::prelude::*;

verus! {

/// A node of any tier.
pub struct NodeModel {
    /// The child under each label that the node has.
    pub edges: Map<u8, MartPointer>,
    /// The slot in which the child of each label is stored.
    pub slot_of: Map<u8, int>,
    /// The header byte: the number of children, as far as a byte can hold
    /// it.
    pub header: u8,
}

impl NodeModel {
    /// The node without children.
    pub open spec fn empty() -> NodeModel {
        NodeModel { edges: Map::empty(), slot_of: Map::empty(), header: 0 }
    }

    /// The child under `label`, if there is one.
    pub open spec fn child(self, label: u8) -> Option<MartPointer> {
        if self.edges.contains_key(label) {
            Some(self.edges[label])
        } else {
            None
        }
    }

    /// Whether slot `slot` holds the child of some label.
    pub open spec fn occupied(self, slot: int) -> bool {
        exists|l: u8| self.edges.contains_key(l) && #[trigger] self.slot_of[l] == slot
    }

    /// The label whose child slot `slot` holds.
    pub open spec fn label_at(self, slot: int) -> u8 {
        choose|l: u8| self.edges.contains_key(l) && #[trigger] self.slot_of[l] == slot
    }

    /// The node with one more child: `ptr` under `label`, stored in
    /// `slot`.
    pub open spec fn with_edge(self, label: u8, ptr: MartPointer, slot: int) -> NodeModel {
        NodeModel {
            edges: self.edges.insert(label, ptr),
            slot_of: self.slot_of.insert(label, slot),
            header: if self.header == 255 {
                0u8
            } else {
                (self.header + 1) as u8
            },
        }
    }

    /// The node with `ptr` in place of the child that slot `slot` holds.
    pub open spec fn with_child_at(self, slot: int, ptr: MartPointer) -> NodeModel {
        NodeModel {
            edges: self.edges.insert(self.label_at(slot), ptr),
            slot_of: self.slot_of,
            header: self.header,
        }
    }

    /// Labels and slots belong together one to one, the slots are below
    /// `slots`, and no child is the nil id.
    pub open spec fn well_formed(self, slots: nat) -> bool {
        &&& self.slot_of.dom() == self.edges.dom()
        &&& forall|l: u8| #[trigger]
            self.edges.contains_key(l) ==> 0 <= self.slot_of[l] < slots && self.edges[l].nid
                != MART_NILID
        &&& forall|l1: u8, l2: u8|
            self.edges.contains_key(l1) && self.edges.contains_key(l2) && #[trigger] self.slot_of[l1]
                == #[trigger] self.slot_of[l2] ==> l1 == l2
    }
}

/// The children that a list of edges names: a later edge overrides an
/// earlier one with the same label.
pub open spec fn edges_map(s: Seq<MartEdge>) -> Map<u8, MartPointer>
    decreases s.len(),
{
    if s.len() == 0 {
        Map::empty()
    } else {
        edges_map(s.drop_last()).insert(s.last().label, s.last().ptr)
    }
}

/// No label occurs twice among the edges.
pub open spec fn distinct_labels(s: Seq<MartEdge>) -> bool {
    forall|i: int, j: int|
        0 <= i < s.len() && 0 <= j < s.len() && i != j ==> (#[trigger] s[i]).label != (
        #[trigger] s[j]).label
}

/// No edge leads to the nil id.
pub open spec fn no_nil_edges(s: Seq<MartEdge>) -> bool {
    forall|i: int| 0 <= i < s.len() ==> (#[trigger] s[i]).ptr.nid != MART_NILID
}

/// The labels that a list of edges names are those of its edges, and
/// where no label occurs twice each leads to the child of its edge.
pub proof fn lemma_edges_map(s: Seq<MartEdge>)
    ensures
        forall|l: u8|
            edges_map(s).contains_key(l) <==> exists|i: int|
                0 <= i < s.len() && (#[trigger] s[i]).label == l,
        distinct_labels(s) ==> forall|i: int|
            0 <= i < s.len() ==> edges_map(s)[(#[trigger] s[i]).label] == s[i].ptr,
    decreases s.len(),
{
    if s.len() > 0 {
        let t = s.drop_last();
        lemma_edges_map(t);
        assert forall|l: u8| edges_map(s).contains_key(l) <==> exists|i: int|
            0 <= i < s.len() && (#[trigger] s[i]).label == l by {
            if edges_map(s).contains_key(l) {
                if l == s.last().label {
                    assert(s[s.len() - 1].label == l);
                } else {
                    let i = choose|i: int| 0 <= i < t.len() && (#[trigger] t[i]).label == l;
                    assert(s[i].label == l);
                }
            }
            if exists|i: int| 0 <= i < s.len() && (#[trigger] s[i]).label == l {
                let i = choose|i: int| 0 <= i < s.len() && (#[trigger] s[i]).label == l;
                if i < t.len() {
                    assert(t[i].label == l);
                }
            }
        }
        if distinct_labels(s) {
            assert(distinct_labels(t)) by {
                assert forall|i: int, j: int|
                    0 <= i < t.len() && 0 <= j < t.len() && i != j implies (#[trigger] t[i]).label
                    != (#[trigger] t[j]).label by {
                    assert(s[i].label != s[j].label);
                }
            }
            assert forall|i: int| 0 <= i < s.len() implies edges_map(s)[(#[trigger] s[i]).label]
                == s[i].ptr by {
                if i < t.len() {
                    assert(t[i] == s[i]);
                    assert(s[i].label != s[s.len() - 1].label);
                    assert(edges_map(t)[t[i].label] == t[i].ptr);
                }
            }
        }
    }
}

/// Two lists of edges without repeated labels that name each other's edges
/// name the same children.
pub proof fn lemma_edges_map_eq(s: Seq<MartEdge>, m: Map<u8, MartPointer>)
    requires
        distinct_labels(s),
        forall|i: int|
            0 <= i < s.len() ==> m.contains_key((#[trigger] s[i]).label) && m[s[i].label]
                == s[i].ptr,
        forall|l: u8|
            m.contains_key(l) ==> exists|i: int| 0 <= i < s.len() && (#[trigger] s[i]).label == l,
    ensures
        edges_map(s) == m,
{
    lemma_edges_map(s);
    assert forall|l: u8| edges_map(s).contains_key(l) == m.contains_key(l) by {
        if edges_map(s).contains_key(l) {
            let i = choose|i: int| 0 <= i < s.len() && (#[trigger] s[i]).label == l;
            assert(m.contains_key(s[i].label));
        }
    }
    assert forall|l: u8| edges_map(s).contains_key(l) implies edges_map(s)[l] == m[l] by {
        let i = choose|i: int| 0 <= i < s.len() && (#[trigger] s[i]).label == l;
        assert(edges_map(s)[s[i].label] == s[i].ptr);
    }
    assert(edges_map(s) =~= m);
}

/// There are no more different numbers below `bound` than `bound`.
pub proof fn lemma_distinct_bounded(f: Seq<int>, bound: int)
    requires
        0 <= bound,
        f.no_duplicates(),
        forall|i: int| 0 <= i < f.len() ==> 0 <= #[trigger] f[i] < bound,
    ensures
        f.len() <= bound,
{
    if f.len() > 0 {
        f.unique_seq_to_set();
        vstd::set_lib::lemma_int_range(0, bound);
        assert(f.to_set().subset_of(vstd::set_lib::set_int_range(0, bound))) by {
            assert forall|x: int| f.to_set().contains(x) implies vstd::set_lib::set_int_range(
                0,
                bound,
            ).contains(x) by {
                let i = choose|i: int| 0 <= i < f.len() && f[i] == x;
                assert(0 <= f[i] < bound);
            }
        }
        vstd::set_lib::lemma_len_subset(f.to_set(), vstd::set_lib::set_int_range(0, bound));
    }
}

} // verus!
