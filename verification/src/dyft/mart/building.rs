//! Building the trie from a dataset of sketches.

use crate::dyft::bit_tools::vcode_array::VCodeArray;
use crate::dyft::bit_tools::vcode_tools::{words, VCodeTools};
use crate::dyft::constants::tables::ipc_of;
use crate::dyft::mart::heap::{grown, rooms};
use crate::dyft::mart::structure::MartIndex;
use crate::dyft::node::traits::{MartArray, TrieCounts};
use crate::dyft::node::common::{MartCursor, MartNodeTypes, MartPointer};
use vstd::prelude::*;

verus! {

impl MartIndex {
    /// There is room for `n` more sketches: for two nodes each in every
    /// arena, for one id each, and for the 255 leaves that a split may
    /// add to a trie, which has no more leaves than sketches.
    pub open spec fn room_for(&self, n: int) -> bool {
        &&& self.node_room(2 * n)
        &&& self.m_ids + n + 255 <= u32::MAX
    }

    /// Whether there is room for `n` more sketches.
    pub fn has_room_for(&self, n: usize) -> (r: bool)
        requires
            self.arenas_wf(),
        ensures
            r == self.room_for(n as int),
    {
        let limit: u128 = 0xFFFF_FFFF;
        let wanted: u128 = n as u128;
        let mut most: usize = self.m_array_2.num_nodes();
        if self.m_array_4.num_nodes() > most {
            most = self.m_array_4.num_nodes();
        }
        if self.m_array_8.num_nodes() > most {
            most = self.m_array_8.num_nodes();
        }
        if self.m_array_16.num_nodes() > most {
            most = self.m_array_16.num_nodes();
        }
        if self.m_array_32.num_nodes() > most {
            most = self.m_array_32.num_nodes();
        }
        if self.m_array_64.num_nodes() > most {
            most = self.m_array_64.num_nodes();
        }
        if self.m_array_128.num_nodes() > most {
            most = self.m_array_128.num_nodes();
        }
        if self.m_array_256.num_nodes() > most {
            most = self.m_array_256.num_nodes();
        }
        let nodes_fit = most as u128 + 2 * wanted <= limit;
        let ids_fit = self.m_ids as u128 + wanted + 255 <= limit;
        proof {
            let av = self.arenas();
            if nodes_fit {
                assert forall|t: MartNodeTypes| t.is_inner() implies (#[trigger] av[t]).len() + 2 * n
                    <= u32::MAX by {
                    assert(av[t] == self.arena(t));
                }
            } else {
                let t = if most == self.m_array_2.spec_num_nodes() {
                    MartNodeTypes::Mart2Node
                } else if most == self.m_array_4.spec_num_nodes() {
                    MartNodeTypes::Mart4Node
                } else if most == self.m_array_8.spec_num_nodes() {
                    MartNodeTypes::Mart8Node
                } else if most == self.m_array_16.spec_num_nodes() {
                    MartNodeTypes::Mart16Node
                } else if most == self.m_array_32.spec_num_nodes() {
                    MartNodeTypes::Mart32Node
                } else if most == self.m_array_64.spec_num_nodes() {
                    MartNodeTypes::Mart64Node
                } else if most == self.m_array_128.spec_num_nodes() {
                    MartNodeTypes::Mart128Node
                } else {
                    MartNodeTypes::Mart256Node
                };
                assert(t.is_inner());
                assert(av[t] == self.arena(t));
                assert(av[t].len() == most);
            }
        }
        nodes_fit && ids_fit
    }

    /// Splits the leaf that the cursor stands on if it holds as many ids
    /// as the threshold for its depth asks for.
    pub fn perform_split<T: VCodeTools>(
        &mut self,
        m_database: &VCodeArray<T>,
        mc: &mut MartCursor,
        leaf_pos: u32,
        byte_pos: usize,
        depth: usize,
    )
        requires
            old(self).wf(),
            old(self).consistent(m_database),
            old(self).node_room(1),
            old(self).m_postings_list@.len() + 255 <= u32::MAX,
            old(self).m_split_count < old(self).m_ids,
            old(mc).nptr.ntype == MartNodeTypes::MartLeafNode,
            old(mc).nptr.nid == leaf_pos,
            leaf_pos < old(self).m_postings_list@.len(),
            old(self).parent_ok(*old(mc), old(self).leaf_paths@[leaf_pos].last()),
            byte_pos == old(self).m_begin + old(self).leaf_paths@[leaf_pos].len(),
            byte_pos < old(self).m_end,
        ensures
            final(self).wf(),
            final(self).consistent(m_database),
            final(self).same_config(*old(self)),
            final(self).db == old(self).db,
            final(self).m_max_depth == old(self).m_max_depth,
            final(self).grown_by(*old(self), 1),
            final(self).m_postings_list@.len() <= old(self).m_postings_list@.len() + 255,
            old(self).splits_now(leaf_pos, depth) ==> final(self).m_split_count == old(
                self,
            ).m_split_count + 1 && old(self).split_of(*final(self), leaf_pos) && old(
                self,
            ).split_into(*final(self), *old(mc), *final(mc), byte_pos - old(self).m_begin),
            !old(self).splits_now(leaf_pos, depth) ==> final(self).m_split_count == old(
                self,
            ).m_split_count && final(self).model() == old(self).model() && *final(mc) == *old(
                mc,
            ) && final(self).m_postings_list == old(self).m_postings_list,
    {
        let n = self.m_postings_list.group_size(leaf_pos);
        if self.m_splitthreshold.should_split(n, depth) {
            self.split_node(m_database, mc, byte_pos);
        } else {
            proof {
                assert(self.grown_by(*old(self), 1));
            }
        }
    }

    /// Whether the leaf `leaf_pos` at `depth` holds as many ids as the
    /// threshold for its depth asks for.
    pub open spec fn splits_now(&self, leaf_pos: u32, depth: usize) -> bool {
        self.m_splitthreshold.splits(
            crate::dyft::sparse::sparse_group::list_or_empty(
                self.m_postings_list@[leaf_pos as int],
            ).len() as u32,
            depth,
        )
    }

    /// What taking in a sketch with the labels `labels` comes to: the
    /// trie takes in the sketch and is then `taken`, with the cursor `mc1`
    /// on the leaf that holds the new id, whose path ends before
    /// `byte_pos`. That leaf is split exactly when its path does not reach
    /// the end of the sketch and it holds as many ids as the threshold for
    /// its depth asks for; the cursor is then `mc2`. The greatest depth is
    /// raised to the depth of the leaf.
    pub open spec fn appended(
        &self,
        after: Self,
        labels: Seq<u8>,
        taken: Self,
        mc1: MartCursor,
        mc2: MartCursor,
        byte_pos: int,
    ) -> bool {
        let depth = ipc_of(self.m_bits as nat) * (byte_pos - self.m_begin - 1);
        let k = mc1.nptr.nid;
        &&& self.took_in(taken, labels, mc1, byte_pos)
        &&& taken.landed(labels, mc1, byte_pos)
        &&& 0 <= depth <= usize::MAX
        &&& after.m_max_depth == if depth > self.m_max_depth {
            depth
        } else {
            self.m_max_depth as int
        }
        &&& if byte_pos != self.m_end && taken.splits_now(k, depth as usize) {
            &&& after.m_split_count == self.m_split_count + 1
            &&& taken.split_into(after, mc1, mc2, byte_pos - self.m_begin)
        } else {
            &&& after.m_split_count == self.m_split_count
            &&& after.model() == taken.model()
            &&& after.m_postings_list == taken.m_postings_list
        }
    }

    /// Takes the sketch `vcode`, the next of `database`, into the trie
    /// under the next id, and splits the leaf that it comes to lie in if
    /// that leaf has grown to its threshold and does not lie at the end of
    /// the sketch.
    pub fn append<T: VCodeTools>(&mut self, vcode: &[T], database: &VCodeArray<T>)
        requires
            old(self).wf(),
            old(self).room_for(1),
            old(self).consistent(database),
            old(self).m_ids < database.spec_size(),
            vcode@ == database.sketch(old(self).m_ids as int),
        ensures
            final(self).wf(),
            final(self).consistent(database),
            final(self).same_config(*old(self)),
            final(self).db@ == old(self).db@.push(old(self).labels_of(words(vcode@))),
            final(self).m_ids == old(self).m_ids + 1,
            final(self).grown_by(*old(self), 2),
            final(self).m_postings_list@.len() <= old(self).m_postings_list@.len() + 256,
            final(self).m_split_count <= old(self).m_split_count + 1,
            exists|taken: Self, mc1: MartCursor, mc2: MartCursor, byte_pos: int| #[trigger]
                old(self).appended(
                    *final(self),
                    old(self).labels_of(words(vcode@)),
                    taken,
                    mc1,
                    mc2,
                    byte_pos,
                ),
    {
        let ghost before = *self;
        proof {
            database.lemma_sketch_bounds(self.m_ids as int);
            self.lemma_labels(words(vcode@));
            self.lemma_leaves_bound();
            assert(rooms(self.arenas(), 2));
            assert(rooms(self.arenas(), 1));
        }
        let labels = self.byte_pack_iter(vcode);
        let mut mc = MartCursor::from_next(&self.m_rootptr);
        let byte_pos = self.insert_sketch(&labels, &mut mc);
        let ghost s1 = *self;
        let ghost mc1 = mc;
        let leaf_pos = mc.nptr.nid();
        let depth = self.depth(byte_pos);
        if depth > self.m_max_depth {
            self.m_max_depth = depth;
        }
        proof {
            assert(self.arenas() =~= s1.arenas());
            assert(self.model() == s1.model());
            assert(self.labels_of(words(vcode@)) == before.labels_of(words(vcode@)));
            assert forall|id: int| 0 <= id < self.db@.len() implies #[trigger] self.db@[id]
                == self.labels_of(words(database.sketch(id))) by {
                if id < before.db@.len() {
                    assert(before.db@[id] == before.labels_of(words(database.sketch(id))));
                    assert(self.labels_of(words(database.sketch(id))) == before.labels_of(
                        words(database.sketch(id)),
                    ));
                }
            }
            assert(grown(before.arenas(), self.arenas(), 1));
            assert(grown(before.arenas(), self.arenas(), 2));
        }
        let ghost mid = *self;
        proof {
            assert(self.wf());
            self.lemma_leaves_bound();
        }
        if byte_pos != self.m_end {
            proof {
                assert(labels@.subrange(0, byte_pos - self.m_begin).last() == labels@[byte_pos
                    - self.m_begin - 1]);
                assert(rooms(self.arenas(), 1));
            }
            self.perform_split(database, &mut mc, leaf_pos, byte_pos, depth);
            proof {
                assert(grown(mid.arenas(), self.arenas(), 1));
                assert(grown(before.arenas(), self.arenas(), 2));
            }
        }
        proof {
            let pos = byte_pos - before.m_begin;
            let (m0, g) = choose|m0: Self, g: crate::dyft::mart::index::Growth| #[trigger]
                before.grows(m0, s1, g, labels@, mc1, pos);
            assert(before.grows(m0, mid, g, labels@, mc1, pos));
            assert(before.took_in(mid, labels@, mc1, byte_pos as int));
            assert(mid.landed(labels@, mc1, byte_pos as int));
            assert(before.appended(*self, labels@, mid, mc1, mc, byte_pos as int));
        }
    }

    /// `next` is the trie `self` after the next sketch of `database` was
    /// taken in.
    pub open spec fn step<T: VCodeTools>(&self, next: Self, database: &VCodeArray<T>) -> bool {
        exists|taken: Self, mc1: MartCursor, mc2: MartCursor, byte_pos: int| #[trigger]
            self.appended(
                next,
                self.labels_of(words(database.sketch(self.m_ids as int))),
                taken,
                mc1,
                mc2,
                byte_pos,
            )
    }

    /// Each of the tries `states` but the first is the one before it
    /// after the next sketch of `database` was taken in.
    pub open spec fn steps<T: VCodeTools>(states: Seq<Self>, database: &VCodeArray<T>) -> bool {
        forall|i: int|
            0 <= i < states.len() - 1 ==> (#[trigger] states[i]).step(states[i + 1], database)
    }

    /// Takes in the sketches of `database` from the one after the last
    /// that was taken in up to, but not including, the `n`-th, one after
    /// the other as `append` does.
    pub fn build<T: VCodeTools>(&mut self, database: &VCodeArray<T>, n: usize)
        requires
            old(self).wf(),
            old(self).consistent(database),
            old(self).m_ids < n ==> old(self).room_for(n - old(self).m_ids),
        ensures
            final(self).wf(),
            final(self).consistent(database),
            final(self).same_config(*old(self)),
            final(self).m_ids == if old(self).m_ids < n && old(self).m_ids < database.spec_size() {
                if n < database.spec_size() {
                    n as int
                } else {
                    database.spec_size() as int
                }
            } else {
                old(self).m_ids as int
            },
            exists|states: Seq<Self>|
                states.len() == final(self).m_ids - old(self).m_ids + 1 && states[0] == *old(self)
                    && states.last() == *final(self) && #[trigger] Self::steps(states, database),
    {
        let start = self.m_ids as usize;
        let size = database.size();
        let end = if n < size {
            n
        } else {
            size
        };
        let ghost states: Seq<Self> = seq![*self];
        if start >= end {
            proof {
                assert(Self::steps(states, database));
            }
            return ;
        }
        let mut id = start;
        while id < end
            invariant
                start <= id <= end,
                states.len() == id - start + 1,
                states[0] == *old(self),
                states.last() == *self,
                Self::steps(states, database),
                end <= n,
                end <= database.spec_size(),
                start == old(self).m_ids,
                self.wf(),
                self.consistent(database),
                self.same_config(*old(self)),
                self.m_ids == id,
                self.room_for(end - id),
            decreases end - id,
        {
            let ghost before = *self;
            proof {
                assert(rooms(self.arenas(), 2 * (end - id)));
                assert(rooms(self.arenas(), 2));
            }
            let vcode = database.access(id);
            self.append(vcode, database);
            proof {
                assert(rooms(before.arenas(), 2 * (end - id)));
                assert(grown(before.arenas(), self.arenas(), 2));
                assert(rooms(self.arenas(), 2 * (end - id - 1)));
                assert(before.step(*self, database));
                let grown_states = states.push(*self);
                assert forall|i: int| 0 <= i < grown_states.len() - 1 implies (
                #[trigger] grown_states[i]).step(grown_states[i + 1], database) by {
                    if i < states.len() - 1 {
                        assert(states[i].step(states[i + 1], database));
                    }
                }
                states = grown_states;
            }
            id = id + 1;
        }
    }
}

} // verus!
