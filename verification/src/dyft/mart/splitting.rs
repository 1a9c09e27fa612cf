//! Splitting a leaf: its ids are sorted by the next label of their
//! sketches, each label gets a leaf of its own, and a node with these
//! leaves takes the place of the leaf.

use crate::dyft::bit_tools::vcode_array::VCodeArray;
use crate::dyft::bit_tools::vcode_tools::{words, VCodeTools};
use crate::dyft::constants::tables::{ipc_of, label_count};
use crate::dyft::mart::buckets::{
    bucket, bucket_total, key_of, lemma_bucket_complete, lemma_bucket_push, lemma_bucket_sound,
    lemma_bucket_total, lemma_bucket_total_mono,
};
use crate::dyft::mart::dispatch::{fit_tier, scan_has};
use crate::dyft::mart::heap::{
    lemma_with_new_node, lemma_with_node, with_new_node, with_node,
};
use crate::dyft::mart::index::lemma_pack_in_range;
use crate::dyft::mart::model::{is_prefix, leaf_ptr, TrieModel};
use crate::dyft::mart::split::{in_lists, split_edges, split_leaf, split_list_ok};
use crate::dyft::mart::structure::MartIndex;
use crate::dyft::node::common::{MartCursor, MartEdge, MartNodeTypes, MartPointer, MART_NILID};
use crate::dyft::node::model::{distinct_labels, edges_map, no_nil_edges};
use crate::dyft::sparse::sparse_group::{list_or_empty, lists_extended, lists_extracted};
use vstd::prelude::*;

verus! {

/// The buckets of the labels below `n` together have this many ids.
pub open spec fn sum_lens(buckets: Seq<Vec<u32>>, n: int) -> int
    decreases n,
{
    if n <= 0 {
        0
    } else {
        sum_lens(buckets, n - 1) + buckets[n - 1]@.len()
    }
}

pub proof fn lemma_sum_lens(buckets: Seq<Vec<u32>>, ids: Seq<u32>, db: Seq<Seq<u8>>, pos: int, n: int)
    requires
        0 <= n <= 256,
        buckets.len() == 256,
        forall|l: int| 0 <= l < 256 ==> (#[trigger] buckets[l])@ == bucket(ids, db, pos, l as u8),
    ensures
        sum_lens(buckets, n) == bucket_total(ids, db, pos, n),
    decreases n,
{
    if n > 0 {
        lemma_sum_lens(buckets, ids, db, pos, n - 1);
        assert(buckets[n - 1]@ == bucket(ids, db, pos, (n - 1) as u8));
    }
}

pub proof fn lemma_sum_lens_mono(buckets: Seq<Vec<u32>>, n: int, m: int)
    requires
        0 <= n <= m,
    ensures
        0 <= sum_lens(buckets, n) <= sum_lens(buckets, m),
    decreases m,
{
    if n < m {
        lemma_sum_lens_mono(buckets, n, m - 1);
    } else if n > 0 {
        lemma_sum_lens_mono(buckets, n - 1, n - 1);
    }
}

/// The posting lists after the lists `lists` took the place of list `k`:
/// the first in its place, the others at the end.
pub open spec fn split_postings(
    before: Seq<Option<Seq<u32>>>,
    k: u32,
    lists: Seq<Seq<u32>>,
) -> Seq<Option<Seq<u32>>> {
    if lists.len() == 0 {
        before
    } else {
        before.update(k as int, Some(lists[0])) + Seq::new(
            (lists.len() - 1) as nat,
            |i: int| Some(lists[i + 1]),
        )
    }
}

/// New leaves for the buckets of the labels below `n`: each bucket that is
/// not empty has an edge, in the order of the labels, and its list.
pub open spec fn filled(
    buckets: Seq<Vec<u32>>,
    k: u32,
    base: nat,
    edges: Seq<MartEdge>,
    lists: Seq<Seq<u32>>,
    n: int,
) -> bool {
    &&& edges.len() == lists.len()
    &&& edges.len() <= n
    &&& forall|j: int|
        0 <= j < edges.len() ==> (#[trigger] edges[j]).label < n && lists[j] == buckets[edges[j].label as int]@
            && lists[j].len() >= 1 && edges[j].ptr == leaf_ptr(split_leaf(k, base, j))
    &&& forall|i: int, j: int|
        0 <= i < j < edges.len() ==> (#[trigger] edges[i]).label < (#[trigger] edges[j]).label
    &&& forall|l: u8| l < n && buckets[l as int]@.len() >= 1 ==> #[trigger] scan_has(edges, l)
}

impl MartIndex {
    /// Takes the posting list of leaf `leaf_pos` out of the table and sorts
    /// its ids into 256 buckets by the label of their sketches at byte
    /// position `bit_pos`.
    fn extract_buckets<T: VCodeTools>(
        &mut self,
        m_database: &VCodeArray<T>,
        leaf_pos: u32,
        bit_pos: usize,
    ) -> (r: Vec<Vec<u32>>)
        requires
            old(self).config_wf(),
            old(self).m_postings_list.wf(),
            old(self).consistent(m_database),
            leaf_pos < old(self).m_postings_list@.len(),
            old(self).m_postings_list@[leaf_pos as int] is Some,
            forall|i: int|
                0 <= i < old(self).m_postings_list@[leaf_pos as int]->0.len() ==> (#[trigger] old(
                    self,
                ).m_postings_list@[leaf_pos as int]->0[i]) < old(self).db@.len(),
            old(self).m_begin <= bit_pos < old(self).m_end,
        ensures
            final(self).arenas() == old(self).arenas(),
            final(self).arenas_wf() == old(self).arenas_wf(),
            final(self).same_config(*old(self)),
            final(self).m_ids == old(self).m_ids,
            final(self).paths == old(self).paths,
            final(self).leaf_paths == old(self).leaf_paths,
            final(self).db == old(self).db,
            final(self).m_split_count == old(self).m_split_count,
            final(self).m_max_depth == old(self).m_max_depth,
            final(self).m_postings_list.wf(),
            final(self).m_postings_list@ == lists_extracted(
                old(self).m_postings_list@,
                leaf_pos as int,
            ),
            final(self).m_postings_list.total() == old(self).m_postings_list.total() - old(
                self,
            ).m_postings_list@[leaf_pos as int]->0.len(),
            r@.len() == 256,
            forall|l: int|
                0 <= l < 256 ==> (#[trigger] r@[l])@ == bucket(
                    old(self).m_postings_list@[leaf_pos as int]->0,
                    old(self).db@,
                    bit_pos - old(self).m_begin,
                    l as u8,
                ),
    {
        let ghost list = self.m_postings_list@[leaf_pos as int]->0;
        let ghost db = self.db@;
        let ghost pos = bit_pos - self.m_begin;
        let mut buckets: Vec<Vec<u32>> = Vec::new();
        let mut z: usize = 0;
        while z < 256
            invariant
                z <= 256,
                buckets@.len() == z,
                forall|l: int| 0 <= l < z ==> (#[trigger] buckets@[l])@ == Seq::<u32>::empty(),
            decreases 256 - z,
        {
            buckets.push(Vec::new());
            z = z + 1;
        }
        match self.m_postings_list.extract(leaf_pos) {
            Some(ids) => {
                let mut i: usize = 0;
                assert(list.subrange(0, 0) =~= Seq::<u32>::empty());
                assert(self.arenas() =~= old(self).arenas());
                while i < ids.len()
                    invariant
                        i <= ids@.len(),
                        ids@ == list,
                        db == self.db@,
                        pos == bit_pos - self.m_begin,
                        self.config_wf(),
                        self.consistent(m_database),
                        self.m_begin <= bit_pos < self.m_end,
                        forall|w: int| 0 <= w < list.len() ==> (#[trigger] list[w]) < db.len(),
                        buckets@.len() == 256,
                        forall|l: int|
                            0 <= l < 256 ==> (#[trigger] buckets@[l])@ == bucket(
                                list.subrange(0, i as int),
                                db,
                                pos,
                                l as u8,
                            ),
                    decreases ids@.len() - i,
                {
                    let id = ids[i];
                    assert(list[i as int] < db.len());
                    let vcode = m_database.access(id as usize);
                    let key = self.byte_pack_bit_pos(vcode, bit_pos);
                    proof {
                        assert(db[id as int] == self.labels_of(words(m_database.sketch(id as int))));
                        assert(key == key_of(db, pos, id));
                        assert(list.subrange(0, i as int).push(id) =~= list.subrange(0, i + 1));
                    }
                    let ghost prev = buckets@;
                    buckets[key as usize].push(id);
                    proof {
                        assert forall|l: int| 0 <= l < 256 implies (#[trigger] buckets@[l])@
                            == bucket(list.subrange(0, i + 1), db, pos, l as u8) by {
                            lemma_bucket_push(list.subrange(0, i as int), db, pos, id, l as u8);
                            assert(prev[l]@ == bucket(list.subrange(0, i as int), db, pos, l as u8));
                        }
                    }
                    i = i + 1;
                }
                assert(list.subrange(0, list.len() as int) =~= list);
            },
            None => {
                assert(false);
            },
        }
        buckets
    }

    /// Gives each bucket that is not empty a leaf: the first the leaf
    /// `leaf_pos`, the others new leaves at the end of the table. The edges
    /// to these leaves are put into `m_edges`, by ascending label.
    fn fill_leaves(&mut self, buckets: &Vec<Vec<u32>>, leaf_pos: u32) -> (lists: Ghost<
        Seq<Seq<u32>>,
    >)
        requires
            old(self).m_postings_list.wf(),
            leaf_pos < old(self).m_postings_list@.len(),
            old(self).m_postings_list@[leaf_pos as int] is None,
            buckets@.len() == 256,
            old(self).m_postings_list@.len() + 255 <= u32::MAX,
            old(self).m_postings_list.total() + sum_lens(buckets@, 256) <= u32::MAX,
        ensures
            final(self).arenas() == old(self).arenas(),
            final(self).arenas_wf() == old(self).arenas_wf(),
            final(self).same_config(*old(self)),
            final(self).m_ids == old(self).m_ids,
            final(self).paths == old(self).paths,
            final(self).leaf_paths == old(self).leaf_paths,
            final(self).db == old(self).db,
            final(self).m_split_count == old(self).m_split_count,
            final(self).m_max_depth == old(self).m_max_depth,
            final(self).m_postings_list.wf(),
            filled(
                buckets@,
                leaf_pos,
                old(self).m_postings_list@.len(),
                final(self).m_edges@,
                lists@,
                256,
            ),
            final(self).m_postings_list@ == split_postings(
                old(self).m_postings_list@,
                leaf_pos,
                lists@,
            ),
            final(self).m_postings_list.total() == old(self).m_postings_list.total() + sum_lens(
                buckets@,
                256,
            ),
    {
        let ghost lists_before = self.m_postings_list@;
        let ghost base = lists_before.len();
        let ghost t0 = self.m_postings_list.total();
        let ghost mut lists: Seq<Seq<u32>> = Seq::empty();
        self.m_edges.clear();
        let mut label: usize = 0;
        proof {
            assert(self.arenas() =~= old(self).arenas());
        }
        while label < 256
            invariant
                label <= 256,
                buckets@.len() == 256,
                base == lists_before.len(),
                base + 255 <= u32::MAX,
                leaf_pos < base,
                lists_before[leaf_pos as int] is None,
                t0 + sum_lens(buckets@, 256) <= u32::MAX,
                self.arenas() == old(self).arenas(),
                self.arenas_wf() == old(self).arenas_wf(),
                self.same_config(*old(self)),
                self.m_ids == old(self).m_ids,
                self.paths == old(self).paths,
                self.leaf_paths == old(self).leaf_paths,
                self.db == old(self).db,
                self.m_split_count == old(self).m_split_count,
                self.m_max_depth == old(self).m_max_depth,
                self.m_postings_list.wf(),
                filled(buckets@, leaf_pos, base, self.m_edges@, lists, label as int),
                self.m_postings_list@ == split_postings(lists_before, leaf_pos, lists),
                self.m_postings_list.total() == t0 + sum_lens(buckets@, label as int),
            decreases 256 - label,
        {
            proof {
                lemma_sum_lens_mono(buckets@, label + 1, 256);
            }
            if buckets[label].len() > 0 {
                let ghost edges0 = self.m_edges@;
                let ghost lists0 = lists;
                let ghost post0 = self.m_postings_list@;
                if self.m_edges.len() == 0 {
                    let nptr = MartPointer::leaf(leaf_pos);
                    self.m_edges.push(MartEdge { label: label as u8, ptr: nptr });
                    self.m_postings_list.insert_iter(leaf_pos, buckets[label].as_slice());
                    proof {
                        lists = lists0.push(buckets@[label as int]@);
                        assert(Seq::<u32>::empty() + buckets@[label as int]@
                            =~= buckets@[label as int]@);
                        assert(self.m_postings_list@ =~= split_postings(lists_before, leaf_pos, lists));
                    }
                } else {
                    let nptr = MartPointer::leaf(self.m_postings_list.size());
                    self.m_edges.push(MartEdge { label: label as u8, ptr: nptr });
                    self.m_postings_list.extend(buckets[label].as_slice());
                    proof {
                        lists = lists0.push(buckets@[label as int]@);
                        assert(self.m_postings_list@ =~= split_postings(lists_before, leaf_pos, lists));
                    }
                }
                proof {
                    assert(self.arenas() =~= old(self).arenas());
                    assert forall|l: u8| l < label + 1 && buckets@[l as int]@.len()
                        >= 1 implies #[trigger] scan_has(self.m_edges@, l) by {
                        if l < label {
                            assert(scan_has(edges0, l));
                            let j = choose|j: int|
                                0 <= j < edges0.len() && (#[trigger] edges0[j]).label == l;
                            assert(self.m_edges@[j].label == l);
                        } else {
                            assert(self.m_edges@[edges0.len() as int].label == l);
                        }
                    }
                    assert forall|j: int| 0 <= j < self.m_edges@.len() implies (
                    #[trigger] self.m_edges@[j]).label < label + 1 && lists[j] == buckets@[self.m_edges@[j].label as int]@
                        && lists[j].len() >= 1 && self.m_edges@[j].ptr == leaf_ptr(
                        split_leaf(leaf_pos, base, j),
                    ) by {
                        if j < edges0.len() {
                            assert(edges0[j].label < label);
                        }
                    }
                    assert forall|i: int, j: int|
                        0 <= i < j < self.m_edges@.len() implies (#[trigger] self.m_edges@[i]).label
                        < (#[trigger] self.m_edges@[j]).label by {
                        if j < edges0.len() {
                            assert(edges0[i].label < edges0[j].label);
                        } else {
                            assert(edges0[i].label < label);
                        }
                    }
                }
            } else {
                proof {
                    assert forall|l: u8| l < label + 1 && buckets@[l as int]@.len()
                        >= 1 implies #[trigger] scan_has(self.m_edges@, l) by {
                        assert(l < label);
                    }
                    assert forall|j: int| 0 <= j < self.m_edges@.len() implies (
                    #[trigger] self.m_edges@[j]).label < label + 1 && lists[j] == buckets@[self.m_edges@[j].label as int]@
                        && lists[j].len() >= 1 && self.m_edges@[j].ptr == leaf_ptr(
                        split_leaf(leaf_pos, base, j),
                    ) by {
                        assert(self.m_edges@[j].label < label);
                    }
                }
            }
            label = label + 1;
        }
        Ghost(lists)
    }

    /// The paths of the leaves after leaf `k` was split into the leaves of
    /// `edges`.
    pub open spec fn split_leaf_paths(&self, k: u32, edges: Seq<MartEdge>) -> Map<u32, Seq<u8>> {
        let base = self.m_postings_list@.len();
        let path = self.leaf_paths@[k];
        Map::new(
            |j: u32| self.leaf_paths@.contains_key(j) || base <= j < base + edges.len() - 1,
            |j: u32|
                if j == k {
                    path.push(edges[0].label)
                } else if j >= base {
                    path.push(edges[j - base + 1].label)
                } else {
                    self.leaf_paths@[j]
                },
        )
    }

    /// The trie after the split of the leaf that the cursor `mc0` stood on
    /// is in order.
    pub proof fn lemma_split_done(
        &self,
        after: Self,
        mc0: MartCursor,
        mc1: MartCursor,
        buckets: Seq<Vec<u32>>,
        edges: Seq<MartEdge>,
        lists: Seq<Seq<u32>>,
        pos: int,
    )
        requires
            self.wf(),
            mc0.nptr.ntype == MartNodeTypes::MartLeafNode,
            mc0.nptr.nid < self.m_postings_list@.len(),
            self.parent_ok(mc0, self.leaf_paths@[mc0.nptr.nid].last()),
            pos == self.leaf_paths@[mc0.nptr.nid].len(),
            pos < self.width(),
            self.m_postings_list@.len() + 255 <= u32::MAX,
            buckets.len() == 256,
            forall|l: int|
                0 <= l < 256 ==> (#[trigger] buckets[l])@ == bucket(
                    self.m_postings_list@[mc0.nptr.nid as int]->0,
                    self.db@,
                    pos,
                    l as u8,
                ),
            filled(buckets, mc0.nptr.nid, self.m_postings_list@.len(), edges, lists, 256),
            after.arenas_wf(),
            after.m_postings_list.wf(),
            after.same_config(*self),
            after.m_ids == self.m_ids,
            after.m_split_count <= self.m_ids,
            after.db == self.db,
            after.m_postings_list.total() == self.m_postings_list.total(),
            after.m_postings_list@ == split_postings(
                lists_extracted(self.m_postings_list@, mc0.nptr.nid as int),
                mc0.nptr.nid,
                lists,
            ),
            mc1.pptr == mc0.pptr,
            mc1.offset == mc0.offset,
            !self.live(mc1.nptr),
            mc1.nptr.ntype.is_inner(),
            after.live(mc1.nptr),
            after.node(mc1.nptr).edges == edges_map(edges),
            after.arenas() == with_node(
                with_new_node(self.arenas(), mc1.nptr, after.node(mc1.nptr)),
                mc0.pptr,
                self.node(mc0.pptr).with_child_at(mc0.offset as int, mc1.nptr),
            ),
            mc1.nptr.nid <= self.arenas()[mc1.nptr.ntype].len(),
            after.paths@ == self.paths@.insert(mc1.nptr, self.leaf_paths@[mc0.nptr.nid]),
            after.leaf_paths@ == self.split_leaf_paths(mc0.nptr.nid, edges),
        ensures
            after.wf(),
            edges.len() >= 1,
            after.model() == self.model().split(
                mc0.nptr.nid,
                mc1.nptr,
                mc0.pptr,
                self.leaf_paths@[mc0.nptr.nid].last(),
                edges,
                lists,
            ),
    {
        let m = self.model();
        let k = mc0.nptr.nid;
        let y = mc1.nptr;
        let p = mc0.pptr;
        let path = self.leaf_paths@[k];
        let l = path.last();
        let list = self.m_postings_list@[k as int]->0;
        let db = self.db@;
        let yn = after.node(y);
        assert(m.posting_ok(k));
        assert(m.heap.contains_key(p));
        self.lemma_arenas();
        after.lemma_arenas();
        self.lemma_slot(p, l, mc0.offset as int);
        lemma_with_new_node(self.arenas(), y, yn);
        lemma_with_node(
            with_new_node(self.arenas(), y, yn),
            p,
            self.node(p).with_child_at(mc0.offset as int, y),
        );
        assert(m.posting_ok(k));
        assert(mc0.nptr == leaf_ptr(k));
        // at least one bucket is not empty
        lemma_bucket_complete(list, db, pos, 0);
        let l0 = key_of(db, pos, list[0]);
        assert(buckets[l0 as int]@ == bucket(list, db, pos, l0));
        assert(scan_has(edges, l0));
        // the edges
        lemma_filled_edges(buckets, k, self.m_postings_list@.len(), edges, lists);
        assert(m.node_ok(p));
        assert(m.edge_ok(p, l));
        assert forall|j: int| 0 <= j < edges.len() implies (#[trigger] edges[j]).label
            < label_count(self.m_bits as nat) by {
            let lj = edges[j].label;
            assert(lists[j] == buckets[lj as int]@);
            lemma_bucket_sound(list, db, pos, lj, 0);
            let id = lists[j][0];
            assert(m.id_fits(k, id)) by {
                let w = choose|w: int| 0 <= w < list.len() && list[w] == id;
                assert(m.id_fits(k, list[w]));
            }
            assert(m.sketch_ok(id as int));
            assert(db[id as int][pos] == lj);
        }
        assert forall|j: int| 0 <= j < lists.len() implies split_list_ok(
            db,
            path,
            edges[j].label,
            #[trigger] lists[j],
        ) by {
            let lj = edges[j].label;
            assert(lists[j] == buckets[lj as int]@);
            assert forall|i: int| 0 <= i < lists[j].len() implies (#[trigger] lists[j][i])
                < db.len() && is_prefix(path.push(lj), db[lists[j][i] as int]) by {
                lemma_bucket_sound(list, db, pos, lj, i);
                let id = lists[j][i];
                let w = choose|w: int| 0 <= w < list.len() && list[w] == id;
                assert(m.id_fits(k, list[w]));
                assert(m.sketch_ok(id as int));
                assert(db[id as int].subrange(0, pos + 1) =~= path.push(lj));
            }
        }
        assert forall|i: int| 0 <= i < list.len() implies in_lists(lists, #[trigger] list[i]) by {
            lemma_bucket_complete(list, db, pos, i);
            let li = key_of(db, pos, list[i]);
            assert(buckets[li as int]@ == bucket(list, db, pos, li));
            assert(scan_has(edges, li));
            let j = choose|j: int| 0 <= j < edges.len() && (#[trigger] edges[j]).label == li;
            assert(lists[j].contains(list[i]));
        }
        assert(split_edges(edges, k, self.m_postings_list@.len()));
        m.lemma_split(k, y, p, l, edges, lists);
        let want = m.split(k, y, p, l, edges, lists);
        assert(after.model().heap =~= want.heap);
        assert(after.model().postings =~= want.postings);
        assert(after.model().leaf_paths =~= want.leaf_paths);
        assert(after.model() == want);
    }

    /// Sorts the ids of leaf `leaf_pos` into the lists of the leaves that
    /// take its place, and puts the edges to these leaves into `m_edges`.
    fn split_tables<T: VCodeTools>(
        &mut self,
        m_database: &VCodeArray<T>,
        leaf_pos: u32,
        bpos: usize,
    ) -> (r: (Ghost<Seq<Vec<u32>>>, Ghost<Seq<Seq<u32>>>))
        requires
            old(self).wf(),
            old(self).consistent(m_database),
            old(self).m_postings_list@.len() + 255 <= u32::MAX,
            old(self).m_split_count < old(self).m_ids,
            leaf_pos < old(self).m_postings_list@.len(),
            old(self).m_begin <= bpos < old(self).m_end,
        ensures
            final(self).arenas() == old(self).arenas(),
            final(self).arenas_wf(),
            final(self).same_config(*old(self)),
            final(self).m_ids == old(self).m_ids,
            final(self).paths == old(self).paths,
            final(self).leaf_paths == old(self).leaf_paths,
            final(self).db == old(self).db,
            final(self).m_split_count == old(self).m_split_count + 1,
            final(self).m_max_depth == old(self).m_max_depth,
            final(self).m_postings_list.wf(),
            final(self).m_postings_list.total() == old(self).m_postings_list.total(),
            r.0@.len() == 256,
            forall|l: int|
                0 <= l < 256 ==> (#[trigger] r.0@[l])@ == bucket(
                    old(self).m_postings_list@[leaf_pos as int]->0,
                    old(self).db@,
                    bpos - old(self).m_begin,
                    l as u8,
                ),
            filled(
                r.0@,
                leaf_pos,
                old(self).m_postings_list@.len(),
                final(self).m_edges@,
                r.1@,
                256,
            ),
            final(self).m_postings_list@ == split_postings(
                lists_extracted(old(self).m_postings_list@, leaf_pos as int),
                leaf_pos,
                r.1@,
            ),
    {
        let ghost m = self.model();
        let ghost list = self.m_postings_list@[leaf_pos as int]->0;
        self.m_split_count = self.m_split_count + 1;
        proof {
            assert(m.posting_ok(leaf_pos));
            assert forall|i: int| 0 <= i < list.len() implies (#[trigger] list[i])
                < self.db@.len() by {
                assert(m.id_fits(leaf_pos, list[i]));
            }
            assert(self.arenas() =~= old(self).arenas());
        }
        let buckets = self.extract_buckets(m_database, leaf_pos, bpos);
        proof {
            lemma_sum_lens(buckets@, list, self.db@, bpos - self.m_begin, 256);
            lemma_bucket_total(list, self.db@, bpos - self.m_begin);
        }
        let lists = self.fill_leaves(&buckets, leaf_pos);
        (Ghost(buckets@), lists)
    }

    /// Makes the node with the edges in `m_edges` and puts it in the place
    /// of the child that the cursor stands on.
    fn split_link(&mut self, mc: &mut MartCursor, Ghost(l): Ghost<u8>)
        requires
            old(self).arenas_wf(),
            old(self).node_room(1),
            old(self).m_edges@.len() <= 256,
            distinct_labels(old(self).m_edges@),
            no_nil_edges(old(self).m_edges@),
            old(self).parent_ok(*old(mc), l),
        ensures
            final(self).arenas_wf(),
            old(self).same_rest(*final(self)),
            final(mc).pptr == old(mc).pptr,
            final(mc).offset == old(mc).offset,
            !old(self).live(final(mc).nptr),
            final(mc).nptr.ntype.is_inner(),
            final(self).live(final(mc).nptr),
            final(self).node(final(mc).nptr).edges == edges_map(old(self).m_edges@),
            final(self).arenas() == with_node(
                with_new_node(old(self).arenas(), final(mc).nptr, final(self).node(final(mc).nptr)),
                old(mc).pptr,
                old(self).node(old(mc).pptr).with_child_at(old(mc).offset as int, final(mc).nptr),
            ),
            final(mc).nptr.nid <= old(self).arenas()[final(mc).nptr.ntype].len(),
            final(mc).nptr.ntype == fit_tier(old(self).m_edges@.len()),
            final(self).grown_by(*old(self), 1),
    {
        let ghost before = *self;
        let ghost mc0 = *mc;
        proof {
            self.lemma_arenas();
            self.lemma_slot(mc.pptr, l, mc.offset as int);
        }
        self.perform_make_node(mc);
        let ghost y = mc.nptr;
        let ghost yn = self.node(y);
        proof {
            self.lemma_arenas();
            lemma_with_new_node(before.arenas(), y, yn);
        }
        self.perform_update_srcptr(mc);
        proof {
            lemma_with_node(
                with_new_node(before.arenas(), y, yn),
                mc0.pptr,
                before.node(mc0.pptr).with_child_at(mc0.offset as int, y),
            );
        }
    }

    /// Splits the leaf that the cursor stands on, whose path ends before
    /// byte position `bpos`: a node with a leaf for each label that the
    /// sketches of its ids have at `bpos` takes its place.
    pub fn split_node<T: VCodeTools>(
        &mut self,
        m_database: &VCodeArray<T>,
        mc: &mut MartCursor,
        bpos: usize,
    )
        requires
            old(self).wf(),
            old(self).consistent(m_database),
            old(self).node_room(1),
            old(self).m_postings_list@.len() + 255 <= u32::MAX,
            old(self).m_split_count < old(self).m_ids,
            old(mc).nptr.ntype == MartNodeTypes::MartLeafNode,
            old(mc).nptr.nid < old(self).m_postings_list@.len(),
            old(self).parent_ok(*old(mc), old(self).leaf_paths@[old(mc).nptr.nid].last()),
            bpos == old(self).m_begin + old(self).leaf_paths@[old(mc).nptr.nid].len(),
            bpos < old(self).m_end,
        ensures
            final(self).wf(),
            final(self).consistent(m_database),
            final(self).same_config(*old(self)),
            final(self).db == old(self).db,
            final(self).m_split_count == old(self).m_split_count + 1,
            final(self).m_max_depth == old(self).m_max_depth,
            final(self).grown_by(*old(self), 1),
            final(self).m_postings_list@.len() <= old(self).m_postings_list@.len() + 255,
            old(self).split_of(*final(self), old(mc).nptr.nid),
            old(self).split_into(*final(self), *old(mc), *final(mc), bpos - old(self).m_begin),
    {
        let ghost before = *self;
        let ghost mc0 = *mc;
        let ghost k = mc.nptr.nid;
        let ghost path = self.leaf_paths@[k];
        let leaf_pos = mc.nptr.nid();
        let (Ghost(buckets), Ghost(lists)) = self.split_tables(m_database, leaf_pos, bpos);
        let ghost edges = self.m_edges@;
        proof {
            lemma_filled_edges(buckets, k, before.m_postings_list@.len(), edges, lists);
        }
        let ghost mid = *self;
        self.split_link(mc, Ghost(path.last()));
        let ghost linked = *self;
        proof {
            self.paths@ = before.paths@.insert(mc.nptr, path);
            self.leaf_paths@ = before.split_leaf_paths(k, edges);
            assert(self.arenas() =~= linked.arenas());
            assert(mid.arenas() == before.arenas());
            assert(before.model().posting_ok(k));
            before.lemma_split_done(*self, mc0, *mc, buckets, edges, lists, bpos - before.m_begin);
            before.lemma_split_of(*self, k, buckets, edges, lists, bpos - before.m_begin);
            assert(before.split_by(
                *self,
                mc0,
                *mc,
                bpos - before.m_begin,
                buckets,
                edges,
                lists,
            ));
        }
    }

    /// The split of the leaf that the cursor `mc0` stood on, whose path
    /// has `pos` labels, by the buckets `buckets` of its ids, into the
    /// leaves with the edges `edges` and the lists `lists`. Each label
    /// that a sketch of the list has at `pos` has an edge, in ascending
    /// order of the labels, to a leaf that holds the ids of these
    /// sketches in their order; the first edge leads to the leaf that was
    /// split, the others to new leaves with the next free ids. A new node
    /// of the smallest tier that holds the edges takes the place of the
    /// leaf under its parent, and the cursor `mc1` stands on it.
    pub open spec fn split_by(
        &self,
        after: Self,
        mc0: MartCursor,
        mc1: MartCursor,
        pos: int,
        buckets: Seq<Vec<u32>>,
        edges: Seq<MartEdge>,
        lists: Seq<Seq<u32>>,
    ) -> bool {
        let k = mc0.nptr.nid;
        &&& buckets.len() == 256
        &&& forall|l: int|
            0 <= l < 256 ==> (#[trigger] buckets[l])@ == bucket(
                self.m_postings_list@[k as int]->0,
                self.db@,
                pos,
                l as u8,
            )
        &&& filled(buckets, k, self.m_postings_list@.len(), edges, lists, 256)
        &&& edges.len() >= 1
        &&& after.m_postings_list@ == split_postings(
            lists_extracted(self.m_postings_list@, k as int),
            k,
            lists,
        )
        &&& mc1.nptr.ntype == fit_tier(edges.len())
        &&& mc1.pptr == mc0.pptr
        &&& mc1.offset == mc0.offset
        &&& !self.live(mc1.nptr)
        &&& after.live(mc1.nptr)
        &&& after.model() == self.model().split(
            k,
            mc1.nptr,
            mc0.pptr,
            self.leaf_paths@[k].last(),
            edges,
            lists,
        )
    }

    /// The leaf that the cursor `mc0` stood on was split by the labels
    /// at position `pos`.
    pub open spec fn split_into(&self, after: Self, mc0: MartCursor, mc1: MartCursor, pos: int) -> bool {
        exists|buckets: Seq<Vec<u32>>, edges: Seq<MartEdge>, lists: Seq<Seq<u32>>| #[trigger]
            self.split_by(after, mc0, mc1, pos, buckets, edges, lists)
    }

    /// What a split of leaf `k` keeps: the ids of its list, each as often
    /// as before, now in the list of `k` and in the lists of the leaves
    /// that were added.
    pub open spec fn split_of(&self, after: Self, k: u32) -> bool {
        &&& self.m_postings_list@.len() <= after.m_postings_list@.len()
        &&& forall|j: int|
            0 <= j < self.m_postings_list@.len() && j != k ==> after.m_postings_list@[j]
                == self.m_postings_list@[j]
        &&& lists_union(after.m_postings_list@, k, self.m_postings_list@.len() as int).to_multiset()
            == self.m_postings_list@[k as int]->0.to_multiset()
    }

    proof fn lemma_split_of(
        &self,
        after: Self,
        k: u32,
        buckets: Seq<Vec<u32>>,
        edges: Seq<MartEdge>,
        lists: Seq<Seq<u32>>,
        pos: int,
    )
        requires
            k < self.m_postings_list@.len(),
            self.m_postings_list@[k as int] is Some,
            buckets.len() == 256,
            forall|l: int|
                0 <= l < 256 ==> (#[trigger] buckets[l])@ == bucket(
                    self.m_postings_list@[k as int]->0,
                    self.db@,
                    pos,
                    l as u8,
                ),
            filled(buckets, k, self.m_postings_list@.len(), edges, lists, 256),
            edges.len() >= 1,
            after.m_postings_list@ == split_postings(
                lists_extracted(self.m_postings_list@, k as int),
                k,
                lists,
            ),
        ensures
            self.split_of(after, k),
    {
        let list = self.m_postings_list@[k as int]->0;
        let base = self.m_postings_list@.len() as int;
        let post = after.m_postings_list@;
        let n = lists.len() as int;
        crate::dyft::mart::buckets::lemma_buckets_partition(list, self.db@, pos);
        lemma_concat_is_buckets(buckets, list, self.db@, pos, 256);
        lemma_concat_lists(buckets, edges, lists, k, self.m_postings_list@.len(), 256);
        lemma_edges_below_at(edges, 256, edges.len() as int);
        assert(post.len() == base + n - 1);
        assert(post[k as int] == Some(lists[0]));
        assert forall|i: int| 0 <= i < n - 1 implies #[trigger] post[base + i] == Some(
            lists[i + 1],
        ) by {}
        lemma_lists_union(post, k, base, lists, n);
        assert(lists_union(post, k, base) == concat_lists(lists, n));
        assert forall|j: int| 0 <= j < base && j != k implies post[j] == self.m_postings_list@[j] by {}
    }
}

/// The edges of the new leaves have different labels and lead to leaves.
pub proof fn lemma_filled_edges(
    buckets: Seq<Vec<u32>>,
    k: u32,
    base: nat,
    edges: Seq<MartEdge>,
    lists: Seq<Seq<u32>>,
)
    requires
        filled(buckets, k, base, edges, lists, 256),
        k < base,
        base + 255 <= u32::MAX,
    ensures
        distinct_labels(edges),
        no_nil_edges(edges),
        edges.len() <= 256,
{
    assert forall|i: int, j: int|
        0 <= i < edges.len() && 0 <= j < edges.len() && i != j implies (#[trigger] edges[i]).label
        != (#[trigger] edges[j]).label by {
        if i < j {
            assert(edges[i].label < edges[j].label);
        } else {
            assert(edges[j].label < edges[i].label);
        }
    }
    assert forall|j: int| 0 <= j < edges.len() implies (#[trigger] edges[j]).ptr.nid
        != MART_NILID by {
        assert(edges[j].ptr == leaf_ptr(split_leaf(k, base, j)));
    }
}

/// The lists of leaf `k` and of the leaves from `base` on, one after the
/// other.
pub open spec fn lists_union(post: Seq<Option<Seq<u32>>>, k: u32, base: int) -> Seq<u32> {
    list_or_empty(post[k as int]) + tail_union(post, base, post.len() as int)
}

/// The lists of the leaves `base..n`, one after the other.
pub open spec fn tail_union(post: Seq<Option<Seq<u32>>>, base: int, n: int) -> Seq<u32>
    decreases n - base,
{
    if n <= base {
        Seq::empty()
    } else {
        tail_union(post, base, n - 1) + list_or_empty(post[n - 1])
    }
}

/// The first `n` of the lists, one after the other.
pub open spec fn concat_lists(lists: Seq<Seq<u32>>, n: int) -> Seq<u32>
    decreases n,
{
    if n <= 0 {
        Seq::empty()
    } else {
        concat_lists(lists, n - 1) + lists[n - 1]
    }
}

/// The buckets of the labels below `n`, one after the other.
pub open spec fn concat_vecs(buckets: Seq<Vec<u32>>, n: int) -> Seq<u32>
    decreases n,
{
    if n <= 0 {
        Seq::empty()
    } else {
        concat_vecs(buckets, n - 1) + buckets[n - 1]@
    }
}

proof fn lemma_concat_is_buckets(
    buckets: Seq<Vec<u32>>,
    ids: Seq<u32>,
    db: Seq<Seq<u8>>,
    pos: int,
    n: int,
)
    requires
        0 <= n <= 256,
        buckets.len() == 256,
        forall|l: int| 0 <= l < 256 ==> (#[trigger] buckets[l])@ == bucket(ids, db, pos, l as u8),
    ensures
        concat_vecs(buckets, n) == crate::dyft::mart::buckets::concat_buckets(ids, db, pos, n),
    decreases n,
{
    if n > 0 {
        lemma_concat_is_buckets(buckets, ids, db, pos, n - 1);
        assert(buckets[n - 1]@ == bucket(ids, db, pos, (n - 1) as u8));
    }
}

/// The lists of the new leaves, one after the other, are the buckets one
/// after the other: the empty buckets add nothing.
proof fn lemma_concat_lists(
    buckets: Seq<Vec<u32>>,
    edges: Seq<MartEdge>,
    lists: Seq<Seq<u32>>,
    k: u32,
    base: nat,
    n: int,
)
    requires
        0 <= n <= 256,
        buckets.len() == 256,
        filled(buckets, k, base, edges, lists, 256),
    ensures
        concat_vecs(buckets, n) == concat_lists(lists, edges_below(edges, n, edges.len() as int)),
        0 <= edges_below(edges, n, edges.len() as int) <= edges.len(),
    decreases n,
{
    lemma_edges_below(edges, n, edges.len() as int);
    if n > 0 {
        lemma_concat_lists(buckets, edges, lists, k, base, n - 1);
        lemma_edges_below(edges, n - 1, edges.len() as int);
        let c0 = edges_below(edges, n - 1, edges.len() as int);
        let c1 = edges_below(edges, n, edges.len() as int);
        let l = (n - 1) as u8;
        if buckets[n - 1]@.len() >= 1 {
            assert(scan_has(edges, l));
            let j = choose|j: int| 0 <= j < edges.len() && (#[trigger] edges[j]).label == l;
            lemma_edges_below_at(edges, n - 1, j);
            lemma_edges_below_at(edges, n, j + 1);
            assert(c0 == j && c1 == j + 1);
            assert(lists[j] == buckets[n - 1]@);
        } else {
            lemma_edges_below_same(edges, n - 1, buckets, k, base, lists);
            assert(c1 == c0);
            assert(concat_vecs(buckets, n) =~= concat_vecs(buckets, n - 1));
        }
    } else {
        lemma_edges_below_at(edges, 0, 0);
    }
}

/// Number of edges among the first `m` whose label is below `n`.
pub open spec fn edges_below(edges: Seq<MartEdge>, n: int, m: int) -> int
    decreases m,
{
    if m <= 0 {
        0
    } else {
        edges_below(edges, n, m - 1) + if edges[m - 1].label < n {
            1int
        } else {
            0int
        }
    }
}

proof fn lemma_edges_below(edges: Seq<MartEdge>, n: int, m: int)
    requires
        0 <= m,
    ensures
        0 <= edges_below(edges, n, m) <= m,
    decreases m,
{
    if m > 0 {
        lemma_edges_below(edges, n, m - 1);
    }
}

/// Where the labels ascend and the edges before `j` are those with a label
/// below `n`, `j` edges have a label below `n`.
proof fn lemma_edges_below_at(edges: Seq<MartEdge>, n: int, j: int)
    requires
        0 <= j <= edges.len(),
        forall|a: int, b: int|
            0 <= a < b < edges.len() ==> (#[trigger] edges[a]).label < (#[trigger] edges[b]).label,
        forall|a: int| 0 <= a < j ==> (#[trigger] edges[a]).label < n,
        forall|a: int| j <= a < edges.len() ==> (#[trigger] edges[a]).label >= n,
    ensures
        edges_below(edges, n, edges.len() as int) == j,
{
    lemma_edges_below_count(edges, n, j, edges.len() as int);
}

proof fn lemma_edges_below_count(edges: Seq<MartEdge>, n: int, j: int, m: int)
    requires
        0 <= j <= edges.len(),
        0 <= m <= edges.len(),
        forall|a: int| 0 <= a < j ==> (#[trigger] edges[a]).label < n,
        forall|a: int| j <= a < edges.len() ==> (#[trigger] edges[a]).label >= n,
    ensures
        edges_below(edges, n, m) == if m <= j {
            m
        } else {
            j
        },
    decreases m,
{
    if m > 0 {
        lemma_edges_below_count(edges, n, j, m - 1);
    }
}

/// Where the bucket of label `n` is empty, no edge has label `n`.
proof fn lemma_edges_below_same(
    edges: Seq<MartEdge>,
    n: int,
    buckets: Seq<Vec<u32>>,
    k: u32,
    base: nat,
    lists: Seq<Seq<u32>>,
)
    requires
        0 <= n < 256,
        buckets.len() == 256,
        buckets[n]@.len() == 0,
        filled(buckets, k, base, edges, lists, 256),
    ensures
        edges_below(edges, n + 1, edges.len() as int) == edges_below(edges, n, edges.len() as int),
{
    lemma_edges_below_eq(edges, n, edges.len() as int, buckets, lists);
}

proof fn lemma_edges_below_eq(
    edges: Seq<MartEdge>,
    n: int,
    m: int,
    buckets: Seq<Vec<u32>>,
    lists: Seq<Seq<u32>>,
)
    requires
        0 <= n < 256,
        0 <= m <= edges.len(),
        buckets.len() == 256,
        buckets[n]@.len() == 0,
        edges.len() == lists.len(),
        forall|j: int|
            0 <= j < edges.len() ==> lists[j] == buckets[(#[trigger] edges[j]).label as int]@
                && lists[j].len() >= 1,
    ensures
        edges_below(edges, n + 1, m) == edges_below(edges, n, m),
    decreases m,
{
    if m > 0 {
        lemma_edges_below_eq(edges, n, m - 1, buckets, lists);
        assert(lists[m - 1] == buckets[edges[m - 1].label as int]@);
    }
}

/// The lists of leaf `k` and of the new leaves, one after the other, are
/// the lists of the split one after the other.
proof fn lemma_lists_union(
    post: Seq<Option<Seq<u32>>>,
    k: u32,
    base: int,
    lists: Seq<Seq<u32>>,
    n: int,
)
    requires
        1 <= n <= lists.len(),
        0 <= k < base,
        post.len() == base + lists.len() - 1,
        post[k as int] == Some(lists[0]),
        forall|i: int| 0 <= i < lists.len() - 1 ==> #[trigger] post[base + i] == Some(lists[i + 1]),
    ensures
        list_or_empty(post[k as int]) + tail_union(post, base, base + n - 1) == concat_lists(
            lists,
            n,
        ),
    decreases n,
{
    if n == 1 {
        assert(concat_lists(lists, 0) =~= Seq::<u32>::empty());
        assert(concat_lists(lists, 1) =~= lists[0]);
        assert(list_or_empty(post[k as int]) + tail_union(post, base, base) =~= lists[0]);
    } else {
        lemma_lists_union(post, k, base, lists, n - 1);
        assert(post[base + (n - 2)] == Some(lists[n - 1]));
        assert(list_or_empty(post[k as int]) + tail_union(post, base, base + n - 1) =~= (
        list_or_empty(post[k as int]) + tail_union(post, base, base + n - 2)) + lists[n - 1]);
    }
}

} // verus!
