//! What a trie that is in order promises: every sketch is found on its own
//! way, and every sketch within the allowed Hamming distance of a query is
//! found by the search.

use crate::dyft::bit_tools::bits::{bit64, bit8, lemma_bits_determine_byte, lemma_byte_from_bit};
use crate::dyft::bit_tools::distance::{
    differing_positions, lemma_diff_word_byte, lemma_hamdist_counts_positions,
};
use crate::dyft::bit_tools::vcode_array::VCodeArray;
use crate::dyft::bit_tools::vcode_tools::{hamdist_spec, vbyte, words, VCodeTools};
use crate::dyft::byte_pack::{labels_spec, lemma_pack_bit, pack_spec};
use crate::dyft::constants::label_distance::{chunk_differs, label_dist_upto, label_distance};
use crate::dyft::constants::tables::ipc_of;
use crate::dyft::mart::model::{is_prefix, leaf_ptr, TrieModel};
use crate::dyft::mart::search::{lemma_distance_zero, lemma_prefix_dist_mono, prefix_dist};
use crate::dyft::mart::structure::MartIndex;
use crate::dyft::node::common::{MartNodeTypes, MartPointer};
use vstd::arithmetic::div_mod::lemma_fundamental_div_mod_converse;
use vstd::prelude::*;

verus! {

impl TrieModel {
    /// The leaf that the labels `q` lead to from node `p` at depth `pos`,
    /// if they lead to one.
    pub open spec fn walk_from(self, q: Seq<u8>, p: MartPointer, pos: nat) -> Option<u32>
        decreases q.len() - pos,
    {
        if pos >= q.len() || !self.heap.contains_key(p) || !self.heap[p].contains_key(
            q[pos as int],
        ) {
            None
        } else {
            let c = self.heap[p][q[pos as int]];
            if c.ntype == MartNodeTypes::MartLeafNode {
                Some(c.nid)
            } else {
                self.walk_from(q, c, pos + 1)
            }
        }
    }

    /// The leaf that the labels `q` lead to from the root.
    pub open spec fn walk(self, q: Seq<u8>) -> Option<u32> {
        self.walk_from(q, self.root, 0)
    }

    proof fn lemma_walk_to(self, q: Seq<u8>, k: u32, n: int)
        requires
            self.wf(),
            self.leaf_paths.contains_key(k),
            is_prefix(self.leaf_paths[k], q),
            0 <= n < self.leaf_paths[k].len(),
        ensures
            exists|p: MartPointer|
                self.heap.contains_key(p) && #[trigger] self.paths[p] == self.leaf_paths[k].subrange(
                    0,
                    n,
                ) && self.walk_from(q, p, n as nat) == Some(k),
        decreases self.leaf_paths[k].len() - n,
    {
        let path = self.leaf_paths[k];
        let p = self.lemma_ancestor(k, n);
        assert(q[n] == path[n]) by {
            assert(q.subrange(0, path.len() as int)[n] == path[n]);
        }
        self.lemma_child(p, path[n]);
        if n + 1 < path.len() {
            self.lemma_walk_to(q, k, n + 1);
            let c = choose|c: MartPointer|
                self.heap.contains_key(c) && #[trigger] self.paths[c] == path.subrange(0, n + 1)
                    && self.walk_from(q, c, (n + 1) as nat) == Some(k);
            assert(self.heap[p][path[n]] == c);
        }
        assert(self.paths[p] == path.subrange(0, n) && self.walk_from(q, p, n as nat) == Some(k));
    }

    /// Every sketch that was taken in is found on its own way: the labels
    /// of the sketch lead from the root to a leaf that holds its id.
    pub proof fn lemma_containment(self, id: u32)
        requires
            self.wf(),
            id < self.db.len(),
        ensures
            self.walk(self.db[id as int]) is Some,
            self.holds(self.walk(self.db[id as int])->0, id),
    {
        assert(self.contained(id));
        let k = choose|k: u32| #[trigger] self.holds(k, id);
        assert(self.posting_ok(k));
        let list = self.postings[k as int]->0;
        let w = choose|w: int| 0 <= w < list.len() && list[w] == id;
        assert(self.id_fits(k, list[w]));
        assert(self.has_parent(self.leaf_paths[k], leaf_ptr(k)));
        self.lemma_walk_to(self.db[id as int], k, 0);
        let p = choose|p: MartPointer|
            self.heap.contains_key(p) && #[trigger] self.paths[p] == self.leaf_paths[k].subrange(
                0,
                0,
            ) && self.walk_from(self.db[id as int], p, 0) == Some(k);
        assert(self.leaf_paths[k].subrange(0, 0) =~= Seq::<u8>::empty());
        assert(p == self.root);
    }

    /// A sketch whose labels lie within distance `e` of the labels `q` is
    /// found by the search for `q` within `e`.
    pub proof fn lemma_found_within(self, q: Seq<u8>, e: nat, id: u32)
        requires
            self.wf(),
            id < self.db.len(),
            prefix_dist(self.bits, q, self.db[id as int]) <= e,
        ensures
            self.emits(q, e, id),
    {
        assert(self.contained(id));
        let k = choose|k: u32| #[trigger] self.holds(k, id);
        assert(self.posting_ok(k));
        let list = self.postings[k as int]->0;
        let w = choose|w: int| 0 <= w < list.len() && list[w] == id;
        assert(self.id_fits(k, list[w]));
        lemma_prefix_dist_mono(self.bits, q, self.db[id as int], self.leaf_paths[k].len() as int);
        assert(self.target(q, e, k));
    }
}

/// Number of positions in `lo..hi` at which the bytes of two sketches
/// differ.
pub open spec fn differing_between(x: Seq<u64>, y: Seq<u64>, bits: nat, lo: nat, hi: nat) -> nat
    decreases hi - lo,
{
    if hi <= lo {
        0
    } else {
        differing_between(x, y, bits, lo, (hi - 1) as nat) + if vbyte(x, (hi - 1) as nat, bits)
            != vbyte(y, (hi - 1) as nat, bits) {
            1nat
        } else {
            0nat
        }
    }
}

/// Two labels of sketches differ at a position exactly when the bytes of
/// the sketches differ at the position that it stands for.
pub proof fn lemma_chunk_is_byte(x: Seq<u64>, y: Seq<u64>, bits: nat, ipc: nat, bpos: nat, c: nat)
    requires
        1 <= bits <= 8,
        ipc * bits <= 8,
        c < ipc,
    ensures
        chunk_differs(
            pack_spec(x, ipc, bits, bpos),
            pack_spec(y, ipc, bits, bpos),
            bits,
            c,
        ) == (vbyte(x, bpos * ipc + c, bits) != vbyte(y, bpos * ipc + c, bits)),
{
    let la = pack_spec(x, ipc, bits, bpos);
    let lb = pack_spec(y, ipc, bits, bpos);
    let pos = bpos * ipc + c;
    let bx = vbyte(x, pos, bits);
    let by = vbyte(y, pos, bits);
    let fx = |j: nat| bit64(x[j as int], pos);
    let fy = |j: nat| bit64(y[j as int], pos);
    assert((c + 1) * bits <= ipc * bits && c * bits + bits == (c + 1) * bits) by (nonlinear_arith)
        requires
            c < ipc,
            bits >= 1,
    ;
    if chunk_differs(la, lb, bits, c) {
        let t = choose|t: nat| c * bits <= t < (c + 1) * bits && #[trigger] bit8(la, t) != bit8(lb, t);
        let plane = (t - c * bits) as nat;
        lemma_fundamental_div_mod_converse(t as int, bits as int, c as int, plane as int);
        lemma_pack_bit(x, ipc, bits, bpos, t);
        lemma_pack_bit(y, ipc, bits, bpos, t);
        lemma_byte_from_bit(fx, bits, plane);
        lemma_byte_from_bit(fy, bits, plane);
        assert(bit8(bx, plane) != bit8(by, plane));
    }
    if bx != by {
        if forall|j: nat| j < bits ==> bit64(x[j as int], pos) == bit64(y[j as int], pos) {
            assert forall|j: nat| j < 8 implies #[trigger] bit8(bx, j) == bit8(by, j) by {
                lemma_byte_from_bit(fx, bits, j);
                lemma_byte_from_bit(fy, bits, j);
            }
            lemma_bits_determine_byte(bx, by);
        }
        let plane = choose|j: nat| j < bits && bit64(x[j as int], pos) != bit64(y[j as int], pos);
        let t = c * bits + plane;
        lemma_fundamental_div_mod_converse(t as int, bits as int, c as int, plane as int);
        lemma_pack_bit(x, ipc, bits, bpos, t);
        lemma_pack_bit(y, ipc, bits, bpos, t);
        assert(bit8(la, t) != bit8(lb, t));
    }
}

/// The distance of two labels of sketches is the number of positions that
/// they stand for at which the bytes of the sketches differ.
pub proof fn lemma_label_distance_counts(
    x: Seq<u64>,
    y: Seq<u64>,
    bits: nat,
    ipc: nat,
    bpos: nat,
    n: nat,
)
    requires
        1 <= bits <= 8,
        ipc * bits <= 8,
        n <= ipc,
    ensures
        label_dist_upto(pack_spec(x, ipc, bits, bpos), pack_spec(y, ipc, bits, bpos), bits, n)
            == differing_between(x, y, bits, bpos * ipc, bpos * ipc + n),
    decreases n,
{
    if n > 0 {
        lemma_label_distance_counts(x, y, bits, ipc, bpos, (n - 1) as nat);
        lemma_chunk_is_byte(x, y, bits, ipc, bpos, (n - 1) as nat);
    }
}

proof fn lemma_between_split(x: Seq<u64>, y: Seq<u64>, bits: nat, lo: nat, mid: nat, hi: nat)
    requires
        lo <= mid <= hi,
    ensures
        differing_between(x, y, bits, lo, hi) == differing_between(x, y, bits, lo, mid)
            + differing_between(x, y, bits, mid, hi),
    decreases hi - mid,
{
    if mid < hi {
        lemma_between_split(x, y, bits, lo, mid, (hi - 1) as nat);
    }
}

/// Bytes beyond position 63 never differ, and the positions below a bound
/// that differ are no more than all that differ.
proof fn lemma_between_bound(x: Seq<u64>, y: Seq<u64>, bits: nat, lo: nat, hi: nat)
    requires
        bits <= 8,
    ensures
        differing_between(x, y, bits, lo, hi) <= differing_positions(x, y, bits, 64),
    decreases hi,
{
    if hi <= lo {
    } else if hi > 64 {
        lemma_between_bound(x, y, bits, lo, (hi - 1) as nat);
        lemma_high_position(x, y, bits, (hi - 1) as nat);
    } else {
        lemma_positions_from(x, y, bits, lo, hi);
        lemma_positions_upto(x, y, bits, hi, 64);
    }
}

proof fn lemma_high_position(x: Seq<u64>, y: Seq<u64>, bits: nat, pos: nat)
    requires
        bits <= 8,
        pos >= 64,
    ensures
        vbyte(x, pos, bits) == vbyte(y, pos, bits),
{
    let bx = vbyte(x, pos, bits);
    let by = vbyte(y, pos, bits);
    assert forall|j: nat| j < 8 implies #[trigger] bit8(bx, j) == bit8(by, j) by {
        lemma_byte_from_bit(|k: nat| bit64(x[k as int], pos), bits, j);
        lemma_byte_from_bit(|k: nat| bit64(y[k as int], pos), bits, j);
    }
    lemma_bits_determine_byte(bx, by);
}

proof fn lemma_positions_from(x: Seq<u64>, y: Seq<u64>, bits: nat, lo: nat, hi: nat)
    requires
        lo <= hi,
    ensures
        differing_between(x, y, bits, lo, hi) <= differing_positions(x, y, bits, hi),
    decreases hi - lo,
{
    if lo < hi {
        lemma_positions_from(x, y, bits, lo, (hi - 1) as nat);
    }
}

proof fn lemma_positions_upto(x: Seq<u64>, y: Seq<u64>, bits: nat, n: nat, m: nat)
    requires
        n <= m,
    ensures
        differing_positions(x, y, bits, n) <= differing_positions(x, y, bits, m),
    decreases m - n,
{
    if n < m {
        lemma_positions_upto(x, y, bits, n, (m - 1) as nat);
    }
}

/// The distance between the first `n` labels of two sketches is the
/// number of positions that they stand for at which the bytes of the
/// sketches differ.
pub proof fn lemma_prefix_dist_counts(
    x: Seq<u64>,
    y: Seq<u64>,
    bits: nat,
    begin: nat,
    end: nat,
    n: nat,
)
    requires
        1 <= bits <= 8,
        begin + n <= end,
    ensures
        prefix_dist(
            bits,
            labels_spec(x, ipc_of(bits) as nat, bits, begin, end),
            labels_spec(y, ipc_of(bits) as nat, bits, begin, end).subrange(0, n as int),
        ) == differing_between(
            x,
            y,
            bits,
            begin * (ipc_of(bits) as nat),
            (begin + n) * (ipc_of(bits) as nat),
        ),
    decreases n,
{
    let ipc = ipc_of(bits) as nat;
    assert(ipc * bits <= 8) by (nonlinear_arith)
        requires
            ipc == 8int / (bits as int),
            1 <= bits,
    ;
    let q = labels_spec(x, ipc, bits, begin, end);
    let full = labels_spec(y, ipc, bits, begin, end);
    let path = full.subrange(0, n as int);
    if n > 0 {
        lemma_prefix_dist_counts(x, y, bits, begin, end, (n - 1) as nat);
        assert(path.drop_last() =~= full.subrange(0, n - 1));
        let bpos = (begin + n - 1) as nat;
        assert(path.last() == pack_spec(y, ipc, bits, bpos));
        assert(q[n - 1] == pack_spec(x, ipc, bits, bpos));
        lemma_label_distance_counts(x, y, bits, ipc, bpos, ipc);
        assert(bpos * ipc + ipc == (begin + n) * ipc) by (nonlinear_arith)
            requires
                bpos == begin + n - 1,
        ;
        assert(begin * ipc <= bpos * ipc) by (nonlinear_arith)
            requires
                begin <= bpos,
        ;
        lemma_between_split(x, y, bits, begin * ipc, bpos * ipc, (begin + n) * ipc);
    }
}

impl MartIndex {
    /// Every sketch that was taken in and lies within the allowed Hamming
    /// distance of a query is found by the search for that query.
    pub proof fn lemma_recall<T: VCodeTools>(
        &self,
        database: &VCodeArray<T>,
        query: Seq<T>,
        id: u32,
    )
        requires
            self.wf(),
            self.consistent(database),
            id < self.db@.len(),
            hamdist_spec(words(database.sketch(id as int)), words(query), self.m_bits as nat)
                <= self.m_errors,
        ensures
            self.model().emits(self.labels_of(words(query)), self.m_errors as nat, id),
    {
        let m = self.model();
        let bits = self.m_bits as nat;
        let x = words(query);
        let y = words(database.sketch(id as int));
        let q = self.labels_of(x);
        let w = self.width();
        assert(m.sketch_ok(id as int));
        assert(self.db@[id as int] == self.labels_of(y));
        lemma_prefix_dist_counts(x, y, bits, self.m_begin as nat, self.m_end as nat, w);
        assert(self.labels_of(y).subrange(0, w as int) =~= self.labels_of(y));
        lemma_between_bound(
            x,
            y,
            bits,
            self.m_begin as nat * (ipc_of(bits) as nat),
            (self.m_begin as nat + w) * (ipc_of(bits) as nat),
        );
        lemma_hamdist_counts_positions(x, y, bits);
        lemma_positions_symmetric(x, y, bits, 64);
        lemma_hamdist_counts_positions(y, x, bits);
        m.lemma_found_within(q, self.m_errors as nat, id);
    }
}

/// Two sketches differ at the same positions either way round.
pub proof fn lemma_positions_symmetric(x: Seq<u64>, y: Seq<u64>, bits: nat, n: nat)
    ensures
        differing_positions(x, y, bits, n) == differing_positions(y, x, bits, n),
    decreases n,
{
    if n > 0 {
        lemma_positions_symmetric(x, y, bits, (n - 1) as nat);
    }
}

} // verus!
