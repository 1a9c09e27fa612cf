//! The lookup tables of the search: the distance of every pair of labels,
//! and the labels ordered by their distance from a given one.

use crate::dyft::bit_tools::bits::{
    bit64, bit8, fits, lemma_bit_shr, lemma_fits_high_bits, lemma_zero_word,
};
use crate::dyft::constants::label_distance::{
    label_distance, label_distance_of, label_in_range, label_weight, lemma_byte_xor,
    lemma_distance_is_weight, lemma_label_dist_bound, lemma_nonzero_has_bit, lemma_xor_in_range,
};
use vstd::prelude::*;

verus! {

pub type HamDist = u8;

/// For each number of bits per position, where the labels at each distance
/// begin among the labels ordered by distance: entry `r` is the number of
/// labels at a distance below `r`.
pub const BIT_POSITION_TABLE: [[usize; 10]; 8] = [
    [0, 1, 9, 37, 93, 163, 219, 247, 255, 256],
    [0, 1, 13, 67, 175, 256, 256, 256, 256, 256],
    [0, 1, 15, 64, 64, 64, 64, 64, 64, 64],
    [0, 1, 31, 256, 256, 256, 256, 256, 256, 256],
    [0, 1, 32, 32, 32, 32, 32, 32, 32, 32],
    [0, 1, 64, 64, 64, 64, 64, 64, 64, 64],
    [0, 1, 128, 128, 128, 128, 128, 128, 128, 128],
    [0, 1, 256, 256, 256, 256, 256, 256, 256, 256],
];

/// Number of labels below `n` at distance `r` from the zero label.
pub open spec fn weight_count(bits: nat, r: nat, n: nat) -> nat
    decreases n,
{
    if n == 0 {
        0
    } else {
        weight_count(bits, r, (n - 1) as nat) + if label_weight(bits, (n - 1) as u8) == r {
            1nat
        } else {
            0nat
        }
    }
}

/// How many positions of `bits` bits a label has.
pub open spec fn ipc_of(bits: nat) -> int {
    8int / (bits as int)
}

/// Number of labels of `8 / bits` positions of `bits` bits.
pub open spec fn label_count(bits: nat) -> nat {
    if bits == 3 || bits == 6 {
        64
    } else if bits == 5 {
        32
    } else if bits == 7 {
        128
    } else {
        256
    }
}

/// The row of the position table for `bits`, as a sequence.
pub open spec fn table_row(bits: nat) -> Seq<usize> {
    BIT_POSITION_TABLE[bits - 1]@
}

/// The position table for `bits` agrees with the labels: at each distance
/// there are as many labels as the table leaves room for.
pub open spec fn table_fits(bits: nat) -> bool {
    forall|r: nat|
        r <= ipc_of(bits) ==> #[trigger] weight_count(bits, r, label_count(bits)) == table_row(
            bits,
        )[r + 1 as int] - table_row(bits)[r as int]
}

pub proof fn lemma_weight_count_mono(bits: nat, r: nat, n: nat, m: nat)
    requires
        n <= m,
    ensures
        weight_count(bits, r, n) <= weight_count(bits, r, m),
    decreases m - n,
{
    if n < m {
        lemma_weight_count_mono(bits, r, n, (m - 1) as nat);
    }
}

/// The labels below the label count are those without a bit beyond their
/// positions.
pub proof fn lemma_label_range(bits: nat, l: u8)
    requires
        1 <= bits <= 8,
    ensures
        label_in_range(bits, l) == (l < label_count(bits)),
{
    let q: nat = if bits == 3 || bits == 6 {
        6
    } else if bits == 5 {
        5
    } else if bits == 7 {
        7
    } else {
        8
    };
    assert((8nat / bits) * bits == q) by {
        if bits == 1 {
        } else if bits == 2 {
        } else if bits == 3 {
        } else if bits == 4 {
        } else if bits == 5 {
        } else if bits == 6 {
        } else if bits == 7 {
        } else {
        }
    }
    let v = l as u64;
    let qu = q as u64;
    assert((v >> qu == 0) == (v < (1u64 << qu))) by (bit_vector)
        requires
            qu <= 8,
    ;
    assert(1u64 << 5 == 32 && 1u64 << 6 == 64 && 1u64 << 7 == 128 && 1u64 << 8 == 256)
        by (bit_vector);
    if l < label_count(bits) {
        assert(fits(v, q));
        assert forall|t: nat| q <= t implies !#[trigger] bit8(l, t) by {
            lemma_fits_high_bits(v, q, t);
        }
    }
    if label_in_range(bits, l) {
        if v >> qu != 0 {
            lemma_nonzero_has_bit(v >> qu);
            let i = choose|i: nat| i < 64 && #[trigger] bit64(v >> qu, i);
            lemma_bit_shr(v, q, i);
            assert(bit8(l, q + i));
        }
    }
}

/// The labels in `order` are all labels in range, sorted by weight, and
/// `row` says where each weight begins.
pub open spec fn order_ok(order: Seq<u8>, row: Seq<usize>, bits: nat) -> bool {
    &&& row.len() == 10
    &&& order.len() == label_count(bits)
    &&& row[0] == 0
    &&& row[ipc_of(bits) + 1] == order.len()
    &&& forall|r: int| 0 <= r <= ipc_of(bits) ==> #[trigger] row[r] <= row[r + 1]
    &&& forall|r: int|
        0 <= r <= ipc_of(bits) ==> #[trigger] room_ok(
            order,
            bits,
            r,
            row[r] as int,
            row[r + 1] as int,
            label_count(bits),
        )
    &&& forall|m: u8| m < label_count(bits) ==> #[trigger] placed(order, m, 0, order.len() as int)
}

/// The labels of `order` at `lo..hi` have weight `r` and are below `m`.
pub open spec fn room_ok(order: Seq<u8>, bits: nat, r: int, lo: int, hi: int, m: nat) -> bool {
    forall|k: int| lo <= k < hi ==> label_weight(bits, #[trigger] order[k]) == r && order[k] < m
}

/// The labels below `m` stand in `order`, each in the room of its weight,
/// and `next` says how far each room is filled.
pub open spec fn placed_upto(
    order: Seq<u8>,
    row: Seq<usize>,
    next: Seq<usize>,
    bits: nat,
    m: nat,
) -> bool {
    &&& order.len() == label_count(bits)
    &&& row.len() == 10
    &&& next.len() == 10
    &&& row[0] == 0
    &&& row[ipc_of(bits) + 1] == label_count(bits)
    &&& forall|r: int|
        0 <= r <= ipc_of(bits) ==> #[trigger] next[r] == row[r] + weight_count(bits, r as nat, m)
            && next[r] <= row[r + 1]
    &&& forall|r: int|
        0 <= r <= ipc_of(bits) ==> #[trigger] room_ok(
            order,
            bits,
            r,
            row[r] as int,
            next[r] as int,
            m,
        )
    &&& forall|v: u8|
        v < m ==> #[trigger] placed(
            order,
            v,
            row[label_weight(bits, v) as int] as int,
            next[label_weight(bits, v) as int] as int,
        )
}

/// Placing label `m` in the room of its weight.
pub proof fn lemma_place(
    order: Seq<u8>,
    row: Seq<usize>,
    next: Seq<usize>,
    bits: nat,
    m: nat,
)
    requires
        1 <= bits <= 8,
        m < label_count(bits),
        placed_upto(order, row, next, bits, m),
        next[label_weight(bits, m as u8) as int] < row[label_weight(bits, m as u8) as int + 1],
    ensures
        label_weight(bits, m as u8) <= ipc_of(bits),
        placed_upto(
            order.update(next[label_weight(bits, m as u8) as int] as int, m as u8),
            row,
            next.update(
                label_weight(bits, m as u8) as int,
                (next[label_weight(bits, m as u8) as int] + 1) as usize,
            ),
            bits,
            m + 1,
        ),
{
    let ipc = ipc_of(bits);
    let v = m as u8;
    lemma_label_dist_bound(0, v, bits, 8nat / bits);
    let w = label_weight(bits, v) as int;
    let at = next[w] as int;
    let order1 = order.update(at, v);
    let next1 = next.update(w, (at + 1) as usize);
    assert forall|r: int| 0 <= r <= ipc implies #[trigger] row[r] <= row[r + 1] by {
        assert(next[r] <= row[r + 1]);
    }
    lemma_bucket_within(row, ipc, w);
    assert(room_ok(order, bits, w, row[w] as int, next[w] as int, m));
    assert forall|r: int| 0 <= r <= ipc implies #[trigger] next1[r] == row[r] + weight_count(
        bits,
        r as nat,
        m + 1,
    ) && next1[r] <= row[r + 1] by {
        assert(next[r] == row[r] + weight_count(bits, r as nat, m));
    }
    assert forall|r: int| 0 <= r <= ipc implies #[trigger] room_ok(
        order1,
        bits,
        r,
        row[r] as int,
        next1[r] as int,
        m + 1,
    ) by {
        assert(room_ok(order, bits, r, row[r] as int, next[r] as int, m));
        assert(next[r] <= row[r + 1]);
        if r != w {
            lemma_buckets_apart(row, ipc, r, w);
        }
        assert forall|k: int| row[r] <= k < next1[r] implies label_weight(
            bits,
            #[trigger] order1[k],
        ) == r && order1[k] < m + 1 by {
            if k != at {
                assert(label_weight(bits, order[k]) == r && order[k] < m);
            }
        }
    }
    assert forall|u: u8| u < m + 1 implies #[trigger] placed(
        order1,
        u,
        row[label_weight(bits, u) as int] as int,
        next1[label_weight(bits, u) as int] as int,
    ) by {
        lemma_label_dist_bound(0, u, bits, 8nat / bits);
        let wu = label_weight(bits, u) as int;
        if u < m {
            assert(placed(order, u, row[wu] as int, next[wu] as int));
            let k = choose|k: int| row[wu] <= k < next[wu] && #[trigger] order[k] == u;
            assert(k != at) by {
                if k == at {
                    if wu != w {
                        assert(next[wu] <= row[wu + 1]);
                        lemma_buckets_apart(row, ipc, wu, w);
                    }
                }
            }
            assert(order1[k] == u);
        } else {
            assert(order1[at] == u);
        }
    }
}

/// Once all labels are placed and every room is full, the order is in
/// order.
pub proof fn lemma_placed_all(order: Seq<u8>, row: Seq<usize>, next: Seq<usize>, bits: nat)
    requires
        1 <= bits <= 8,
        placed_upto(order, row, next, bits, label_count(bits)),
        forall|r: int| 0 <= r <= ipc_of(bits) ==> #[trigger] next[r] == row[r + 1],
        row == table_row(bits),
    ensures
        order_ok(order, row, bits),
        table_fits(bits),
{
    let ipc = ipc_of(bits);
    assert forall|r: nat| r <= ipc_of(bits) implies #[trigger] weight_count(
        bits,
        r,
        label_count(bits),
    ) == table_row(bits)[r + 1 as int] - table_row(bits)[r as int] by {
        assert(next[r as int] == row[r + 1 as int]);
    }
    assert forall|r: int| 0 <= r <= ipc implies #[trigger] row[r] <= row[r + 1] by {
        assert(next[r] == row[r + 1]);
    }
    assert forall|v: u8| v < label_count(bits) implies #[trigger] placed(
        order,
        v,
        0,
        order.len() as int,
    ) by {
        lemma_label_dist_bound(0, v, bits, 8nat / bits);
        let wv = label_weight(bits, v) as int;
        assert(placed(order, v, row[wv] as int, next[wv] as int));
        let k = choose|k: int| row[wv] <= k < next[wv] && #[trigger] order[k] == v;
        assert(next[wv] == row[wv + 1]);
        lemma_bucket_within(row, ipc, wv);
        assert(order[k] == v);
    }
    assert forall|r: int| 0 <= r <= ipc implies #[trigger] room_ok(
        order,
        bits,
        r,
        row[r] as int,
        row[r + 1] as int,
        label_count(bits),
    ) by {
        assert(next[r] == row[r + 1]);
        assert(room_ok(order, bits, r, row[r] as int, next[r] as int, label_count(bits)));
    }
}

/// The distances of all pairs of labels, row by row.
pub fn all_distances(bits: usize) -> (dist: Vec<u8>)
    requires
        1 <= bits <= 8,
    ensures
        dist@.len() == 65536,
        forall|a: u8, c: u8| #[trigger] dist@[a * 256 + c] == label_distance(bits as nat, a, c),
{
    let mut dist: Vec<u8> = Vec::new();
    let mut i: usize = 0;
    while i < 65536
        invariant
            i <= 65536,
            1 <= bits <= 8,
            dist@.len() == i,
            forall|a: u8, c: u8|
                a * 256 + c < i ==> #[trigger] dist@[a * 256 + c] == label_distance(
                    bits as nat,
                    a,
                    c,
                ),
        decreases 65536 - i,
    {
        let a = (i / 256) as u8;
        let c = (i % 256) as u8;
        let d = label_distance_of(bits, a, c);
        dist.push(d);
        assert forall|a2: u8, c2: u8| a2 * 256 + c2 < i + 1 implies #[trigger] dist@[a2 * 256 + c2]
            == label_distance(bits as nat, a2, c2) by {
            if a2 * 256 + c2 == i {
                assert(a2 == a && c2 == c);
            }
        }
        i = i + 1;
    }
    dist
}

/// A vector of `n` zero labels.
fn zero_labels(n: usize) -> (order: Vec<u8>)
    ensures
        order@.len() == n,
        forall|i: int| 0 <= i < n ==> order@[i] == 0,
{
    let mut order: Vec<u8> = Vec::new();
    let mut z: usize = 0;
    while z < n
        invariant
            z <= n,
            order@.len() == z,
            forall|i: int| 0 <= i < z ==> order@[i] == 0,
        decreases n - z,
    {
        order.push(0);
        z = z + 1;
    }
    order
}

/// A copy of the ten positions of a row.
fn copy_row(row: &Vec<usize>) -> (next: Vec<usize>)
    requires
        row@.len() == 10,
    ensures
        next@ == row@,
{
    let mut next: Vec<usize> = Vec::new();
    let mut r: usize = 0;
    while r < 10
        invariant
            r <= 10,
            row@.len() == 10,
            next@.len() == r,
            forall|k: int| 0 <= k < r ==> next@[k] == row@[k],
        decreases 10 - r,
    {
        next.push(row[r]);
        r = r + 1;
    }
    assert(next@ =~= row@);
    next
}

/// Nothing is placed yet.
proof fn lemma_placed_none(order: Seq<u8>, row: Seq<usize>, bits: nat)
    requires
        1 <= bits <= 8,
        row == table_row(bits),
        order.len() == label_count(bits),
    ensures
        placed_upto(order, row, row, bits, 0),
{
    lemma_table_values();
    lemma_table_monotone();
    assert(table_row(bits)[0] == 0);
    assert forall|r: int| 0 <= r <= ipc_of(bits) implies #[trigger] row[r] == row[r] + weight_count(
        bits,
        r as nat,
        0,
    ) && row[r] <= row[r + 1] by {
        assert(table_row(bits)[r] <= table_row(bits)[r + 1]);
    }
}

/// Puts every label in range into the room of its weight, as far as the
/// rooms of `row` go.
#[verifier::rlimit(50)]
fn place_labels(bits: usize, row: &Vec<usize>) -> (r: Option<(Vec<u8>, Vec<usize>)>)
    requires
        1 <= bits <= 8,
        row@ == table_row(bits as nat),
    ensures
        match r {
            Some((order, next)) => placed_upto(
                order@,
                row@,
                next@,
                bits as nat,
                label_count(bits as nat),
            ),
            None => !table_fits(bits as nat),
        },
{
    let ipc = 8 / bits;
    let n: usize = if bits == 3 || bits == 6 {
        64
    } else if bits == 5 {
        32
    } else if bits == 7 {
        128
    } else {
        256
    };
    let ghost b = bits as nat;
    let mut next = copy_row(row);
    let mut order = zero_labels(n);
    proof {
        lemma_placed_none(order@, row@, b);
    }
    let mut m: usize = 0;
    while m < n
        invariant
            m <= n,
            n == label_count(b),
            b == bits,
            1 <= bits <= 8,
            ipc == ipc_of(b),
            row@ == table_row(b),
            placed_upto(order@, row@, next@, b, m as nat),
        decreases n - m,
    {
        let v = m as u8;
        let w = label_distance_of(bits, 0, v) as usize;
        let at = next[w];
        if at >= row[w + 1] {
            proof {
                lemma_room_too_small(order@, row@, next@, b, m as nat);
            }
            return None;
        }
        proof {
            lemma_place(order@, row@, next@, b, m as nat);
            lemma_table_monotone();
            lemma_bucket_within(row@, ipc as int, w as int);
        }
        order.set(at, v);
        next.set(w, at + 1);
        m = m + 1;
    }
    Some((order, next))
}

/// Where the room of a weight is full before all labels of that weight are
/// placed, the table does not agree with the labels.
proof fn lemma_room_too_small(order: Seq<u8>, row: Seq<usize>, next: Seq<usize>, bits: nat, m: nat)
    requires
        1 <= bits <= 8,
        m < label_count(bits),
        row == table_row(bits),
        placed_upto(order, row, next, bits, m),
        next[label_weight(bits, m as u8) as int] >= row[label_weight(bits, m as u8) as int + 1],
    ensures
        !table_fits(bits),
{
    let w = label_weight(bits, m as u8);
    lemma_label_dist_bound(0, m as u8, bits, 8nat / bits);
    lemma_weight_count_mono(bits, w, m + 1, label_count(bits));
    assert(next[w as int] == row[w as int] + weight_count(bits, w, m));
    assert(weight_count(bits, w, label_count(bits)) > table_row(bits)[w + 1 as int] - table_row(
        bits,
    )[w as int]);
}

/// Where a room is not full after all labels are placed, the table does
/// not agree with the labels.
proof fn lemma_room_too_large(order: Seq<u8>, row: Seq<usize>, next: Seq<usize>, bits: nat, r: int)
    requires
        1 <= bits <= 8,
        0 <= r <= ipc_of(bits),
        row == table_row(bits),
        placed_upto(order, row, next, bits, label_count(bits)),
        next[r] != row[r + 1],
    ensures
        !table_fits(bits),
{
    assert(next[r] == row[r] + weight_count(bits, r as nat, label_count(bits)));
    assert(weight_count(bits, r as nat, label_count(bits)) != table_row(bits)[r + 1] - table_row(
        bits,
    )[r]);
}

/// All labels in range sorted by weight, each weight in the room that
/// `row` leaves for it; nothing if a room is too small or too large.
pub fn ordered_masks(bits: usize, row: &Vec<usize>) -> (r: Option<Vec<u8>>)
    requires
        1 <= bits <= 8,
        row@ == table_row(bits as nat),
    ensures
        r is Some == table_fits(bits as nat),
        r is Some ==> order_ok(r->0@, row@, bits as nat),
{
    let ipc = 8 / bits;
    let ghost b = bits as nat;
    match place_labels(bits, row) {
        None => None,
        Some((order, next)) => {
            let mut r2: usize = 0;
            while r2 <= ipc
                invariant
                    r2 <= ipc + 1,
                    ipc == ipc_of(b),
                    ipc <= 8,
                    b == bits,
                    1 <= bits <= 8,
                    row@ == table_row(b),
                    placed_upto(order@, row@, next@, b, label_count(b)),
                    forall|r: int| 0 <= r < r2 ==> #[trigger] next@[r] == row@[r + 1],
                decreases ipc + 1 - r2,
            {
                if next[r2] != row[r2 + 1] {
                    proof {
                        lemma_room_too_large(order@, row@, next@, b, r2 as int);
                    }
                    return None;
                }
                r2 = r2 + 1;
            }
            proof {
                lemma_placed_all(order@, row@, next@, b);
            }
            Some(order)
        },
    }
}

/// Whether the label `v` stands in `order` at an index in `lo..hi`.
pub open spec fn placed(order: Seq<u8>, v: u8, lo: int, hi: int) -> bool {
    exists|k: int| lo <= k < hi && #[trigger] order[k] == v
}

/// A sequence in which each of the `n` labels below `n` stands has `n`
/// entries at least.
pub proof fn lemma_placed_count(order: Seq<u8>, n: nat)
    requires
        n <= 256,
        forall|m: u8| m < n ==> #[trigger] placed(order, m, 0, order.len() as int),
    ensures
        order.len() >= n,
    decreases n,
{
    if n > 0 {
        let top = (n - 1) as u8;
        assert(placed(order, top, 0, order.len() as int));
        let at = choose|k: int| 0 <= k < order.len() && #[trigger] order[k] == top;
        let rest = order.remove(at);
        assert forall|m: u8| m < n - 1 implies #[trigger] placed(rest, m, 0, rest.len() as int) by {
            assert(placed(order, m, 0, order.len() as int));
            let k = choose|k: int| 0 <= k < order.len() && #[trigger] order[k] == m;
            if k < at {
                assert(rest[k] == m);
            } else {
                assert(rest[k - 1] == m);
            }
        }
        lemma_placed_count(rest, (n - 1) as nat);
    }
}

/// A sequence of `n` entries in which each of the `n` labels below `n`
/// stands holds no label twice.
pub proof fn lemma_placed_once(order: Seq<u8>, n: nat, a: int, b: int)
    requires
        n <= 256,
        order.len() == n,
        forall|m: u8| m < n ==> #[trigger] placed(order, m, 0, order.len() as int),
        0 <= a < order.len(),
        0 <= b < order.len(),
        a != b,
    ensures
        order[a] != order[b],
{
    if order[a] == order[b] {
        let rest = order.remove(b);
        assert forall|m: u8| m < n implies #[trigger] placed(rest, m, 0, rest.len() as int) by {
            assert(placed(order, m, 0, order.len() as int));
            let k0 = choose|k: int| 0 <= k < order.len() && #[trigger] order[k] == m;
            let k = if k0 == b {
                a
            } else {
                k0
            };
            if k < b {
                assert(rest[k] == m);
            } else {
                assert(rest[k - 1] == m);
            }
        }
        lemma_placed_count(rest, n);
    }
}

pub struct HamTables {
    m_bits: usize,
    m_dist: Vec<u8>,
    m_order: Vec<u8>,
    m_positions: Vec<usize>,
}

impl HamTables {
    /// Number of bits per position.
    pub closed spec fn spec_bits(&self) -> nat {
        self.m_bits as nat
    }

    /// The labels ordered by their distance from the zero label.
    pub closed spec fn order(&self) -> Seq<u8> {
        self.m_order@
    }

    /// Where each distance begins in the order.
    pub closed spec fn positions(&self) -> Seq<usize> {
        self.m_positions@
    }

    /// The distances of all pairs of labels, row by row.
    pub closed spec fn distances(&self) -> Seq<u8> {
        self.m_dist@
    }

    /// The tables hold what their names say.
    pub open spec fn wf(&self) -> bool {
        &&& 1 <= self.spec_bits() <= 8
        &&& self.distances().len() == 65536
        &&& forall|a: u8, b: u8| #[trigger]
            self.distances()[a * 256 + b] == label_distance(self.spec_bits(), a, b)
        &&& self.positions() == table_row(self.spec_bits())
        &&& order_ok(self.order(), self.positions(), self.spec_bits())
    }

    /// An entry of the order before the end of distance `r` is at most at
    /// distance `r` from the zero label, and `label` XOR it as far from
    /// `label`.
    pub proof fn lemma_entry(&self, label: u8, k: int, radius: int)
        requires
            self.wf(),
            0 <= radius <= ipc_of(self.spec_bits()),
            0 <= k < self.positions()[radius + 1],
        ensures
            label_distance(self.spec_bits(), label, label ^ self.order()[k]) <= radius,
            k < self.order().len(),
    {
        let b = self.spec_bits();
        let ipc = ipc_of(b);
        self.lemma_positions_le(radius + 1);
        lemma_bucket_of(self.positions(), ipc, k);
        let r = choose|r: int|
            0 <= r <= ipc && #[trigger] self.positions()[r] <= k < self.positions()[r + 1];
        assert(room_ok(
            self.order(),
            b,
            r,
            self.positions()[r] as int,
            self.positions()[r + 1] as int,
            label_count(b),
        ));
        assert(label_weight(b, self.order()[k]) == r);
        if r > radius {
            lemma_positions_mono(self.positions(), ipc, radius + 1, r);
        }
        let m = self.order()[k];
        lemma_distance_is_weight(b, label, label ^ m, 8nat / b);
        assert(label ^ (label ^ m) == m) by (bit_vector);
    }

    /// No label stands twice in the order.
    pub proof fn lemma_order_distinct(&self, a: int, b: int)
        requires
            self.wf(),
            0 <= a < self.order().len(),
            0 <= b < self.order().len(),
            a != b,
        ensures
            self.order()[a] != self.order()[b],
    {
        lemma_placed_once(self.order(), label_count(self.spec_bits()), a, b);
    }

    /// The row of the position table for `bits`.
    pub fn bit_positions(bits: usize) -> (r: [usize; 10])
        requires
            1 <= bits <= 8,
        ensures
            r@ == table_row(bits as nat),
    {
        BIT_POSITION_TABLE[bits - 1]
    }

    /// The tables for `bits` bits per position, or nothing if the position
    /// table does not agree with the labels.
    pub fn new(bits: usize) -> (r: Self)
        requires
            1 <= bits <= 8,
        ensures
            r.wf(),
            r.spec_bits() == bits,
    {
        proof {
            crate::dyft::constants::counting::lemma_table_fits(bits as nat);
        }
        let row = Self::bit_positions(bits);
        let mut positions: Vec<usize> = Vec::new();
        let mut r: usize = 0;
        while r < 10
            invariant
                r <= 10,
                positions@.len() == r,
                forall|k: int| 0 <= k < r ==> positions@[k] == row@[k],
            decreases 10 - r,
        {
            positions.push(row[r]);
            r = r + 1;
        }
        assert(positions@ =~= row@);
        match ordered_masks(bits, &positions) {
            Some(order) => {
                let dist = all_distances(bits);
                HamTables { m_bits: bits, m_dist: dist, m_order: order, m_positions: positions }
            },
            None => vstd::pervasive::unreached(),
        }
    }

    /// The distances from `label` to every label.
    pub fn hamming_distance(&self, label: u8) -> (r: &[u8])
        requires
            self.wf(),
        ensures
            r@.len() == 256,
            forall|other: u8| #[trigger] r@[other as int] == label_distance(
                self.spec_bits(),
                label,
                other,
            ),
    {
        let start = (label as usize) * 256;
        let r = vstd::slice::slice_subrange(self.m_dist.as_slice(), start, start + 256);
        proof {
            assert forall|other: u8| #[trigger] r@[other as int] == label_distance(
                self.spec_bits(),
                label,
                other,
            ) by {
                assert(r@[other as int] == self.distances()[label * 256 + other]);
            }
        }
        r
    }

    /// The labels ordered by their distance from `label`: entry `k` is
    /// `label` XOR the `k`-th label by weight.
    pub fn lookup(&self, label: u8) -> (r: Vec<u8>)
        requires
            self.wf(),
        ensures
            r@.len() == self.order().len(),
            forall|k: int| 0 <= k < r@.len() ==> #[trigger] r@[k] == label ^ self.order()[k],
    {
        let mut out: Vec<u8> = Vec::new();
        let mut k: usize = 0;
        while k < self.m_order.len()
            invariant
                k <= self.m_order@.len(),
                out@.len() == k,
                forall|j: int| 0 <= j < k ==> #[trigger] out@[j] == label ^ self.m_order@[j],
            decreases self.m_order@.len() - k,
        {
            out.push(label ^ self.m_order[k]);
            k = k + 1;
        }
        out
    }

    /// Number of labels at a distance of at most `radius`.
    pub fn within(&self, radius: u8) -> (r: usize)
        requires
            self.wf(),
            radius <= ipc_of(self.spec_bits()),
        ensures
            r == self.positions()[radius + 1],
            r <= self.order().len(),
    {
        proof {
            self.lemma_positions_le(radius as int + 1);
        }
        self.m_positions[radius as usize + 1]
    }

    /// The `k`-th label by weight.
    pub fn mask(&self, k: usize) -> (r: u8)
        requires
            self.wf(),
            k < self.order().len(),
        ensures
            r == self.order()[k as int],
    {
        self.m_order[k]
    }

    /// How many positions of this many bits a label has.
    pub fn ints_per_chunk(&self) -> (r: u8)
        requires
            self.wf(),
        ensures
            r == ipc_of(self.spec_bits()),
            1 <= r <= 8,
    {
        (8 / self.m_bits) as u8
    }

    pub fn bits(&self) -> (r: usize)
        requires
            self.wf(),
        ensures
            r == self.spec_bits(),
            1 <= r <= 8,
    {
        self.m_bits
    }

    /// The order is in order.
    pub proof fn lemma_order_ok(&self)
        requires
            self.wf(),
        ensures
            order_ok(self.order(), self.positions(), self.spec_bits()),
    {
    }

    /// No position in the table lies beyond the order.
    pub proof fn lemma_positions_le(&self, r: int)
        requires
            self.wf(),
            0 <= r <= ipc_of(self.spec_bits()) + 1,
        ensures
            self.positions()[r] <= self.order().len(),
        decreases ipc_of(self.spec_bits()) + 1 - r,
    {
        if r < ipc_of(self.spec_bits()) + 1 {
            self.lemma_positions_le(r + 1);
            assert(self.positions()[r] <= self.positions()[r + 1]);
        }
    }

    /// Every label in range at distance `d` from `label` is `label` XOR an
    /// entry of the order before the end of distance `d`.
    pub proof fn lemma_covers(&self, label: u8, other: u8)
        requires
            self.wf(),
            label < label_count(self.spec_bits()),
            other < label_count(self.spec_bits()),
        ensures
            exists|k: int|
                0 <= k < self.positions()[label_distance(self.spec_bits(), label, other) as int + 1]
                    && label ^ #[trigger] self.order()[k] == other,
            label_distance(self.spec_bits(), label, other) <= ipc_of(self.spec_bits()),
    {
        let b = self.spec_bits();
        let ipc = ipc_of(b);
        lemma_label_range(b, label);
        lemma_label_range(b, other);
        lemma_xor_in_range(b, label, other);
        let m = label ^ other;
        lemma_label_range(b, m);
        lemma_distance_is_weight(b, label, other, 8nat / b);
        lemma_label_dist_bound(0, m, b, 8nat / b);
        let d = label_distance(b, label, other) as int;
        assert(placed(self.order(), m, 0, self.order().len() as int));
        let k = choose|k: int| 0 <= k < self.order().len() && #[trigger] self.order()[k] == m;
        lemma_bucket_of(self.positions(), ipc, k);
        let r = choose|r: int|
            0 <= r <= ipc && #[trigger] self.positions()[r] <= k < self.positions()[r + 1];
        assert(room_ok(
            self.order(),
            b,
            r,
            self.positions()[r] as int,
            self.positions()[r + 1] as int,
            label_count(b),
        ));
        assert(label_weight(b, self.order()[k]) == r);
        assert(label ^ self.order()[k] == other);
    }
}

/// Positions that never decrease do not decrease over several steps.
pub proof fn lemma_positions_mono(row: Seq<usize>, ipc: int, i: int, j: int)
    requires
        forall|r: int| 0 <= r <= ipc ==> #[trigger] row[r] <= row[r + 1],
        0 <= i <= j <= ipc + 1,
    ensures
        row[i] <= row[j],
    decreases j - i,
{
    if i < j {
        lemma_positions_mono(row, ipc, i, j - 1);
        assert(row[j - 1] <= row[j]);
    }
}

/// The rooms of two different distances do not overlap.
pub proof fn lemma_buckets_apart(row: Seq<usize>, ipc: int, r: int, w: int)
    requires
        forall|r: int| 0 <= r <= ipc ==> #[trigger] row[r] <= row[r + 1],
        0 <= r <= ipc,
        0 <= w <= ipc,
        r != w,
    ensures
        row[r + 1] <= row[w] || row[w + 1] <= row[r],
{
    if r < w {
        lemma_positions_mono(row, ipc, r + 1, w);
    } else {
        lemma_positions_mono(row, ipc, w + 1, r);
    }
}

/// The room of a distance lies within the order.
pub proof fn lemma_bucket_within(row: Seq<usize>, ipc: int, w: int)
    requires
        forall|r: int| 0 <= r <= ipc ==> #[trigger] row[r] <= row[r + 1],
        0 <= w <= ipc,
    ensures
        row[w + 1] <= row[ipc + 1],
{
    lemma_positions_mono(row, ipc, w + 1, ipc + 1);
}

/// Every index of the order lies in the room of some distance.
pub proof fn lemma_bucket_of(row: Seq<usize>, ipc: int, k: int)
    requires
        0 <= ipc,
        row[0] == 0,
        0 <= k < row[ipc + 1],
    ensures
        exists|r: int| 0 <= r <= ipc && #[trigger] row[r] <= k < row[r + 1],
    decreases ipc,
{
    if k >= row[ipc] {
        assert(row[ipc] <= k < row[ipc + 1]);
    } else {
        lemma_bucket_of(row, ipc - 1, k);
        let r = choose|r: int| 0 <= r <= ipc - 1 && #[trigger] row[r] <= k < row[r + 1];
        assert(0 <= r <= ipc && row[r] <= k < row[r + 1]);
    }
}

/// The rows of the position table never decrease.
pub proof fn lemma_table_monotone()
    ensures
        forall|b: nat, r: int|
            1 <= b <= 8 && 0 <= r <= ipc_of(b) ==> #[trigger] table_row(b)[r] <= table_row(b)[r
                + 1],
{
    assert forall|b: nat, r: int| 1 <= b <= 8 && 0 <= r <= ipc_of(b) implies #[trigger] table_row(
        b,
    )[r] <= table_row(b)[r + 1] by {
        let row = table_row(b);
        if b == 1 {
            assert(row[0] <= row[1] <= row[2] <= row[3] <= row[4] <= row[5] <= row[6] <= row[7]
                <= row[8] <= row[9]);
        } else if b == 2 {
            assert(row[0] <= row[1] <= row[2] <= row[3] <= row[4] <= row[5]);
        } else if b == 3 {
            assert(row[0] <= row[1] <= row[2] <= row[3]);
        } else if b == 4 {
            assert(row[0] <= row[1] <= row[2] <= row[3]);
        } else if b == 5 {
            assert(row[0] <= row[1] <= row[2]);
        } else if b == 6 {
            assert(row[0] <= row[1] <= row[2]);
        } else if b == 7 {
            assert(row[0] <= row[1] <= row[2]);
        } else {
            assert(row[0] <= row[1] <= row[2]);
        }
    }
}

/// The ends of the rows of the position table.
pub proof fn lemma_table_values()
    ensures
        forall|b: nat|
            1 <= b <= 8 ==> (#[trigger] table_row(b))[0] == 0 && table_row(b)[ipc_of(b) + 1]
                == label_count(b),
{
    assert(table_row(1)[0] == 0 && table_row(1)[9] == 256);
    assert(table_row(2)[0] == 0 && table_row(2)[5] == 256);
    assert(table_row(3)[0] == 0 && table_row(3)[3] == 64);
    assert(table_row(4)[0] == 0 && table_row(4)[3] == 256);
    assert(table_row(5)[0] == 0 && table_row(5)[2] == 32);
    assert(table_row(6)[0] == 0 && table_row(6)[2] == 64);
    assert(table_row(7)[0] == 0 && table_row(7)[2] == 128);
    assert(table_row(8)[0] == 0 && table_row(8)[2] == 256);
}

} // verus!
