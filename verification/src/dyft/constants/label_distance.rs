//! Hamming distance of two labels: the number of positions, of `bits` bits
//! each, at which they differ.

use crate::dyft::bit_tools::bits::{
    bit64, bit8, lemma_bit_or_xor, lemma_bit_shr, lemma_bits_determine_word,
    lemma_word_from_bit, lemma_zero_word, low_mask,
};
use crate::dyft::bit_tools::vcode_tools::BitTools;
use vstd::prelude::*;

verus! {

/// Whether two labels differ at position `j`: in one of the bits
/// `j * bits .. (j + 1) * bits`.
pub open spec fn chunk_differs(a: u8, b: u8, bits: nat, j: nat) -> bool {
    exists|t: nat| j * bits <= t < (j + 1) * bits && #[trigger] bit8(a, t) != bit8(b, t)
}

/// Number of positions below `n` at which two labels differ.
pub open spec fn label_dist_upto(a: u8, b: u8, bits: nat, n: nat) -> nat
    decreases n,
{
    if n == 0 {
        0
    } else {
        label_dist_upto(a, b, bits, (n - 1) as nat) + if chunk_differs(a, b, bits, (n - 1) as nat) {
            1nat
        } else {
            0nat
        }
    }
}

/// Hamming distance of two labels of `8 / bits` positions.
pub open spec fn label_distance(bits: nat, a: u8, b: u8) -> nat {
    label_dist_upto(a, b, bits, 8nat / bits)
}

/// Number of positions at which a label differs from the zero label.
pub open spec fn label_weight(bits: nat, m: u8) -> nat {
    label_distance(bits, 0, m)
}

/// Whether a label has no bit beyond its `8 / bits` positions.
pub open spec fn label_in_range(bits: nat, l: u8) -> bool {
    forall|t: nat| (8nat / bits) * bits <= t ==> !#[trigger] bit8(l, t)
}

pub proof fn lemma_label_dist_bound(a: u8, b: u8, bits: nat, n: nat)
    ensures
        label_dist_upto(a, b, bits, n) <= n,
    decreases n,
{
    if n > 0 {
        lemma_label_dist_bound(a, b, bits, (n - 1) as nat);
    }
}

/// A word that is not zero has a set bit.
pub proof fn lemma_nonzero_has_bit(v: u64)
    requires
        v != 0,
    ensures
        exists|i: nat| i < 64 && #[trigger] bit64(v, i),
{
    if forall|i: nat| i < 64 ==> !#[trigger] bit64(v, i) {
        assert forall|i: nat| i < 64 implies #[trigger] bit64(v, i) == bit64(0, i) by {
            lemma_zero_word(i);
        }
        lemma_bits_determine_word(v, 0);
    }
}

/// Bits of the XOR of two bytes.
pub proof fn lemma_byte_xor(a: u8, b: u8, t: nat)
    ensures
        bit8(a ^ b, t) == (bit8(a, t) != bit8(b, t)),
{
    let x = (a ^ b) as u64;
    let aw = a as u64;
    let bw = b as u64;
    assert(x == aw ^ bw) by (bit_vector)
        requires
            x == (a ^ b) as u64,
            aw == a as u64,
            bw == b as u64,
    ;
    lemma_bit_or_xor(aw, bw, t);
}

/// The distance of two labels is the weight of their XOR.
pub proof fn lemma_distance_is_weight(bits: nat, a: u8, b: u8, n: nat)
    ensures
        label_dist_upto(a, b, bits, n) == label_dist_upto(0, a ^ b, bits, n),
    decreases n,
{
    if n > 0 {
        let j = (n - 1) as nat;
        lemma_distance_is_weight(bits, a, b, j);
        if chunk_differs(a, b, bits, j) {
            let t = choose|t: nat| j * bits <= t < (j + 1) * bits && #[trigger] bit8(a, t) != bit8(b, t);
            lemma_byte_xor(a, b, t);
            lemma_zero_word(t);
            assert(bit8(0, t) != bit8(a ^ b, t));
        }
        if chunk_differs(0, a ^ b, bits, j) {
            let t = choose|t: nat|
                j * bits <= t < (j + 1) * bits && #[trigger] bit8(0, t) != bit8(a ^ b, t);
            lemma_byte_xor(a, b, t);
            lemma_zero_word(t);
            assert(bit8(a, t) != bit8(b, t));
        }
    }
}

/// The XOR of two labels in range is in range, and XOR undoes itself.
pub proof fn lemma_xor_in_range(bits: nat, a: u8, b: u8)
    requires
        label_in_range(bits, a),
        label_in_range(bits, b),
    ensures
        label_in_range(bits, a ^ b),
        a ^ (a ^ b) == b,
{
    assert forall|t: nat| (8nat / bits) * bits <= t implies !#[trigger] bit8(a ^ b, t) by {
        lemma_byte_xor(a, b, t);
    }
    assert(a ^ (a ^ b) == b) by (bit_vector);
}

/// Whether two labels differ at position `j`, read off the XOR of the two
/// as a word.
pub proof fn lemma_chunk_test(a: u8, b: u8, bits: nat, j: nat)
    requires
        1 <= bits <= 8,
        j * bits < 64,
    ensures
        ((((a ^ b) as u64) >> ((j * bits) as u64)) & low_mask(bits) != 0) == chunk_differs(
            a,
            b,
            bits,
            j,
        ),
{
    let x = (a ^ b) as u64;
    let s = j * bits;
    let v = (x >> (s as u64)) & low_mask(bits);
    assert((j + 1) * bits == s + bits) by (nonlinear_arith)
        requires
            s == j * bits,
    ;
    if v != 0 {
        lemma_nonzero_has_bit(v);
        let i = choose|i: nat| i < 64 && #[trigger] bit64(v, i);
        lemma_bit_or_xor(x >> (s as u64), low_mask(bits), i);
        lemma_word_from_bit(|k: nat| true, bits, i);
        lemma_bit_shr(x, s, i);
        lemma_byte_xor(a, b, s + i);
        assert(bit8(a, s + i) != bit8(b, s + i));
    }
    if chunk_differs(a, b, bits, j) {
        let t = choose|t: nat| j * bits <= t < (j + 1) * bits && #[trigger] bit8(a, t) != bit8(b, t);
        let i = (t - s) as nat;
        lemma_byte_xor(a, b, t);
        lemma_bit_shr(x, s, i);
        lemma_bit_or_xor(x >> (s as u64), low_mask(bits), i);
        lemma_word_from_bit(|k: nat| true, bits, i);
        assert(bit64(v, i));
        lemma_zero_word(i);
    }
}

/// Hamming distance of two labels of `8 / bits` positions of `bits` bits.
pub fn label_distance_of(bits: usize, a: u8, b: u8) -> (r: u8)
    requires
        1 <= bits <= 8,
    ensures
        r == label_distance(bits as nat, a, b),
        r <= 8int / (bits as int),
{
    let ipc = 8 / bits;
    let mask = BitTools::bitmask(bits as u32);
    let x = (a ^ b) as u64;
    let mut d: u8 = 0;
    let mut j: usize = 0;
    assert(ipc * bits <= 8) by (nonlinear_arith)
        requires
            ipc == 8int / (bits as int),
            1 <= bits,
    ;
    while j < ipc
        invariant
            j <= ipc <= 8,
            1 <= bits <= 8,
            ipc * bits <= 8,
            ipc == 8int / (bits as int),
            mask == low_mask(bits as nat),
            x == (a ^ b) as u64,
            d == label_dist_upto(a, b, bits as nat, j as nat),
            d <= j,
        decreases ipc - j,
    {
        assert(j * bits < 8) by (nonlinear_arith)
            requires
                j < ipc,
                ipc * bits <= 8,
                bits >= 1,
        ;
        proof {
            lemma_chunk_test(a, b, bits as nat, j as nat);
        }
        if (x >> (j * bits)) & mask != 0 {
            d = d + 1;
        }
        j = j + 1;
    }
    d
}

} // verus!
