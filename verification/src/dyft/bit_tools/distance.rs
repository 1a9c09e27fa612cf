//! What the Hamming distance of vertical sketches counts.

use crate::dyft::bit_tools::bits::{
    bit64, bit8, count_bits, lemma_bit_or_xor, lemma_bits_determine_byte,
    lemma_bits_determine_word, lemma_byte_fits, lemma_byte_from_bit, lemma_count_bits_bound,
    lemma_fits_high_bits, lemma_zero_word, popcount,
};
use crate::dyft::bit_tools::vcode_tools::{diff_word, hamdist_spec, vbyte};
use vstd::prelude::*;

verus! {

/// Number of positions below `n` at which the bytes of two sketches
/// differ.
pub open spec fn differing_positions(x: Seq<u64>, y: Seq<u64>, bits: nat, n: nat) -> nat
    decreases n,
{
    if n == 0 {
        0
    } else {
        differing_positions(x, y, bits, (n - 1) as nat) + if vbyte(x, (n - 1) as nat, bits)
            != vbyte(y, (n - 1) as nat, bits) {
            1nat
        } else {
            0nat
        }
    }
}

/// Sum over the positions below `n` of the number of bit-planes in which
/// the bytes of two sketches differ.
pub open spec fn differing_bits(x: Seq<u64>, y: Seq<u64>, bits: nat, n: nat) -> nat
    decreases n,
{
    if n == 0 {
        0
    } else {
        differing_bits(x, y, bits, (n - 1) as nat) + popcount(
            (vbyte(x, (n - 1) as nat, bits) ^ vbyte(y, (n - 1) as nat, bits)) as u64,
        )
    }
}

/// A position is set in the difference word exactly when two of the words
/// differ there.
pub proof fn lemma_diff_word_bit(x: Seq<u64>, y: Seq<u64>, n: nat, i: nat)
    ensures
        bit64(diff_word(x, y, n), i) == exists|j: nat|
            j < n && #[trigger] bit64(x[j as int], i) != bit64(y[j as int], i),
    decreases n,
{
    if n == 0 {
        lemma_zero_word(i);
    } else {
        let k = (n - 1) as nat;
        lemma_diff_word_bit(x, y, k, i);
        lemma_bit_or_xor(diff_word(x, y, k), x[k as int] ^ y[k as int], i);
        lemma_bit_or_xor(x[k as int], y[k as int], i);
        if bit64(diff_word(x, y, n), i) {
            if bit64(x[k as int], i) != bit64(y[k as int], i) {
                assert(k < n && bit64(x[k as int], i) != bit64(y[k as int], i));
            } else {
                let j = choose|j: nat|
                    j < k && #[trigger] bit64(x[j as int], i) != bit64(y[j as int], i);
                assert(j < n && bit64(x[j as int], i) != bit64(y[j as int], i));
            }
        }
    }
}

/// A position is set in the difference word exactly when the bytes of the
/// two sketches differ there.
pub proof fn lemma_diff_word_byte(x: Seq<u64>, y: Seq<u64>, bits: nat, i: nat)
    requires
        bits <= 8,
        i < 64,
    ensures
        bit64(diff_word(x, y, bits), i) == (vbyte(x, i, bits) != vbyte(y, i, bits)),
{
    lemma_diff_word_bit(x, y, bits, i);
    let fx = |j: nat| bit64(x[j as int], i);
    let fy = |j: nat| bit64(y[j as int], i);
    let bx = vbyte(x, i, bits);
    let by = vbyte(y, i, bits);
    if bit64(diff_word(x, y, bits), i) {
        let j = choose|j: nat|
            j < bits && #[trigger] bit64(x[j as int], i) != bit64(y[j as int], i);
        lemma_byte_from_bit(fx, bits, j);
        lemma_byte_from_bit(fy, bits, j);
        assert(bit8(bx, j) != bit8(by, j));
    } else {
        assert forall|j: nat| j < 8 implies #[trigger] bit8(bx, j) == bit8(by, j) by {
            lemma_byte_from_bit(fx, bits, j);
            lemma_byte_from_bit(fy, bits, j);
            if j < bits {
                assert(bit64(x[j as int], i) == bit64(y[j as int], i));
            }
        }
        lemma_bits_determine_byte(bx, by);
    }
}

proof fn lemma_count_is_differing(x: Seq<u64>, y: Seq<u64>, bits: nat, n: nat)
    requires
        bits <= 8,
        n <= 64,
    ensures
        count_bits(diff_word(x, y, bits), n) == differing_positions(x, y, bits, n),
    decreases n,
{
    if n > 0 {
        lemma_count_is_differing(x, y, bits, (n - 1) as nat);
        lemma_diff_word_byte(x, y, bits, (n - 1) as nat);
    }
}

/// The Hamming distance of two sketches is the number of positions at
/// which their bytes differ.
pub proof fn lemma_hamdist_counts_positions(x: Seq<u64>, y: Seq<u64>, bits: nat)
    requires
        bits <= 8,
    ensures
        hamdist_spec(x, y, bits) == differing_positions(x, y, bits, 64),
        hamdist_spec(x, y, bits) <= 64,
{
    lemma_count_is_differing(x, y, bits, 64);
    lemma_count_bits_bound(diff_word(x, y, bits), 64);
}

/// A byte is zero exactly when it has no set bit.
pub proof fn lemma_popcount_zero(v: u64)
    ensures
        (popcount(v) == 0) == (v == 0),
{
    if v == 0 {
        lemma_count_zero(64);
    } else {
        if popcount(v) == 0 {
            assert forall|i: nat| i < 64 implies #[trigger] bit64(v, i) == bit64(0, i) by {
                lemma_zero_word(i);
                if bit64(v, i) {
                    lemma_count_positive(v, 64, i);
                }
            }
            lemma_bits_determine_word(v, 0);
        }
    }
}

pub proof fn lemma_count_zero(n: nat)
    ensures
        count_bits(0, n) == 0,
    decreases n,
{
    if n > 0 {
        lemma_count_zero((n - 1) as nat);
        lemma_zero_word((n - 1) as nat);
    }
}

proof fn lemma_count_positive(v: u64, n: nat, i: nat)
    requires
        i < n,
        bit64(v, i),
    ensures
        count_bits(v, n) > 0,
    decreases n,
{
    if i < n - 1 {
        lemma_count_positive(v, (n - 1) as nat, i);
    }
}

/// Two bytes are equal exactly when their XOR has no set bit.
pub proof fn lemma_xor_zero(a: u8, b: u8)
    ensures
        (popcount((a ^ b) as u64) == 0) == (a == b),
{
    let d = (a ^ b) as u64;
    lemma_popcount_zero(d);
    assert(((a ^ b) == 0) == (a == b)) by (bit_vector);
}

proof fn lemma_differing_bits(x: Seq<u64>, y: Seq<u64>, bits: nat, n: nat)
    requires
        forall|i: nat|
            i < n ==> popcount((#[trigger] vbyte(x, i, bits) ^ vbyte(y, i, bits)) as u64) <= 1,
    ensures
        differing_bits(x, y, bits, n) == differing_positions(x, y, bits, n),
    decreases n,
{
    if n > 0 {
        let k = (n - 1) as nat;
        lemma_differing_bits(x, y, bits, k);
        lemma_xor_zero(vbyte(x, k, bits), vbyte(y, k, bits));
        assert(popcount((vbyte(x, k, bits) ^ vbyte(y, k, bits)) as u64) <= 1);
    }
}

/// Where no position differs in more than one bit-plane, the Hamming
/// distance of two sketches is the sum, over the positions, of the number
/// of set bits in the XOR of their bytes.
pub proof fn lemma_hamdist_is_byte_xor_sum(x: Seq<u64>, y: Seq<u64>, bits: nat)
    requires
        bits <= 8,
        forall|i: nat|
            i < 64 ==> popcount((#[trigger] vbyte(x, i, bits) ^ vbyte(y, i, bits)) as u64) <= 1,
    ensures
        hamdist_spec(x, y, bits) == differing_bits(x, y, bits, 64),
{
    lemma_hamdist_counts_positions(x, y, bits);
    lemma_differing_bits(x, y, bits, 64);
}

} // verus!
