//! The position table agrees with the labels: for every number of bits
//! there are as many labels at each distance from the zero label as the
//! table leaves room for.

use crate::dyft::bit_tools::bits::{
    bit64, bit8, fits, lemma_bit_or_xor, lemma_bit_shl, lemma_fits_high_bits, lemma_zero_word,
};
use crate::dyft::constants::label_distance::{
    chunk_differs, label_dist_upto, label_weight, lemma_nonzero_has_bit,
};
use crate::dyft::constants::tables::{ipc_of, label_count, table_fits, table_row, weight_count};
use vstd::prelude::*;

verus! {

/// Two to the power of `s`.
pub open spec fn two_pow(s: nat) -> nat
    decreases s,
{
    if s == 0 {
        1
    } else {
        2 * two_pow((s - 1) as nat)
    }
}

/// Number of labels below `n` whose first `j` positions differ from the
/// zero label in `r` positions.
pub open spec fn count_upto(bits: nat, j: nat, r: int, n: nat) -> nat
    decreases n,
{
    if n == 0 {
        0
    } else {
        count_upto(bits, j, r, (n - 1) as nat) + if label_dist_upto(0, (n - 1) as u8, bits, j)
            == r {
            1nat
        } else {
            0nat
        }
    }
}

/// Number of labels of `j` positions that differ from the zero label in
/// `r` positions.
pub open spec fn full(bits: nat, j: nat, r: int) -> nat {
    count_upto(bits, j, r, two_pow(j * bits))
}

proof fn lemma_two_pow_values()
    ensures
        two_pow(0) == 1,
        two_pow(1) == 2,
        two_pow(2) == 4,
        two_pow(3) == 8,
        two_pow(4) == 16,
        two_pow(5) == 32,
        two_pow(6) == 64,
        two_pow(7) == 128,
        two_pow(8) == 256,
{
    reveal_with_fuel(two_pow, 10);
}

proof fn lemma_two_pow_add(a: nat, b: nat)
    ensures
        two_pow(a + b) == two_pow(a) * two_pow(b),
    decreases a,
{
    if a == 0 {
        assert(two_pow(0) == 1);
        assert(1 * two_pow(b) == two_pow(b));
    } else {
        let x = two_pow((a - 1) as nat);
        let y = two_pow(b);
        lemma_two_pow_add((a - 1) as nat, b);
        assert(two_pow((a - 1 + b) as nat) == x * y);
        assert(two_pow(a + b) == 2 * two_pow((a + b - 1) as nat));
        assert((a + b - 1) as nat == (a - 1 + b) as nat);
        assert(two_pow(a) == 2 * x);
        assert(2 * (x * y) == (2 * x) * y) by (nonlinear_arith);
    }
}

/// The word whose bits from `s` on are those of `hi` and whose bits
/// below `s` are those of `d`.
proof fn lemma_join(hi: u64, d: u64, s: nat)
    requires
        s <= 7,
        d < two_pow(s),
        hi * two_pow(s) + d <= 255,
    ensures
        ((hi << (s as u64)) | d) == hi * two_pow(s) + d,
        fits(d, s),
        fits(hi, 8),
{
    lemma_two_pow_values();
    assert(two_pow(s) >= 1);
    assert(hi <= 255) by (nonlinear_arith)
        requires
            hi * two_pow(s) + d <= 255,
            two_pow(s) >= 1,
            d >= 0,
            hi >= 0,
    ;
    assert(hi >> 8u64 == 0) by (bit_vector)
        requires
            hi <= 255,
    ;
    if s == 0 {
        assert(two_pow(0) == 1);
        assert(((hi << 0u64) | d) == hi * 1u64 + d && d >> 0u64 == 0) by (bit_vector)
            requires
                hi <= 255,
                d < 1u64,
        ;
    }
    if s == 1 {
        assert(two_pow(1) == 2);
        assert(((hi << 1u64) | d) == hi * 2u64 + d && d >> 1u64 == 0) by (bit_vector)
            requires
                hi <= 255,
                d < 2u64,
        ;
    }
    if s == 2 {
        assert(two_pow(2) == 4);
        assert(((hi << 2u64) | d) == hi * 4u64 + d && d >> 2u64 == 0) by (bit_vector)
            requires
                hi <= 255,
                d < 4u64,
        ;
    }
    if s == 3 {
        assert(two_pow(3) == 8);
        assert(((hi << 3u64) | d) == hi * 8u64 + d && d >> 3u64 == 0) by (bit_vector)
            requires
                hi <= 255,
                d < 8u64,
        ;
    }
    if s == 4 {
        assert(two_pow(4) == 16);
        assert(((hi << 4u64) | d) == hi * 16u64 + d && d >> 4u64 == 0) by (bit_vector)
            requires
                hi <= 255,
                d < 16u64,
        ;
    }
    if s == 5 {
        assert(two_pow(5) == 32);
        assert(((hi << 5u64) | d) == hi * 32u64 + d && d >> 5u64 == 0) by (bit_vector)
            requires
                hi <= 255,
                d < 32u64,
        ;
    }
    if s == 6 {
        assert(two_pow(6) == 64);
        assert(((hi << 6u64) | d) == hi * 64u64 + d && d >> 6u64 == 0) by (bit_vector)
            requires
                hi <= 255,
                d < 64u64,
        ;
    }
    if s == 7 {
        assert(two_pow(7) == 128);
        assert(((hi << 7u64) | d) == hi * 128u64 + d && d >> 7u64 == 0) by (bit_vector)
            requires
                hi <= 255,
                d < 128u64,
        ;
    }
}

/// The bits of such a word.
proof fn lemma_joined_bits(hi: u64, d: u64, s: nat, t: nat)
    requires
        s <= 7,
        d < two_pow(s),
        hi * two_pow(s) + d <= 255,
    ensures
        bit8((hi * two_pow(s) + d) as u8, t) == if t < s {
            bit64(d, t)
        } else {
            bit64(hi, (t - s) as nat)
        },
{
    lemma_join(hi, d, s);
    let m = (hi << (s as u64)) | d;
    assert(((hi * two_pow(s) + d) as u8) as u64 == m);
    lemma_bit_or_xor(hi << (s as u64), d, t);
    lemma_bit_shl(hi, s, t);
    if t >= s {
        lemma_fits_high_bits(d, s, t);
        if t >= 64 {
            lemma_fits_high_bits(hi, 8, (t - s) as nat);
        }
    }
}

/// Whether a label differs from the zero label at position `i` is a
/// matter of the bits of that position.
proof fn lemma_chunk_of_zero(m: u8, bits: nat, i: nat)
    ensures
        chunk_differs(0, m, bits, i) == exists|t: nat|
            i * bits <= t < (i + 1) * bits && #[trigger] bit8(m, t),
{
    if chunk_differs(0, m, bits, i) {
        let t = choose|t: nat| i * bits <= t < (i + 1) * bits && #[trigger] bit8(0, t) != bit8(m, t);
        lemma_zero_word(t);
        assert(bit8(m, t));
    }
    if exists|t: nat| i * bits <= t < (i + 1) * bits && #[trigger] bit8(m, t) {
        let t = choose|t: nat| i * bits <= t < (i + 1) * bits && #[trigger] bit8(m, t);
        lemma_zero_word(t);
        assert(bit8(0, t) != bit8(m, t));
    }
}

/// The positions below bit `s` of a joined word are those of its low
/// part.
proof fn lemma_low_positions(hi: u64, d: u64, s: nat, bits: nat, j: nat)
    requires
        s <= 7,
        d < two_pow(s),
        hi * two_pow(s) + d <= 255,
        1 <= bits,
        j * bits <= s,
    ensures
        label_dist_upto(0, (hi * two_pow(s) + d) as u8, bits, j) == label_dist_upto(0, d as u8, bits, j),
    decreases j,
{
    if j > 0 {
        let i = (j - 1) as nat;
        assert(i * bits <= s && (i + 1) * bits == j * bits) by (nonlinear_arith)
            requires
                i + 1 == j,
                j * bits <= s,
                bits >= 1,
                i >= 0,
        ;
        lemma_low_positions(hi, d, s, bits, i);
        let m = (hi * two_pow(s) + d) as u8;
        let low = d as u8;
        lemma_two_pow_values();
        assert(d <= 255);
        lemma_chunk_of_zero(m, bits, i);
        lemma_chunk_of_zero(low, bits, i);
        if chunk_differs(0, m, bits, i) {
            let t = choose|t: nat| i * bits <= t < (i + 1) * bits && #[trigger] bit8(m, t);
            lemma_joined_bits(hi, d, s, t);
            assert(bit8(low, t));
        }
        if chunk_differs(0, low, bits, i) {
            let t = choose|t: nat| i * bits <= t < (i + 1) * bits && #[trigger] bit8(low, t);
            lemma_joined_bits(hi, d, s, t);
            assert(bit8(m, t));
        }
    }
}

/// The position from bit `s` on of a joined word differs from zero
/// exactly if the high part does.
proof fn lemma_high_position(hi: u64, d: u64, s: nat, bits: nat, j: nat)
    requires
        s <= 7,
        d < two_pow(s),
        hi * two_pow(s) + d <= 255,
        1 <= bits <= 8,
        j * bits == s,
        hi < two_pow(bits),
    ensures
        chunk_differs(0, (hi * two_pow(s) + d) as u8, bits, j) == (hi != 0),
{
    let m = (hi * two_pow(s) + d) as u8;
    assert((j + 1) * bits == s + bits) by (nonlinear_arith)
        requires
            j * bits == s,
    ;
    lemma_chunk_of_zero(m, bits, j);
    if chunk_differs(0, m, bits, j) {
        let t = choose|t: nat| j * bits <= t < (j + 1) * bits && #[trigger] bit8(m, t);
        lemma_joined_bits(hi, d, s, t);
        if hi == 0 {
            lemma_zero_word((t - s) as nat);
        }
    }
    if hi != 0 {
        lemma_nonzero_has_bit(hi);
        let i = choose|i: nat| i < 64 && #[trigger] bit64(hi, i);
        lemma_two_pow_values();
        let bu = bits as u64;
        assert(1u64 << 1 == 2 && 1u64 << 2 == 4 && 1u64 << 3 == 8 && 1u64 << 4 == 16 && 1u64 << 5
            == 32 && 1u64 << 6 == 64 && 1u64 << 7 == 128 && 1u64 << 8 == 256) by (bit_vector);
        assert(hi < (1u64 << bu)) by {
            if bits == 1 {
            } else if bits == 2 {
            } else if bits == 3 {
            } else if bits == 4 {
            } else if bits == 5 {
            } else if bits == 6 {
            } else if bits == 7 {
            } else {
            }
        }
        assert(hi >> bu == 0) by (bit_vector)
            requires
                bu <= 8,
                hi < (1u64 << bu),
        ;
        if i >= bits {
            lemma_fits_high_bits(hi, bits, i);
        }
        let t = s + i;
        lemma_joined_bits(hi, d, s, t);
        assert(j * bits <= t < (j + 1) * bits && bit8(m, t));
    }
}

/// Within the block of the labels with the high part `hi`, the labels
/// are counted as their low parts are, with the position of the high
/// part added.
proof fn lemma_block(bits: nat, j: nat, r: int, hi: nat, d: nat)
    requires
        1 <= bits <= 8,
        (j + 1) * bits <= 8,
        hi < two_pow(bits),
        d <= two_pow(j * bits),
    ensures
        hi * two_pow(j * bits) + d <= 256,
        count_upto(bits, j + 1, r, hi * two_pow(j * bits) + d) == count_upto(
            bits,
            j + 1,
            r,
            hi * two_pow(j * bits),
        ) + count_upto(
            bits,
            j,
            r - if hi != 0 {
                1int
            } else {
                0int
            },
            d,
        ),
    decreases d,
{
    let s = j * bits;
    let pw = two_pow(s);
    assert(s + bits == (j + 1) * bits) by (nonlinear_arith)
        requires
            s == j * bits,
    ;
    lemma_two_pow_add(bits, s);
    lemma_two_pow_values();
    assert(two_pow(bits) * pw <= 256);
    assert(hi * pw + pw <= two_pow(bits) * pw) by (nonlinear_arith)
        requires
            hi < two_pow(bits),
            pw >= 0,
    ;
    if d > 0 {
        let low = (d - 1) as nat;
        lemma_block(bits, j, r, hi, low);
        let m = hi * pw + low;
        assert(s <= 7);
        lemma_low_positions(hi as u64, low as u64, s, bits, j);
        lemma_high_position(hi as u64, low as u64, s, bits, j);
        assert(hi * pw + d - 1 == m);
    }
}

/// The labels below the block of the high part `hi`.
proof fn lemma_blocks(bits: nat, j: nat, r: int, hi: nat)
    requires
        1 <= bits <= 8,
        (j + 1) * bits <= 8,
        hi <= two_pow(bits),
    ensures
        count_upto(bits, j + 1, r, hi * two_pow(j * bits)) == if hi == 0 {
            0
        } else {
            full(bits, j, r) + (hi - 1) * full(bits, j, r - 1)
        },
    decreases hi,
{
    let pw = two_pow(j * bits);
    if hi == 0 {
        assert(0 * pw == 0);
    } else {
        let before = (hi - 1) as nat;
        lemma_blocks(bits, j, r, before);
        lemma_block(bits, j, r, before, pw);
        assert(before * pw + pw == hi * pw) by (nonlinear_arith)
            requires
                before + 1 == hi,
        ;
        if before == 0 {
            assert(0 * pw == 0);
            assert((hi - 1) * full(bits, j, r - 1) == 0);
        } else {
            assert((hi - 1) * full(bits, j, r - 1) == (before - 1) * full(bits, j, r - 1) + full(
                bits,
                j,
                r - 1,
            )) by (nonlinear_arith)
                requires
                    hi - 1 == before,
            ;
        }
    }
}

/// The labels of one position more: those with a zero in that position,
/// and for each other value of it those with one position less that
/// differs.
proof fn lemma_level(bits: nat, j: nat, r: int)
    requires
        1 <= bits <= 8,
        (j + 1) * bits <= 8,
    ensures
        full(bits, j + 1, r) == full(bits, j, r) + (two_pow(bits) - 1) * full(bits, j, r - 1),
{
    lemma_blocks(bits, j, r, two_pow(bits));
    assert(j * bits + bits == (j + 1) * bits) by (nonlinear_arith);
    lemma_two_pow_add(bits, j * bits);
    lemma_two_pow_values();
}

/// Without a position only the count of no difference is not zero.
proof fn lemma_full_start(bits: nat, r: int)
    ensures
        full(bits, 0, r) == if r == 0 {
            1nat
        } else {
            0nat
        },
{
    assert(0 * bits == 0);
    assert(two_pow(0) == 1);
    assert(count_upto(bits, 0, r, 0) == 0);
    assert(label_dist_upto(0, 0u8, bits, 0) == 0);
    assert(count_upto(bits, 0, r, 1) == count_upto(bits, 0, r, 0) + if label_dist_upto(
        0,
        0u8,
        bits,
        0,
    ) == r {
        1nat
    } else {
        0nat
    });
}

/// No label differs from the zero label in less than no position or in
/// more positions than it has.
proof fn lemma_count_zero(bits: nat, j: nat, r: int, n: nat)
    requires
        r < 0 || r > j,
    ensures
        count_upto(bits, j, r, n) == 0,
    decreases n,
{
    if n > 0 {
        lemma_count_zero(bits, j, r, (n - 1) as nat);
        crate::dyft::constants::label_distance::lemma_label_dist_bound(
            0,
            (n - 1) as u8,
            bits,
            j,
        );
    }
}

/// Counting by all positions of a label is counting by its distance
/// from the zero label.
proof fn lemma_count_is_weight_count(bits: nat, r: nat, n: nat)
    requires
        1 <= bits <= 8,
    ensures
        weight_count(bits, r, n) == count_upto(bits, (8nat / bits), r as int, n),
    decreases n,
{
    if n > 0 {
        lemma_count_is_weight_count(bits, r, (n - 1) as nat);
    }
}

/// The position table agrees with the labels of every number of bits
/// from 1 to 8, so the tables of every setting can be made.
pub proof fn lemma_table_fits(bits: nat)
    requires
        1 <= bits <= 8,
    ensures
        table_fits(bits),
{
    lemma_two_pow_values();
    if bits >= 5 {
        crate::dyft::constants::fitting::lemma_table_fits_one_position(bits);
    }
    if bits == 1 {
        assert(8int / 1 == 8);
        lemma_full_start(1, 0);
        assert(full(1, 0, 0) == 1);
        lemma_count_zero(1, 0, -1, two_pow(0 * 1));
        lemma_count_zero(1, 0, 1, two_pow(0 * 1));
        lemma_level(1, 0, 0);
        lemma_level(1, 0, 1);
        assert(full(1, 1, 0) == 1 && full(1, 1, 1) == 1);
        lemma_count_zero(1, 1, -1, two_pow(1 * 1));
        lemma_count_zero(1, 1, 2, two_pow(1 * 1));
        lemma_level(1, 1, 0);
        lemma_level(1, 1, 1);
        lemma_level(1, 1, 2);
        assert(full(1, 2, 0) == 1 && full(1, 2, 1) == 2 && full(1, 2, 2) == 1);
        lemma_count_zero(1, 2, -1, two_pow(2 * 1));
        lemma_count_zero(1, 2, 3, two_pow(2 * 1));
        lemma_level(1, 2, 0);
        lemma_level(1, 2, 1);
        lemma_level(1, 2, 2);
        lemma_level(1, 2, 3);
        assert(full(1, 3, 0) == 1 && full(1, 3, 1) == 3 && full(1, 3, 2) == 3 && full(1, 3, 3) == 1);
        lemma_count_zero(1, 3, -1, two_pow(3 * 1));
        lemma_count_zero(1, 3, 4, two_pow(3 * 1));
        lemma_level(1, 3, 0);
        lemma_level(1, 3, 1);
        lemma_level(1, 3, 2);
        lemma_level(1, 3, 3);
        lemma_level(1, 3, 4);
        assert(full(1, 4, 0) == 1 && full(1, 4, 1) == 4 && full(1, 4, 2) == 6 && full(1, 4, 3) == 4 && full(1, 4, 4) == 1);
        lemma_count_zero(1, 4, -1, two_pow(4 * 1));
        lemma_count_zero(1, 4, 5, two_pow(4 * 1));
        lemma_level(1, 4, 0);
        lemma_level(1, 4, 1);
        lemma_level(1, 4, 2);
        lemma_level(1, 4, 3);
        lemma_level(1, 4, 4);
        lemma_level(1, 4, 5);
        assert(full(1, 5, 0) == 1 && full(1, 5, 1) == 5 && full(1, 5, 2) == 10 && full(1, 5, 3) == 10 && full(1, 5, 4) == 5 && full(1, 5, 5) == 1);
        lemma_count_zero(1, 5, -1, two_pow(5 * 1));
        lemma_count_zero(1, 5, 6, two_pow(5 * 1));
        lemma_level(1, 5, 0);
        lemma_level(1, 5, 1);
        lemma_level(1, 5, 2);
        lemma_level(1, 5, 3);
        lemma_level(1, 5, 4);
        lemma_level(1, 5, 5);
        lemma_level(1, 5, 6);
        assert(full(1, 6, 0) == 1 && full(1, 6, 1) == 6 && full(1, 6, 2) == 15 && full(1, 6, 3) == 20 && full(1, 6, 4) == 15 && full(1, 6, 5) == 6 && full(1, 6, 6) == 1);
        lemma_count_zero(1, 6, -1, two_pow(6 * 1));
        lemma_count_zero(1, 6, 7, two_pow(6 * 1));
        lemma_level(1, 6, 0);
        lemma_level(1, 6, 1);
        lemma_level(1, 6, 2);
        lemma_level(1, 6, 3);
        lemma_level(1, 6, 4);
        lemma_level(1, 6, 5);
        lemma_level(1, 6, 6);
        lemma_level(1, 6, 7);
        assert(full(1, 7, 0) == 1 && full(1, 7, 1) == 7 && full(1, 7, 2) == 21 && full(1, 7, 3) == 35 && full(1, 7, 4) == 35 && full(1, 7, 5) == 21 && full(1, 7, 6) == 7 && full(1, 7, 7) == 1);
        lemma_count_zero(1, 7, -1, two_pow(7 * 1));
        lemma_count_zero(1, 7, 8, two_pow(7 * 1));
        lemma_level(1, 7, 0);
        lemma_level(1, 7, 1);
        lemma_level(1, 7, 2);
        lemma_level(1, 7, 3);
        lemma_level(1, 7, 4);
        lemma_level(1, 7, 5);
        lemma_level(1, 7, 6);
        lemma_level(1, 7, 7);
        lemma_level(1, 7, 8);
        assert(full(1, 8, 0) == 1 && full(1, 8, 1) == 8 && full(1, 8, 2) == 28 && full(1, 8, 3) == 56 && full(1, 8, 4) == 70 && full(1, 8, 5) == 56 && full(1, 8, 6) == 28 && full(1, 8, 7) == 8 && full(1, 8, 8) == 1);
        assert(two_pow(8) == 256);
        assert(label_count(1) == 256);
        assert forall|r: nat| r <= 8 implies #[trigger] weight_count(1, r, label_count(1))
            == table_row(1)[r + 1 as int] - table_row(1)[r as int] by {
            lemma_count_is_weight_count(1, r, label_count(1));
            assert(count_upto(1, 8, r as int, 256) == full(1, 8, r as int));
            assert(table_row(1)[0] == 0);
            assert(table_row(1)[1] == 1);
            assert(table_row(1)[2] == 9);
            assert(table_row(1)[3] == 37);
            assert(table_row(1)[4] == 93);
            assert(table_row(1)[5] == 163);
            assert(table_row(1)[6] == 219);
            assert(table_row(1)[7] == 247);
            assert(table_row(1)[8] == 255);
            assert(table_row(1)[9] == 256);
        }
    }
    if bits == 2 {
        assert(8int / 2 == 4);
        lemma_full_start(2, 0);
        assert(full(2, 0, 0) == 1);
        lemma_count_zero(2, 0, -1, two_pow(0 * 2));
        lemma_count_zero(2, 0, 1, two_pow(0 * 2));
        lemma_level(2, 0, 0);
        lemma_level(2, 0, 1);
        assert(full(2, 1, 0) == 1 && full(2, 1, 1) == 3);
        lemma_count_zero(2, 1, -1, two_pow(1 * 2));
        lemma_count_zero(2, 1, 2, two_pow(1 * 2));
        lemma_level(2, 1, 0);
        lemma_level(2, 1, 1);
        lemma_level(2, 1, 2);
        assert(full(2, 2, 0) == 1 && full(2, 2, 1) == 6 && full(2, 2, 2) == 9);
        lemma_count_zero(2, 2, -1, two_pow(2 * 2));
        lemma_count_zero(2, 2, 3, two_pow(2 * 2));
        lemma_level(2, 2, 0);
        lemma_level(2, 2, 1);
        lemma_level(2, 2, 2);
        lemma_level(2, 2, 3);
        assert(full(2, 3, 0) == 1 && full(2, 3, 1) == 9 && full(2, 3, 2) == 27 && full(2, 3, 3) == 27);
        lemma_count_zero(2, 3, -1, two_pow(3 * 2));
        lemma_count_zero(2, 3, 4, two_pow(3 * 2));
        lemma_level(2, 3, 0);
        lemma_level(2, 3, 1);
        lemma_level(2, 3, 2);
        lemma_level(2, 3, 3);
        lemma_level(2, 3, 4);
        assert(full(2, 4, 0) == 1 && full(2, 4, 1) == 12 && full(2, 4, 2) == 54 && full(2, 4, 3) == 108 && full(2, 4, 4) == 81);
        assert(two_pow(8) == 256);
        assert(label_count(2) == 256);
        assert forall|r: nat| r <= 4 implies #[trigger] weight_count(2, r, label_count(2))
            == table_row(2)[r + 1 as int] - table_row(2)[r as int] by {
            lemma_count_is_weight_count(2, r, label_count(2));
            assert(count_upto(2, 4, r as int, 256) == full(2, 4, r as int));
            assert(table_row(2)[0] == 0);
            assert(table_row(2)[1] == 1);
            assert(table_row(2)[2] == 13);
            assert(table_row(2)[3] == 67);
            assert(table_row(2)[4] == 175);
            assert(table_row(2)[5] == 256);
        }
    }
    if bits == 3 {
        assert(8int / 3 == 2);
        lemma_full_start(3, 0);
        assert(full(3, 0, 0) == 1);
        lemma_count_zero(3, 0, -1, two_pow(0 * 3));
        lemma_count_zero(3, 0, 1, two_pow(0 * 3));
        lemma_level(3, 0, 0);
        lemma_level(3, 0, 1);
        assert(full(3, 1, 0) == 1 && full(3, 1, 1) == 7);
        lemma_count_zero(3, 1, -1, two_pow(1 * 3));
        lemma_count_zero(3, 1, 2, two_pow(1 * 3));
        lemma_level(3, 1, 0);
        lemma_level(3, 1, 1);
        lemma_level(3, 1, 2);
        assert(full(3, 2, 0) == 1 && full(3, 2, 1) == 14 && full(3, 2, 2) == 49);
        assert(two_pow(6) == 64);
        assert(label_count(3) == 64);
        assert forall|r: nat| r <= 2 implies #[trigger] weight_count(3, r, label_count(3))
            == table_row(3)[r + 1 as int] - table_row(3)[r as int] by {
            lemma_count_is_weight_count(3, r, label_count(3));
            assert(count_upto(3, 2, r as int, 64) == full(3, 2, r as int));
            assert(table_row(3)[0] == 0);
            assert(table_row(3)[1] == 1);
            assert(table_row(3)[2] == 15);
            assert(table_row(3)[3] == 64);
        }
    }
    if bits == 4 {
        assert(8int / 4 == 2);
        lemma_full_start(4, 0);
        assert(full(4, 0, 0) == 1);
        lemma_count_zero(4, 0, -1, two_pow(0 * 4));
        lemma_count_zero(4, 0, 1, two_pow(0 * 4));
        lemma_level(4, 0, 0);
        lemma_level(4, 0, 1);
        assert(full(4, 1, 0) == 1 && full(4, 1, 1) == 15);
        lemma_count_zero(4, 1, -1, two_pow(1 * 4));
        lemma_count_zero(4, 1, 2, two_pow(1 * 4));
        lemma_level(4, 1, 0);
        lemma_level(4, 1, 1);
        lemma_level(4, 1, 2);
        assert(full(4, 2, 0) == 1 && full(4, 2, 1) == 30 && full(4, 2, 2) == 225);
        assert(two_pow(8) == 256);
        assert(label_count(4) == 256);
        assert forall|r: nat| r <= 2 implies #[trigger] weight_count(4, r, label_count(4))
            == table_row(4)[r + 1 as int] - table_row(4)[r as int] by {
            lemma_count_is_weight_count(4, r, label_count(4));
            assert(count_upto(4, 2, r as int, 256) == full(4, 2, r as int));
            assert(table_row(4)[0] == 0);
            assert(table_row(4)[1] == 1);
            assert(table_row(4)[2] == 31);
            assert(table_row(4)[3] == 256);
        }
    }
}

} // verus!
