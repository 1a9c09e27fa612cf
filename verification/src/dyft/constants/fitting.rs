//! The position table agrees with the labels of the settings in which a
//! label holds one position: 5, 6, 7 and 8 bits.

use crate::dyft::bit_tools::bits::{bit64, bit8, fits, lemma_fits_high_bits, lemma_zero_word};
use crate::dyft::constants::label_distance::{
    chunk_differs, label_dist_upto, label_weight, lemma_nonzero_has_bit,
};
use crate::dyft::constants::tables::{
    ipc_of, label_count, lemma_label_range, table_fits, table_row, weight_count,
};
use crate::dyft::constants::label_distance::label_in_range;
use vstd::prelude::*;

verus! {

/// A label of one position is at distance 0 from the zero label if it is
/// the zero label, and else at distance 1.
pub proof fn lemma_weight_of_one_position(bits: nat, m: u8)
    requires
        5 <= bits <= 8,
        m < label_count(bits),
    ensures
        label_weight(bits, m) == if m == 0 {
            0nat
        } else {
            1nat
        },
{
    assert(8nat / bits == 1) by {
        if bits == 5 {
        } else if bits == 6 {
        } else if bits == 7 {
        } else {
        }
    }
    assert(label_dist_upto(0, m, bits, 1) == label_dist_upto(0, m, bits, 0) + if chunk_differs(
        0,
        m,
        bits,
        0,
    ) {
        1nat
    } else {
        0nat
    });
    assert(label_dist_upto(0, m, bits, 0) == 0);
    assert(0 * bits == 0 && (0 + 1) * bits == bits) by (nonlinear_arith);
    if m == 0 {
        assert forall|t: nat| 0 <= t < bits implies bit8(0, t) == bit8(m, t) by {}
        assert(!chunk_differs(0, m, bits, 0));
    } else {
        lemma_nonzero_has_bit(m as u64);
        let i = choose|i: nat| i < 64 && #[trigger] bit64(m as u64, i);
        lemma_label_range(bits, m);
        assert(label_in_range(bits, m));
        assert((8nat / bits) * bits == bits) by (nonlinear_arith)
            requires
                8nat / bits == 1,
        ;
        if i >= bits {
            assert(!bit8(m, i));
        }
        lemma_zero_word(i);
        assert(bit8(0, i) != bit8(m, i));
        assert(chunk_differs(0, m, bits, 0));
    }
}

/// Among the first `n` labels of one position, one is at distance 0 from
/// the zero label and the others are at distance 1.
pub proof fn lemma_count_of_one_position(bits: nat, n: nat)
    requires
        5 <= bits <= 8,
        1 <= n <= label_count(bits),
    ensures
        weight_count(bits, 0, n) == 1,
        weight_count(bits, 1, n) == n - 1,
    decreases n,
{
    lemma_weight_of_one_position(bits, (n - 1) as u8);
    if n > 1 {
        lemma_count_of_one_position(bits, (n - 1) as nat);
    } else {
        assert(weight_count(bits, 0, 0) == 0);
        assert(weight_count(bits, 1, 0) == 0);
    }
}

/// The position table agrees with the labels of 5, 6, 7 and 8 bits.
pub proof fn lemma_table_fits_one_position(bits: nat)
    requires
        5 <= bits <= 8,
    ensures
        table_fits(bits),
{
    assert(ipc_of(bits) == 1) by {
        if bits == 5 {
            assert(8int / 5 == 1);
        } else if bits == 6 {
            assert(8int / 6 == 1);
        } else if bits == 7 {
            assert(8int / 7 == 1);
        } else {
            assert(bits == 8);
            assert(8int / 8 == 1);
        }
    }
    lemma_count_of_one_position(bits, label_count(bits));
    let row = table_row(bits);
    assert(row[0] == 0 && row[1] == 1 && row[2] == label_count(bits)) by {
        if bits == 5 {
            assert(table_row(5)[0] == 0 && table_row(5)[1] == 1 && table_row(5)[2] == 32);
        } else if bits == 6 {
            assert(table_row(6)[0] == 0 && table_row(6)[1] == 1 && table_row(6)[2] == 64);
        } else if bits == 7 {
            assert(table_row(7)[0] == 0 && table_row(7)[1] == 1 && table_row(7)[2] == 128);
        } else {
            assert(table_row(8)[0] == 0 && table_row(8)[1] == 1 && table_row(8)[2] == 256);
        }
    }
    assert forall|r: nat| r <= ipc_of(bits) implies #[trigger] weight_count(
        bits,
        r,
        label_count(bits),
    ) == table_row(bits)[r + 1 as int] - table_row(bits)[r as int] by {
        if r == 0 {
        } else {
            assert(r == 1);
        }
    }
}

} // verus!
