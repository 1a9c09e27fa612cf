//! The vocabulary in which sketches are specified: single bits of machine
//! words, words assembled from bits, and the number of set bits.

use vstd::prelude::*;

verus! {

/// Bit `i` of a 64-bit word; bits at position 64 and above are clear.
pub open spec fn bit64(v: u64, i: nat) -> bool {
    i < 64 && (v >> (i as u64)) & 1 == 1
}

/// Bit `j` of a byte.
pub open spec fn bit8(b: u8, j: nat) -> bool {
    bit64(b as u64, j)
}

/// `v` has no bit set at position `n` or above.
pub open spec fn fits(v: u64, n: nat) -> bool {
    n >= 64 || v >> (n as u64) == 0
}

/// The word whose bit `i` is `f(i)` for `i < n` and clear for `i >= n`.
pub open spec fn word_from(f: spec_fn(nat) -> bool, n: nat) -> u64
    decreases n,
{
    if n == 0 {
        0
    } else {
        let k = (n - 1) as nat;
        if k < 64 && f(k) {
            word_from(f, k) | (1u64 << (k as u64))
        } else {
            word_from(f, k)
        }
    }
}

/// The byte whose bit `j` is `f(j)` for `j < n`, where `n <= 8`.
pub open spec fn byte_from(f: spec_fn(nat) -> bool, n: nat) -> u8 {
    word_from(f, n) as u8
}

/// Number of set bits among the lowest `n` bits of `v`.
pub open spec fn count_bits(v: u64, n: nat) -> nat
    decreases n,
{
    if n == 0 {
        0
    } else {
        count_bits(v, (n - 1) as nat) + if bit64(v, (n - 1) as nat) {
            1nat
        } else {
            0nat
        }
    }
}

/// Number of ones in the binary representation of `v`.
pub open spec fn popcount(v: u64) -> nat {
    count_bits(v, 64)
}

/// The word with exactly the lowest `idx` bits set.
pub open spec fn low_mask(idx: nat) -> u64 {
    word_from(|i: nat| true, idx)
}

/// The zero word has no bit set.
pub proof fn lemma_zero_word(i: nat)
    ensures
        !bit64(0, i),
        fits(0, i),
{
    if i < 64 {
        let iu = i as u64;
        assert((0u64 >> iu) & 1 == 0 && 0u64 >> iu == 0) by (bit_vector);
    }
}

pub proof fn lemma_bit_or_single(a: u64, k: u64, i: u64)
    requires
        k < 64,
        i < 64,
    ensures
        (((a | (1u64 << k)) >> i) & 1 == 1) == (((a >> i) & 1 == 1) || i == k),
{
    assert((((a | (1u64 << k)) >> i) & 1 == 1) == (((a >> i) & 1 == 1) || i == k)) by (bit_vector)
        requires
            k < 64,
            i < 64,
    ;
}

pub proof fn lemma_fits_or_single(a: u64, k: u64)
    requires
        k < 64,
        fits(a, k as nat),
    ensures
        fits(a | (1u64 << k), (k + 1) as nat),
        fits(a, (k + 1) as nat),
{
    if k < 63 {
        assert((a | (1u64 << k)) >> ((k + 1) as u64) == 0 && a >> ((k + 1) as u64) == 0)
            by (bit_vector)
            requires
                k < 63,
                a >> k == 0,
        ;
    }
}

/// Bits of a word assembled by [`word_from`].
pub proof fn lemma_word_from_bit(f: spec_fn(nat) -> bool, n: nat, i: nat)
    requires
        n <= 64,
    ensures
        bit64(word_from(f, n), i) == (i < n && f(i)),
    decreases n,
{
    if n == 0 {
        lemma_zero_word(i);
    } else {
        let k = (n - 1) as nat;
        lemma_word_from_bit(f, k, i);
        if i < 64 && f(k) {
            lemma_bit_or_single(word_from(f, k), k as u64, i as u64);
        }
    }
}

/// A word assembled from `n` bits has no bit at `n` or above.
pub proof fn lemma_word_from_fits(f: spec_fn(nat) -> bool, n: nat)
    requires
        n <= 64,
    ensures
        fits(word_from(f, n), n),
    decreases n,
{
    if n == 0 {
        lemma_zero_word(0);
    } else {
        let k = (n - 1) as nat;
        lemma_word_from_fits(f, k);
        lemma_fits_or_single(word_from(f, k), k as u64);
    }
}

/// Two functions that agree below `n` assemble the same word.
pub proof fn lemma_word_from_ext(f: spec_fn(nat) -> bool, g: spec_fn(nat) -> bool, n: nat)
    requires
        forall|i: nat| i < n ==> #[trigger] f(i) == g(i),
    ensures
        word_from(f, n) == word_from(g, n),
    decreases n,
{
    if n > 0 {
        lemma_word_from_ext(f, g, (n - 1) as nat);
    }
}

proof fn lemma_shifted_equal(a: u64, b: u64, k: nat)
    requires
        k <= 63,
        forall|i: nat| i < 64 ==> #[trigger] bit64(a, i) == bit64(b, i),
    ensures
        a >> (k as u64) == b >> (k as u64),
        k == 0 ==> a == b,
    decreases 63 - k,
{
    let ku = k as u64;
    assert(bit64(a, k) == bit64(b, k));
    if k < 63 {
        lemma_shifted_equal(a, b, k + 1);
    }
    let k1 = (k + 1) as u64;
    assert(a >> ku == b >> ku && (ku == 0 ==> a == b)) by (bit_vector)
        requires
            ku <= 63,
            k1 == ku + 1,
            ku < 63 ==> a >> k1 == b >> k1,
            ((a >> ku) & 1 == 1) == ((b >> ku) & 1 == 1),
    ;
}

/// Two words with the same 64 bits are equal.
pub proof fn lemma_bits_determine_word(a: u64, b: u64)
    requires
        forall|i: nat| i < 64 ==> #[trigger] bit64(a, i) == bit64(b, i),
    ensures
        a == b,
{
    lemma_shifted_equal(a, b, 0);
}

/// A value below 256 keeps its bits when narrowed to a byte.
pub proof fn lemma_fits_byte(v: u64)
    requires
        fits(v, 8),
    ensures
        v < 256,
        (v as u8) as u64 == v,
{
    assert(v < 256) by (bit_vector)
        requires
            v >> 8 == 0,
    ;
}

pub proof fn lemma_fits_mono(v: u64, n: nat, m: nat)
    requires
        fits(v, n),
        n <= m,
    ensures
        fits(v, m),
{
    if m < 64 {
        let nu = n as u64;
        let mu = m as u64;
        assert(v >> mu == 0) by (bit_vector)
            requires
                v >> nu == 0,
                nu <= mu,
                mu < 64,
        ;
    }
}

/// The bits of a byte assembled by [`byte_from`].
pub proof fn lemma_byte_from_bit(f: spec_fn(nat) -> bool, n: nat, j: nat)
    requires
        n <= 8,
    ensures
        bit8(byte_from(f, n), j) == (j < n && f(j)),
{
    lemma_word_from_fits(f, n);
    lemma_fits_mono(word_from(f, n), n, 8);
    lemma_fits_byte(word_from(f, n));
    lemma_word_from_bit(f, n, j);
}

/// A word that fits in `n` bits has no bit set at `n` or above.
pub proof fn lemma_fits_high_bits(v: u64, n: nat, i: nat)
    requires
        fits(v, n),
        n <= i,
    ensures
        !bit64(v, i),
{
    if i < 64 {
        let nu = n as u64;
        let iu = i as u64;
        assert((v >> iu) & 1 == 0) by (bit_vector)
            requires
                v >> nu == 0,
                nu <= iu,
                iu < 64,
        ;
    }
}

/// A byte, seen as a word, fits in 8 bits.
pub proof fn lemma_byte_fits(b: u8)
    ensures
        fits(b as u64, 8),
{
    let v = b as u64;
    assert(v >> 8 == 0) by (bit_vector)
        requires
            v < 256,
    ;
}

/// Two bytes with the same 8 bits are equal.
pub proof fn lemma_bits_determine_byte(a: u8, b: u8)
    requires
        forall|j: nat| j < 8 ==> #[trigger] bit8(a, j) == bit8(b, j),
    ensures
        a == b,
{
    let aw = a as u64;
    let bw = b as u64;
    lemma_byte_fits(a);
    lemma_byte_fits(b);
    assert forall|i: nat| i < 64 implies #[trigger] bit64(aw, i) == bit64(bw, i) by {
        if i >= 8 {
            lemma_fits_high_bits(aw, 8, i);
            lemma_fits_high_bits(bw, 8, i);
        } else {
            assert(bit8(a, i) == bit8(b, i));
        }
    }
    lemma_bits_determine_word(aw, bw);
}

pub proof fn lemma_count_bits_bound(v: u64, n: nat)
    ensures
        count_bits(v, n) <= n,
    decreases n,
{
    if n > 0 {
        lemma_count_bits_bound(v, (n - 1) as nat);
    }
}

/// Setting more bits never lowers the number of set bits.
pub proof fn lemma_count_bits_mono(a: u64, b: u64, n: nat)
    requires
        forall|i: nat| i < n ==> (#[trigger] bit64(a, i) ==> bit64(b, i)),
    ensures
        count_bits(a, n) <= count_bits(b, n),
    decreases n,
{
    if n > 0 {
        lemma_count_bits_mono(a, b, (n - 1) as nat);
    }
}

/// Bits of a bitwise OR and XOR.
pub proof fn lemma_bit_or_xor(a: u64, b: u64, i: nat)
    ensures
        bit64(a | b, i) == (bit64(a, i) || bit64(b, i)),
        bit64(a ^ b, i) == (bit64(a, i) != bit64(b, i)),
        bit64(a & b, i) == (bit64(a, i) && bit64(b, i)),
{
    if i < 64 {
        let iu = i as u64;
        assert({
            &&& (((a | b) >> iu) & 1 == 1) == (((a >> iu) & 1 == 1) || ((b >> iu) & 1 == 1))
            &&& (((a ^ b) >> iu) & 1 == 1) == (((a >> iu) & 1 == 1) != ((b >> iu) & 1 == 1))
            &&& (((a & b) >> iu) & 1 == 1) == (((a >> iu) & 1 == 1) && ((b >> iu) & 1 == 1))
        }) by (bit_vector);
    }
}

/// Bits of a word shifted left: bit `t` of the result is bit `t - k` of
/// the word.
pub proof fn lemma_bit_shl(v: u64, k: nat, t: nat)
    requires
        k < 64,
    ensures
        bit64(v << (k as u64), t) == (k <= t < 64 && bit64(v, (t - k) as nat)),
{
    if t < 64 {
        let ku = k as u64;
        let tu = t as u64;
        if k <= t {
            let du = (t - k) as u64;
            assert((((v << ku) >> tu) & 1 == 1) == ((v >> du) & 1 == 1)) by (bit_vector)
                requires
                    ku < 64,
                    tu < 64,
                    ku <= tu,
                    du == tu - ku,
            ;
        } else {
            assert(((v << ku) >> tu) & 1 == 0) by (bit_vector)
                requires
                    tu < ku,
                    ku < 64,
            ;
        }
    }
}

/// Bits of a word shifted right: bit `t` of the result is bit `s + t` of
/// the word.
pub proof fn lemma_bit_shr(v: u64, s: nat, t: nat)
    requires
        s < 64,
    ensures
        bit64(v >> (s as u64), t) == bit64(v, s + t),
{
    if t < 64 {
        let su = s as u64;
        let tu = t as u64;
        if s + t < 64 {
            let du = (s + t) as u64;
            assert((((v >> su) >> tu) & 1 == 1) == ((v >> du) & 1 == 1)) by (bit_vector)
                requires
                    su < 64,
                    tu < 64,
                    du == su + tu,
                    du < 64,
            ;
        } else {
            assert(((v >> su) >> tu) & 1 == 0) by (bit_vector)
                requires
                    su < 64,
                    tu < 64,
                    su + tu >= 64,
            ;
        }
    }
}

/// Narrowing a word to a byte keeps its lowest 8 bits.
pub proof fn lemma_bit_truncate_byte(v: u64, t: nat)
    ensures
        bit8(v as u8, t) == (t < 8 && bit64(v, t)),
{
    let b = (v as u8) as u64;
    lemma_byte_fits(v as u8);
    if t < 8 {
        let tu = t as u64;
        assert(((((v as u8) as u64) >> tu) & 1 == 1) == ((v >> tu) & 1 == 1)) by (bit_vector)
            requires
                tu < 8,
        ;
    } else {
        lemma_fits_high_bits(b, 8, t);
    }
}

/// Bits of a word with bit `k` cleared.
pub proof fn lemma_bit_clear(v: u64, k: nat, i: nat)
    requires
        k < 64,
    ensures
        bit64(v & !(1u64 << (k as u64)), i) == (bit64(v, i) && i != k),
{
    if i < 64 {
        let ku = k as u64;
        let iu = i as u64;
        assert((((v & !(1u64 << ku)) >> iu) & 1 == 1) == (((v >> iu) & 1 == 1) && iu != ku))
            by (bit_vector)
            requires
                ku < 64,
                iu < 64,
        ;
    }
}

/// Testing a bit by masking: the masked word is zero exactly when the bit
/// is clear.
pub proof fn lemma_bit_test(v: u64, k: nat)
    requires
        k < 64,
    ensures
        (v & (1u64 << (k as u64)) == 0) == !bit64(v, k),
{
    let ku = k as u64;
    assert((v & (1u64 << ku) == 0) == !((v >> ku) & 1 == 1)) by (bit_vector)
        requires
            ku < 64,
    ;
}

/// Counting bits is monotonic in the number of positions looked at.
pub proof fn lemma_count_bits_prefix(v: u64, n: nat, m: nat)
    requires
        n <= m,
    ensures
        count_bits(v, n) <= count_bits(v, m),
    decreases m - n,
{
    if n < m {
        lemma_count_bits_prefix(v, n, (m - 1) as nat);
    }
}

/// A set bit at `k` is counted by every count that reaches beyond `k`.
pub proof fn lemma_count_bits_strict(v: u64, k: nat, m: nat)
    requires
        bit64(v, k),
        k < m,
    ensures
        count_bits(v, k) < count_bits(v, m),
{
    assert(count_bits(v, k + 1) == count_bits(v, k) + 1);
    lemma_count_bits_prefix(v, k + 1, m);
}

/// Two words that agree below `n` have the same count below `n`.
pub proof fn lemma_count_bits_agree(a: u64, b: u64, n: nat)
    requires
        forall|i: nat| i < n ==> #[trigger] bit64(a, i) == bit64(b, i),
    ensures
        count_bits(a, n) == count_bits(b, n),
    decreases n,
{
    if n > 0 {
        lemma_count_bits_agree(a, b, (n - 1) as nat);
    }
}

/// Counting after setting a bit that was clear.
pub proof fn lemma_count_set_bit(v: u64, k: nat, n: nat)
    requires
        k < 64,
        !bit64(v, k),
    ensures
        count_bits(v | (1u64 << (k as u64)), n) == count_bits(v, n) + if k < n {
            1nat
        } else {
            0nat
        },
    decreases n,
{
    if n > 0 {
        lemma_count_set_bit(v, k, (n - 1) as nat);
        if n - 1 < 64 {
            lemma_bit_or_single(v, k as u64, (n - 1) as u64);
        }
    }
}

/// Counting after clearing a bit that was set.
pub proof fn lemma_count_clear_bit(v: u64, k: nat, n: nat)
    requires
        k < 64,
        bit64(v, k),
    ensures
        count_bits(v & !(1u64 << (k as u64)), n) + (if k < n {
            1nat
        } else {
            0nat
        }) == count_bits(v, n),
    decreases n,
{
    if n > 0 {
        lemma_count_clear_bit(v, k, (n - 1) as nat);
        lemma_bit_clear(v, k, (n - 1) as nat);
    }
}

/// The set bits of a word masked to its lowest `n` bits are those of the
/// word below `n`.
pub proof fn lemma_count_masked(v: u64, n: nat)
    requires
        n <= 64,
    ensures
        popcount(v & low_mask(n)) == count_bits(v, n),
{
    let m = v & low_mask(n);
    assert forall|i: nat| bit64(m, i) == (i < n && bit64(v, i)) by {
        lemma_bit_or_xor(v, low_mask(n), i);
        lemma_word_from_bit(|i: nat| true, n, i);
    }
    lemma_count_bits_agree(m, v, n);
    lemma_count_flat(m, n, 64);
}

/// Positions without set bits add nothing to the count.
pub proof fn lemma_count_flat(v: u64, n: nat, m: nat)
    requires
        n <= m,
        forall|i: nat| n <= i < m ==> !#[trigger] bit64(v, i),
    ensures
        count_bits(v, m) == count_bits(v, n),
    decreases m - n,
{
    if n < m {
        lemma_count_flat(v, n, (m - 1) as nat);
    }
}

} // verus!
