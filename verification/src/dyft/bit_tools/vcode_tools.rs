//! Vertical sketches: a sketch of `w` positions with `b` bits each is stored
//! as `b` words of `w` bits, word `j` holding bit `j` of every position.

use crate::dyft::bit_tools::bits::{
    bit64, bit8, byte_from, fits, lemma_bit_or_xor, lemma_count_bits_mono, lemma_fits_byte,
    lemma_fits_mono, lemma_word_from_bit, lemma_word_from_fits, low_mask, popcount, word_from,
};
use vstd::prelude::*;

verus! {

/// The words of a sketch as 64-bit values.
pub open spec fn words<T: VCodeToolsBase>(s: Seq<T>) -> Seq<u64> {
    Seq::new(s.len(), |k: int| s[k].val())
}

/// The byte at position `i` of a sketch of `bits` vertical words: its bit
/// `j` is bit `i` of word `j`.
pub open spec fn vbyte(x: Seq<u64>, i: nat, bits: nat) -> u8 {
    byte_from(|j: nat| bit64(x[j as int], i), bits)
}

/// The vertical word of bit-plane `j` over the first `w` bytes: its bit `i`
/// is bit `j` of byte `i`.
pub open spec fn vword(bytes: Seq<u8>, j: nat, w: nat) -> u64 {
    word_from(|i: nat| bit8(bytes[i as int], j), w)
}

/// The positions at which the first `n` words of two sketches differ, as a
/// word: the OR over the planes of their XOR.
pub open spec fn diff_word(x: Seq<u64>, y: Seq<u64>, n: nat) -> u64
    decreases n,
{
    if n == 0 {
        0
    } else {
        diff_word(x, y, (n - 1) as nat) | (x[n - 1] ^ y[n - 1])
    }
}

/// Hamming distance of two sketches of `bits` vertical words: the number of
/// positions at which they differ in some plane.
pub open spec fn hamdist_spec(x: Seq<u64>, y: Seq<u64>, bits: nat) -> nat {
    popcount(diff_word(x, y, bits))
}

/// What the early-exit scan reports from plane `j` on: the count after the
/// first plane at which the running count exceeds `radius`, or else the
/// full distance.
pub open spec fn radius_scan(x: Seq<u64>, y: Seq<u64>, bits: nat, radius: nat, j: nat) -> nat
    decreases bits - j,
{
    if j >= bits {
        hamdist_spec(x, y, bits)
    } else {
        let d = popcount(diff_word(x, y, j + 1));
        if d > radius {
            d
        } else {
            radius_scan(x, y, bits, radius, j + 1)
        }
    }
}

/// Result of the Hamming distance with early exit at `radius`.
pub open spec fn hamdist_radius_spec(x: Seq<u64>, y: Seq<u64>, bits: nat, radius: nat) -> nat {
    radius_scan(x, y, bits, radius, 0)
}

pub struct BitTools;

impl BitTools {
    /// The number of ones in the binary representation of `x`, by
    /// `num_traits::PrimInt::count_ones`.
    #[verifier::external_body]
    pub fn popcnt(x: u64) -> (r: u32)
        ensures
            r == popcount(x),
    {
        num_traits::PrimInt::count_ones(x)
    }

    /// The word with exactly the bits below `idx` set.
    pub fn bitmask(idx: u32) -> (r: u64)
        requires
            idx < 64,
        ensures
            r == low_mask(idx as nat),
            forall|i: nat| bit64(r, i) == (i < idx),
    {
        let one: u64 = 1;
        let r: u64 = one << idx;
        assert(r >= 1) by (bit_vector)
            requires
                idx < 64,
                r == 1u64 << idx,
        ;
        let m: u64 = r - 1;
        proof {
            lemma_low_mask(idx as nat);
            assert forall|i: nat| bit64(low_mask(idx as nat), i) == (i < idx) by {
                lemma_word_from_bit(|i: nat| true, idx as nat, i);
            }
        }
        m
    }
}

/// The low mask of `n` bits is one less than the bit at `n`.
pub proof fn lemma_low_mask(n: nat)
    requires
        n < 64,
    ensures
        low_mask(n) == ((1u64 << (n as u64)) - 1) as u64,
    decreases n,
{
    let f = |i: nat| true;
    if n == 0 {
        assert(1u64 << 0u64 == 1) by (bit_vector);
    } else {
        let k = (n - 1) as nat;
        lemma_low_mask(k);
        let ku = k as u64;
        let nu = n as u64;
        let prev = word_from(f, k);
        assert((prev | (1u64 << ku)) == ((1u64 << nu) - 1) as u64) by (bit_vector)
            requires
                ku < 63,
                nu == ku + 1,
                prev == ((1u64 << ku) - 1) as u64,
        ;
    }
}

/// An unsigned machine integer used as a hash value and as a vertical
/// word.
pub trait VCodeToolsBase: Copy + Sized {
    /// Width of the type in bits.
    spec fn width() -> nat;

    /// Two to the power of the width.
    spec fn modulus() -> nat;

    /// Two to the power of half the width.
    spec fn half_modulus() -> nat;

    /// The value as a 64-bit word.
    spec fn val(self) -> u64;

    proof fn lemma_width()
        ensures
            Self::width() == 8 || Self::width() == 16 || Self::width() == 32 || Self::width()
                == 64,
    ;

    proof fn lemma_modulus(v: u64)
        ensures
            (v < Self::modulus()) == fits(v, Self::width()),
    ;

    proof fn lemma_val(self)
        ensures
            self.val() < Self::modulus(),
    ;

    proof fn lemma_val_injective(a: Self, b: Self)
        requires
            a.val() == b.val(),
        ensures
            a == b,
    ;

    /// Width of the type in bits.
    fn size_of() -> (r: usize)
        ensures
            r == Self::width(),
    ;

    fn to_u64(self) -> (r: u64)
        ensures
            r == self.val(),
    ;

    fn from_u64(v: u64) -> (r: Self)
        requires
            v < Self::modulus(),
        ensures
            r.val() == v,
    ;

    fn zero() -> (r: Self)
        ensures
            r.val() == 0,
    ;

    fn wrapping_add(self, rhs: Self) -> (r: Self)
        ensures
            r.val() == (self.val() as int + rhs.val() as int) % (Self::modulus() as int),
    ;

    fn wrapping_mul(self, rhs: Self) -> (r: Self)
        ensures
            r.val() == (self.val() as int * rhs.val() as int) % (Self::modulus() as int),
    ;

    /// Shift right by half the width.
    fn shr_half(self) -> (r: Self)
        ensures
            r.val() as int == self.val() as int / (Self::half_modulus() as int),
    ;

    /// The integer `g` reduced modulo two to the width.
    fn wrap_to_t(g: i64) -> (r: Self)
        ensures
            r.val() == (g as int) % (Self::modulus() as int),
    ;
}

pub trait VCodeTools: VCodeToolsBase {
    /// Number of positions of a sketch: the width of a vertical word.
    fn n_dim() -> (r: usize)
        ensures
            r == Self::width(),
    {
        Self::size_of()
    }

    fn hamdist(x: &[Self], y: &[Self], bits: usize) -> (r: u32)
        requires
            bits <= x@.len(),
            bits <= y@.len(),
        ensures
            r == hamdist_spec(words(x@), words(y@), bits as nat),
    {
        let mut diff: u64 = 0;
        let mut j: usize = 0;
        while j < bits
            invariant
                j <= bits,
                bits <= x@.len(),
                bits <= y@.len(),
                diff == diff_word(words(x@), words(y@), j as nat),
            decreases bits - j,
        {
            diff = diff | (x[j].to_u64() ^ y[j].to_u64());
            j = j + 1;
        }
        BitTools::popcnt(diff)
    }

    fn hamdist_radius(x: &[Self], y: &[Self], bits: usize, radius: u32) -> (r: u32)
        requires
            bits <= x@.len(),
            bits <= y@.len(),
        ensures
            r == hamdist_radius_spec(words(x@), words(y@), bits as nat, radius as nat),
            (r <= radius) == (hamdist_spec(words(x@), words(y@), bits as nat) <= radius),
            r <= radius ==> r == hamdist_spec(words(x@), words(y@), bits as nat),
    {
        let ghost xs = words(x@);
        let ghost ys = words(y@);
        let mut diff: u64 = 0;
        let mut j: usize = 0;
        while j < bits
            invariant
                j <= bits,
                bits <= x@.len(),
                bits <= y@.len(),
                xs == words(x@),
                ys == words(y@),
                diff == diff_word(xs, ys, j as nat),
                radius_scan(xs, ys, bits as nat, radius as nat, j as nat) == hamdist_radius_spec(
                    xs,
                    ys,
                    bits as nat,
                    radius as nat,
                ),
            decreases bits - j,
        {
            diff = diff | (x[j].to_u64() ^ y[j].to_u64());
            let dist = BitTools::popcnt(diff);
            if dist > radius {
                proof {
                    lemma_diff_word_mono(xs, ys, (j + 1) as nat, bits as nat);
                }
                return dist;
            }
            j = j + 1;
        }
        BitTools::popcnt(diff)
    }

    fn to_vint(bytes_in: &[u8], j: usize) -> (r: Self)
        requires
            Self::width() <= bytes_in@.len(),
            j < 8,
        ensures
            r.val() == vword(bytes_in@, j as nat, Self::width()),
    {
        let w = Self::size_of();
        let ghost f = |i: nat| bit8(bytes_in@[i as int], j as nat);
        let mut v: u64 = 0;
        let mut i: usize = 0;
        proof {
            Self::lemma_width();
        }
        while i < w
            invariant
                i <= w,
                w == Self::width(),
                w <= 64,
                w <= bytes_in@.len(),
                j < 8,
                f == (|i: nat| bit8(bytes_in@[i as int], j as nat)),
                v == word_from(f, i as nat),
            decreases w - i,
        {
            let byte: u8 = bytes_in[i];
            let b: u64 = ((byte >> j) & 1) as u64;
            proof {
                lemma_single_bit(byte as u64, j as u64, i as u64);
            }
            v = v | (b << i);
            i = i + 1;
        }
        proof {
            lemma_word_from_fits(f, w as nat);
            Self::lemma_modulus(v);
        }
        Self::from_u64(v)
    }

    /// The `bits` vertical words of a sketch given by its bytes.
    fn to_vints(bytes_in: &[u8], bits: usize) -> (r: Vec<Self>)
        requires
            Self::width() <= bytes_in@.len(),
            bits <= 8,
        ensures
            r@.len() == bits,
            forall|j: int|
                0 <= j < bits ==> (#[trigger] r@[j]).val() == vword(
                    bytes_in@,
                    j as nat,
                    Self::width(),
                ),
    {
        let mut out: Vec<Self> = Vec::new();
        let mut j: usize = 0;
        while j < bits
            invariant
                j <= bits,
                bits <= 8,
                Self::width() <= bytes_in@.len(),
                out@.len() == j,
                forall|k: int|
                    0 <= k < j ==> (#[trigger] out@[k]).val() == vword(
                        bytes_in@,
                        k as nat,
                        Self::width(),
                    ),
            decreases bits - j,
        {
            out.push(Self::to_vint(bytes_in, j));
            j = j + 1;
        }
        out
    }

    fn to_byte(x: &[Self], i: usize, bits: usize) -> (r: u8)
        requires
            i < Self::width(),
            bits <= 8,
            bits <= x@.len(),
        ensures
            r == vbyte(words(x@), i as nat, bits as nat),
    {
        let ghost xs = words(x@);
        let ghost f = |j: nat| bit64(xs[j as int], i as nat);
        let mut c: u64 = 0;
        let mut j: usize = 0;
        proof {
            Self::lemma_width();
        }
        while j < bits
            invariant
                j <= bits,
                bits <= 8,
                bits <= x@.len(),
                i < 64,
                xs == words(x@),
                f == (|j: nat| bit64(xs[j as int], i as nat)),
                c == word_from(f, j as nat),
            decreases bits - j,
        {
            let word: u64 = x[j].to_u64();
            let b: u64 = (word >> i) & 1;
            proof {
                lemma_single_bit(word, i as u64, j as u64);
            }
            c = c | (b << j);
            j = j + 1;
        }
        proof {
            lemma_word_from_fits(f, bits as nat);
            lemma_fits_mono(c, bits as nat, 8);
            lemma_fits_byte(c);
        }
        c as u8
    }
}

/// A single extracted bit, moved to position `k`, is either the bit at `k`
/// or nothing.
pub proof fn lemma_single_bit(word: u64, i: u64, k: u64)
    requires
        i < 64,
        k < 64,
    ensures
        ((word >> i) & 1) == 0 || ((word >> i) & 1) == 1,
        bit64(word, i as nat) ==> ((word >> i) & 1) << k == 1u64 << k,
        !bit64(word, i as nat) ==> forall|a: u64| a | (((word >> i) & 1) << k) == a,
{
    let b = (word >> i) & 1;
    assert(b == 0 || b == 1) by (bit_vector)
        requires
            b == (word >> i) & 1,
    ;
    if b == 0 {
        assert forall|a: u64| a | (b << k) == a by {
            assert(a | (0u64 << k) == a) by (bit_vector);
        }
    }
}

/// The difference word only gains bits as planes are added.
pub proof fn lemma_diff_word_mono(x: Seq<u64>, y: Seq<u64>, n: nat, m: nat)
    requires
        n <= m,
    ensures
        popcount(diff_word(x, y, n)) <= popcount(diff_word(x, y, m)),
        forall|i: nat| bit64(diff_word(x, y, n), i) ==> bit64(diff_word(x, y, m), i),
    decreases m - n,
{
    if n < m {
        lemma_diff_word_mono(x, y, n, (m - 1) as nat);
        let prev = diff_word(x, y, (m - 1) as nat);
        let last = x[m - 1] ^ y[m - 1];
        assert forall|i: nat| bit64(diff_word(x, y, n), i) implies bit64(
            diff_word(x, y, m),
            i,
        ) by {
            lemma_bit_or_xor(prev, last, i);
        }
        lemma_count_bits_mono(diff_word(x, y, n), diff_word(x, y, m), 64);
    }
}

/// The early-exit scan is within the radius exactly when the distance is,
/// and then it is the distance.
pub proof fn lemma_radius_scan(x: Seq<u64>, y: Seq<u64>, bits: nat, radius: nat, j: nat)
    requires
        j <= bits,
    ensures
        (radius_scan(x, y, bits, radius, j) <= radius) == (hamdist_spec(x, y, bits) <= radius),
        radius_scan(x, y, bits, radius, j) <= radius ==> radius_scan(x, y, bits, radius, j)
            == hamdist_spec(x, y, bits),
        radius_scan(x, y, bits, radius, j) <= hamdist_spec(x, y, bits),
    decreases bits - j,
{
    if j < bits {
        lemma_diff_word_mono(x, y, j + 1, bits);
        lemma_radius_scan(x, y, bits, radius, j + 1);
    }
}

} // verus!
