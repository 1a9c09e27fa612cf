//! Edge labels: consecutive positions of a sketch packed into one byte.

use crate::dyft::bit_tools::bits::{
    bit64, bit8, byte_from, lemma_bit_or_xor, lemma_bit_shl, lemma_bit_shr,
    lemma_bit_truncate_byte, lemma_bits_determine_byte, lemma_bits_determine_word,
    lemma_byte_fits, lemma_byte_from_bit, lemma_fits_byte, lemma_fits_high_bits,
    lemma_fits_mono, lemma_word_from_bit, lemma_word_from_fits, lemma_zero_word, word_from,
};
use crate::dyft::bit_tools::vcode_tools::{vbyte, words, BitTools, VCodeTools, VCodeToolsBase};
use core::marker::PhantomData;
use vstd::arithmetic::div_mod::lemma_fundamental_div_mod_converse;
use vstd::prelude::*;

verus! {

/// The label at byte position `bpos`: `ipc` consecutive positions of the
/// sketch, `bits` bits each, the first in the lowest bits. Bit `t` of the
/// label is bit `bpos * ipc + t / bits` of word `t % bits`.
pub open spec fn pack_spec(x: Seq<u64>, ipc: nat, bits: nat, bpos: nat) -> u8 {
    byte_from(|t: nat| bit64(x[(t % bits) as int], bpos * ipc + t / bits), ipc * bits)
}

/// The labels of a sketch at byte positions `begin..end`.
pub open spec fn labels_spec(x: Seq<u64>, ipc: nat, bits: nat, begin: nat, end: nat) -> Seq<u8> {
    Seq::new((end - begin) as nat, |k: int| pack_spec(x, ipc, bits, (begin + k) as nat))
}

/// The bytes of a sketch at positions `begin..end`.
pub open spec fn bytes_spec(x: Seq<u64>, bits: nat, begin: nat, end: nat) -> Seq<u8> {
    Seq::new((end - begin) as nat, |k: int| vbyte(x, (begin + k) as nat, bits))
}

/// The bits of a label.
pub proof fn lemma_pack_bit(x: Seq<u64>, ipc: nat, bits: nat, bpos: nat, t: nat)
    requires
        ipc * bits <= 8,
    ensures
        bit8(pack_spec(x, ipc, bits, bpos), t) == (t < ipc * bits && bit64(
            x[(t % bits) as int],
            bpos * ipc + t / bits,
        )),
{
    lemma_byte_from_bit(
        |t: nat| bit64(x[(t % bits) as int], bpos * ipc + t / bits),
        ipc * bits,
        t,
    );
}

/// A word of a sketch has no bit at or above the width of its type.
pub proof fn lemma_word_high_bits<T: VCodeToolsBase>(s: Seq<T>, p: int, i: nat)
    requires
        0 <= p < s.len(),
        i >= T::width(),
    ensures
        !bit64(words(s)[p], i),
{
    s[p].lemma_val();
    T::lemma_modulus(s[p].val());
    lemma_fits_high_bits(s[p].val(), T::width(), i);
}

pub struct BytePack<T: VCodeTools> {
    _marker: PhantomData<T>,
}

impl<T: VCodeTools> BytePack<T> {
    /// How many positions of `bits` bits go into one byte.
    pub fn ints_per_chunk(bits: usize) -> (r: usize)
        requires
            bits >= 1,
        ensures
            r == 8int / (bits as int),
            bits <= 8 ==> r >= 1 && r * bits <= 8,
    {
        let r = 8 / bits;
        assert(bits <= 8 ==> r >= 1 && r * bits <= 8) by (nonlinear_arith)
            requires
                r == 8int / (bits as int),
                bits >= 1,
        ;
        r
    }

    /// The label of `vcode` at byte position `bpos`.
    pub fn pack(vcode: &[T], ints_per_chunk: usize, bits: usize, bpos: usize) -> (r: u8)
        requires
            1 <= bits <= vcode@.len(),
            ints_per_chunk * bits <= 8,
            bpos * ints_per_chunk + ints_per_chunk <= usize::MAX,
        ensures
            r == pack_spec(words(vcode@), ints_per_chunk as nat, bits as nat, bpos as nat),
    {
        Self::inner_pack_byte(vcode, ints_per_chunk, bits, bpos)
    }

    /// The labels of `vcode` at byte positions `begin..end`.
    pub fn pack_iter(vcode: &[T], begin: usize, end: usize, bits: usize, ints_per_chunk: usize) -> (r:
        Vec<u8>)
        requires
            1 <= bits <= vcode@.len(),
            ints_per_chunk * bits <= 8,
            begin <= end,
            end * ints_per_chunk <= usize::MAX,
        ensures
            r@ == labels_spec(
                words(vcode@),
                ints_per_chunk as nat,
                bits as nat,
                begin as nat,
                end as nat,
            ),
    {
        let mut out: Vec<u8> = Vec::new();
        let mut bpos: usize = begin;
        while bpos < end
            invariant
                begin <= bpos <= end,
                1 <= bits <= vcode@.len(),
                ints_per_chunk * bits <= 8,
                end * ints_per_chunk <= usize::MAX,
                out@ == labels_spec(
                    words(vcode@),
                    ints_per_chunk as nat,
                    bits as nat,
                    begin as nat,
                    bpos as nat,
                ),
            decreases end - bpos,
        {
            assert(bpos * ints_per_chunk + ints_per_chunk <= end * ints_per_chunk)
                by (nonlinear_arith)
                requires
                    bpos < end,
            ;
            let label = Self::inner_pack_byte(vcode, ints_per_chunk, bits, bpos);
            out.push(label);
            assert(out@ == labels_spec(
                words(vcode@),
                ints_per_chunk as nat,
                bits as nat,
                begin as nat,
                (bpos + 1) as nat,
            ));
            bpos = bpos + 1;
        }
        out
    }

    /// The bytes of `vcode` at positions `begin..end`.
    pub fn byte_iter(vcode: &[T], begin: usize, end: usize, bits: usize) -> (r: Vec<u8>)
        requires
            bits <= 8,
            bits <= vcode@.len(),
            begin <= end <= T::width(),
        ensures
            r@ == bytes_spec(words(vcode@), bits as nat, begin as nat, end as nat),
    {
        let mut out: Vec<u8> = Vec::new();
        let mut bpos: usize = begin;
        while bpos < end
            invariant
                begin <= bpos <= end <= T::width(),
                bits <= 8,
                bits <= vcode@.len(),
                out@ == bytes_spec(words(vcode@), bits as nat, begin as nat, bpos as nat),
            decreases end - bpos,
        {
            out.push(T::to_byte(vcode, bpos, bits));
            assert(out@ == bytes_spec(
                words(vcode@),
                bits as nat,
                begin as nat,
                (bpos + 1) as nat,
            ));
            bpos = bpos + 1;
        }
        out
    }

    fn inner_pack_byte(vcode: &[T], ints_per_chunk: usize, bits: usize, bpos: usize) -> (r: u8)
        requires
            1 <= bits <= vcode@.len(),
            ints_per_chunk * bits <= 8,
            bpos * ints_per_chunk + ints_per_chunk <= usize::MAX,
        ensures
            r == pack_spec(words(vcode@), ints_per_chunk as nat, bits as nat, bpos as nat),
    {
        if bits == 1 {
            Self::inner_byte_pack_bits(vcode[0], ints_per_chunk, bpos, Ghost(vcode@))
        } else {
            Self::inner_byte_pack_integers(vcode, ints_per_chunk, bits, bpos)
        }
    }

    /// With one bit per position a label is a run of `ints_per_chunk` bits
    /// of the only word: a right shift.
    fn inner_byte_pack_bits(vcode: T, ints_per_chunk: usize, bpos: usize, Ghost(all): Ghost<
        Seq<T>,
    >) -> (r: u8)
        requires
            ints_per_chunk <= 8,
            bpos * ints_per_chunk + ints_per_chunk <= usize::MAX,
            all.len() >= 1,
            all[0] == vcode,
        ensures
            r == pack_spec(words(all), ints_per_chunk as nat, 1, bpos as nat),
    {
        let s = bpos * ints_per_chunk;
        let word = vcode.to_u64();
        let ghost x = words(all);
        let ghost ipc = ints_per_chunk as nat;
        let r: u8 = if s >= 64 {
            0u8
        } else {
            let mask = BitTools::bitmask(ints_per_chunk as u32);
            let low = (word >> s) & mask;
            proof {
                assert(fits_in_byte(low)) by {
                    assert forall|t: nat| t >= 8 implies !bit64(low, t) by {
                        lemma_bit_or_xor(word >> s, mask, t);
                    }
                    lemma_high_bits_fit(low);
                }
            }
            low as u8
        };
        proof {
            assert forall|t: nat| t < 8 implies #[trigger] bit8(r, t) == bit8(
                pack_spec(x, ipc, 1, bpos as nat),
                t,
            ) by {
                lemma_pack_bit(x, ipc, 1, bpos as nat, t);
                if s >= 64 {
                    lemma_zero_word(t);
                } else {
                    let mask = low_mask_of(ipc);
                    lemma_bit_truncate_byte((word >> s) & mask, t);
                    lemma_bit_or_xor(word >> s, mask, t);
                    lemma_bit_shr(word, s as nat, t);
                }
            }
            lemma_bits_determine_byte(r, pack_spec(x, ipc, 1, bpos as nat));
        }
        r
    }

    fn inner_byte_pack_integers(vcode: &[T], ints_per_chunk: usize, bits: usize, bpos: usize) -> (r:
        u8)
        requires
            1 <= bits <= vcode@.len(),
            ints_per_chunk * bits <= 8,
            bpos * ints_per_chunk + ints_per_chunk <= usize::MAX,
        ensures
            r == pack_spec(words(vcode@), ints_per_chunk as nat, bits as nat, bpos as nat),
    {
        let s = bpos * ints_per_chunk;
        let n = T::n_dim();
        let ghost x = words(vcode@);
        let ghost f = |t: nat|
            bit64(x[(t % (bits as nat)) as int], bpos as nat * ints_per_chunk as nat + t / (
            bits as nat));
        let mut acc: u64 = 0;
        let mut j: usize = 0;
        assert(ints_per_chunk <= 8) by (nonlinear_arith)
            requires
                ints_per_chunk * bits <= 8,
                bits >= 1,
        ;
        while j < ints_per_chunk
            invariant
                j <= ints_per_chunk <= 8,
                1 <= bits <= vcode@.len(),
                ints_per_chunk * bits <= 8,
                s == bpos * ints_per_chunk,
                s + ints_per_chunk <= usize::MAX,
                n == T::width(),
                x == words(vcode@),
                f == (|t: nat|
                    bit64(
                        x[(t % (bits as nat)) as int],
                        bpos as nat * ints_per_chunk as nat + t / (bits as nat),
                    )),
                j * bits <= 8,
                acc == word_from(f, (j * bits) as nat),
            decreases ints_per_chunk - j,
        {
            let i = s + j;
            assert((j + 1) * bits <= 8 && j * bits + bits == (j + 1) * bits) by (nonlinear_arith)
                requires
                    j < ints_per_chunk,
                    ints_per_chunk * bits <= 8,
                    bits >= 1,
            ;
            let ghost before = acc;
            let shift = j * bits;
            if i < n {
                let b = T::to_byte(vcode, i, bits);
                acc = acc | ((b as u64) << shift);
            }
            proof {
                let jb = (j * bits) as nat;
                let nb = ((j + 1) * bits) as nat;
                let target = word_from(f, nb);
                assert forall|t: nat| t < 64 implies #[trigger] bit64(acc, t) == bit64(
                    target,
                    t,
                ) by {
                    lemma_word_from_bit(f, nb, t);
                    lemma_word_from_bit(f, jb, t);
                    if jb <= t < nb {
                        let p = (t - jb) as nat;
                        lemma_fundamental_div_mod_converse(
                            t as int,
                            bits as int,
                            j as int,
                            p as int,
                        );
                        assert(t / (bits as nat) == j && t % (bits as nat) == p);
                    }
                    if i < n {
                        let b = vbyte(x, i as nat, bits as nat);
                        lemma_bit_or_xor(before, (b as u64) << shift, t);
                        lemma_bit_shl(b as u64, jb, t);
                        if jb <= t {
                            let p = (t - jb) as nat;
                            lemma_byte_from_bit(|q: nat| bit64(x[q as int], i as nat), bits as nat, p);
                        }
                    } else {
                        if jb <= t < nb {
                            let p = (t - jb) as nat;
                            lemma_word_high_bits::<T>(vcode@, p as int, i as nat);
                        }
                    }
                }
                lemma_bits_determine_word(acc, target);
            }
            j = j + 1;
        }
        proof {
            lemma_word_from_fits(f, (ints_per_chunk * bits) as nat);
            lemma_fits_mono(acc, (ints_per_chunk * bits) as nat, 8);
            lemma_fits_byte(acc);
        }
        acc as u8
    }
}

/// The low mask of `n` bits, as [`BitTools::bitmask`] returns it.
pub open spec fn low_mask_of(n: nat) -> u64 {
    crate::dyft::bit_tools::bits::low_mask(n)
}

/// `v` is below 256.
pub open spec fn fits_in_byte(v: u64) -> bool {
    v < 256
}

/// A word without bits at position 8 or above is below 256.
pub proof fn lemma_high_bits_fit(v: u64)
    requires
        forall|t: nat| t >= 8 ==> !#[trigger] bit64(v, t),
    ensures
        v < 256,
{
    let low = (v as u8) as u64;
    assert forall|t: nat| t < 64 implies #[trigger] bit64(v, t) == bit64(low, t) by {
        lemma_bit_truncate_byte(v, t);
        if t >= 8 {
            lemma_byte_fits(v as u8);
            lemma_fits_high_bits(low, 8, t);
        }
    }
    lemma_bits_determine_word(v, low);
}

/// The `b` vertical words of the bytes `bytes` over `w` positions.
pub open spec fn planes(bytes: Seq<u8>, w: nat, b: nat) -> Seq<u64> {
    Seq::new(b, |j: int| crate::dyft::bit_tools::vcode_tools::vword(bytes, j as nat, w))
}

/// Taking bytes to their vertical words and packing position `i` again, one
/// position to a label, gives back the lowest `b` bits of byte `i`.
pub proof fn lemma_bit_plane_round_trip(bytes: Seq<u8>, w: nat, b: nat, i: nat)
    requires
        w <= 64,
        w <= bytes.len(),
        1 <= b <= 8,
        i < w,
    ensures
        pack_spec(planes(bytes, w, b), 1, b, i) == ((bytes[i as int] as u64) & low_mask_of(b)) as u8,
{
    let x = planes(bytes, w, b);
    let lhs = pack_spec(x, 1, b, i);
    let masked = (bytes[i as int] as u64) & low_mask_of(b);
    let rhs = masked as u8;
    assert(1 * b == b) by (nonlinear_arith);
    assert forall|t: nat| t < 8 implies #[trigger] bit8(lhs, t) == bit8(rhs, t) by {
        lemma_pack_bit(x, 1, b, i, t);
        lemma_bit_truncate_byte(masked, t);
        lemma_bit_or_xor(bytes[i as int] as u64, low_mask_of(b), t);
        lemma_word_from_bit(|k: nat| true, b, t);
        if t < b {
            lemma_fundamental_div_mod_converse(t as int, b as int, 0, t as int);
            assert(i * 1 + t / b == i) by (nonlinear_arith)
                requires
                    t / b == 0,
            ;
            lemma_word_from_bit(|k: nat| bit8(bytes[k as int], t), w, i);
        }
    }
    lemma_bits_determine_byte(lhs, rhs);
}

} // verus!
