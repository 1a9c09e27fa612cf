//! Sketches from the bytes of two file formats: a sequence of 64-bit
//! words, and a sequence of byte vectors with their lengths.

use crate::dyft::bit_tools::vcode_array::VCodeArray;
use crate::dyft::bit_tools::vcode_tools::{vword, VCodeTools, VCodeToolsBase};
use vstd::prelude::*;
use vstd::slice::slice_subrange;

verus! {

/// Number of sketches that a file of byte vectors may hold at most.
pub const SIZE_LIMIT: usize = 0x100_0000;

/// Why the bytes of a file of byte vectors were refused.
#[derive(Debug, Clone, Copy, PartialEq, Eq)]
pub enum LoadError {
    /// A vector is shorter than a sketch is wide.
    DimensionTooSmall,
    /// The bytes end within a vector.
    Truncated,
}

/// The 64-bit word that the eight bytes from `pos` on hold, the lowest
/// byte first.
pub open spec fn le_word(buf: Seq<u8>, pos: int) -> nat {
    (buf[pos] + buf[pos + 1] * 0x100 + buf[pos + 2] * 0x1_0000 + buf[pos + 3] * 0x100_0000 + buf[pos
        + 4] * 0x1_0000_0000 + buf[pos + 5] * 0x100_0000_0000 + buf[pos + 6] * 0x1_0000_0000_0000
        + buf[pos + 7] * 0x100_0000_0000_0000) as nat
}

/// The length that the four bytes from `pos` on hold, the lowest byte
/// first.
pub open spec fn le_length(buf: Seq<u8>, pos: int) -> nat {
    (buf[pos] + buf[pos + 1] * 0x100 + buf[pos + 2] * 0x1_0000 + buf[pos + 3] * 0x100_0000) as nat
}

/// Of the first `n` words of `buf`, those that are less than `modulus`,
/// in their order.
pub open spec fn fitting_words(buf: Seq<u8>, modulus: nat, n: int) -> Seq<nat>
    decreases n,
{
    if n <= 0 {
        Seq::empty()
    } else if le_word(buf, 8 * (n - 1)) < modulus {
        fitting_words(buf, modulus, n - 1).push(le_word(buf, 8 * (n - 1)))
    } else {
        fitting_words(buf, modulus, n - 1)
    }
}

/// The vectors of a file from `pos` on, each cut to `width` bytes: a
/// vector is four bytes of length followed by `width` bytes, and what is
/// left after the last vector, less than four bytes, is passed over.
pub open spec fn vectors_from(buf: Seq<u8>, pos: int, width: nat) -> Result<Seq<Seq<u8>>, LoadError>
    decreases buf.len() - pos,
{
    if pos < 0 || pos + 4 > buf.len() {
        Ok(Seq::empty())
    } else if le_length(buf, pos) < width {
        Err(LoadError::DimensionTooSmall)
    } else if pos + 4 + width > buf.len() {
        Err(LoadError::Truncated)
    } else {
        match vectors_from(buf, pos + 4 + width, width) {
            Ok(rest) => Ok(seq![buf.subrange(pos + 4, pos + 4 + width)] + rest),
            Err(e) => Err(e),
        }
    }
}

/// The vectors `head` followed by those of `rest`, if there are any.
pub open spec fn joined(head: Seq<Seq<u8>>, rest: Result<Seq<Seq<u8>>, LoadError>) -> Result<
    Seq<Seq<u8>>,
    LoadError,
> {
    match rest {
        Ok(r) => Ok(head + r),
        Err(e) => Err(e),
    }
}

/// The word that the eight bytes from `pos` on hold.
fn read_word(buf: &[u8], pos: usize) -> (r: u64)
    requires
        pos + 8 <= buf@.len(),
    ensures
        r == le_word(buf@, pos as int),
{
    (buf[pos] as u64) + (buf[pos + 1] as u64) * 0x100 + (buf[pos + 2] as u64) * 0x1_0000 + (buf[pos
        + 3] as u64) * 0x100_0000 + (buf[pos + 4] as u64) * 0x1_0000_0000 + (buf[pos + 5] as u64)
        * 0x100_0000_0000 + (buf[pos + 6] as u64) * 0x1_0000_0000_0000 + (buf[pos + 7] as u64)
        * 0x100_0000_0000_0000
}

/// The length that the four bytes from `pos` on hold.
fn read_length(buf: &[u8], pos: usize) -> (r: u32)
    requires
        pos + 4 <= buf@.len(),
    ensures
        r == le_length(buf@, pos as int),
{
    (buf[pos] as u32) + (buf[pos + 1] as u32) * 0x100 + (buf[pos + 2] as u32) * 0x1_0000 + (buf[pos
        + 3] as u32) * 0x100_0000
}

/// The sketches of one word each that a file of 64-bit words holds:
/// those of its words that fit the width of a sketch, in their order.
pub fn vcodes_from_bin<T: VCodeTools>(buf: &[u8]) -> (r: VCodeArray<T>)
    requires
        buf@.len() % 8 == 0,
    ensures
        r.wf(),
        r.spec_bits() == 1,
        r@.len() == fitting_words(buf@, T::modulus(), buf@.len() as int / 8).len(),
        forall|i: int|
            0 <= i < r@.len() ==> (#[trigger] r@[i]).val() == fitting_words(
                buf@,
                T::modulus(),
                buf@.len() as int / 8,
            )[i],
{
    let count = buf.len() / 8;
    let ghost m = T::modulus();
    let mut words: Vec<T> = Vec::new();
    let mut n: usize = 0;
    while n < count
        invariant
            n <= count,
            buf@.len() <= usize::MAX,
            count == buf@.len() as int / 8,
            buf@.len() % 8 == 0,
            m == T::modulus(),
            words@.len() == fitting_words(buf@, m, n as int).len(),
            forall|i: int|
                0 <= i < words@.len() ==> (#[trigger] words@[i]).val() == fitting_words(
                    buf@,
                    m,
                    n as int,
                )[i],
        decreases count - n,
    {
        let word = read_word(buf, 8 * n);
        proof {
            T::lemma_modulus(word);
        }
        if fits_width::<T>(word) {
            words.push(T::from_u64(word));
        }
        n = n + 1;
    }
    VCodeArray::from_hashes(words, 1)
}

/// Whether `word` is a value of the word type.
fn fits_width<T: VCodeTools>(word: u64) -> (r: bool)
    ensures
        r == (word < T::modulus()),
{
    let width = T::size_of();
    proof {
        T::lemma_width();
        T::lemma_modulus(word);
    }
    if width >= 64 {
        assert(word >> 64 == 0) by (bit_vector);
        true
    } else {
        word >> (width as u64) == 0
    }
}

/// The sketches of `bits` words each that a file of byte vectors holds,
/// one sketch from the first bytes of each vector, as many as a sketch is
/// wide.
pub fn vcodes_from_bvecs<T: VCodeTools>(buf: &[u8], bits: usize) -> (r: Result<
    VCodeArray<T>,
    LoadError,
>)
    requires
        1 <= bits <= 8,
        buf@.len() as int / (T::width() as int) < SIZE_LIMIT,
    ensures
        match vectors_from(buf@, 0, T::width()) {
            Ok(vectors) => r is Ok && r->Ok_0.wf() && r->Ok_0.spec_bits() == bits
                && r->Ok_0@.len() == vectors.len() * bits && forall|k: int, j: int|
                0 <= k < vectors.len() && 0 <= j < bits ==> (#[trigger] r->Ok_0@[k * bits
                    + j]).val() == vword(vectors[k], j as nat, T::width()),
            Err(e) => r == Err::<VCodeArray<T>, LoadError>(e),
        },
{
    let width = T::size_of();
    let total = buf.len();
    proof {
        T::lemma_width();
    }
    let ghost whole = vectors_from(buf@, 0, width as nat);
    let ghost taken: Seq<Seq<u8>> = Seq::empty();
    let mut vcodes = VCodeArray::<T>::empty(bits);
    let mut pos: usize = 0;
    proof {
        assert(taken + vectors_from(buf@, 0, width as nat)->Ok_0 =~= vectors_from(
            buf@,
            0,
            width as nat,
        )->Ok_0);
    }
    while total - pos >= 4
        invariant
            pos <= total,
            total == buf@.len(),
            width == T::width(),
            8 <= width <= 64,
            1 <= bits <= 8,
            whole == vectors_from(buf@, 0, width as nat),
            joined(taken, vectors_from(buf@, pos as int, width as nat)) == whole,
            vcodes.wf(),
            vcodes.spec_bits() == bits,
            vcodes@.len() == taken.len() * bits,
            forall|k: int, j: int|
                0 <= k < taken.len() && 0 <= j < bits ==> (#[trigger] vcodes@[k * bits + j]).val()
                    == vword(taken[k], j as nat, width as nat),
        decreases total - pos,
    {
        let len = read_length(buf, pos);
        if (len as usize) < width {
            return Err(LoadError::DimensionTooSmall);
        }
        if total - pos - 4 < width {
            return Err(LoadError::Truncated);
        }
        let code = slice_subrange(buf, pos + 4, pos + 4 + width);
        let ghost before = vcodes@;
        let ghost old_taken = taken;
        let _ = vcodes.append(code);
        proof {
            taken = old_taken.push(code@);
            let rest = vectors_from(buf@, pos + 4 + width, width as nat);
            assert(joined(taken, rest) == whole) by {
                if rest is Ok {
                    assert(old_taken + (seq![code@] + rest->Ok_0) =~= taken + rest->Ok_0);
                }
            }
            assert((old_taken.len() + 1) * bits == old_taken.len() * bits + bits)
                by (nonlinear_arith);
            assert forall|k: int, j: int| 0 <= k < taken.len() && 0 <= j < bits implies (
            #[trigger] vcodes@[k * bits + j]).val() == vword(taken[k], j as nat, width as nat) by {
                lemma_row(k, j, bits as int, old_taken.len() as int);
                if k < old_taken.len() {
                    assert(vcodes@[k * bits + j] == before[k * bits + j]);
                } else {
                    assert(k * bits + j == before.len() + j);
                }
            }
        }
        pos = pos + 4 + width;
    }
    proof {
        assert(taken + Seq::<Seq<u8>>::empty() =~= taken);
    }
    Ok(vcodes)
}

/// Word `j` of sketch `k` lies before the words of sketch `n` if `k` is
/// less than `n`, and is word `j` after them if `k` is `n`.
proof fn lemma_row(k: int, j: int, bits: int, n: int)
    requires
        0 <= k <= n,
        0 <= j < bits,
    ensures
        k < n ==> k * bits + j < n * bits,
        k == n ==> k * bits + j == n * bits + j,
        0 <= k * bits + j,
{
    assert(k < n ==> k * bits + bits <= n * bits) by (nonlinear_arith)
        requires
            0 <= k <= n,
            0 <= bits,
    ;
    assert(0 <= k * bits) by (nonlinear_arith)
        requires
            0 <= k,
            0 <= bits,
    ;
}

} // verus!
