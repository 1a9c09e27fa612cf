//! Many hashes from few: blocks of hash functions are combined into left
//! and right values, and every pair of a left and a right value gives one
//! hash.

use crate::dyft::bit_tools::vcode_array::VCodeArray;
use crate::dyft::bit_tools::vcode_tools::{VCodeTools, VCodeToolsBase};
use crate::lsh::linear::{GridPoint, LinearFactorLsh};
use vstd::arithmetic::div_mod::lemma_fundamental_div_mod_converse;
use vstd::prelude::*;

verus! {

/// The sum of two numbers in wrapping arithmetic.
pub open spec fn wrap_add(a: int, b: int, modulus: int) -> int {
    (a + b) % modulus
}

/// The product of two numbers in wrapping arithmetic.
pub open spec fn wrap_mul(a: int, b: int, modulus: int) -> int {
    (a * b) % modulus
}

/// The value of a block for the first `n` of its hashes: the sum, in
/// wrapping arithmetic, of each hash times the coefficient of its index.
pub open spec fn block_sum(hashes: Seq<int>, coeffs: Seq<u64>, modulus: int, n: int) -> int
    decreases n,
{
    if n <= 0 {
        0
    } else {
        wrap_add(
            block_sum(hashes, coeffs, modulus, n - 1),
            wrap_mul(hashes[n - 1], coeffs[n - 1] as int, modulus),
            modulus,
        )
    }
}

/// The value of a block: its sum, shifted right by half the width.
pub open spec fn block_value(hashes: Seq<int>, coeffs: Seq<u64>, modulus: int, half: int) -> int {
    block_sum(hashes, coeffs, modulus, hashes.len() as int) / half
}

/// The hash of a left and a right value: the left times the first
/// coefficient plus the right times the second, in wrapping arithmetic,
/// shifted right by half the width.
pub open spec fn pair_hash(l: int, r: int, c0: int, c1: int, modulus: int, half: int) -> int {
    wrap_add(wrap_mul(l, c0, modulus), wrap_mul(r, c1, modulus), modulus) / half
}

/// `r` is the least number whose square is `l` or more.
pub open spec fn is_ceil_sqrt(l: nat, r: nat) -> bool {
    r * r >= l && (r == 0 || (r - 1) * (r - 1) < l)
}

/// The least number whose square is `l` or more.
pub open spec fn root_up(l: nat) -> nat {
    choose|r: nat| is_ceil_sqrt(l, r)
}

/// There is one such number only.
pub proof fn lemma_root_up(l: nat, r: nat)
    requires
        is_ceil_sqrt(l, r),
    ensures
        root_up(l) == r,
{
    let c = root_up(l);
    assert(is_ceil_sqrt(l, c));
    if c < r {
        assert(c * c <= (r - 1) * (r - 1)) by (nonlinear_arith)
            requires
                0 <= c <= r - 1,
        ;
    }
    if r < c {
        assert(r * r <= (c - 1) * (c - 1)) by (nonlinear_arith)
            requires
                0 <= r <= c - 1,
        ;
    }
}

/// Number of coefficients that go into the hash functions and the
/// combination of `blocks` left and `blocks` right blocks with `k` hash
/// functions for each pair of blocks, for curves of up to `max_len`
/// points.
pub open spec fn coefficients_needed(blocks: nat, k: nat, max_len: nat) -> nat {
    blocks * k * (2 * max_len) + k
}

/// Where the coefficients of hash function `f` of block `b` begin, for
/// blocks of `per_block` functions with `per` coefficients each that
/// begin at `start`.
pub open spec fn offset_of(start: int, per_block: int, per: int, b: int, f: int) -> int {
    start + (b * per_block + f) * per
}

proof fn lemma_offset_bound(blocks: int, per_block: int, per: int, b: int, f: int)
    requires
        0 <= b < blocks,
        0 <= f < per_block,
        0 <= per,
    ensures
        (b * per_block + f) * per + per <= blocks * per_block * per,
        (b * per_block + f + 1) * per == (b * per_block + f) * per + per,
        (b + 1) * per_block == b * per_block + per_block,
        0 <= (b * per_block + f) * per,
{
    assert((b * per_block + f + 1) * per == (b * per_block + f) * per + per) by (nonlinear_arith);
    assert((b + 1) * per_block == b * per_block + per_block) by (nonlinear_arith);
    assert(b * per_block + f + 1 <= blocks * per_block) by (nonlinear_arith)
        requires
            0 <= b < blocks,
            0 <= f < per_block,
    ;
    assert((b * per_block + f + 1) * per <= blocks * per_block * per) by (nonlinear_arith)
        requires
            b * per_block + f + 1 <= blocks * per_block,
            0 <= per,
    ;
    assert(0 <= (b * per_block + f) * per) by (nonlinear_arith)
        requires
            0 <= b,
            0 <= f,
            0 <= per_block,
            0 <= per,
    ;
}

/// With a block at least and two functions at least, the coefficients
/// are more than those of one function.
proof fn lemma_needed_large(blocks: int, k: int, per: int)
    requires
        blocks >= 1,
        k >= 2,
        per >= 0,
    ensures
        blocks * k * per + k > per,
        blocks * k * per + k > k * per,
{
    assert(blocks * k * per >= k * per) by (nonlinear_arith)
        requires
            blocks >= 1,
            k >= 2,
            per >= 0,
    ;
    assert(k * per >= per) by (nonlinear_arith)
        requires
            k >= 2,
            per >= 0,
    ;
}

/// The coefficients of the left blocks and those of the right blocks
/// are those of all blocks.
proof fn lemma_sides(blocks: int, k: int, left: int, right: int, per: int)
    requires
        blocks >= 0,
        left >= 0,
        right >= 0,
        per >= 0,
        k == left + right,
    ensures
        blocks * left * per + blocks * right * per == blocks * k * per,
        0 <= blocks * left * per <= blocks * k * per,
        0 <= blocks * right * per,
        0 <= blocks * left <= blocks * k,
{
    assert(blocks * left * per + blocks * right * per == blocks * k * per) by (nonlinear_arith)
        requires
            k == left + right,
    ;
    assert(0 <= blocks * left * per) by (nonlinear_arith)
        requires
            blocks >= 0,
            left >= 0,
            per >= 0,
    ;
    assert(0 <= blocks * right * per) by (nonlinear_arith)
        requires
            blocks >= 0,
            right >= 0,
            per >= 0,
    ;
    assert(0 <= blocks * left <= blocks * k) by (nonlinear_arith)
        requires
            blocks >= 0,
            left >= 0,
            right >= 0,
            k == left + right,
    ;
}

/// A curve that was snapped to the grid of each hash function of each
/// left block and of each right block.
pub struct GridCurve {
    pub left: Vec<Vec<Vec<GridPoint>>>,
    pub right: Vec<Vec<Vec<GridPoint>>>,
}

pub struct TensoredMultiHash<T: VCodeTools> {
    pub m_left_fns: Vec<Vec<LinearFactorLsh<T>>>,
    pub m_right_fns: Vec<Vec<LinearFactorLsh<T>>>,
    pub m_rand_coefficients: Vec<T>,
    pub m_hashes: usize,
    pub m_concatenations: usize,
    pub m_repititions: usize,
}

impl<T: VCodeTools> TensoredMultiHash<T> {
    /// The coefficients as numbers.
    pub open spec fn coeffs(&self) -> Seq<u64> {
        Seq::new(self.m_rand_coefficients@.len(), |i: int| self.m_rand_coefficients@[i].val())
    }

    /// There are as many left and right blocks as repetitions, no block
    /// has more hash functions than there are coefficients, there are two
    /// coefficients at least, and no more hashes are asked for than there
    /// are pairs of a left and a right block.
    pub open spec fn wf(&self) -> bool {
        &&& self.m_left_fns@.len() == self.m_repititions
        &&& self.m_right_fns@.len() == self.m_repititions
        &&& self.m_rand_coefficients@.len() >= 2
        &&& self.m_hashes <= self.m_repititions * self.m_repititions
        &&& forall|i: int|
            0 <= i < self.m_left_fns@.len() ==> (#[trigger] self.m_left_fns@[i])@.len()
                <= self.m_rand_coefficients@.len()
        &&& forall|i: int|
            0 <= i < self.m_right_fns@.len() ==> (#[trigger] self.m_right_fns@[i])@.len()
                <= self.m_rand_coefficients@.len()
    }

    /// The grid curves `grids` fit the blocks `fns`: one curve for each
    /// hash function, no longer than the function has coefficients for.
    pub open spec fn grids_fit(
        fns: Seq<Vec<LinearFactorLsh<T>>>,
        grids: Seq<Vec<Vec<GridPoint>>>,
    ) -> bool {
        &&& grids.len() == fns.len()
        &&& forall|i: int| 0 <= i < fns.len() ==> Self::block_fits(#[trigger] fns[i]@, grids[i]@)
    }

    /// The grid curves fit one block.
    pub open spec fn block_fits(fns: Seq<LinearFactorLsh<T>>, grids: Seq<Vec<GridPoint>>) -> bool {
        &&& grids.len() == fns.len()
        &&& forall|j: int|
            0 <= j < fns.len() ==> 2 * (#[trigger] grids[j])@.len() <= fns[j].rand_coefficients@.len()
    }

    /// The hashes of the functions of one block.
    pub open spec fn block_hashes(fns: Seq<LinearFactorLsh<T>>, grids: Seq<Vec<GridPoint>>) -> Seq<
        int,
    > {
        Seq::new(fns.len(), |j: int| fns[j].spec_hash(grids[j]@))
    }

    /// The value of each block.
    pub open spec fn side_values(
        &self,
        fns: Seq<Vec<LinearFactorLsh<T>>>,
        grids: Seq<Vec<Vec<GridPoint>>>,
    ) -> Seq<int> {
        Seq::new(
            fns.len(),
            |i: int|
                block_value(
                    Self::block_hashes(fns[i]@, grids[i]@),
                    self.coeffs(),
                    T::modulus() as int,
                    T::half_modulus() as int,
                ),
        )
    }

    /// The hashes of a curve: hash `n` is that of left block `n / R` and
    /// right block `n % R`, for `R` repetitions.
    pub open spec fn spec_multi_hash(
        &self,
        left_grids: Seq<Vec<Vec<GridPoint>>>,
        right_grids: Seq<Vec<Vec<GridPoint>>>,
    ) -> Seq<int> {
        Seq::new(
            self.m_hashes as nat,
            |n: int|
                pair_hash(
                    self.side_values(self.m_left_fns@, left_grids)[n / (self.m_repititions as int)],
                    self.side_values(self.m_right_fns@, right_grids)[n % (
                    self.m_repititions as int)],
                    self.coeffs()[0] as int,
                    self.coeffs()[1] as int,
                    T::modulus() as int,
                    T::half_modulus() as int,
                ),
        )
    }

    /// The curve fits the hash functions.
    pub open spec fn curve_fits(&self, curve: &GridCurve) -> bool {
        Self::grids_fit(self.m_left_fns@, curve.left@) && Self::grids_fit(
            self.m_right_fns@,
            curve.right@,
        )
    }

    /// Hash `p` of the hashes of all curves of a dataset, one curve
    /// after the other.
    pub open spec fn dataset_hash(&self, dataset: Seq<GridCurve>, p: int) -> int {
        self.spec_multi_hash(
            dataset[p / (self.m_hashes as int)].left@,
            dataset[p / (self.m_hashes as int)].right@,
        )[p % (self.m_hashes as int)]
    }

    /// Number of blocks on each side that `l` hashes take: the least
    /// number whose square is `l` or more.
    pub fn repititions(l: usize) -> (r: usize)
        ensures
            is_ceil_sqrt(l as nat, r as nat),
            r == root_up(l as nat),
    {
        let mut r: usize = 0;
        let mut found = false;
        while !found
            invariant
                r <= l,
                r == 0 || (r - 1) * (r - 1) < l,
                found ==> r * r >= l,
            decreases l - r + (if found { 0int } else { 1int }),
        {
            assert(r * r <= 0xFFFF_FFFF_FFFF_FFFF * 0xFFFF_FFFF_FFFF_FFFF) by (nonlinear_arith)
                requires
                    0 <= r <= 0xFFFF_FFFF_FFFF_FFFF,
            ;
            let square: u128 = (r as u128) * (r as u128);
            if square >= l as u128 {
                found = true;
            } else {
                assert(r < l) by (nonlinear_arith)
                    requires
                        r * r < l,
                        r >= 0,
                ;
                r = r + 1;
            }
        }
        proof {
            lemma_root_up(l as nat, r as nat);
        }
        r
    }

    /// The words of `coefficients` from `from` on, `count` of them.
    fn copy_range(coefficients: &Vec<T>, from: usize, count: usize) -> (r: Vec<T>)
        requires
            from + count <= coefficients@.len(),
        ensures
            r@ == coefficients@.subrange(from as int, from + count),
    {
        let total = coefficients.len();
        let mut out: Vec<T> = Vec::new();
        let mut i: usize = 0;
        while i < count
            invariant
                i <= count,
                total == coefficients@.len(),
                from + count <= coefficients@.len(),
                out@ == coefficients@.subrange(from as int, from + i),
            decreases count - i,
        {
            out.push(coefficients[from + i]);
            assert(out@ =~= coefficients@.subrange(from as int, from + i + 1));
            i = i + 1;
        }
        out
    }

    /// The hash functions of `blocks` blocks of `per_block` functions
    /// each, whose coefficients, `per` for each function, follow each
    /// other in `coefficients` from `start` on.
    fn take_functions(
        coefficients: &Vec<T>,
        start: usize,
        blocks: usize,
        per_block: usize,
        per: usize,
    ) -> (r: Vec<Vec<LinearFactorLsh<T>>>)
        requires
            start + blocks * per_block * per <= coefficients@.len(),
        ensures
            r@.len() == blocks,
            forall|b: int| 0 <= b < blocks ==> (#[trigger] r@[b])@.len() == per_block,
            forall|b: int, f: int|
                0 <= b < blocks && 0 <= f < per_block ==> (#[trigger] r@[b]@[f]).rand_coefficients@
                    == coefficients@.subrange(
                    offset_of(start as int, per_block as int, per as int, b, f),
                    offset_of(start as int, per_block as int, per as int, b, f) + per,
                ),
    {
        let total = coefficients.len();
        let mut out: Vec<Vec<LinearFactorLsh<T>>> = Vec::new();
        let mut pos: usize = start;
        let mut b: usize = 0;
        assert(0 * per_block == 0 && (0 * per_block + 0) * per == 0) by (nonlinear_arith);
        while b < blocks
            invariant
                b <= blocks,
                total == coefficients@.len(),
                start + blocks * per_block * per <= total,
                pos == offset_of(start as int, per_block as int, per as int, b as int, 0),
                out@.len() == b,
                forall|w: int| 0 <= w < b ==> (#[trigger] out@[w])@.len() == per_block,
                forall|w: int, f: int|
                    0 <= w < b && 0 <= f < per_block ==> (
                    #[trigger] out@[w]@[f]).rand_coefficients@ == coefficients@.subrange(
                        offset_of(start as int, per_block as int, per as int, w, f),
                        offset_of(start as int, per_block as int, per as int, w, f) + per,
                    ),
            decreases blocks - b,
        {
            let mut block: Vec<LinearFactorLsh<T>> = Vec::new();
            let mut f: usize = 0;
            while f < per_block
                invariant
                    f <= per_block,
                    b < blocks,
                    total == coefficients@.len(),
                    start + blocks * per_block * per <= total,
                    pos == offset_of(start as int, per_block as int, per as int, b as int, f as int),
                    block@.len() == f,
                    forall|g: int|
                        0 <= g < f ==> (#[trigger] block@[g]).rand_coefficients@
                            == coefficients@.subrange(
                            offset_of(start as int, per_block as int, per as int, b as int, g),
                            offset_of(start as int, per_block as int, per as int, b as int, g)
                                + per,
                        ),
                decreases per_block - f,
            {
                proof {
                    lemma_offset_bound(
                        blocks as int,
                        per_block as int,
                        per as int,
                        b as int,
                        f as int,
                    );
                }
                block.push(LinearFactorLsh::new(Self::copy_range(coefficients, pos, per)));
                pos = pos + per;
                f = f + 1;
            }
            proof {
                assert((b + 1) * per_block == b * per_block + per_block) by (nonlinear_arith);
            }
            out.push(block);
            b = b + 1;
        }
        out
    }

    /// The coefficients `coefficients` are as many as `l` hashes of `k`
    /// concatenations each take for curves of up to `max_curve_length`
    /// points, and there are two concatenations at least.
    pub open spec fn shaped(l: nat, k: nat, max_curve_length: nat, coefficients: nat) -> bool {
        k >= 2 && coefficients == coefficients_needed(root_up(l), k, max_curve_length)
    }

    /// The hashes that are made of the given coefficients: first those of
    /// the hash functions of the left blocks, block by block and function
    /// by function, then those of the right blocks, then those that
    /// combine the hashes.
    pub fn init(l: usize, k: usize, max_curve_length: usize, coefficients: Vec<T>) -> (r: Option<
        Self,
    >)
        ensures
            r is Some == Self::shaped(
                l as nat,
                k as nat,
                max_curve_length as nat,
                coefficients@.len(),
            ),
            r is Some ==> {
                let h = r->0;
                let per: int = 2 * max_curve_length;
                let left: int = k - k / 2;
                let right: int = (k / 2) as int;
                &&& h.wf()
                &&& h.m_hashes == l
                &&& h.m_concatenations == k
                &&& h.m_repititions == root_up(l as nat)
                &&& forall|b: int| 0 <= b < h.m_repititions ==> (#[trigger] h.m_left_fns@[b])@.len() == left
                &&& forall|b: int| 0 <= b < h.m_repititions ==> (#[trigger] h.m_right_fns@[b])@.len() == right
                &&& forall|b: int, f: int|
                    0 <= b < h.m_repititions && 0 <= f < left ==> (
                    #[trigger] h.m_left_fns@[b]@[f]).rand_coefficients@ == coefficients@.subrange(
                        offset_of(0, left, per, b, f),
                        offset_of(0, left, per, b, f) + per,
                    )
                &&& forall|b: int, f: int|
                    0 <= b < h.m_repititions && 0 <= f < right ==> (
                    #[trigger] h.m_right_fns@[b]@[f]).rand_coefficients@ == coefficients@.subrange(
                        offset_of(h.m_repititions * left * per, right, per, b, f),
                        offset_of(h.m_repititions * left * per, right, per, b, f) + per,
                    )
                &&& h.m_rand_coefficients@ == coefficients@.subrange(
                    h.m_repititions * k * per,
                    coefficients@.len() as int,
                )
            },
    {
        let blocks = Self::repititions(l);
        let left = Self::concatenations_left(k);
        let right = Self::concatenations_right(k);
        let given = coefficients.len();
        if k < 2 {
            return None;
        }
        let ghost need = coefficients_needed(blocks as nat, k as nat, max_curve_length as nat);
        let per_opt = max_curve_length.checked_mul(2);
        let per_function: usize = if blocks == 0 {
            0
        } else {
            match per_opt {
                Some(v) => v,
                None => {
                    proof {
                        lemma_needed_large(blocks as int, k as int, 2 * max_curve_length);
                    }
                    return None;
                },
            }
        };
        proof {
            if blocks == 0 {
                assert(need == k) by (nonlinear_arith)
                    requires
                        need == blocks * k * (2 * max_curve_length) + k,
                        blocks == 0,
                ;
                assert(blocks * k * per_function == 0) by (nonlinear_arith)
                    requires
                        blocks == 0,
                ;
            }
            assert(need == blocks * k * per_function + k);
        }
        let per_block = match k.checked_mul(per_function) {
            Some(v) => v,
            None => {
                proof {
                    lemma_needed_large(blocks as int, k as int, per_function as int);
                }
                return None;
            },
        };
        let in_functions = match blocks.checked_mul(per_block) {
            Some(v) => v,
            None => {
                proof {
                    assert(blocks * k * per_function == blocks * (k * per_function))
                        by (nonlinear_arith);
                }
                return None;
            },
        };
        proof {
            assert(blocks * k * per_function == blocks * (k * per_function)) by (nonlinear_arith);
        }
        let total = match in_functions.checked_add(k) {
            Some(v) => v,
            None => {
                return None;
            },
        };
        if given != total {
            return None;
        }
        proof {
            lemma_sides(blocks as int, k as int, left as int, right as int, per_function as int);
        }
        proof {
            assert(left * per_function <= k * per_function) by (nonlinear_arith)
                requires
                    0 <= left <= k,
                    0 <= per_function,
            ;
            assert(blocks * (left * per_function) == blocks * left * per_function)
                by (nonlinear_arith);
        }
        let left_block = left * per_function;
        let right_start = blocks * left_block;
        let m_left_fns = Self::take_functions(&coefficients, 0, blocks, left, per_function);
        let m_right_fns = Self::take_functions(
            &coefficients,
            right_start,
            blocks,
            right,
            per_function,
        );
        let m_rand_coefficients = Self::copy_range(&coefficients, in_functions, k);
        Some(
            TensoredMultiHash {
                m_left_fns,
                m_right_fns,
                m_rand_coefficients,
                m_hashes: l,
                m_concatenations: k,
                m_repititions: blocks,
            },
        )
    }

    /// Number of hash functions of a left block for `k` concatenations:
    /// half of them, rounded up.
    pub fn concatenations_left(k: usize) -> (r: usize)
        ensures
            r == k - k / 2,
    {
        k - k / 2
    }

    /// Number of hash functions of a right block for `k` concatenations:
    /// half of them, rounded down.
    pub fn concatenations_right(k: usize) -> (r: usize)
        ensures
            r == k / 2,
    {
        k / 2
    }

    /// Number of hashes of a curve.
    pub fn hash_length(&self) -> (r: usize)
        ensures
            r == self.m_hashes,
    {
        self.m_hashes
    }

    /// Number of hash functions that go into one hash.
    pub fn concatenations(&self) -> (r: usize)
        ensures
            r == self.m_concatenations,
    {
        self.m_concatenations
    }

    /// The value of one block for a curve that was snapped to the grid of
    /// each of its hash functions.
    fn block_hash(&self, fns: &Vec<LinearFactorLsh<T>>, grids: &Vec<Vec<GridPoint>>, query: bool) -> (r:
        T)
        requires
            Self::block_fits(fns@, grids@),
            fns@.len() <= self.m_rand_coefficients@.len(),
        ensures
            r.val() == block_value(
                Self::block_hashes(fns@, grids@),
                self.coeffs(),
                T::modulus() as int,
                T::half_modulus() as int,
            ),
    {
        let ghost hashes = Self::block_hashes(fns@, grids@);
        let ghost m = T::modulus() as int;
        let mut acc = T::zero();
        let mut j: usize = 0;
        while j < fns.len()
            invariant
                j <= fns@.len(),
                Self::block_fits(fns@, grids@),
                fns@.len() <= self.m_rand_coefficients@.len(),
                hashes == Self::block_hashes(fns@, grids@),
                m == T::modulus(),
                acc.val() == block_sum(hashes, self.coeffs(), m, j as int),
            decreases fns@.len() - j,
        {
            let h = if query {
                fns[j].hash_query(grids[j].as_slice())
            } else {
                fns[j].hash(grids[j].as_slice())
            };
            let coeff = self.m_rand_coefficients[j];
            acc = acc.wrapping_add(h.wrapping_mul(coeff));
            j = j + 1;
        }
        acc.shr_half()
    }

    /// The values of the blocks of one side.
    fn side_hashes(
        &self,
        fns: &Vec<Vec<LinearFactorLsh<T>>>,
        grids: &Vec<Vec<Vec<GridPoint>>>,
        query: bool,
    ) -> (r: Vec<T>)
        requires
            Self::grids_fit(fns@, grids@),
            forall|i: int|
                0 <= i < fns@.len() ==> (#[trigger] fns@[i])@.len()
                    <= self.m_rand_coefficients@.len(),
        ensures
            r@.len() == fns@.len(),
            forall|i: int|
                0 <= i < r@.len() ==> (#[trigger] r@[i]).val() == self.side_values(fns@, grids@)[i],
    {
        let mut out: Vec<T> = Vec::new();
        let mut i: usize = 0;
        while i < fns.len()
            invariant
                i <= fns@.len(),
                Self::grids_fit(fns@, grids@),
                forall|w: int|
                    0 <= w < fns@.len() ==> (#[trigger] fns@[w])@.len()
                        <= self.m_rand_coefficients@.len(),
                out@.len() == i,
                forall|w: int|
                    0 <= w < i ==> (#[trigger] out@[w]).val() == self.side_values(fns@, grids@)[w],
            decreases fns@.len() - i,
        {
            assert(Self::block_fits(fns@[i as int]@, grids@[i as int]@));
            out.push(self.block_hash(&fns[i], &grids[i], query));
            i = i + 1;
        }
        out
    }

    /// The hashes of the pairs of a left and a right value, the first
    /// `m_hashes` of them.
    fn inner_multi_hash(&self, left: &Vec<T>, right: &Vec<T>, Ghost(lv): Ghost<Seq<int>>, Ghost(
        rv,
    ): Ghost<Seq<int>>) -> (r: Vec<T>)
        requires
            self.wf(),
            left@.len() == self.m_repititions,
            right@.len() == self.m_repititions,
            lv.len() == left@.len(),
            rv.len() == right@.len(),
            forall|i: int| 0 <= i < left@.len() ==> (#[trigger] left@[i]).val() == lv[i],
            forall|i: int| 0 <= i < right@.len() ==> (#[trigger] right@[i]).val() == rv[i],
        ensures
            r@.len() == self.m_hashes,
            forall|n: int|
                0 <= n < r@.len() ==> (#[trigger] r@[n]).val() == pair_hash(
                    lv[n / (self.m_repititions as int)],
                    rv[n % (self.m_repititions as int)],
                    self.coeffs()[0] as int,
                    self.coeffs()[1] as int,
                    T::modulus() as int,
                    T::half_modulus() as int,
                ),
    {
        let coeff_0 = self.m_rand_coefficients[0];
        let coeff_1 = self.m_rand_coefficients[1];
        let count = self.m_repititions;
        let ghost c0 = self.coeffs()[0] as int;
        let ghost c1 = self.coeffs()[1] as int;
        let ghost m = T::modulus() as int;
        let ghost h = T::half_modulus() as int;
        let mut out: Vec<T> = Vec::new();
        let mut i: usize = 0;
        while i < count && out.len() < self.m_hashes
            invariant
                i <= count,
                count == self.m_repititions,
                self.wf(),
                left@.len() == count,
                right@.len() == count,
                lv.len() == left@.len(),
                rv.len() == right@.len(),
                forall|w: int| 0 <= w < left@.len() ==> (#[trigger] left@[w]).val() == lv[w],
                forall|w: int| 0 <= w < right@.len() ==> (#[trigger] right@[w]).val() == rv[w],
                coeff_0.val() == c0,
                coeff_1.val() == c1,
                m == T::modulus(),
                h == T::half_modulus(),
                out@.len() <= self.m_hashes,
                out@.len() == i * count || out@.len() == self.m_hashes,
                forall|n: int|
                    0 <= n < out@.len() ==> (#[trigger] out@[n]).val() == pair_hash(
                        lv[n / (count as int)],
                        rv[n % (count as int)],
                        c0,
                        c1,
                        m,
                        h,
                    ),
            decreases count - i,
        {
            let l = left[i];
            let mut j: usize = 0;
            while j < count && out.len() < self.m_hashes
                invariant
                    j <= count,
                    i < count,
                    count == self.m_repititions,
                    left@.len() == count,
                    right@.len() == count,
                    lv.len() == left@.len(),
                    rv.len() == right@.len(),
                    l.val() == lv[i as int],
                    forall|w: int| 0 <= w < right@.len() ==> (#[trigger] right@[w]).val() == rv[w],
                    coeff_0.val() == c0,
                    coeff_1.val() == c1,
                    m == T::modulus(),
                    h == T::half_modulus(),
                    out@.len() <= self.m_hashes,
                    out@.len() == i * count + j || out@.len() == self.m_hashes,
                    forall|n: int|
                        0 <= n < out@.len() ==> (#[trigger] out@[n]).val() == pair_hash(
                            lv[n / (count as int)],
                            rv[n % (count as int)],
                            c0,
                            c1,
                            m,
                            h,
                        ),
                decreases count - j,
            {
                let r = right[j];
                let v = l.wrapping_mul(coeff_0).wrapping_add(r.wrapping_mul(coeff_1)).shr_half();
                proof {
                    let n = out@.len() as int;
                    assert(n == i * count + j);
                    lemma_fundamental_div_mod_converse(
                        n,
                        count as int,
                        i as int,
                        j as int,
                    );
                }
                out.push(v);
                j = j + 1;
            }
            proof {
                assert((i + 1) * count == i * count + count) by (nonlinear_arith);
            }
            i = i + 1;
        }
        proof {
            if out@.len() != self.m_hashes {
                assert(i == count);
            }
        }
        out
    }

    /// The hashes of a curve of the dataset that was snapped to the grid
    /// of each hash function of each left and each right block.
    pub fn multi_hash(
        &self,
        left_grids: &Vec<Vec<Vec<GridPoint>>>,
        right_grids: &Vec<Vec<Vec<GridPoint>>>,
    ) -> (r: Vec<T>)
        requires
            self.wf(),
            Self::grids_fit(self.m_left_fns@, left_grids@),
            Self::grids_fit(self.m_right_fns@, right_grids@),
        ensures
            r@.len() == self.m_hashes,
            forall|n: int|
                0 <= n < r@.len() ==> (#[trigger] r@[n]).val() == self.spec_multi_hash(
                    left_grids@,
                    right_grids@,
                )[n],
    {
        let left = self.side_hashes(&self.m_left_fns, left_grids, false);
        let right = self.side_hashes(&self.m_right_fns, right_grids, false);
        self.inner_multi_hash(
            &left,
            &right,
            Ghost(self.side_values(self.m_left_fns@, left_grids@)),
            Ghost(self.side_values(self.m_right_fns@, right_grids@)),
        )
    }

    /// The hashes of a query curve that was snapped to the grid of each
    /// hash function of each left and each right block.
    pub fn multi_hash_query(
        &self,
        left_grids: &Vec<Vec<Vec<GridPoint>>>,
        right_grids: &Vec<Vec<Vec<GridPoint>>>,
    ) -> (r: Vec<T>)
        requires
            self.wf(),
            Self::grids_fit(self.m_left_fns@, left_grids@),
            Self::grids_fit(self.m_right_fns@, right_grids@),
        ensures
            r@.len() == self.m_hashes,
            forall|n: int|
                0 <= n < r@.len() ==> (#[trigger] r@[n]).val() == self.spec_multi_hash(
                    left_grids@,
                    right_grids@,
                )[n],
    {
        let left = self.side_hashes(&self.m_left_fns, left_grids, true);
        let right = self.side_hashes(&self.m_right_fns, right_grids, true);
        self.inner_multi_hash(
            &left,
            &right,
            Ghost(self.side_values(self.m_left_fns@, left_grids@)),
            Ghost(self.side_values(self.m_right_fns@, right_grids@)),
        )
    }

    /// The hashes of the curves of a dataset, as an array of sketches of
    /// `bits` words each.
    pub fn hash_to_vcodes(&self, dataset: &[GridCurve], bits: usize) -> (r: VCodeArray<T>)
        requires
            self.wf(),
            1 <= bits <= 8,
            forall|i: int| 0 <= i < dataset@.len() ==> self.curve_fits(#[trigger] &dataset@[i]),
        ensures
            r.wf(),
            r.spec_bits() == bits,
            r@.len() == dataset@.len() * self.m_hashes,
            forall|p: int|
                0 <= p < r@.len() ==> (#[trigger] r@[p]).val() == self.dataset_hash(dataset@, p),
    {
        VCodeArray::from_hashes(self.hash_all(dataset, false), bits)
    }

    /// The hashes of the curves of a set of queries, as an array of
    /// sketches of `bits` words each.
    pub fn hash_query_to_vcodes(&self, dataset: &[GridCurve], bits: usize) -> (r: VCodeArray<T>)
        requires
            self.wf(),
            1 <= bits <= 8,
            forall|i: int| 0 <= i < dataset@.len() ==> self.curve_fits(#[trigger] &dataset@[i]),
        ensures
            r.wf(),
            r.spec_bits() == bits,
            r@.len() == dataset@.len() * self.m_hashes,
            forall|p: int|
                0 <= p < r@.len() ==> (#[trigger] r@[p]).val() == self.dataset_hash(dataset@, p),
    {
        VCodeArray::from_hashes(self.hash_all(dataset, true), bits)
    }

    /// The hashes of all curves, one curve after the other.
    fn hash_all(&self, dataset: &[GridCurve], query: bool) -> (r: Vec<T>)
        requires
            self.wf(),
            forall|i: int| 0 <= i < dataset@.len() ==> self.curve_fits(#[trigger] &dataset@[i]),
        ensures
            r@.len() == dataset@.len() * self.m_hashes,
            forall|p: int|
                0 <= p < r@.len() ==> (#[trigger] r@[p]).val() == self.dataset_hash(dataset@, p),
    {
        let ghost h = self.m_hashes as int;
        let mut out: Vec<T> = Vec::new();
        let mut i: usize = 0;
        while i < dataset.len()
            invariant
                i <= dataset@.len(),
                self.wf(),
                h == self.m_hashes,
                forall|w: int| 0 <= w < dataset@.len() ==> self.curve_fits(#[trigger] &dataset@[w]),
                out@.len() == i * h,
                forall|p: int|
                    0 <= p < out@.len() ==> (#[trigger] out@[p]).val() == self.dataset_hash(
                        dataset@,
                        p,
                    ),
            decreases dataset@.len() - i,
        {
            assert(self.curve_fits(&dataset@[i as int]));
            let curve = &dataset[i];
            let mut hashes = if query {
                self.multi_hash_query(&curve.left, &curve.right)
            } else {
                self.multi_hash(&curve.left, &curve.right)
            };
            let ghost prev = out@;
            let ghost fresh = hashes@;
            out.append(&mut hashes);
            proof {
                assert((i + 1) * h == i * h + h) by (nonlinear_arith);
                assert forall|p: int| 0 <= p < out@.len() implies (#[trigger] out@[p]).val()
                    == self.dataset_hash(dataset@, p) by {
                    if p < prev.len() {
                        assert(out@[p] == prev[p]);
                    } else {
                        let n = p - prev.len();
                        assert(out@[p] == fresh[n]);
                        lemma_fundamental_div_mod_converse(p, h, i as int, n);
                    }
                }
            }
            i = i + 1;
        }
        out
    }

    /// Hashing is a function: two runs on the same curve give the same
    /// hashes.
    pub proof fn lemma_multi_hash_deterministic(
        &self,
        left_grids: Seq<Vec<Vec<GridPoint>>>,
        right_grids: Seq<Vec<Vec<GridPoint>>>,
        a: Seq<T>,
        b: Seq<T>,
    )
        requires
            a.len() == self.m_hashes,
            b.len() == self.m_hashes,
            forall|n: int|
                0 <= n < a.len() ==> (#[trigger] a[n]).val() == self.spec_multi_hash(
                    left_grids,
                    right_grids,
                )[n],
            forall|n: int|
                0 <= n < b.len() ==> (#[trigger] b[n]).val() == self.spec_multi_hash(
                    left_grids,
                    right_grids,
                )[n],
        ensures
            a == b,
    {
        assert forall|n: int| 0 <= n < a.len() implies a[n] == b[n] by {
            assert(a[n].val() == b[n].val());
            T::lemma_val_injective(a[n], b[n]);
        }
        assert(a =~= b);
    }
}

} // verus!
