//! The hash of a curve that was snapped to a grid: a random linear
//! combination of the coordinates of its grid points, without the points
//! that repeat their predecessor.

use crate::dyft::bit_tools::vcode_tools::{VCodeTools, VCodeToolsBase};
use vstd::arithmetic::div_mod::{
    lemma_add_mod_noop, lemma_mod_twice, lemma_mul_mod_noop_general, lemma_small_mod,
};
use vstd::prelude::*;

verus! {

/// A point of the grid: the numbers of its column and of its row.
pub type GridPoint = (i64, i64);

/// The points without those that repeat their predecessor.
pub open spec fn dedup(grid: Seq<GridPoint>) -> Seq<GridPoint>
    decreases grid.len(),
{
    if grid.len() == 0 {
        Seq::empty()
    } else if grid.len() >= 2 && grid[grid.len() - 2] == grid.last() {
        dedup(grid.drop_last())
    } else {
        dedup(grid.drop_last()).push(grid.last())
    }
}

/// The sum over the first `n` points of the column times the coefficient
/// at twice the index of the point plus the row times the coefficient
/// after it.
pub open spec fn linear_sum(coeffs: Seq<u64>, pts: Seq<GridPoint>, n: int) -> int
    decreases n,
{
    if n <= 0 {
        0
    } else {
        linear_sum(coeffs, pts, n - 1) + pts[n - 1].0 * coeffs[2 * (n - 1)] + pts[n - 1].1
            * coeffs[2 * (n - 1) + 1]
    }
}

/// The hash of a grid curve for a hash type with the given modulus: the
/// linear sum over its points without repetitions, reduced modulo the
/// modulus and shifted right by half the width.
pub open spec fn linear_hash(
    coeffs: Seq<u64>,
    grid: Seq<GridPoint>,
    modulus: int,
    half_modulus: int,
) -> int {
    (linear_sum(coeffs, dedup(grid), dedup(grid).len() as int) % modulus) / half_modulus
}

pub proof fn lemma_dedup_len(grid: Seq<GridPoint>)
    ensures
        dedup(grid).len() <= grid.len(),
    decreases grid.len(),
{
    if grid.len() > 0 {
        lemma_dedup_len(grid.drop_last());
    }
}

/// One more term of the sum, computed with wrapping arithmetic.
proof fn lemma_sum_step(acc: int, s: int, gx: int, cx: int, gy: int, cy: int, m: int)
    requires
        m > 0,
        acc == s % m,
    ensures
        (acc + ((((gx % m) * cx) % m + ((gy % m) * cy) % m) % m)) % m == (s + gx * cx + gy * cy) % m,
{
    lemma_mul_mod_noop_general(gx, cx, m);
    lemma_mul_mod_noop_general(gy, cy, m);
    let a = ((gx % m) * cx) % m;
    let b = ((gy % m) * cy) % m;
    assert(a == (gx * cx) % m);
    assert(b == (gy * cy) % m);
    lemma_add_mod_noop(gx * cx, gy * cy, m);
    assert((a + b) % m == (gx * cx + gy * cy) % m);
    lemma_add_mod_noop(s, gx * cx + gy * cy, m);
    lemma_mod_twice(gx * cx + gy * cy, m);
    lemma_add_mod_noop(acc, (a + b) % m, m);
    lemma_mod_twice(s, m);
    assert((acc + (a + b) % m) % m == ((acc % m) + (((a + b) % m) % m)) % m);
    assert(acc % m == s % m) by {
        lemma_mod_twice(s, m);
    }
}

pub struct LinearFactorLsh<T: VCodeTools> {
    pub rand_coefficients: Vec<T>,
}

impl<T: VCodeTools> LinearFactorLsh<T> {
    /// The coefficients as numbers.
    pub open spec fn coeffs(&self) -> Seq<u64> {
        Seq::new(self.rand_coefficients@.len(), |i: int| self.rand_coefficients@[i].val())
    }

    /// The hash function with the given coefficients.
    pub fn new(rand_coefficients: Vec<T>) -> (r: Self)
        ensures
            r.rand_coefficients == rand_coefficients,
    {
        LinearFactorLsh { rand_coefficients }
    }

    /// The hash of a grid curve.
    pub open spec fn spec_hash(&self, grid: Seq<GridPoint>) -> int {
        linear_hash(self.coeffs(), grid, T::modulus() as int, T::half_modulus() as int)
    }

    /// The hash of the curve that was snapped to the grid points `grid`.
    pub fn hash(&self, grid: &[GridPoint]) -> (r: T)
        requires
            2 * grid@.len() <= self.rand_coefficients@.len(),
        ensures
            r.val() == self.spec_hash(grid@),
    {
        let ghost m = T::modulus() as int;
        let ghost cs = self.coeffs();
        let mut acc = T::zero();
        let mut coeff_idx: usize = 0;
        let mut i: usize = 0;
        let available = self.rand_coefficients.len();
        proof {
            acc.lemma_val();
            assert(grid@.subrange(0, 0) =~= Seq::<GridPoint>::empty());
            lemma_small_mod(0, m as nat);
        }
        while i < grid.len()
            invariant
                i <= grid@.len(),
                2 * grid@.len() <= self.rand_coefficients@.len(),
                available == self.rand_coefficients@.len(),
                m == T::modulus(),
                m > 0,
                cs == self.coeffs(),
                coeff_idx == dedup(grid@.subrange(0, i as int)).len(),
                coeff_idx <= i,
                acc.val() == linear_sum(cs, dedup(grid@.subrange(0, i as int)), coeff_idx as int)
                    % m,
            decreases grid@.len() - i,
        {
            let (x, y) = grid[i];
            let ghost before = grid@.subrange(0, i as int);
            let ghost now = grid@.subrange(0, i + 1);
            proof {
                assert(now.drop_last() =~= before);
                assert(now.last() == (x, y));
                if i > 0 {
                    assert(now[now.len() - 2] == grid@[i - 1]);
                }
            }
            let repeated = i > 0 && grid[i - 1].0 == x && grid[i - 1].1 == y;
            if !repeated {
                let cx = self.rand_coefficients[2 * coeff_idx];
                let cy = self.rand_coefficients[2 * coeff_idx + 1];
                let coeff_x = T::wrap_to_t(x).wrapping_mul(cx);
                let coeff_y = T::wrap_to_t(y).wrapping_mul(cy);
                let ghost old_acc = acc.val() as int;
                acc = acc.wrapping_add(coeff_x.wrapping_add(coeff_y));
                proof {
                    let pts = dedup(now);
                    let s = linear_sum(cs, dedup(before), coeff_idx as int);
                    assert(pts =~= dedup(before).push((x, y)));
                    assert(pts.drop_last() =~= dedup(before));
                    lemma_linear_sum_prefix(cs, dedup(before), pts, coeff_idx as int);
                    lemma_sum_step(
                        old_acc,
                        s,
                        x as int,
                        cx.val() as int,
                        y as int,
                        cy.val() as int,
                        m,
                    );
                    assert(cs[2 * coeff_idx as int] == cx.val());
                    assert(cs[2 * coeff_idx + 1] == cy.val());
                }
                coeff_idx = coeff_idx + 1;
            }
            i = i + 1;
        }
        proof {
            assert(grid@.subrange(0, grid@.len() as int) =~= grid@);
            acc.lemma_val();
            lemma_small_mod(acc.val() as nat, m as nat);
        }
        acc.shr_half()
    }

    /// The hash of a query curve: that of a curve of the dataset.
    pub open spec fn spec_hash_query(&self, grid: Seq<GridPoint>) -> int {
        self.spec_hash(grid)
    }

    /// The hash of the query curve that was snapped to the grid points
    /// `grid`.
    pub fn hash_query(&self, grid: &[GridPoint]) -> (r: T)
        requires
            2 * grid@.len() <= self.rand_coefficients@.len(),
        ensures
            r.val() == self.spec_hash_query(grid@),
    {
        self.hash(grid)
    }

    /// A curve has the same hash as a query as it has as a curve of the
    /// dataset.
    pub proof fn lemma_query_hash_is_hash(&self, grid: Seq<GridPoint>, hash: T, query_hash: T)
        requires
            hash.val() == self.spec_hash(grid),
            query_hash.val() == self.spec_hash_query(grid),
        ensures
            hash == query_hash,
    {
        T::lemma_val_injective(hash, query_hash);
    }
}

/// The sum over the first points does not depend on the points after
/// them.
pub proof fn lemma_linear_sum_prefix(
    coeffs: Seq<u64>,
    a: Seq<GridPoint>,
    b: Seq<GridPoint>,
    n: int,
)
    requires
        0 <= n <= a.len(),
        n <= b.len(),
        forall|i: int| 0 <= i < n ==> a[i] == b[i],
    ensures
        linear_sum(coeffs, a, n) == linear_sum(coeffs, b, n),
    decreases n,
{
    if n > 0 {
        lemma_linear_sum_prefix(coeffs, a, b, n - 1);
    }
}

} // verus!
