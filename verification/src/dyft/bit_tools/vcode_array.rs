//! A dataset of sketches, stored as consecutive groups of vertical words.

use crate::dyft::bit_tools::vcode_tools::{hamdist_spec, words, VCodeTools, vword};
use vstd::prelude::*;
use vstd::slice::slice_subrange;

verus! {

/// Why a sketch could not be taken into a [`VCodeArray`].
#[derive(Debug, Clone, Copy, PartialEq, Eq, Structural)]
pub enum SketchError {
    /// Fewer bytes were supplied than the sketch has positions.
    InsufficientSketchWidth,
}

/// Sketches of `bits` vertical words each, one after the other.
pub struct VCodeArray<T: VCodeTools> {
    m_bits: usize,
    m_vcodes: Vec<T>,
}

impl<T: VCodeTools> View for VCodeArray<T> {
    type V = Seq<T>;

    /// All vertical words, sketch after sketch.
    closed spec fn view(&self) -> Seq<T> {
        self.m_vcodes@
    }
}

impl<T: VCodeTools> VCodeArray<T> {
    /// The number of vertical words per sketch is between 1 and 8.
    pub closed spec fn wf(&self) -> bool {
        1 <= self.m_bits <= 8
    }

    /// Number of vertical words per sketch.
    pub closed spec fn spec_bits(&self) -> nat {
        self.m_bits as nat
    }

    /// Number of complete sketches.
    pub open spec fn spec_size(&self) -> nat {
        self@.len() / self.spec_bits()
    }

    /// The words of sketch `id`.
    pub open spec fn sketch(&self, id: int) -> Seq<T> {
        self@.subrange(id * self.spec_bits(), id * self.spec_bits() + self.spec_bits())
    }

    /// Whether sketch `candidate` lies within Hamming distance `radius` of
    /// `query`.
    pub open spec fn within(&self, candidate: int, query: Seq<T>, radius: nat) -> bool {
        hamdist_spec(words(self.sketch(candidate)), words(query), self.spec_bits()) <= radius
    }

    /// The candidates below `n` within `radius` of query `q`, in order,
    /// each paired with `q`.
    pub open spec fn matches_of(&self, q: int, query: Seq<T>, radius: nat, n: nat) -> Seq<
        (usize, usize),
    >
        decreases n,
    {
        if n == 0 {
            Seq::empty()
        } else {
            let rest = self.matches_of(q, query, radius, (n - 1) as nat);
            if self.within(n - 1, query, radius) {
                rest.push((q as usize, (n - 1) as usize))
            } else {
                rest
            }
        }
    }

    /// The matches of the first `m` queries of `other`, query by query.
    pub open spec fn linear_matches(&self, other: &Self, radius: nat, m: nat) -> Seq<
        (usize, usize),
    >
        decreases m,
    {
        if m == 0 {
            Seq::empty()
        } else {
            self.linear_matches(other, radius, (m - 1) as nat) + self.matches_of(
                m - 1,
                other.sketch(m - 1),
                radius,
                self.spec_size(),
            )
        }
    }

    /// Bounds of sketch `id` within the words.
    pub proof fn lemma_sketch_bounds(&self, id: int)
        requires
            self.wf(),
            0 <= id < self.spec_size(),
        ensures
            0 <= id * self.spec_bits(),
            id * self.spec_bits() + self.spec_bits() <= self@.len(),
            self.sketch(id).len() == self.spec_bits(),
    {
        let b = self.spec_bits() as int;
        let n = self@.len() as int;
        assert(id * b + b <= n && 0 <= id * b) by (nonlinear_arith)
            requires
                0 <= id < n / b,
                b > 0,
        ;
    }

    pub fn empty(m_bits: usize) -> (r: Self)
        requires
            1 <= m_bits <= 8,
        ensures
            r.wf(),
            r.spec_bits() == m_bits,
            r@ == Seq::<T>::empty(),
    {
        Self { m_bits, m_vcodes: Vec::new() }
    }

    pub fn new(m_vcodes: &[T], m_bits: usize) -> (r: Self)
        requires
            1 <= m_bits <= 8,
        ensures
            r.wf(),
            r.spec_bits() == m_bits,
            r@ == m_vcodes@,
    {
        let mut v: Vec<T> = Vec::new();
        let mut i: usize = 0;
        while i < m_vcodes.len()
            invariant
                i <= m_vcodes@.len(),
                v@ == m_vcodes@.subrange(0, i as int),
            decreases m_vcodes@.len() - i,
        {
            v.push(m_vcodes[i]);
            assert(v@ == m_vcodes@.subrange(0, i + 1));
            i = i + 1;
        }
        assert(v@ == m_vcodes@);
        Self { m_bits, m_vcodes: v }
    }

    /// The array that holds the given words.
    pub fn from_hashes(hashes: Vec<T>, bits: usize) -> (r: Self)
        requires
            1 <= bits <= 8,
        ensures
            r.wf(),
            r.spec_bits() == bits,
            r@ == hashes@,
    {
        VCodeArray { m_bits: bits, m_vcodes: hashes }
    }

    /// Takes a sketch given by its bytes, one byte per position, and
    /// stores its vertical words.
    pub fn append(&mut self, code: &[u8]) -> (r: Result<(), SketchError>)
        requires
            old(self).wf(),
        ensures
            final(self).wf(),
            final(self).spec_bits() == old(self).spec_bits(),
            r is Ok == (code@.len() >= T::width()),
            r is Err ==> final(self)@ == old(self)@,
            r is Ok ==> final(self)@.len() == old(self)@.len() + old(self).spec_bits()
                && final(self)@.subrange(0, old(self)@.len() as int) == old(self)@
                && forall|j: int|
                0 <= j < old(self).spec_bits() ==> (#[trigger] final(self)@[old(self)@.len()
                    + j]).val() == vword(code@, j as nat, T::width()),
    {
        if code.len() < T::size_of() {
            return Err(SketchError::InsufficientSketchWidth);
        }
        let ghost before = self.m_vcodes@;
        let mut words = T::to_vints(code, self.m_bits);
        self.m_vcodes.append(&mut words);
        assert(self.m_vcodes@.subrange(0, before.len() as int) == before);
        Ok(())
    }

    /// The words of sketch `id`.
    pub fn access(&self, id: usize) -> (r: &[T])
        requires
            self.wf(),
            id < self.spec_size(),
        ensures
            r@ == self.sketch(id as int),
            r@.len() == self.spec_bits(),
    {
        proof {
            self.lemma_sketch_bounds(id as int);
        }
        let len = self.m_vcodes.len();
        assert(id * self.m_bits + self.m_bits <= len);
        let idx = id * self.m_bits;
        slice_subrange(self.m_vcodes.as_slice(), idx, idx + self.m_bits)
    }

    pub fn vcodes(&self) -> (r: &[T])
        ensures
            r@ == self@,
    {
        self.m_vcodes.as_slice()
    }

    pub fn size(&self) -> (r: usize)
        requires
            self.wf(),
        ensures
            r == self.spec_size(),
    {
        self.m_vcodes.len() / self.m_bits
    }

    pub fn bits(&self) -> (r: usize)
        requires
            self.wf(),
        ensures
            r == self.spec_bits(),
            1 <= r <= 8,
    {
        self.m_bits
    }

    pub fn verify_candidate_predicate(&self, candidate: usize, query: &[T], radius: u32) -> (r:
        bool)
        requires
            self.wf(),
            candidate < self.spec_size(),
            self.spec_bits() <= query@.len(),
        ensures
            r == self.within(candidate as int, query@, radius as nat),
    {
        T::hamdist_radius(self.access(candidate), query, self.m_bits, radius) <= radius
    }

    pub fn hamdist_radius(&self, candidate: usize, query: &[T], radius: u32) -> (r: u32)
        requires
            self.wf(),
            candidate < self.spec_size(),
            self.spec_bits() <= query@.len(),
        ensures
            (r <= radius) == self.within(candidate as int, query@, radius as nat),
            r <= radius ==> r == hamdist_spec(
                words(self.sketch(candidate as int)),
                words(query@),
                self.spec_bits(),
            ),
            r == crate::dyft::bit_tools::vcode_tools::hamdist_radius_spec(
                words(self.sketch(candidate as int)),
                words(query@),
                self.spec_bits(),
                radius as nat,
            ),
    {
        T::hamdist_radius(self.access(candidate), query, self.m_bits, radius)
    }

    /// All sketches, in order.
    pub fn iter(&self) -> (r: Vec<&[T]>)
        requires
            self.wf(),
        ensures
            r@.len() == self.spec_size(),
            forall|i: int| 0 <= i < r@.len() ==> (#[trigger] r@[i])@ == self.sketch(i),
    {
        let n = self.size();
        let mut out: Vec<&[T]> = Vec::new();
        let mut i: usize = 0;
        while i < n
            invariant
                i <= n,
                n == self.spec_size(),
                self.wf(),
                out@.len() == i,
                forall|k: int| 0 <= k < i ==> (#[trigger] out@[k])@ == self.sketch(k),
            decreases n - i,
        {
            out.push(self.access(i));
            i = i + 1;
        }
        out
    }

    /// Every pair of a query of `other` and a sketch of `self` within
    /// Hamming distance `radius`, by exhaustive comparison.
    pub fn linear_search(&self, other: &Self, radius: u32) -> (r: Vec<(usize, usize)>)
        requires
            self.wf(),
            other.wf(),
            self.spec_bits() <= other.spec_bits(),
        ensures
            r@ == self.linear_matches(other, radius as nat, other.spec_size()),
    {
        let m = other.size();
        let n = self.size();
        let mut out: Vec<(usize, usize)> = Vec::new();
        let mut q: usize = 0;
        while q < m
            invariant
                q <= m,
                m == other.spec_size(),
                n == self.spec_size(),
                self.wf(),
                other.wf(),
                self.spec_bits() <= other.spec_bits(),
                out@ == self.linear_matches(other, radius as nat, q as nat),
            decreases m - q,
        {
            let query = other.access(q);
            let ghost base = out@;
            let mut candidate: usize = 0;
            while candidate < n
                invariant
                    candidate <= n,
                    n == self.spec_size(),
                    self.wf(),
                    self.spec_bits() <= query@.len(),
                    query@ == other.sketch(q as int),
                    out@ == base + self.matches_of(
                        q as int,
                        query@,
                        radius as nat,
                        candidate as nat,
                    ),
                decreases n - candidate,
            {
                if self.verify_candidate_predicate(candidate, query, radius) {
                    out.push((q, candidate));
                }
                candidate = candidate + 1;
            }
            q = q + 1;
        }
        out
    }
}

} // verus!
