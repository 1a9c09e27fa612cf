//! Up to 64 posting lists in one allocation: a bitmap says which lists are
//! present, a cell array holds their offsets and items.

use crate::dyft::bit_tools::bits::{
    bit64, count_bits, lemma_bit_clear, lemma_bit_or_single, lemma_bit_test,
    lemma_count_bits_prefix, lemma_count_bits_strict, lemma_count_clear_bit,
    lemma_count_masked, lemma_count_set_bit, lemma_zero_word, low_mask, popcount,
};
use crate::dyft::bit_tools::distance::{lemma_count_zero, lemma_popcount_zero};
use crate::dyft::bit_tools::vcode_tools::BitTools;
use crate::dyft::sparse::cells::{
    after_extend, after_extract, cells_wf, lemma_after_extend, lemma_after_extract,
    lemma_with_empty_list, list_at, raised, spliced, with_empty_list,
};
use vstd::prelude::*;
use vstd::slice::slice_subrange;

verus! {

/// Number of lists that a group can hold.
pub const SPARSE_GROUP_SIZE: u32 = 64;

pub struct SparseGroup {
    m_bitmap: u64,
    m_group: Vec<u32>,
}

/// The list behind an optional list: nothing where there is none.
pub open spec fn list_or_empty(l: Option<Seq<u32>>) -> Seq<u32> {
    match l {
        Some(s) => s,
        None => Seq::empty(),
    }
}

impl View for SparseGroup {
    type V = Seq<Option<Seq<u32>>>;

    /// The 64 lists of the group, each present or not.
    open spec fn view(&self) -> Seq<Option<Seq<u32>>> {
        Seq::new(SPARSE_GROUP_SIZE as nat, |i: int| self.spec_access(i as nat))
    }
}

/// Where more than `k` bits are set below `n`, one of them has `k` set
/// bits below it.
pub proof fn lemma_select_bit(v: u64, k: nat, n: nat)
    requires
        k < count_bits(v, n),
    ensures
        exists|i: nat| i < n && bit64(v, i) && #[trigger] count_bits(v, i) == k,
    decreases n,
{
    if n > 0 {
        let last = (n - 1) as nat;
        if bit64(v, last) && count_bits(v, last) == k {
            assert(last < n && bit64(v, last) && count_bits(v, last) == k);
        } else {
            lemma_select_bit(v, k, last);
            let i = choose|i: nat| i < last && bit64(v, i) && #[trigger] count_bits(v, i) == k;
            assert(i < n && bit64(v, i) && count_bits(v, i) == k);
        }
    }
}

/// Offsets that each lie beyond the one before are at least their
/// index.
pub proof fn lemma_offsets_grow(cells: Seq<u32>, c: int, k: int)
    requires
        0 <= k <= c,
        cells.len() > c,
        cells[0] == 0,
        forall|j: int| 0 <= j < c ==> cells[j + 1] >= (#[trigger] cells[j]) + 1,
    ensures
        cells[k] >= k,
    decreases k,
{
    if k > 0 {
        lemma_offsets_grow(cells, c, k - 1);
    }
}

/// A word whose bits below `n` are all set has `n` set bits below `n`.
pub proof fn lemma_count_all_set(v: u64, n: nat)
    requires
        forall|i: nat| i < n ==> #[trigger] bit64(v, i),
    ensures
        count_bits(v, n) == n,
    decreases n,
{
    if n > 0 {
        lemma_count_all_set(v, (n - 1) as nat);
    }
}

/// The lists after `vs` was appended to list `idx`.
pub open spec fn lists_extended(lists: Seq<Option<Seq<u32>>>, idx: int, vs: Seq<u32>) -> Seq<
    Option<Seq<u32>>,
> {
    lists.update(idx, Some(list_or_empty(lists[idx]) + vs))
}

/// The lists after list `idx` was taken out.
pub open spec fn lists_extracted(lists: Seq<Option<Seq<u32>>>, idx: int) -> Seq<Option<Seq<u32>>> {
    lists.update(idx, None)
}

/// Taking a list out and putting items in its place leaves exactly those
/// items there, and every other list as it was.
pub proof fn lemma_extract_then_extend(lists: Seq<Option<Seq<u32>>>, idx: int, vs: Seq<u32>)
    requires
        0 <= idx < lists.len(),
    ensures
        lists_extended(lists_extracted(lists, idx), idx, vs) == lists.update(idx, Some(vs)),
        lists_extended(lists_extracted(lists, idx), idx, vs)[idx] == Some(vs),
        list_or_empty(lists_extended(lists_extracted(lists, idx), idx, vs)[idx]).len()
            == vs.len(),
{
    assert(Seq::<u32>::empty() + vs =~= vs);
    assert(lists_extended(lists_extracted(lists, idx), idx, vs) =~= lists.update(idx, Some(vs)));
}

impl SparseGroup {
    /// The presence bitmap.
    pub closed spec fn bitmap(&self) -> u64 {
        self.m_bitmap
    }

    /// The cell array.
    pub closed spec fn cells(&self) -> Seq<u32> {
        self.m_group@
    }

    /// Number of lists that are present.
    pub open spec fn count(&self) -> int {
        popcount(self.bitmap()) as int
    }

    /// Whether list `idx` is present.
    pub open spec fn present(&self, idx: nat) -> bool {
        bit64(self.bitmap(), idx)
    }

    /// Number of lists present below `idx`.
    pub open spec fn rank(&self, idx: nat) -> int {
        count_bits(self.bitmap(), idx) as int
    }

    /// Unless no list is present, the cell array holds the offsets and
    /// items of exactly the lists that are.
    pub open spec fn wf(&self) -> bool {
        self.bitmap() != 0 ==> cells_wf(self.cells(), self.count())
    }

    /// List `idx`, if it is present.
    pub open spec fn spec_access(&self, idx: nat) -> Option<Seq<u32>> {
        if self.present(idx) {
            Some(list_at(self.cells(), self.count(), self.rank(idx)))
        } else {
            None
        }
    }

    /// Number of items in all lists together.
    pub open spec fn total(&self) -> int {
        if self.bitmap() == 0 {
            0
        } else {
            self.cells()[self.count()] as int
        }
    }

    /// A group in which every list that is present holds an item holds as
    /// many items as lists at least.
    pub proof fn lemma_total_count(&self)
        requires
            self.wf(),
            forall|i: nat| i < 64 && self.present(i) ==> (#[trigger] self.spec_access(i))->0.len() >= 1,
        ensures
            self.total() >= self.count(),
            self.count() >= 0,
    {
        let c = self.count();
        if self.bitmap() == 0 {
            lemma_popcount_zero(self.bitmap());
        } else {
            let cells = self.cells();
            assert forall|k: int| 0 <= k < c implies cells[k + 1] >= (#[trigger] cells[k]) + 1 by {
                lemma_select_bit(self.bitmap(), k as nat, 64);
                let i = choose|i: nat|
                    i < 64 && bit64(self.bitmap(), i) && count_bits(self.bitmap(), i) == k;
                assert(self.present(i));
                let list = self.spec_access(i)->0;
                assert(list == list_at(cells, c, k));
                assert(cells[k] <= cells[k + 1]);
                assert(cells[k + 1] <= cells[c]);
                assert(list.len() == cells[k + 1] - cells[k]);
            }
            lemma_offsets_grow(cells, c, c);
        }
    }

    /// The group without any list.
    pub fn new() -> (r: Self)
        ensures
            r.wf(),
            r.total() == 0,
            forall|i: nat| r.spec_access(i) is None,
            r@ == Seq::new(SPARSE_GROUP_SIZE as nat, |i: int| None::<Seq<u32>>),
    {
        proof {
            assert forall|i: nat| !bit64(0, i) by {
                lemma_zero_word(i);
            }
        }
        let r = Self { m_bitmap: 0, m_group: Vec::with_capacity(64) };
        assert(r@ =~= Seq::new(SPARSE_GROUP_SIZE as nat, |i: int| None::<Seq<u32>>));
        r
    }

    fn bitmask(idx: u32) -> (r: u64)
        requires
            idx < 64,
        ensures
            r == low_mask(idx as nat),
    {
        BitTools::bitmask(idx)
    }

    fn is_set(&self, idx: u32) -> (r: bool)
        requires
            idx < 64,
        ensures
            r == self.present(idx as nat),
    {
        proof {
            lemma_bit_test(self.m_bitmap, idx as nat);
        }
        self.m_bitmap & (1u64 << idx) != 0
    }

    fn rank_of(&self, idx: u32) -> (r: usize)
        requires
            idx < 64,
        ensures
            r == self.rank(idx as nat),
            r <= self.count() <= 64,
            self.present(idx as nat) ==> r < self.count(),
    {
        proof {
            lemma_count_masked(self.m_bitmap, idx as nat);
            lemma_count_bits_prefix(self.m_bitmap, idx as nat, 64);
            crate::dyft::bit_tools::bits::lemma_count_bits_bound(self.m_bitmap, 64);
            if self.present(idx as nat) {
                lemma_count_bits_strict(self.m_bitmap, idx as nat, 64);
            }
        }
        BitTools::popcnt(self.m_bitmap & Self::bitmask(idx)) as usize
    }

    fn count_of(&self) -> (r: usize)
        ensures
            r == self.count(),
            r <= 64,
    {
        proof {
            crate::dyft::bit_tools::bits::lemma_count_bits_bound(self.m_bitmap, 64);
        }
        BitTools::popcnt(self.m_bitmap) as usize
    }

    /// The cell array as it stands.
    pub fn group(&self) -> (r: &[u32])
        ensures
            r@ == self.cells(),
    {
        self.m_group.as_slice()
    }

    /// List `idx`, if it is present.
    pub fn access(&self, idx: u32) -> (r: Option<&[u32]>)
        requires
            self.wf(),
            idx < SPARSE_GROUP_SIZE,
        ensures
            match r {
                Some(s) => self@[idx as int] == Some(s@),
                None => self@[idx as int] is None,
            },
    {
        if !self.is_set(idx) {
            None
        } else {
            proof {
                self.lemma_present_nonzero(idx as nat);
            }
            let howmany = self.rank_of(idx);
            let totones = self.count_of();
            let len = self.m_group.len();
            assert(self.cells()[howmany as int] <= self.cells()[howmany + 1]);
            assert(self.cells()[howmany + 1] <= self.cells()[totones as int]);
            let from = totones + 1 + self.m_group[howmany] as usize;
            let to = totones + 1 + self.m_group[howmany + 1] as usize;
            Some(slice_subrange(self.m_group.as_slice(), from, to))
        }
    }

    /// Number of items of list `idx`; 0 where it is not present.
    pub fn size(&self, idx: u32) -> (r: u32)
        requires
            self.wf(),
            idx < SPARSE_GROUP_SIZE,
        ensures
            r == list_or_empty(self@[idx as int]).len(),
    {
        if !self.is_set(idx) {
            0
        } else {
            proof {
                self.lemma_present_nonzero(idx as nat);
            }
            let howmany = self.rank_of(idx);
            assert(self.cells()[howmany as int] <= self.cells()[howmany + 1]);
            assert(self.cells()[howmany + 1] <= self.cells()[self.count()]);
            self.m_group[howmany + 1] - self.m_group[howmany]
        }
    }

    /// Appends `data` to list `idx`, which becomes present.
    pub fn insert(&mut self, idx: u32, data: u32)
        requires
            old(self).wf(),
            idx < SPARSE_GROUP_SIZE,
            old(self).total() < u32::MAX,
        ensures
            final(self).wf(),
            final(self)@ == lists_extended(old(self)@, idx as int, seq![data]),
            final(self).total() == old(self).total() + 1,
    {
        let ghost before = *self;
        let ghost vs = seq![data];
        if self.m_bitmap == 0 {
            proof {
                lemma_zero_word(idx as nat);
            }
            self.m_bitmap = self.m_bitmap | (1u64 << idx);
            self.m_group.clear();
            self.m_group.push(0);
            self.m_group.push(1);
            self.m_group.push(data);
            assert(self.m_group@ =~= seq![0u32, 1u32] + vs);
        } else {
            let howmany = self.rank_of(idx);
            let ghost base = if self.present(idx as nat) {
                self.cells()
            } else {
                with_empty_list(self.cells(), howmany as int)
            };
            if !self.is_set(idx) {
                let v = self.m_group[howmany];
                self.m_group.insert(howmany, v);
                self.m_bitmap = self.m_bitmap | (1u64 << idx);
            }
            proof {
                before.lemma_base_cells(idx as nat, *self);
            }
            let totones = self.count_of();
            let len = self.m_group.len();
            assert(base[howmany + 1] <= base[totones as int]);
            let pos = totones + 1 + self.m_group[howmany + 1] as usize;
            self.m_group.insert(pos, data);
            assert(self.m_group@ =~= spliced(base, pos as int, vs));
            let mut i = howmany + 1;
            while i < totones + 1
                invariant
                    howmany + 1 <= i <= totones + 1,
                    totones < base.len(),
                    base[totones as int] < u32::MAX,
                    forall|a: int, b: int|
                        0 <= a <= b <= totones ==> #[trigger] base[a] <= #[trigger] base[b],
                    pos == totones + 1 + base[howmany + 1],
                    pos <= base.len(),
                    vs.len() == 1,
                    self.m_bitmap == before.bitmap_with(idx as nat),
                    self.m_group@ == raised(
                        spliced(base, pos as int, vs),
                        howmany + 1,
                        i as int,
                        1,
                    ),
                decreases totones + 1 - i,
            {
                assert(base[i as int] <= base[totones as int]);
                let v = self.m_group[i];
                self.m_group.set(i, v + 1);
                assert(self.m_group@ =~= raised(
                    spliced(base, pos as int, vs),
                    howmany + 1,
                    i + 1,
                    1,
                ));
                i = i + 1;
            }
        }
        proof {
            before.lemma_extend_view(*self, idx as nat, vs);
            assert(self@ =~= lists_extended(before@, idx as int, vs));
        }
    }

    /// Appends `datavec` to list `idx`, which becomes present.
    pub fn extend(&mut self, idx: u32, datavec: &[u32])
        requires
            old(self).wf(),
            idx < SPARSE_GROUP_SIZE,
            old(self).total() + datavec@.len() <= u32::MAX,
        ensures
            final(self).wf(),
            final(self)@ == lists_extended(old(self)@, idx as int, datavec@),
            final(self).total() == old(self).total() + datavec@.len(),
    {
        let ghost before = *self;
        let ghost vs = datavec@;
        let n = datavec.len() as u32;
        if self.m_bitmap == 0 {
            proof {
                lemma_zero_word(idx as nat);
            }
            self.m_bitmap = self.m_bitmap | (1u64 << idx);
            self.m_group.clear();
            self.m_group.push(0);
            self.m_group.push(n);
            self.m_group.extend_from_slice(datavec);
            assert(self.m_group@ =~= seq![0u32, n] + vs);
        } else {
            let howmany = self.rank_of(idx);
            let ghost base = if self.present(idx as nat) {
                self.cells()
            } else {
                with_empty_list(self.cells(), howmany as int)
            };
            if !self.is_set(idx) {
                let v = self.m_group[howmany];
                self.m_group.insert(howmany, v);
                self.m_bitmap = self.m_bitmap | (1u64 << idx);
            }
            proof {
                before.lemma_base_cells(idx as nat, *self);
            }
            let start = self.count_of();
            let len = self.m_group.len();
            assert(base[howmany + 1] <= base[start as int]);
            let pos = start + 1 + self.m_group[howmany + 1] as usize;
            let mut tail = self.m_group.split_off(pos);
            self.m_group.extend_from_slice(datavec);
            self.m_group.append(&mut tail);
            assert(self.m_group@ =~= spliced(base, pos as int, vs));
            let mut i = howmany + 1;
            while i < start + 1
                invariant
                    howmany + 1 <= i <= start + 1,
                    start < base.len(),
                    base[start as int] + n <= u32::MAX,
                    n == vs.len(),
                    forall|a: int, b: int|
                        0 <= a <= b <= start ==> #[trigger] base[a] <= #[trigger] base[b],
                    pos == start + 1 + base[howmany + 1],
                    pos <= base.len(),
                    self.m_bitmap == before.bitmap_with(idx as nat),
                    self.m_group@ == raised(
                        spliced(base, pos as int, vs),
                        howmany + 1,
                        i as int,
                        n as int,
                    ),
                decreases start + 1 - i,
            {
                assert(base[i as int] <= base[start as int]);
                let v = self.m_group[i];
                self.m_group.set(i, v + n);
                assert(self.m_group@ =~= raised(
                    spliced(base, pos as int, vs),
                    howmany + 1,
                    i + 1,
                    n as int,
                ));
                i = i + 1;
            }
        }
        proof {
            before.lemma_extend_view(*self, idx as nat, vs);
            assert(self@ =~= lists_extended(before@, idx as int, vs));
        }
    }

    /// Takes list `idx` out of the group and returns it, if it is present.
    pub fn extract(&mut self, idx: u32) -> (r: Option<Vec<u32>>)
        requires
            old(self).wf(),
            idx < SPARSE_GROUP_SIZE,
        ensures
            final(self).wf(),
            match r {
                Some(v) => old(self)@[idx as int] == Some(v@),
                None => old(self)@[idx as int] is None,
            },
            final(self)@ == lists_extracted(old(self)@, idx as int),
            final(self).total() == old(self).total() - list_or_empty(old(self)@[idx as int]).len(),
    {
        let ghost before = *self;
        if !self.is_set(idx) {
            assert(self@ =~= lists_extracted(before@, idx as int));
            None
        } else {
            proof {
                self.lemma_present_nonzero(idx as nat);
            }
            let howmany = self.rank_of(idx);
            let totones = self.count_of();
            let ghost g0 = self.m_group@;
            let len = self.m_group.len();
            assert(g0[howmany as int] <= g0[howmany + 1]);
            assert(g0[howmany + 1] <= g0[totones as int]);
            let size = self.m_group[howmany + 1] - self.m_group[howmany];
            let pos = totones + 1 + self.m_group[howmany] as usize;
            let mut res: Vec<u32> = Vec::new();
            let mut k: usize = 0;
            while k < size as usize
                invariant
                    k <= size,
                    pos + size <= self.m_group@.len(),
                    self.m_group@.len() == len,
                    self.m_group@ == g0,
                    res@ == g0.subrange(pos as int, pos + k),
                decreases size - k,
            {
                res.push(self.m_group[pos + k]);
                assert(res@ =~= g0.subrange(pos as int, pos + k + 1));
                k = k + 1;
            }
            let mut i = howmany + 2;
            while i < totones + 1
                invariant
                    howmany + 2 <= i <= totones + 1 || i == howmany + 2,
                    totones < g0.len(),
                    totones <= 64,
                    size == g0[howmany + 1] - g0[howmany as int],
                    howmany < totones,
                    forall|a: int, b: int|
                        0 <= a <= b <= totones ==> #[trigger] g0[a] <= #[trigger] g0[b],
                    self.m_bitmap == before.m_bitmap,
                    self.m_group@ == raised(g0, howmany + 2, i as int, -(size as int)),
                decreases totones + 1 - i,
            {
                assert(g0[howmany + 1] <= g0[i as int]);
                let v = self.m_group[i];
                self.m_group.set(i, v - size);
                assert(self.m_group@ =~= raised(g0, howmany + 2, i + 1, -(size as int)));
                i = i + 1;
            }
            assert(self.m_group@ =~= raised(g0, howmany + 2, totones + 1, -(size as int)));
            let mut tail = self.m_group.split_off(pos + size as usize);
            self.m_group.truncate(pos);
            self.m_group.append(&mut tail);
            self.m_group.remove(howmany + 1);
            self.m_bitmap = self.m_bitmap & !(1u64 << idx);
            proof {
                assert(self.m_group@ =~= after_extract(g0, totones as int, howmany as int));
                before.lemma_extract_view(*self, idx as nat);
                assert(self@ =~= lists_extracted(before@, idx as int));
            }
            Some(res)
        }
    }

    /// The bitmap with bit `idx` set.
    pub closed spec fn bitmap_with(&self, idx: nat) -> u64 {
        if self.present(idx) {
            self.m_bitmap
        } else {
            self.m_bitmap | (1u64 << (idx as u64))
        }
    }

    /// A group in which a list is present has a non-zero bitmap.
    proof fn lemma_present_nonzero(&self, idx: nat)
        requires
            self.present(idx),
        ensures
            self.bitmap() != 0,
            self.count() >= 1,
    {
        lemma_zero_word(idx);
        lemma_popcount_zero(self.bitmap());
    }

    /// Presence and rank after bit `idx` was set.
    proof fn lemma_set_bit(&self, idx: nat, i: nat)
        requires
            idx < 64,
        ensures
            bit64(self.bitmap_with(idx), i) == (self.present(i) || i == idx),
            count_bits(self.bitmap_with(idx), i) == self.rank(i) + if i > idx && !self.present(
                idx,
            ) {
                1int
            } else {
                0int
            },
    {
        if !self.present(idx) {
            lemma_count_set_bit(self.m_bitmap, idx, i);
            if i < 64 {
                lemma_bit_or_single(self.m_bitmap, idx as u64, i as u64);
            }
        }
    }

    /// The cells after an absent list was made present, before anything is
    /// put into it.
    proof fn lemma_base_cells(&self, idx: nat, now: Self)
        requires
            self.wf(),
            self.bitmap() != 0,
            idx < 64,
            now.m_bitmap == self.bitmap_with(idx),
            now.cells() == if self.present(idx) {
                self.cells()
            } else {
                with_empty_list(self.cells(), self.rank(idx))
            },
        ensures
            cells_wf(now.cells(), now.count()),
            now.count() == self.count() + if self.present(idx) {
                0int
            } else {
                1int
            },
            now.cells()[now.count()] == self.cells()[self.count()],
            0 <= self.rank(idx) < now.count(),
    {
        self.lemma_set_bit(idx, 64);
        lemma_count_bits_prefix(self.m_bitmap, idx, 64);
        if self.present(idx) {
            lemma_count_bits_strict(self.m_bitmap, idx, 64);
        } else {
            lemma_with_empty_list(self.cells(), self.count(), self.rank(idx));
        }
    }

    /// What a group holds after items were added to list `idx`.
    proof fn lemma_extend_view(&self, now: Self, idx: nat, vs: Seq<u32>)
        requires
            self.wf(),
            idx < 64,
            self.total() + vs.len() <= u32::MAX,
            now.m_bitmap == self.bitmap_with(idx),
            self.bitmap() == 0 ==> now.cells() == seq![0u32, vs.len() as u32] + vs,
            self.bitmap() != 0 ==> now.cells() == after_extend(
                if self.present(idx) {
                    self.cells()
                } else {
                    with_empty_list(self.cells(), self.rank(idx))
                },
                now.count(),
                self.rank(idx),
                vs,
            ),
        ensures
            now.wf(),
            now.spec_access(idx) == Some(list_or_empty(self.spec_access(idx)) + vs),
            forall|i: nat| i != idx ==> now.spec_access(i) == self.spec_access(i),
            now.total() == self.total() + vs.len(),
    {
        let h = self.rank(idx);
        self.lemma_set_bit(idx, 64);
        self.lemma_set_bit(idx, idx);
        assert(now.present(idx));
        now.lemma_present_nonzero(idx);
        if self.bitmap() == 0 {
            lemma_count_zero(64);
            lemma_count_zero(idx);
            assert forall|i: nat| !self.present(i) by {
                lemma_zero_word(i);
            }
            let cells = now.cells();
            assert(cells_wf(cells, 1));
            assert(list_at(cells, 1, 0) =~= vs);
            assert(Seq::<u32>::empty() + vs =~= vs);
            assert forall|i: nat| i != idx implies now.spec_access(i) == self.spec_access(i) by {
                self.lemma_set_bit(idx, i);
            }
        } else {
            let c = self.count();
            let base = if self.present(idx) {
                self.cells()
            } else {
                with_empty_list(self.cells(), h)
            };
            let c1 = now.count();
            lemma_count_bits_prefix(self.m_bitmap, idx, 64);
            if self.present(idx) {
                lemma_count_bits_strict(self.m_bitmap, idx, 64);
            } else {
                lemma_with_empty_list(self.cells(), c, h);
                assert(Seq::<u32>::empty() + vs =~= vs);
            }
            lemma_after_extend(base, c1, h, vs);
            assert forall|i: nat| i != idx implies now.spec_access(i) == self.spec_access(i) by {
                self.lemma_set_bit(idx, i);
                if self.present(i) {
                    lemma_count_bits_prefix(self.m_bitmap, i, 64);
                    lemma_count_bits_strict(self.m_bitmap, i, 64);
                    if i < idx {
                        lemma_count_bits_strict(self.m_bitmap, i, idx);
                    } else {
                        lemma_count_bits_prefix(self.m_bitmap, idx, i);
                        if self.present(idx) {
                            lemma_count_bits_strict(self.m_bitmap, idx, i);
                        }
                    }
                }
            }
        }
    }

    /// What a group holds after list `idx` was taken out.
    proof fn lemma_extract_view(&self, now: Self, idx: nat)
        requires
            self.wf(),
            idx < 64,
            self.present(idx),
            now.m_bitmap == self.m_bitmap & !(1u64 << (idx as u64)),
            now.cells() == after_extract(self.cells(), self.count(), self.rank(idx)),
        ensures
            now.wf(),
            now.spec_access(idx) is None,
            forall|i: nat| i != idx ==> now.spec_access(i) == self.spec_access(i),
            now.total() == self.total() - list_or_empty(self.spec_access(idx)).len(),
    {
        let c = self.count();
        let h = self.rank(idx);
        self.lemma_present_nonzero(idx);
        lemma_count_bits_strict(self.m_bitmap, idx, 64);
        lemma_count_clear_bit(self.m_bitmap, idx, 64);
        lemma_bit_clear(self.m_bitmap, idx, idx);
        lemma_after_extract(self.cells(), c, h);
        lemma_popcount_zero(now.m_bitmap);
        assert(self.cells()[h] <= self.cells()[h + 1]);
        assert forall|i: nat| i != idx implies now.spec_access(i) == self.spec_access(i) by {
            lemma_bit_clear(self.m_bitmap, idx, i);
            lemma_count_clear_bit(self.m_bitmap, idx, i);
            if self.present(i) {
                lemma_count_bits_strict(self.m_bitmap, i, 64);
                if i < idx {
                    lemma_count_bits_strict(self.m_bitmap, i, idx);
                } else {
                    lemma_count_bits_strict(self.m_bitmap, idx, i);
                }
            }
        }
        if c == 1 {
            assert(h == 0);
        }
    }
}

impl Default for SparseGroup {
    fn default() -> (r: Self)
        ensures
            r.wf(),
            r.total() == 0,
            r@ == Seq::new(SPARSE_GROUP_SIZE as nat, |i: int| None::<Seq<u32>>),
    {
        SparseGroup::new()
    }
}

} // verus!
