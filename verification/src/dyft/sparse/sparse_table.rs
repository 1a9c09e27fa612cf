//! The posting lists of all leaves: list `i` is list `i % 64` of group
//! `i / 64`. Groups come into being as the table grows.

use crate::dyft::bit_tools::bits::{bit64, lemma_count_bits_prefix};
use crate::dyft::sparse::sparse_group::{
    lemma_count_all_set, list_or_empty, lists_extended, lists_extracted, SparseGroup,
    SPARSE_GROUP_SIZE,
};
use vstd::prelude::*;

verus! {

pub struct SparseTable {
    m_groups: Vec<SparseGroup>,
    m_size: u32,
}

/// Number of items in the first `n` groups together.
pub open spec fn groups_total(groups: Seq<SparseGroup>, n: int) -> int
    decreases n,
{
    if n <= 0 {
        0
    } else {
        groups_total(groups, n - 1) + groups[n - 1].total()
    }
}

/// Changing one group changes the total by what that group gained.
pub proof fn lemma_groups_total_update(
    before: Seq<SparseGroup>,
    after: Seq<SparseGroup>,
    g: int,
    n: int,
)
    requires
        0 <= g < before.len(),
        0 <= n <= before.len(),
        after.len() == before.len(),
        forall|k: int| 0 <= k < before.len() && k != g ==> after[k] == before[k],
    ensures
        groups_total(after, n) == groups_total(before, n) + if g < n {
            after[g].total() - before[g].total()
        } else {
            0
        },
    decreases n,
{
    if n > 0 {
        lemma_groups_total_update(before, after, g, n - 1);
    }
}

/// No group holds more than all groups together.
pub proof fn lemma_groups_total_bound(groups: Seq<SparseGroup>, g: int, n: int)
    requires
        0 <= g < n <= groups.len(),
        forall|k: int| 0 <= k < groups.len() ==> (#[trigger] groups[k]).wf(),
    ensures
        0 <= groups[g].total() <= groups_total(groups, n),
        0 <= groups_total(groups, n),
    decreases n,
{
    lemma_groups_total_nonneg(groups, n - 1);
    if g < n - 1 {
        lemma_groups_total_bound(groups, g, n - 1);
    }
}

pub proof fn lemma_groups_total_nonneg(groups: Seq<SparseGroup>, n: int)
    requires
        n <= groups.len(),
    ensures
        0 <= groups_total(groups, n),
    decreases n,
{
    if n > 0 {
        lemma_groups_total_nonneg(groups, n - 1);
    }
}

impl View for SparseTable {
    type V = Seq<Option<Seq<u32>>>;

    /// The list of every leaf id below the table's size: present or not.
    closed spec fn view(&self) -> Seq<Option<Seq<u32>>> {
        Seq::new(
            self.m_size as nat,
            |i: int| self.m_groups@[i / (SPARSE_GROUP_SIZE as int)]@[i % (SPARSE_GROUP_SIZE as int)],
        )
    }
}

impl SparseTable {
    /// Every group is well formed, there are exactly as many groups as the
    /// size needs, and no list is present at or above the size.
    pub closed spec fn wf(&self) -> bool {
        &&& forall|g: int| 0 <= g < self.m_groups@.len() ==> (#[trigger] self.m_groups@[g]).wf()
        &&& self.m_groups@.len() == (self.m_size + 63) / 64
        &&& forall|i: int|
            self.m_size <= i < self.m_groups@.len() * 64 ==> (#[trigger] self.slot(i)) is None
    }

    /// The list at index `i`, whether below the size or not.
    pub closed spec fn slot(&self, i: int) -> Option<Seq<u32>> {
        self.m_groups@[i / 64]@[i % 64]
    }

    /// Number of items in all lists together.
    pub closed spec fn total(&self) -> int {
        groups_total(self.m_groups@, self.m_groups@.len() as int)
    }

    /// Number of groups that the table has made.
    pub closed spec fn group_count(&self) -> nat {
        self.m_groups@.len()
    }

    /// Groups are made as the table grows and none ahead: a table has as
    /// many groups as its lists take, 64 lists to a group.
    pub proof fn lemma_group_count(&self)
        requires
            self.wf(),
        ensures
            self.group_count() == (self@.len() + 63) / 64,
    {
    }

    /// A table all of whose lists hold an item holds as many items as
    /// lists at least.
    pub proof fn lemma_total_lists(&self)
        requires
            self.wf(),
            forall|i: int|
                0 <= i < self@.len() ==> (#[trigger] self@[i]) is Some && self@[i]->0.len() >= 1,
        ensures
            self@.len() <= self.total(),
    {
        self.lemma_total_upto(self.m_groups@.len() as int);
    }

    proof fn lemma_total_upto(&self, n: int)
        requires
            self.wf(),
            forall|i: int|
                0 <= i < self@.len() ==> (#[trigger] self@[i]) is Some && self@[i]->0.len() >= 1,
            0 <= n <= self.m_groups@.len(),
        ensures
            groups_total(self.m_groups@, n) >= if 64 * n <= self.m_size {
                64 * n
            } else {
                self.m_size as int
            },
        decreases n,
    {
        if n > 0 {
            self.lemma_total_upto(n - 1);
            let g = n - 1;
            let group = self.m_groups@[g];
            let size = self.m_size as int;
            assert(group.wf());
            assert forall|i: nat| i < 64 && group.present(i) implies (
            #[trigger] group.spec_access(i))->0.len() >= 1 by {
                let at = 64 * g + i;
                assert(at / 64 == g && at % 64 == i);
                assert(group@[i as int] == group.spec_access(i));
                if at < size {
                    assert(self@[at] == group@[i as int]);
                } else {
                    assert(self.slot(at) is None);
                }
            }
            group.lemma_total_count();
            let here: nat = if 64 * n <= size {
                64
            } else {
                (size - 64 * g) as nat
            };
            assert forall|i: nat| i < here implies #[trigger] bit64(group.bitmap(), i) by {
                let at = 64 * g + i;
                assert(at / 64 == g && at % 64 == i);
                assert(self@[at] == group@[i as int]);
                assert(group@[i as int] == group.spec_access(i));
                assert(self@[at] is Some);
            }
            lemma_count_all_set(group.bitmap(), here);
            lemma_count_bits_prefix(group.bitmap(), here, 64);
            assert(group.count() >= here);
        }
    }

    proof fn lemma_view_slot(&self)
        ensures
            forall|i: int| 0 <= i < self.m_size ==> self@[i] == #[trigger] self.slot(i),
            self@.len() == self.m_size,
    {
    }

    /// The table without any list and without any group.
    pub fn new() -> (r: Self)
        ensures
            r.wf(),
            r@ == Seq::<Option<Seq<u32>>>::empty(),
            r.total() == 0,
            r.group_count() == 0,
    {
        let r = Self { m_groups: Vec::with_capacity(128), m_size: 0 };
        assert(r@ =~= Seq::<Option<Seq<u32>>>::empty());
        r
    }

    fn group_pos(idx: u32) -> (r: usize)
        ensures
            r == idx / 64,
    {
        (idx / SPARSE_GROUP_SIZE) as usize
    }

    fn group_mod(idx: u32) -> (r: u32)
        ensures
            r == idx % 64,
            r < 64,
    {
        idx % SPARSE_GROUP_SIZE
    }

    pub fn clear(&mut self)
        ensures
            final(self).wf(),
            final(self)@ == Seq::<Option<Seq<u32>>>::empty(),
            final(self).total() == 0,
    {
        self.m_groups.clear();
        self.m_size = 0;
        assert(self@ =~= Seq::<Option<Seq<u32>>>::empty());
    }

    /// List `idx`, if it is present.
    pub fn access(&self, idx: u32) -> (r: Option<&[u32]>)
        requires
            self.wf(),
            idx < self@.len(),
        ensures
            match r {
                Some(s) => self@[idx as int] == Some(s@),
                None => self@[idx as int] is None,
            },
    {
        self.m_groups[Self::group_pos(idx)].access(Self::group_mod(idx))
    }

    /// Makes room for one more list, which is not present yet.
    pub fn push(&mut self)
        requires
            old(self).wf(),
            old(self)@.len() < u32::MAX,
        ensures
            final(self).wf(),
            final(self)@ == old(self)@.push(None),
            final(self).total() == old(self).total(),
    {
        let ghost before = *self;
        if (self.m_size / SPARSE_GROUP_SIZE) as usize == self.m_groups.len() {
            self.m_groups.push(SparseGroup::new());
            proof {
                let n = before.m_groups@.len() as int;
                lemma_groups_total_same(before.m_groups@, self.m_groups@, n);
            }
        }
        self.m_size = self.m_size + 1;
        proof {
            assert forall|i: int|
                self.m_size <= i < self.m_groups@.len() * 64 implies (#[trigger] self.slot(
                i,
            )) is None by {
                if i < before.m_groups@.len() * 64 {
                    assert(before.slot(i) is None);
                }
            }
            assert(self@ =~= before@.push(None)) by {
                let i = before.m_size as int;
                if i < before.m_groups@.len() * 64 {
                    assert(before.slot(i) is None);
                }
                assert(self.slot(i) is None);
            }
        }
    }

    /// Adds a list that holds `datavec` at the end of the table.
    pub fn extend(&mut self, datavec: &[u32])
        requires
            old(self).wf(),
            old(self)@.len() < u32::MAX,
            old(self).total() + datavec@.len() <= u32::MAX,
        ensures
            final(self).wf(),
            final(self)@ == old(self)@.push(Some(datavec@)),
            final(self).total() == old(self).total() + datavec@.len(),
    {
        let ghost start = *self;
        self.push();
        proof {
            self.lemma_view_slot();
            start.lemma_view_slot();
        }
        let idx = self.m_size - 1;
        self.insert_iter(idx, datavec);
        proof {
            assert(Seq::<u32>::empty() + datavec@ =~= datavec@);
            assert(self@ =~= start@.push(Some(datavec@)));
        }
    }

    /// Appends `data` to list `idx`, which becomes present.
    pub fn insert(&mut self, idx: u32, data: u32)
        requires
            old(self).wf(),
            idx < old(self)@.len(),
            old(self).total() < u32::MAX,
        ensures
            final(self).wf(),
            final(self)@ == lists_extended(old(self)@, idx as int, seq![data]),
            final(self).total() == old(self).total() + 1,
    {
        let ghost before = *self;
        let gp = Self::group_pos(idx);
        let gm = Self::group_mod(idx);
        proof {
            lemma_groups_total_bound(self.m_groups@, gp as int, self.m_groups@.len() as int);
        }
        self.m_groups[gp].insert(gm, data);
        proof {
            before.lemma_group_changed(*self, idx as int, seq![data]);
        }
    }

    /// Appends `datavec` to list `idx`, which becomes present.
    pub fn insert_iter(&mut self, idx: u32, datavec: &[u32])
        requires
            old(self).wf(),
            idx < old(self)@.len(),
            old(self).total() + datavec@.len() <= u32::MAX,
        ensures
            final(self).wf(),
            final(self)@ == lists_extended(old(self)@, idx as int, datavec@),
            final(self).total() == old(self).total() + datavec@.len(),
    {
        let ghost before = *self;
        let gp = Self::group_pos(idx);
        let gm = Self::group_mod(idx);
        proof {
            lemma_groups_total_bound(self.m_groups@, gp as int, self.m_groups@.len() as int);
        }
        self.m_groups[gp].extend(gm, datavec);
        proof {
            before.lemma_group_changed(*self, idx as int, datavec@);
        }
    }

    /// Takes list `idx` out of the table and returns it, if it is present.
    pub fn extract(&mut self, idx: u32) -> (r: Option<Vec<u32>>)
        requires
            old(self).wf(),
            idx < old(self)@.len(),
        ensures
            final(self).wf(),
            match r {
                Some(v) => old(self)@[idx as int] == Some(v@),
                None => old(self)@[idx as int] is None,
            },
            final(self)@ == lists_extracted(old(self)@, idx as int),
            final(self).total() == old(self).total() - list_or_empty(old(self)@[idx as int]).len(),
    {
        let ghost before = *self;
        let gp = Self::group_pos(idx);
        let gm = Self::group_mod(idx);
        let r = self.m_groups[gp].extract(gm);
        proof {
            lemma_groups_total_update(
                before.m_groups@,
                self.m_groups@,
                gp as int,
                self.m_groups@.len() as int,
            );
            assert forall|i: int|
                self.m_size <= i < self.m_groups@.len() * 64 implies (#[trigger] self.slot(
                i,
            )) is None by {
                assert(before.slot(i) is None);
            }
            assert(self@ =~= lists_extracted(before@, idx as int));
        }
        r
    }

    /// Number of lists, present or not.
    pub fn size(&self) -> (r: u32)
        ensures
            r == self@.len(),
    {
        self.m_size
    }

    /// Number of items of list `idx`; 0 where it is not present.
    pub fn group_size(&self, idx: u32) -> (r: u32)
        requires
            self.wf(),
            idx < self@.len(),
        ensures
            r == list_or_empty(self@[idx as int]).len(),
    {
        self.m_groups[Self::group_pos(idx)].size(Self::group_mod(idx))
    }

    /// The table after list `idx` of the table gained `vs` in its group.
    proof fn lemma_group_changed(&self, now: Self, idx: int, vs: Seq<u32>)
        requires
            self.wf(),
            0 <= idx < self.m_size,
            now.m_size == self.m_size,
            now.m_groups@.len() == self.m_groups@.len(),
            forall|k: int|
                0 <= k < self.m_groups@.len() && k != idx / 64 ==> now.m_groups@[k]
                    == self.m_groups@[k],
            now.m_groups@[idx / 64].wf(),
            now.m_groups@[idx / 64]@ == lists_extended(self.m_groups@[idx / 64]@, idx % 64, vs),
            now.m_groups@[idx / 64].total() == self.m_groups@[idx / 64].total() + vs.len(),
        ensures
            now.wf(),
            now@ == lists_extended(self@, idx, vs),
            now.total() == self.total() + vs.len(),
    {
        lemma_groups_total_update(
            self.m_groups@,
            now.m_groups@,
            idx / 64,
            self.m_groups@.len() as int,
        );
        assert forall|i: int|
            now.m_size <= i < now.m_groups@.len() * 64 implies (#[trigger] now.slot(i)) is None by {
            assert(self.slot(i) is None);
        }
        assert(now@ =~= lists_extended(self@, idx, vs));
    }
}

/// Groups that were not touched keep the total.
pub proof fn lemma_groups_total_same(before: Seq<SparseGroup>, after: Seq<SparseGroup>, n: int)
    requires
        0 <= n <= before.len(),
        n <= after.len(),
        forall|k: int| 0 <= k < n ==> after[k] == before[k],
    ensures
        groups_total(after, n) == groups_total(before, n),
    decreases n,
{
    if n > 0 {
        lemma_groups_total_same(before, after, n - 1);
    }
}

impl Default for SparseTable {
    fn default() -> (r: Self)
        ensures
            r.wf(),
            r@ == Seq::<Option<Seq<u32>>>::empty(),
            r.total() == 0,
            r.group_count() == 0,
    {
        SparseTable::new()
    }
}

} // verus!
