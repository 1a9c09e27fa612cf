//! The ids of a posting list sorted into buckets by the label of their
//! sketch at one byte position.

use vstd::prelude::*;

verus! {

/// The label of sketch `id` at place `pos`.
pub open spec fn key_of(db: Seq<Seq<u8>>, pos: int, id: u32) -> u8 {
    db[id as int][pos]
}

/// The ids among `ids` whose sketch has label `l` at place `pos`, in their
/// order.
pub open spec fn bucket(ids: Seq<u32>, db: Seq<Seq<u8>>, pos: int, l: u8) -> Seq<u32>
    decreases ids.len(),
{
    if ids.len() == 0 {
        Seq::empty()
    } else {
        let rest = bucket(ids.drop_last(), db, pos, l);
        if key_of(db, pos, ids.last()) == l {
            rest.push(ids.last())
        } else {
            rest
        }
    }
}

/// The buckets of the labels below `n` together have this many ids.
pub open spec fn bucket_total(ids: Seq<u32>, db: Seq<Seq<u8>>, pos: int, n: int) -> int
    decreases n,
{
    if n <= 0 {
        0
    } else {
        bucket_total(ids, db, pos, n - 1) + bucket(ids, db, pos, (n - 1) as u8).len()
    }
}

/// The buckets of the labels below `n`, one after the other.
pub open spec fn concat_buckets(ids: Seq<u32>, db: Seq<Seq<u8>>, pos: int, n: int) -> Seq<u32>
    decreases n,
{
    if n <= 0 {
        Seq::empty()
    } else {
        concat_buckets(ids, db, pos, n - 1) + bucket(ids, db, pos, (n - 1) as u8)
    }
}

/// Every id of a bucket is one of the ids, and its sketch has the label of
/// the bucket.
pub proof fn lemma_bucket_sound(ids: Seq<u32>, db: Seq<Seq<u8>>, pos: int, l: u8, i: int)
    requires
        0 <= i < bucket(ids, db, pos, l).len(),
    ensures
        ids.contains(bucket(ids, db, pos, l)[i]),
        key_of(db, pos, bucket(ids, db, pos, l)[i]) == l,
    decreases ids.len(),
{
    if ids.len() > 0 {
        let rest = bucket(ids.drop_last(), db, pos, l);
        if i < rest.len() {
            lemma_bucket_sound(ids.drop_last(), db, pos, l, i);
            let w = choose|w: int| 0 <= w < ids.drop_last().len() && ids.drop_last()[w] == rest[i];
            assert(ids[w] == rest[i]);
        } else {
            assert(ids[ids.len() - 1] == ids.last());
        }
    }
}

/// Every id is in the bucket of the label of its sketch.
pub proof fn lemma_bucket_complete(ids: Seq<u32>, db: Seq<Seq<u8>>, pos: int, i: int)
    requires
        0 <= i < ids.len(),
    ensures
        bucket(ids, db, pos, key_of(db, pos, ids[i])).contains(ids[i]),
    decreases ids.len(),
{
    let l = key_of(db, pos, ids[i]);
    let b = bucket(ids, db, pos, l);
    let rest = bucket(ids.drop_last(), db, pos, l);
    if i == ids.len() - 1 {
        assert(b[b.len() - 1] == ids[i]);
    } else {
        lemma_bucket_complete(ids.drop_last(), db, pos, i);
        let w = choose|w: int| 0 <= w < rest.len() && rest[w] == ids[i];
        assert(b[w] == ids[i]);
    }
}

/// The bucket of one more id.
pub proof fn lemma_bucket_push(ids: Seq<u32>, db: Seq<Seq<u8>>, pos: int, id: u32, l: u8)
    ensures
        bucket(ids.push(id), db, pos, l) == if key_of(db, pos, id) == l {
            bucket(ids, db, pos, l).push(id)
        } else {
            bucket(ids, db, pos, l)
        },
{
    assert(ids.push(id).drop_last() =~= ids);
}

proof fn lemma_bucket_total_push(ids: Seq<u32>, db: Seq<Seq<u8>>, pos: int, id: u32, n: int)
    requires
        0 <= n <= 256,
    ensures
        bucket_total(ids.push(id), db, pos, n) == bucket_total(ids, db, pos, n) + if key_of(
            db,
            pos,
            id,
        ) < n {
            1int
        } else {
            0int
        },
    decreases n,
{
    if n > 0 {
        lemma_bucket_total_push(ids, db, pos, id, n - 1);
        lemma_bucket_push(ids, db, pos, id, (n - 1) as u8);
    }
}

/// All buckets together have as many ids as there are.
pub proof fn lemma_bucket_total(ids: Seq<u32>, db: Seq<Seq<u8>>, pos: int)
    ensures
        bucket_total(ids, db, pos, 256) == ids.len(),
    decreases ids.len(),
{
    if ids.len() == 0 {
        assert(ids =~= Seq::<u32>::empty());
        lemma_bucket_total_empty(db, pos, 256);
    } else {
        lemma_bucket_total(ids.drop_last(), db, pos);
        lemma_bucket_total_push(ids.drop_last(), db, pos, ids.last(), 256);
        assert(ids.drop_last().push(ids.last()) =~= ids);
    }
}

proof fn lemma_bucket_total_empty(db: Seq<Seq<u8>>, pos: int, n: int)
    ensures
        bucket_total(Seq::empty(), db, pos, n) == 0,
    decreases n,
{
    if n > 0 {
        lemma_bucket_total_empty(db, pos, n - 1);
    }
}

/// The totals of the buckets grow with the labels.
pub proof fn lemma_bucket_total_mono(ids: Seq<u32>, db: Seq<Seq<u8>>, pos: int, n: int, m: int)
    requires
        0 <= n <= m,
    ensures
        bucket_total(ids, db, pos, n) <= bucket_total(ids, db, pos, m),
        0 <= bucket_total(ids, db, pos, n),
    decreases m - n,
{
    if n < m {
        lemma_bucket_total_mono(ids, db, pos, n, m - 1);
    } else {
        lemma_bucket_total_nonneg(ids, db, pos, n);
    }
    lemma_bucket_total_nonneg(ids, db, pos, n);
}

proof fn lemma_bucket_total_nonneg(ids: Seq<u32>, db: Seq<Seq<u8>>, pos: int, n: int)
    ensures
        0 <= bucket_total(ids, db, pos, n),
    decreases n,
{
    if n > 0 {
        lemma_bucket_total_nonneg(ids, db, pos, n - 1);
    }
}

proof fn lemma_concat_push(ids: Seq<u32>, db: Seq<Seq<u8>>, pos: int, id: u32, n: int)
    requires
        0 <= n <= 256,
    ensures
        concat_buckets(ids.push(id), db, pos, n).to_multiset() == if key_of(db, pos, id) < n {
            concat_buckets(ids, db, pos, n).to_multiset().insert(id)
        } else {
            concat_buckets(ids, db, pos, n).to_multiset()
        },
    decreases n,
{
    broadcast use vstd::seq_lib::group_to_multiset_ensures;

    if n > 0 {
        lemma_concat_push(ids, db, pos, id, n - 1);
        lemma_bucket_push(ids, db, pos, id, (n - 1) as u8);
        let a = concat_buckets(ids, db, pos, n - 1);
        let b = bucket(ids, db, pos, (n - 1) as u8);
        let a2 = concat_buckets(ids.push(id), db, pos, n - 1);
        let b2 = bucket(ids.push(id), db, pos, (n - 1) as u8);
        vstd::seq_lib::lemma_multiset_commutative(a, b);
        vstd::seq_lib::lemma_multiset_commutative(a2, b2);
        if key_of(db, pos, id) == n - 1 {
            assert(b2.to_multiset() =~= b.to_multiset().insert(id));
            assert((a2 + b2).to_multiset() =~= (a + b).to_multiset().insert(id));
        } else if key_of(db, pos, id) < n - 1 {
            assert((a2 + b2).to_multiset() =~= (a + b).to_multiset().insert(id));
        }
    }
}

/// The buckets together hold exactly the ids, each as often as it occurs
/// among them.
pub proof fn lemma_buckets_partition(ids: Seq<u32>, db: Seq<Seq<u8>>, pos: int)
    ensures
        concat_buckets(ids, db, pos, 256).to_multiset() == ids.to_multiset(),
    decreases ids.len(),
{
    broadcast use vstd::seq_lib::group_to_multiset_ensures;

    if ids.len() == 0 {
        assert(ids =~= Seq::<u32>::empty());
        lemma_concat_empty(db, pos, 256);
    } else {
        lemma_buckets_partition(ids.drop_last(), db, pos);
        lemma_concat_push(ids.drop_last(), db, pos, ids.last(), 256);
        assert(ids.drop_last().push(ids.last()) =~= ids);
    }
}

proof fn lemma_concat_empty(db: Seq<Seq<u8>>, pos: int, n: int)
    ensures
        concat_buckets(Seq::empty(), db, pos, n) == Seq::<u32>::empty(),
    decreases n,
{
    if n > 0 {
        lemma_concat_empty(db, pos, n - 1);
        assert(concat_buckets(Seq::empty(), db, pos, n) =~= Seq::<u32>::empty());
    }
}

} // verus!
