//! Helpers for the results of a run of queries.

use crate::id::ID;
use std::collections::HashMap;
use vstd::prelude::*;

verus! {

broadcast use vstd::std_specs::hash::group_hash_axioms;

/// The size of an index in memory.
#[derive(Debug)]
pub struct IndexSize {
    pub stack_size: usize,
    pub heap_size: usize,
}

impl Default for IndexSize {
    fn default() -> (r: Self)
        ensures
            r.stack_size == 0,
            r.heap_size == 0,
    {
        IndexSize { stack_size: 0, heap_size: 0 }
    }
}

/// Number of the first `n` results that belong to the query `query`.
pub open spec fn candidates_of(results: Seq<(usize, usize)>, query: usize, n: int) -> nat
    decreases n,
{
    if n <= 0 {
        0
    } else {
        candidates_of(results, query, n - 1) + if results[n - 1].0 == query {
            1nat
        } else {
            0nat
        }
    }
}

pub proof fn lemma_candidates_bound(results: Seq<(usize, usize)>, query: usize, n: int)
    requires
        0 <= n <= results.len(),
    ensures
        candidates_of(results, query, n) <= n,
        candidates_of(results, query, n) > 0 <==> exists|i: int|
            0 <= i < n && (#[trigger] results[i]).0 == query,
    decreases n,
{
    if n > 0 {
        lemma_candidates_bound(results, query, n - 1);
        if candidates_of(results, query, n - 1) > 0 {
            let i = choose|i: int| 0 <= i < n - 1 && (#[trigger] results[i]).0 == query;
            assert(0 <= i < n && results[i].0 == query);
        }
        if results[n - 1].0 == query {
            assert(0 <= n - 1 < n && results[n - 1].0 == query);
        }
    }
}

/// For each query that has a result, the number of its results.
pub fn count_candidates(results: &[(usize, usize)]) -> (r: HashMap<usize, usize>)
    ensures
        forall|query: usize|
            r@.contains_key(query) <==> candidates_of(results@, query, results@.len() as int) > 0,
        forall|query: usize|
            r@.contains_key(query) ==> r@[query] == candidates_of(
                results@,
                query,
                results@.len() as int,
            ),
{
    let mut counts: HashMap<usize, usize> = HashMap::new();
    let mut i: usize = 0;
    while i < results.len()
        invariant
            i <= results@.len(),
            forall|query: usize|
                counts@.contains_key(query) <==> candidates_of(results@, query, i as int) > 0,
            forall|query: usize|
                counts@.contains_key(query) ==> counts@[query] == candidates_of(
                    results@,
                    query,
                    i as int,
                ),
        decreases results@.len() - i,
    {
        let query = results[i].0;
        proof {
            lemma_candidates_bound(results@, query, i as int);
        }
        let seen: usize = match counts.get(&query) {
            Some(v) => *v,
            None => 0,
        };
        counts.insert(query, seen + 1);
        i = i + 1;
    }
    counts
}

/// The pairs of identifiers that the results stand for: for each result
/// whose query is one of `queryset` and whose candidate is one of
/// `dataset`, the identifier of the query and that of the candidate.
pub open spec fn mapped_ids<T>(
    results: Seq<(usize, usize)>,
    dataset: Seq<ID<T>>,
    queryset: Seq<ID<T>>,
    n: int,
) -> Seq<(ID<T>, ID<T>)>
    decreases n,
{
    if n <= 0 {
        Seq::empty()
    } else if results[n - 1].0 < queryset.len() && results[n - 1].1 < dataset.len() {
        mapped_ids(results, dataset, queryset, n - 1).push(
            (queryset[results[n - 1].0 as int], dataset[results[n - 1].1 as int]),
        )
    } else {
        mapped_ids(results, dataset, queryset, n - 1)
    }
}

/// The results as pairs of identifiers; a result that points outside
/// `queryset` or `dataset` is left out.
pub fn map_to_trajectory_ids<T>(
    results: &[(usize, usize)],
    dataset: &[ID<T>],
    queryset: &[ID<T>],
) -> (r: Vec<(ID<T>, ID<T>)>)
    ensures
        r@ == mapped_ids(results@, dataset@, queryset@, results@.len() as int),
{
    let mut out: Vec<(ID<T>, ID<T>)> = Vec::new();
    let mut i: usize = 0;
    while i < results.len()
        invariant
            i <= results@.len(),
            out@ == mapped_ids(results@, dataset@, queryset@, i as int),
        decreases results@.len() - i,
    {
        let (query, candidate) = results[i];
        if query < queryset.len() && candidate < dataset.len() {
            out.push((queryset[query], dataset[candidate]));
        }
        i = i + 1;
    }
    out
}

} // verus!
