use dyft::config::IndexConfig;
use dyft::dyft::mart::query::isqrt;
use dyft::dyft::{
    DyFTPartialVerificationResult, DyFTStatistics, DyftIndex, MartConfig, MartIndex, VCodeArray,
    Verification,
};
use dyft::lsh::tensored::GridCurve;

fn three_candidates() -> (VCodeArray<u16>, VCodeArray<u16>) {
    // one vertical word per sketch; 5, 8 and 12 positions away from the query
    let data = VCodeArray::<u16>::new(&[0x001F, 0x00FF, 0x0FFF], 1);
    let queries = VCodeArray::<u16>::new(&[0x0000], 1);
    (data, queries)
}

#[test]
fn integer_square_roots() {
    let expected = [(0, 0), (1, 1), (3, 1), (4, 2), (8, 2), (9, 3), (15, 3), (16, 4), (u32::MAX, 65535)];
    for (n, r) in expected {
        assert_eq!(isqrt(n), r, "n = {}", n);
    }
}

#[test]
fn candidates_fare_by_their_distance() {
    let (data, queries) = three_candidates();
    let kind = |c: usize| DyFTPartialVerificationResult::filter(&data, &queries, 6, 9, 0, c);
    assert_eq!(kind(0), Verification::Partial);
    assert_eq!(kind(1), Verification::Full);
    assert_eq!(kind(2), Verification::Filtered);
    // the bounds themselves are within
    assert_eq!(
        DyFTPartialVerificationResult::filter(&data, &queries, 5, 8, 0, 0),
        Verification::Partial
    );
    assert_eq!(
        DyFTPartialVerificationResult::filter(&data, &queries, 5, 8, 0, 1),
        Verification::Full
    );
}

#[test]
fn partial_verification_counts_each_kind() {
    let (data, queries) = three_candidates();
    let candidates = vec![(0usize, 0usize), (0, 1), (0, 2)];
    let (result, _, _) = DyFTPartialVerificationResult::from_candidates(
        &candidates,
        &data,
        &queries,
        6,
        9,
        |_q: usize, c: usize| c != 1,
    );
    assert_eq!(result.partial_verification_count(), 1);
    assert_eq!(result.full_verification_count(), 1);
    assert_eq!(result.filtered_verification_count(), 1);
    assert_eq!(result.results(), vec![(0, 0)]);
    // a predicate that accepts keeps the second pair too
    let (result, _, _) = DyFTPartialVerificationResult::from_candidates(
        &candidates,
        &data,
        &queries,
        6,
        9,
        |_q: usize, _c: usize| true,
    );
    assert_eq!(result.full_verification_count(), 1);
    assert_eq!(result.results(), vec![(0, 0), (0, 1)]);
}

#[test]
fn outcomes_are_tallied() {
    let candidates = vec![(0usize, 0usize), (0, 1), (1, 2), (1, 3)];
    let kinds = vec![
        Verification::Full,
        Verification::Filtered,
        Verification::Partial,
        Verification::Full,
    ];
    let result =
        DyFTPartialVerificationResult::from_outcomes(&candidates, &kinds, &vec![true, true, false, false]);
    assert_eq!(result.partial_verification_count(), 1);
    assert_eq!(result.full_verification_count(), 2);
    assert_eq!(result.filtered_verification_count(), 1);
    assert_eq!(result.results(), vec![(0, 0), (1, 2)]);
}

#[test]
fn a_trie_query_verifies_what_the_search_finds() {
    let (data, queries) = three_candidates();
    // radius 9, and so a lower radius of 9 - 3 = 6
    let config = MartConfig { bits: 1, splitthreshold: Some(1000), radius: 9, errors: 16 };
    let mut index = MartIndex::new(&config, 0, 2, Vec::new());
    index.build(&data, 3);
    let mut pairs = index.trie_query(&data, &queries);
    pairs.sort();
    pairs.dedup();
    assert_eq!(pairs, vec![(0, 0), (0, 1)]);
    let result =
        index.trie_query_partial_verification(&data, &queries, |_q: usize, c: usize| c != 1);
    assert_eq!(result.partial_verification_count(), 1);
    assert_eq!(result.full_verification_count(), 1);
    assert_eq!(result.filtered_verification_count(), 1);
    assert_eq!(result.results(), vec![(0, 0)]);
}

fn curve(p: (i64, i64), q: (i64, i64)) -> GridCurve {
    // three blocks of one function on each side
    GridCurve {
        left: (0..3).map(|_| vec![vec![p, q]]).collect(),
        right: (0..3).map(|_| vec![vec![q, p]]).collect(),
    }
}

fn facade() -> DyftIndex<u8> {
    let config = IndexConfig::<MartConfig>::default().with_splitthreshold(1000);
    // 3 blocks * 2 functions * 4 coefficients + 2
    let coefficients: Vec<u8> = (0..26).map(|i| (i * 37 + 11) as u8).collect();
    DyftIndex::<u8>::new(&config, 2, coefficients, Vec::new()).expect("26 coefficients")
}

#[test]
fn the_index_hashes_builds_and_answers() {
    let mut index = facade();
    let data = [curve((1, 2), (3, 4)), curve((-5, 6), (7, -8)), curve((100, 200), (300, 400))];
    let sketches = index.hash_dataset(&data);
    assert_eq!(sketches.size(), 3);
    assert_eq!(sketches.bits(), 8);
    assert_eq!(index.hash_dataset(&data).vcodes(), sketches.vcodes());
    assert_eq!(index.hash_queryset(&data).vcodes(), sketches.vcodes());
    index.build(&sketches, 3);
    assert_eq!(index.size(), 3);
    assert_eq!(DyFTStatistics::size(&index), 3);
    assert_eq!(DyFTStatistics::stats(&index).size, 3);
    assert_eq!(DyFTStatistics::innode_stats(&index).len(), 8);
    for id in 0..3u32 {
        assert!(index.trie_search(sketches.access(id as usize)).contains(&id));
    }
    let pairs = index.trie_query_collect(&sketches, &sketches);
    for i in 0..3usize {
        assert!(pairs.contains(&(i, i)));
    }
    let verified =
        index.trie_query_collect_with_verification(&sketches, &sketches, |_q: usize, _c: usize| true);
    assert!(verified.results().contains(&(1, 1)));
}

#[test]
fn the_index_wants_its_coefficients() {
    let config = IndexConfig::<MartConfig>::default();
    assert!(DyftIndex::<u8>::new(&config, 2, vec![0u8; 25], Vec::new()).is_none());
    assert!(DyftIndex::<u16>::new(&config, 2, vec![0u16; 26], Vec::new()).is_some());
}
