use dyft::dyft::VCodeTools;
use dyft::lsh::tensored::GridCurve;
use dyft::lsh::{GridPoint, LinearFactorLsh, TensoredMultiHash};

fn one_point_curve(blocks_left: usize, blocks_right: usize, p: GridPoint) -> GridCurve {
    GridCurve {
        left: (0..blocks_left).map(|_| vec![vec![p]]).collect(),
        right: (0..blocks_right).map(|_| vec![vec![p]]).collect(),
    }
}

fn tensored_u8() -> TensoredMultiHash<u8> {
    // two blocks on each side with one function each, two coefficients per function
    let coefficients: Vec<u8> = vec![16, 32, 48, 64, 80, 96, 112, 128, 17, 33];
    TensoredMultiHash::<u8>::init(4, 2, 1, coefficients).expect("ten coefficients are needed")
}

#[test]
fn linear_hash_is_the_shifted_sum() {
    let h = LinearFactorLsh::<u8>::new(vec![200, 100, 50, 25]);
    // 3 * 200 + 4 * 100 + 5 * 50 + 6 * 25 = 1400 = 5 * 256 + 120, and 120 >> 4 = 7
    assert_eq!(h.hash(&[(3, 4), (5, 6)]), 7);
    let wide = LinearFactorLsh::<u16>::new(vec![200, 100, 50, 25]);
    // 1400 >> 8 = 5
    assert_eq!(wide.hash(&[(3, 4), (5, 6)]), 5);
    assert_eq!(h.hash(&[]), 0);
}

#[test]
fn linear_hash_wraps_negative_coordinates() {
    let h = LinearFactorLsh::<u8>::new(vec![1, 0]);
    // -1 is 255 modulo 256
    assert_eq!(h.hash(&[(-1, 0)]), 15);
    let w = LinearFactorLsh::<u32>::new(vec![1, 1]);
    // -1 + -1 = 2^32 - 2, shifted right by 16
    assert_eq!(w.hash(&[(-1, -1)]), 0xFFFF);
}

#[test]
fn linear_hash_skips_repeated_points() {
    let h = LinearFactorLsh::<u8>::new(vec![200, 100, 50, 25, 1, 1, 1, 1]);
    let plain = h.hash(&[(3, 4), (5, 6)]);
    assert_eq!(h.hash(&[(3, 4), (3, 4), (5, 6), (5, 6), (5, 6)]), plain);
    // a point that comes back later counts again: 1400 + 3 + 4 = 1407 = 5 * 256 + 127
    assert_eq!(h.hash(&[(3, 4), (5, 6), (3, 4)]), 7);
    assert_eq!(
        LinearFactorLsh::<u8>::new(vec![200, 100, 50, 25, 16, 16]).hash(&[(3, 4), (5, 6), (3, 4)]),
        // 1400 + 48 + 64 = 1512 = 5 * 256 + 232, and 232 >> 4 = 14
        14
    );
}

#[test]
fn linear_hash_of_a_query_is_that_of_a_curve() {
    let h = LinearFactorLsh::<u16>::new(vec![40000, 3, 77, 12345, 9, 9]);
    let curve: [GridPoint; 3] = [(7, -2), (8, -2), (8, -3)];
    assert_eq!(h.hash(&curve), h.hash_query(&curve));
}

#[test]
fn blocks_are_the_rounded_up_root() {
    let expected = [(0, 0), (1, 1), (2, 2), (3, 2), (4, 2), (5, 3), (9, 3), (10, 4), (64, 8), (65, 9)];
    for (l, r) in expected {
        assert_eq!(TensoredMultiHash::<u8>::repititions(l), r, "l = {}", l);
    }
    assert_eq!(TensoredMultiHash::<u8>::concatenations_left(5), 3);
    assert_eq!(TensoredMultiHash::<u8>::concatenations_right(5), 2);
    assert_eq!(TensoredMultiHash::<u8>::concatenations_left(4), 2);
    assert_eq!(TensoredMultiHash::<u8>::concatenations_right(4), 2);
}

#[test]
fn init_lays_the_coefficients_out() {
    let h = tensored_u8();
    assert_eq!(h.hash_length(), 4);
    assert_eq!(h.concatenations(), 2);
    assert_eq!(h.m_repititions, 2);
    assert_eq!(h.m_left_fns.len(), 2);
    assert_eq!(h.m_right_fns.len(), 2);
    assert_eq!(h.m_left_fns[0][0].rand_coefficients, vec![16, 32]);
    assert_eq!(h.m_left_fns[1][0].rand_coefficients, vec![48, 64]);
    assert_eq!(h.m_right_fns[0][0].rand_coefficients, vec![80, 96]);
    assert_eq!(h.m_right_fns[1][0].rand_coefficients, vec![112, 128]);
    assert_eq!(h.m_rand_coefficients, vec![17, 33]);
}

#[test]
fn init_wants_the_right_number_of_coefficients() {
    assert!(TensoredMultiHash::<u8>::init(4, 2, 1, vec![0; 9]).is_none());
    assert!(TensoredMultiHash::<u8>::init(4, 2, 1, vec![0; 11]).is_none());
    assert!(TensoredMultiHash::<u8>::init(4, 2, 1, vec![0; 10]).is_some());
    // one concatenation leaves nothing to combine the two sides with
    assert!(TensoredMultiHash::<u8>::init(4, 1, 1, vec![0; 5]).is_none());
    // no hash, no block: the coefficients of the combination only
    assert!(TensoredMultiHash::<u8>::init(0, 2, 7, vec![0; 2]).is_some());
    // three functions go two to the left and one to the right: 3 * 3 * 4 + 3
    let h = TensoredMultiHash::<u16>::init(5, 3, 2, (0..39).collect()).expect("39 coefficients");
    assert_eq!(h.m_left_fns[0].len(), 2);
    assert_eq!(h.m_right_fns[0].len(), 1);
    assert_eq!(h.m_left_fns[2][1].rand_coefficients, vec![20, 21, 22, 23]);
    assert_eq!(h.m_right_fns[0][0].rand_coefficients, vec![24, 25, 26, 27]);
    assert_eq!(h.m_rand_coefficients, vec![36, 37, 38]);
}

#[test]
fn multi_hash_pairs_left_and_right() {
    let h = tensored_u8();
    let curve = one_point_curve(2, 2, (1, 1));
    // functions: 48 >> 4 = 3, 112 >> 4 = 7, 176 >> 4 = 11, 240 >> 4 = 15;
    // blocks: 3 * 17 >> 4 = 3, 7 * 17 >> 4 = 7, 11 * 17 >> 4 = 11, 15 * 17 >> 4 = 15;
    // pairs: (3 * 17 + 11 * 33) % 256 >> 4 = 9, and so on
    assert_eq!(h.multi_hash(&curve.left, &curve.right), vec![9, 2, 14, 6]);
    assert_eq!(h.multi_hash_query(&curve.left, &curve.right), vec![9, 2, 14, 6]);
}

#[test]
fn multi_hash_gives_as_many_hashes_as_asked_for() {
    let coefficients: Vec<u8> = vec![16, 32, 48, 64, 80, 96, 112, 128, 17, 33];
    let h = TensoredMultiHash::<u8>::init(3, 2, 1, coefficients).expect("ten coefficients");
    let curve = one_point_curve(2, 2, (1, 1));
    assert_eq!(h.multi_hash(&curve.left, &curve.right), vec![9, 2, 14]);
}

#[test]
fn multi_hash_is_a_function_of_the_curve() {
    let h = tensored_u8();
    let curve = GridCurve {
        left: vec![vec![vec![(5, -3)]], vec![vec![(6, -3)]]],
        right: vec![vec![vec![(4, -4)]], vec![vec![(5, -2)]]],
    };
    let first = h.multi_hash(&curve.left, &curve.right);
    let second = h.multi_hash(&curve.left, &curve.right);
    assert_eq!(first, second);
    assert_eq!(first.len(), 4);
}

#[test]
fn dataset_hashes_follow_each_other() {
    let h = tensored_u8();
    let a = one_point_curve(2, 2, (1, 1));
    let b = one_point_curve(2, 2, (0, 0));
    let data = [a, b];
    let sketches = h.hash_to_vcodes(&data, 4);
    assert_eq!(sketches.size(), 2);
    assert_eq!(sketches.bits(), 4);
    assert_eq!(sketches.access(0), &[9u8, 2, 14, 6][..]);
    assert_eq!(sketches.access(1), &[0u8, 0, 0, 0][..]);
    let again = h.hash_to_vcodes(&data, 4);
    assert_eq!(sketches.vcodes(), again.vcodes());
    let queries = h.hash_query_to_vcodes(&data, 4);
    assert_eq!(queries.vcodes(), sketches.vcodes());
    assert_eq!(u8::hamdist(sketches.access(0), queries.access(0), 4), 0);
}
