use dyft::dyft::{BitTools, BytePack, SketchError, VCodeArray, VCodeTools, VCodeToolsBase};

const BYTES_IN_TEST: &[u8] = &[
    1, 2, 3, 4, 5, 6, 7, 8, 9, 10, 11, 12, 13, 14, 15, 16, 17, 18, 19, 20, 21, 22, 23, 24, 25,
    26, 27, 28, 29, 30, 31, 32,
];

const SAMPLE_VCODE_32: [u32; 8] = [
    3348024405, 1932228148, 4083539617, 3119178199, 3348024405, 1932228148, 4083539617,
    3119178199,
];

const SAMPLE_CHUNK: [u8; 32] = [
    141, 11, 107, 201, 104, 87, 166, 223, 182, 181, 224, 156, 127, 129, 238, 215, 0, 0, 0, 0, 0,
    0, 0, 0, 0, 0, 0, 0, 0, 0, 0, 0,
];

const SAMPLE_BYTES: [u8; 32] = [
    13, 8, 11, 0, 11, 6, 9, 12, 8, 6, 7, 5, 6, 10, 15, 13, 6, 11, 5, 11, 0, 14, 12, 9, 15, 7, 1,
    8, 14, 14, 7, 13,
];

#[test]
fn hamdist_test() {
    assert_eq!(0, u8::hamdist(&[1, 0, 1], &[1, 0, 1], 3));
    assert_eq!(3, u32::hamdist(&[1, 2, 3, 4, 5], &[1, 2, 4, 4, 5], 3));
    assert_eq!(3, u8::hamdist(&[1, 2, 3, 4, 5], &[1, 2, 4, 4, 5], 3));
}

#[test]
fn to_vint_test() {
    assert_eq!(2139127680, u32::to_vint(BYTES_IN_TEST, 3))
}

#[test]
fn to_vints_test() {
    let out = u32::to_vints(BYTES_IN_TEST, 3);
    assert_eq!(vec![1431655765u32, 1717986918, 2021161080], out);
}

#[test]
fn test_to_chunks() {
    // four planes: two positions to a label, and no label beyond the word
    let bits = 4;
    let vcodes = VCodeArray::<u32>::new(&SAMPLE_VCODE_32, bits);
    let ints_per_chunk = BytePack::<u32>::ints_per_chunk(bits);
    let bytes = BytePack::<u32>::pack_iter(vcodes.access(0), 0, u32::n_dim(), bits, ints_per_chunk);
    assert_eq!(&SAMPLE_CHUNK[..], bytes.as_slice());
}

#[test]
fn test_to_bytes() {
    let bits = 4;
    let vcodes = VCodeArray::<u32>::new(&SAMPLE_VCODE_32, bits);
    let bytes = BytePack::<u32>::byte_iter(vcodes.access(0), 0, u32::n_dim(), bits);
    assert_eq!(&SAMPLE_BYTES[..], bytes.as_slice());
}

#[test]
fn popcnt_counts_ones() {
    assert_eq!(BitTools::popcnt(0), 0);
    assert_eq!(BitTools::popcnt(0b1011), 3);
    assert_eq!(BitTools::popcnt(u64::MAX), 64);
}

#[test]
fn bitmask_values() {
    assert_eq!(BitTools::bitmask(0), 0);
    assert_eq!(BitTools::bitmask(1), 1);
    assert_eq!(BitTools::bitmask(5), 31);
    assert_eq!(BitTools::bitmask(63), u64::MAX >> 1);
}

#[test]
fn hamdist_counts_positions_not_bits() {
    // both planes differ at position 0: one position, two bits
    assert_eq!(1, u8::hamdist(&[1, 1], &[0, 0], 2));
    assert_eq!(0, u64::hamdist(&[], &[], 0));
    assert_eq!(64, u64::hamdist(&[u64::MAX], &[0], 1));
}

#[test]
fn hamdist_radius_exits_early() {
    // the sketches differ in three planes, at three different positions
    let x: [u16; 4] = [0b001, 0b010, 0b100, 0];
    let y: [u16; 4] = [0, 0, 0, 0];
    let d = u16::hamdist_radius(&x, &y, 4, 2);
    assert!(d > 2);
    assert_eq!(d, 3);
    // with a larger radius the full distance comes back
    assert_eq!(u16::hamdist_radius(&x, &y, 4, 3), 3);
    // the scan stops at the first plane that exceeds the radius
    let x2: [u16; 2] = [0b1111, 0xFF00];
    let y2: [u16; 2] = [0, 0];
    assert_eq!(u16::hamdist_radius(&x2, &y2, 2, 3), 4);
    assert_eq!(u16::hamdist(&x2, &y2, 2), 12);
}

#[test]
fn to_byte_reads_one_position() {
    let x: [u8; 3] = [0b0000_0101, 0b0000_0011, 0b0000_0100];
    assert_eq!(u8::to_byte(&x, 0, 3), 0b011);
    assert_eq!(u8::to_byte(&x, 1, 3), 0b010);
    assert_eq!(u8::to_byte(&x, 2, 3), 0b101);
    assert_eq!(u8::to_byte(&x, 0, 1), 1);
    assert_eq!(u8::to_byte(&x, 0, 0), 0);
}

#[test]
fn round_trip_bytes_through_planes() {
    for bits in 1..=8usize {
        let planes = u32::to_vints(BYTES_IN_TEST, bits);
        for i in 0..32usize {
            let mask = ((1u32 << bits) - 1) as u8;
            assert_eq!(BytePack::<u32>::pack(&planes, 1, bits, i), BYTES_IN_TEST[i] & mask);
        }
    }
}

#[test]
fn pack_with_one_bit_is_a_shift() {
    let word: [u64; 1] = [0x0123_4567_89AB_CDEF];
    let ipc = BytePack::<u64>::ints_per_chunk(1);
    assert_eq!(ipc, 8);
    assert_eq!(BytePack::<u64>::pack(&word, ipc, 1, 0), 0xEF);
    assert_eq!(BytePack::<u64>::pack(&word, ipc, 1, 1), 0xCD);
    assert_eq!(BytePack::<u64>::pack(&word, ipc, 1, 7), 0x01);
    assert_eq!(BytePack::<u64>::pack(&word, ipc, 1, 8), 0);
    let small: [u8; 1] = [0xFF];
    assert_eq!(BytePack::<u8>::pack(&small, ipc, 1, 0), 0xFF);
}

#[test]
fn pack_two_positions_of_four_bits() {
    // position 0 holds 0xA, position 1 holds 0x5
    let bytes: [u8; 8] = [0xA, 0x5, 0, 0, 0, 0, 0, 0];
    let planes = u8::to_vints(&bytes, 4);
    assert_eq!(BytePack::<u8>::ints_per_chunk(4), 2);
    assert_eq!(BytePack::<u8>::pack(&planes, 2, 4, 0), 0x5A);
    assert_eq!(BytePack::<u8>::pack_iter(&planes, 0, 4, 4, 2), vec![0x5A, 0, 0, 0]);
}

#[test]
fn ints_per_chunk_values() {
    let expected = [8usize, 4, 2, 2, 1, 1, 1, 1];
    for bits in 1..=8usize {
        assert_eq!(BytePack::<u64>::ints_per_chunk(bits), expected[bits - 1]);
    }
}

#[test]
fn append_rejects_short_sketches() {
    let mut a = VCodeArray::<u32>::empty(3);
    assert_eq!(a.append(&BYTES_IN_TEST[..31]), Err(SketchError::InsufficientSketchWidth));
    assert_eq!(a.size(), 0);
    assert_eq!(a.append(BYTES_IN_TEST), Ok(()));
    assert_eq!(a.size(), 1);
    assert_eq!(a.bits(), 3);
    assert_eq!(a.access(0), &[1431655765u32, 1717986918, 2021161080][..]);
    assert_eq!(a.vcodes().len(), 3);
}

#[test]
fn linear_search_pairs_queries_with_candidates() {
    let data = VCodeArray::<u8>::new(&[0b0000, 0b0001, 0b0111, 0b1111], 1);
    let queries = VCodeArray::<u8>::from_hashes(vec![0b0000, 0b1111], 1);
    assert_eq!(data.linear_search(&queries, 1), vec![(0, 0), (0, 1), (1, 2), (1, 3)]);
    assert!(data.verify_candidate_predicate(2, queries.access(1), 1));
    assert!(!data.verify_candidate_predicate(1, queries.access(1), 1));
    assert_eq!(data.hamdist_radius(1, queries.access(1), 8), 3);
    assert_eq!(data.iter().len(), 4);
}

#[test]
fn wrapping_arithmetic_per_width() {
    assert_eq!(<u8 as VCodeToolsBase>::wrapping_add(200, 100), 44);
    assert_eq!(<u8 as VCodeToolsBase>::wrapping_mul(16, 17), 16);
    assert_eq!(<u16 as VCodeToolsBase>::shr_half(0xABCD), 0xAB);
    assert_eq!(<u64 as VCodeToolsBase>::shr_half(0x0123_4567_89AB_CDEF), 0x0123_4567);
    assert_eq!(<u8 as VCodeToolsBase>::wrap_to_t(-1), 255);
    assert_eq!(<u8 as VCodeToolsBase>::wrap_to_t(257), 1);
    assert_eq!(<u32 as VCodeToolsBase>::wrap_to_t(-2), u32::MAX - 1);
    assert_eq!(<u64 as VCodeToolsBase>::wrap_to_t(i64::MIN), 1u64 << 63);
    assert_eq!(<u64 as VCodeToolsBase>::wrap_to_t(-1), u64::MAX);
    assert_eq!(<u16 as VCodeToolsBase>::size_of(), 16);
    assert_eq!(<u32 as VCodeToolsBase>::from_u64(7).to_u64(), 7);
}
