use dyft::dyft::io::{vcodes_from_bin, vcodes_from_bvecs, LoadError};
use dyft::dyft::{VCodeArray, VCodeTools};

fn words(values: &[u64]) -> Vec<u8> {
    values.iter().flat_map(|v| v.to_le_bytes()).collect()
}

fn vector(len: u32, code: &[u8]) -> Vec<u8> {
    let mut out = len.to_le_bytes().to_vec();
    out.extend_from_slice(code);
    out
}

#[test]
fn words_that_fit_become_sketches() {
    let buf = words(&[5, 300, 255, 1 << 40, 0]);
    let narrow = vcodes_from_bin::<u8>(&buf);
    assert_eq!(narrow.bits(), 1);
    assert_eq!(narrow.vcodes(), &[5u8, 255, 0][..]);
    let wider = vcodes_from_bin::<u16>(&buf);
    assert_eq!(wider.vcodes(), &[5u16, 300, 255, 0][..]);
    let widest = vcodes_from_bin::<u64>(&buf);
    assert_eq!(widest.vcodes(), &[5u64, 300, 255, 1 << 40, 0][..]);
    assert_eq!(vcodes_from_bin::<u32>(&[]).size(), 0);
    // the lowest byte comes first
    assert_eq!(
        vcodes_from_bin::<u64>(&[1, 2, 3, 4, 5, 6, 7, 8]).vcodes(),
        &[0x0807_0605_0403_0201u64][..]
    );
}

#[test]
fn byte_vectors_become_sketches() {
    let a = [1u8, 2, 3, 4, 5, 6, 7, 8];
    let b = [255u8, 0, 255, 0, 255, 0, 255, 0];
    let mut buf = vector(8, &a);
    buf.extend(vector(8, &b));
    // what is left after the last vector is passed over
    buf.extend([9u8, 9, 9]);
    let loaded = vcodes_from_bvecs::<u8>(&buf, 3).expect("two whole vectors");
    let mut expected = VCodeArray::<u8>::empty(3);
    expected.append(&a).expect("wide enough");
    expected.append(&b).expect("wide enough");
    assert_eq!(loaded.size(), 2);
    assert_eq!(loaded.bits(), 3);
    assert_eq!(loaded.vcodes(), expected.vcodes());
    assert_eq!(loaded.access(1), &[0b0101_0101u8, 0b0101_0101, 0b0101_0101][..]);
    assert_eq!(loaded.access(0)[0], u8::to_vint(&a, 0));
}

#[test]
fn a_longer_vector_is_cut_and_not_skipped() {
    // the ninth byte of the vector is read as the head of the next one
    let mut buf = vector(9, &[1, 1, 1, 1, 1, 1, 1, 1, 8]);
    buf.extend([0u8, 0, 0]);
    buf.extend([2u8; 8]);
    let loaded = vcodes_from_bvecs::<u8>(&buf, 2).expect("two vectors");
    assert_eq!(loaded.size(), 2);
    assert_eq!(loaded.access(0), &[0xFFu8, 0][..]);
    assert_eq!(loaded.access(1), &[0u8, 0xFF][..]);
}

#[test]
fn bad_byte_vectors_are_refused() {
    let short = vector(7, &[1, 2, 3, 4, 5, 6, 7, 8]);
    assert_eq!(
        vcodes_from_bvecs::<u8>(&short, 1).err(),
        Some(LoadError::DimensionTooSmall)
    );
    let cut = vector(8, &[1, 2, 3, 4, 5, 6, 7]);
    assert_eq!(vcodes_from_bvecs::<u8>(&cut, 1).err(), Some(LoadError::Truncated));
    let mut second_cut = vector(8, &[1, 2, 3, 4, 5, 6, 7, 8]);
    second_cut.extend(vector(16, &[1, 2]));
    assert_eq!(
        vcodes_from_bvecs::<u8>(&second_cut, 1).err(),
        Some(LoadError::Truncated)
    );
    // sixteen positions want sixteen bytes
    let narrow = vector(8, &[0; 16]);
    assert_eq!(
        vcodes_from_bvecs::<u16>(&narrow, 1).err(),
        Some(LoadError::DimensionTooSmall)
    );
    assert_eq!(vcodes_from_bvecs::<u8>(&[], 1).expect("nothing to read").size(), 0);
    assert_eq!(vcodes_from_bvecs::<u8>(&[8, 0, 0], 1).expect("no whole head").size(), 0);
}
