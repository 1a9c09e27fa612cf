use dyft::dyft::{SparseGroup, SparseTable};

#[test]
fn test_sparse_group_insert() {
    let mut sparse_group = SparseGroup::default();
    sparse_group.insert(0, 0);
    sparse_group.extract(0);
    sparse_group.extend(0, &[0]);
    sparse_group.insert(1, 1);
    sparse_group.extract(1);
    sparse_group.extend(1, &[1]);
    sparse_group.insert(2, 2);
    sparse_group.extract(2);
    sparse_group.extend(2, &[2]);
    sparse_group.insert(3, 3);
    sparse_group.extract(3);
    sparse_group.extend(3, &[3]);
    sparse_group.insert(4, 4);
    sparse_group.extract(4);
    sparse_group.extend(4, &[4]);
    sparse_group.insert(5, 5);
    sparse_group.extract(5);
    sparse_group.extend(5, &[5]);
    sparse_group.insert(6, 6);
    sparse_group.extract(6);
    sparse_group.extend(6, &[6]);
    sparse_group.insert(7, 7);
    sparse_group.extract(7);
    sparse_group.extend(7, &[7]);
    sparse_group.insert(6, 8);
    sparse_group.extract(6);
    sparse_group.extend(6, &[8]);
    sparse_group.extend(8, &[6]);
    sparse_group.insert(9, 9);
    sparse_group.extract(9);
    sparse_group.extend(9, &[9]);
    sparse_group.insert(10, 10);
    sparse_group.extract(10);
    sparse_group.extend(10, &[10]);
    sparse_group.insert(11, 11);
    sparse_group.extract(11);
    sparse_group.extend(11, &[11]);
    sparse_group.insert(12, 12);
    sparse_group.extract(12);
    sparse_group.extend(12, &[12]);
    sparse_group.insert(13, 13);
    sparse_group.extract(13);
    sparse_group.extend(13, &[13]);
    sparse_group.insert(14, 14);
    sparse_group.extract(14);
    sparse_group.extend(14, &[14]);
    sparse_group.insert(15, 15);
    sparse_group.extract(15);
    sparse_group.extend(15, &[15]);
    sparse_group.insert(16, 16);
    sparse_group.extract(16);
    sparse_group.extend(16, &[16]);
    sparse_group.insert(17, 17);
    sparse_group.extract(17);
    sparse_group.extend(17, &[17]);
    sparse_group.insert(18, 18);
    sparse_group.extract(18);
    sparse_group.extend(18, &[18]);
    sparse_group.insert(19, 19);
    sparse_group.extract(19);
    sparse_group.extend(19, &[19]);
    let truth: &[u32] = &[
        0, 1, 2, 3, 4, 5, 6, 7, 8, 9, 10, 11, 12, 13, 14, 15, 16, 17, 18, 19, 20, 0, 1, 2, 3, 4,
        5, 8, 7, 6, 9, 10, 11, 12, 13, 14, 15, 16, 17, 18, 19,
    ];
    let len = sparse_group.group().len();
    assert_eq!(truth.len(), len);
    assert_eq!(truth, sparse_group.group());
}

#[test]
fn sparse_group_lists_are_independent() {
    let mut g = SparseGroup::new();
    assert_eq!(g.access(5), None);
    assert_eq!(g.size(5), 0);
    g.insert(5, 50);
    g.insert(2, 20);
    g.insert(5, 51);
    g.insert(63, 630);
    g.extend(2, &[21, 22]);
    assert_eq!(g.access(2), Some(&[20u32, 21, 22][..]));
    assert_eq!(g.access(5), Some(&[50u32, 51][..]));
    assert_eq!(g.access(63), Some(&[630u32][..]));
    assert_eq!(g.access(0), None);
    assert_eq!(g.size(2), 3);
    assert_eq!(g.size(5), 2);
    // offsets of three lists, then the items in the order of the lists
    assert_eq!(g.group(), &[0u32, 3, 5, 6, 20, 21, 22, 50, 51, 630][..]);
    assert_eq!(g.extract(5), Some(vec![50, 51]));
    assert_eq!(g.extract(5), None);
    assert_eq!(g.access(2), Some(&[20u32, 21, 22][..]));
    assert_eq!(g.access(63), Some(&[630u32][..]));
    assert_eq!(g.group(), &[0u32, 3, 4, 20, 21, 22, 630][..]);
}

#[test]
fn sparse_group_empty_list_is_present() {
    let mut g = SparseGroup::new();
    g.extend(7, &[]);
    assert_eq!(g.access(7), Some(&[][..]));
    assert_eq!(g.size(7), 0);
    assert_eq!(g.extract(7), Some(vec![]));
    assert_eq!(g.access(7), None);
}

#[test]
fn extract_then_extend_restores_the_list() {
    let mut t = SparseTable::new();
    for i in 0..200u32 {
        t.push();
        t.insert(i, i);
        t.insert(i, i + 1000);
    }
    assert_eq!(t.size(), 200);
    let before = t.extract(130);
    assert_eq!(before, Some(vec![130, 1130]));
    assert_eq!(t.access(130), None);
    assert_eq!(t.group_size(130), 0);
    let v = [7u32, 8, 9];
    t.insert_iter(130, &v);
    assert_eq!(t.group_size(130), 3);
    assert_eq!(t.access(130), Some(&v[..]));
    for i in 0..200u32 {
        if i != 130 {
            assert_eq!(t.access(i), Some(&[i, i + 1000][..]));
        }
    }
}

#[test]
fn sparse_table_grows_by_groups() {
    let mut t = SparseTable::default();
    assert_eq!(t.size(), 0);
    t.push();
    assert_eq!(t.size(), 1);
    assert_eq!(t.access(0), None);
    t.extend(&[4, 5]);
    assert_eq!(t.size(), 2);
    assert_eq!(t.access(1), Some(&[4u32, 5][..]));
    for _ in 0..70 {
        t.push();
    }
    t.insert(71, 9);
    assert_eq!(t.access(71), Some(&[9u32][..]));
    assert_eq!(t.group_size(71), 1);
    assert_eq!(t.group_size(70), 0);
    t.clear();
    assert_eq!(t.size(), 0);
}
