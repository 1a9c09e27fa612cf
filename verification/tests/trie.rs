use dyft::dyft::{
    MartArray, MartConfig, MartCursor, MartIndex, MartInsertFlags, MartNodeTypes, MartPointer,
    TrieCounts, VCodeArray, VCodeTools,
};

fn config(bits: usize, errors: u8, radius: u32, splitthreshold: Option<u32>) -> MartConfig {
    MartConfig { bits, splitthreshold, radius, errors }
}

fn index_u8(bits: usize, errors: u8, radius: u32, splitthreshold: Option<u32>) -> MartIndex {
    let width = 8 / (8 / bits);
    MartIndex::new(&config(bits, errors, radius, splitthreshold), 0, width, Vec::new())
}

fn sorted(mut v: Vec<u32>) -> Vec<u32> {
    v.sort();
    v.dedup();
    v
}

#[test]
fn one_bit_sketches_get_a_leaf_each() {
    // one vertical word per sketch: a label is the whole word
    let data = VCodeArray::<u8>::new(&[0x00, 0x01, 0xFF], 1);
    let mut index = index_u8(1, 0, 0, Some(1000));
    index.build(&data, 3);
    assert_eq!(index.posting_list().size(), 3);
    assert_eq!(index.posting_list().access(0), Some(&[0u32][..]));
    assert_eq!(index.posting_list().access(1), Some(&[1u32][..]));
    assert_eq!(index.posting_list().access(2), Some(&[2u32][..]));
    assert_eq!(index.trie_search(&[0x00u8]), vec![0]);
    assert_eq!(index.trie_search(&[0x01u8]), vec![1]);
    assert_eq!(index.trie_search(&[0xFFu8]), vec![2]);
    assert_eq!(index.trie_search(&[0x02u8]), Vec::<u32>::new());
    assert_eq!(
        index.perform_find_child(*index.root(), 0xFF),
        Some(MartPointer::leaf(2))
    );
    assert_eq!(index.max_depth(), 0);
}

#[test]
fn neighbours_within_one_error_are_found() {
    // two vertical words; the sketches differ in position 0 only
    let s0: [u8; 2] = [0b0000_0000, 0b0000_0000];
    let s1: [u8; 2] = [0b0000_0001, 0b0000_0000];
    let data = VCodeArray::<u8>::new(&[s0[0], s0[1], s1[0], s1[1]], 2);
    let mut index = index_u8(2, 1, 1, Some(1000));
    index.build(&data, 2);
    assert_eq!(sorted(index.trie_search(&s0)), vec![0, 1]);
    assert_eq!(sorted(index.trie_search(&s1)), vec![0, 1]);
    // with no error allowed each finds itself only
    let mut exact = index_u8(2, 0, 0, Some(1000));
    exact.build(&data, 2);
    assert_eq!(exact.trie_search(&s0), vec![0]);
    assert_eq!(exact.trie_search(&s1), vec![1]);
    // two positions apart is beyond one error
    let far: [u8; 2] = [0b0000_0011, 0];
    assert_eq!(sorted(index.trie_search(&far)), vec![1]);
}

#[test]
fn a_thousand_equal_sketches_split_once() {
    // two bits per position: four positions to a label, two labels to a sketch
    let mut words = Vec::new();
    for _ in 0..1000 {
        words.push(0b1010_0101u8);
        words.push(0b0000_1111u8);
    }
    let data = VCodeArray::<u8>::new(&words, 2);
    let mut index = index_u8(2, 0, 0, Some(500));
    index.build(&data, 1000);
    let stats = index.stats();
    assert_eq!(stats.split_count, 1);
    assert_eq!(stats.size, 1000);
    let mut total = 0;
    for leaf in 0..index.posting_list().size() {
        total += index.posting_list().group_size(leaf);
    }
    assert_eq!(total, 1000);
    assert_eq!(index.posting_list().size(), 1);
    assert_eq!(sorted(index.trie_search(data.access(0))).len(), 1000);
    // the leaf now hangs under a node of the narrowest tier
    let first = u8::to_byte(data.access(0), 0, 2)
        | u8::to_byte(data.access(0), 1, 2) << 2
        | u8::to_byte(data.access(0), 2, 2) << 4
        | u8::to_byte(data.access(0), 3, 2) << 6;
    let child = index.perform_find_child(*index.root(), first).unwrap();
    assert_eq!(child.ntype(), MartNodeTypes::Mart2Node);
    assert_eq!(index.max_depth(), 4);
}

#[test]
fn forty_labels_promote_a_node_through_the_tiers() {
    // eight bits per position: a label is one position, a sketch of u16 has
    // 16 labels. All sketches share label 0 and differ in label 1.
    let bits = 8;
    let mut words: Vec<u16> = Vec::new();
    for s in 0..41u16 {
        // position 0 holds 7 in every sketch, position 1 holds s
        for plane in 0..8 {
            let low = (7u16 >> plane) & 1;
            let high = (s >> plane) & 1;
            words.push(low | (high << 1));
        }
    }
    let data = VCodeArray::<u16>::new(&words, bits);
    let cfg = config(bits, 0, 0, Some(2));
    let mut index = MartIndex::new(&cfg, 0, 16, Vec::new());
    let mut tiers = Vec::new();
    for n in 1..=41usize {
        index.build(&data, n);
        let child = index.perform_find_child(*index.root(), 7).unwrap();
        if tiers.last() != Some(&child.ntype()) {
            tiers.push(child.ntype());
        }
        if n >= 2 {
            // every label that was put in so far is found under the node
            for s in 0..n as u8 {
                let leaf = index.perform_find_child(child, s);
                assert!(leaf.is_some(), "label {} after {} sketches", s, n);
            }
            assert_eq!(index.perform_find_children(&child).len(), n);
        }
    }
    assert_eq!(
        tiers,
        vec![
            MartNodeTypes::MartLeafNode,
            MartNodeTypes::Mart2Node,
            MartNodeTypes::Mart4Node,
            MartNodeTypes::Mart8Node,
            MartNodeTypes::Mart16Node,
            MartNodeTypes::Mart32Node,
            MartNodeTypes::Mart64Node,
        ]
    );
    for s in 0..41u32 {
        assert_eq!(index.trie_search(data.access(s as usize)), vec![s]);
    }
    // the nodes that were left behind are free again
    assert_eq!(index.m_array_2.num_empty(), 1);
    assert_eq!(index.m_array_32.num_empty(), 1);
}

#[test]
fn every_sketch_is_found_and_so_are_its_neighbours() {
    let bits = 4;
    let mut words: Vec<u16> = Vec::new();
    let mut seed = 12345u32;
    let n = 300usize;
    for _ in 0..n * bits {
        seed = seed.wrapping_mul(1103515245).wrapping_add(12345);
        // few different words, so that leaves fill up and split
        words.push(((seed >> 16) & 0x0303) as u16);
    }
    let data = VCodeArray::<u16>::new(&words, bits);
    let errors = 2u8;
    let cfg = config(bits, errors, 2, Some(4));
    let mut index = MartIndex::new(&cfg, 0, 8, Vec::new());
    index.build(&data, n);
    assert_eq!(index.stats().size, n);
    for q in 0..n {
        let found = sorted(index.trie_search(data.access(q)));
        assert!(found.contains(&(q as u32)));
        for c in 0..n {
            let d = u16::hamdist(data.access(c), data.access(q), bits);
            if d <= errors as u32 {
                assert!(found.contains(&(c as u32)), "{} within {} of {}", c, d, q);
            }
        }
    }
    let pairs = index.trie_query(&data, &data);
    for &(q, c) in pairs.iter() {
        assert!(u16::hamdist(data.access(c), data.access(q), bits) <= 2);
    }
    for q in 0..n {
        assert!(pairs.contains(&(q, q)));
    }
}

#[test]
fn a_split_keeps_far_sketches_apart() {
    // eight vertical words: a label is the byte of one position; the
    // sketches have the labels 1, 1, 0, .. and 1, 2, 0, ..
    let data = VCodeArray::<u8>::new(&[3, 0, 0, 0, 0, 0, 0, 0, 1, 2, 0, 0, 0, 0, 0, 0], 8);
    let mut index = MartIndex::new(&config(8, 1, 8, Some(2)), 0, 8, Vec::new());
    index.build(&data, 2);
    assert_eq!(index.split_count(), 1);
    assert_eq!(index.posting_list().access(0), Some(&[0u32][..]));
    assert_eq!(index.posting_list().access(1), Some(&[1u32][..]));
    // the query has the labels 3, 1, 0, ..: one label from the first
    // sketch, two from the second
    assert_eq!(index.trie_search(&[3u8, 1, 0, 0, 0, 0, 0, 0]), vec![0]);
    assert_eq!(index.trie_search(&[1u8, 2, 0, 0, 0, 0, 0, 0]), vec![0, 1]);
}

#[test]
fn a_leaf_is_split_when_its_list_reaches_the_threshold() {
    let mut words = Vec::new();
    for _ in 0..5 {
        words.push(0b1010_0101u8);
        words.push(0b0000_1111u8);
    }
    let data = VCodeArray::<u8>::new(&words, 2);
    let mut index = index_u8(2, 0, 0, Some(3));
    index.build(&data, 2);
    assert_eq!(index.split_count(), 0);
    assert_eq!(index.posting_list().size(), 1);
    index.build(&data, 3);
    assert_eq!(index.split_count(), 1);
    // at the end of the sketch a leaf is not split again
    index.build(&data, 5);
    assert_eq!(index.split_count(), 1);
    assert_eq!(index.posting_list().size(), 1);
    assert_eq!(index.posting_list().access(0), Some(&[0u32, 1, 2, 3, 4][..]));
    assert_eq!(index.trie_search(&[0b1010_0101u8, 0b0000_1111]), vec![0, 1, 2, 3, 4]);
}

#[test]
fn a_full_node_moves_to_the_next_tier() {
    let mut index = index_u8(1, 0, 0, Some(1000));
    let root = *index.root();
    let node = index.m_array_2.make_node();
    let mut mc = MartCursor::from_next(&root);
    assert_eq!(index.perform_insert_ptr(&mut mc, 7, &node), MartInsertFlags::MartInserted);
    let slot = mc.offset();
    let mut current = node;
    for j in 0..40u8 {
        let mut cursor = MartCursor::new(slot, root, current);
        let flag = index.perform_insert_ptr(&mut cursor, j, &MartPointer::leaf(j as u32));
        assert_eq!(flag, MartInsertFlags::MartInserted);
        current = *cursor.pptr();
        let expected = match j + 1 {
            1..=2 => MartNodeTypes::Mart2Node,
            3..=4 => MartNodeTypes::Mart4Node,
            5..=8 => MartNodeTypes::Mart8Node,
            9..=16 => MartNodeTypes::Mart16Node,
            17..=32 => MartNodeTypes::Mart32Node,
            _ => MartNodeTypes::Mart64Node,
        };
        assert_eq!(current.ntype(), expected, "after {} labels", j + 1);
        // the parent leads to the node where it is now
        assert_eq!(index.perform_find_child(root, 7), Some(current));
        for l in 0..=j {
            assert_eq!(index.perform_find_child(current, l), Some(MartPointer::leaf(l as u32)));
        }
        assert_eq!(index.perform_find_child(current, j + 1), None);
        // a label that is there is found and nothing moves
        let mut again = MartCursor::new(slot, root, current);
        assert_eq!(
            index.perform_insert_ptr(&mut again, j, &MartPointer::leaf(99)),
            MartInsertFlags::MartFound
        );
        assert_eq!(*again.nptr(), MartPointer::leaf(j as u32));
        assert_eq!(index.perform_find_child(root, 7), Some(current));
    }
}

#[test]
fn room_is_a_matter_of_ids_and_nodes() {
    let index = index_u8(1, 0, 0, Some(1000));
    assert!(index.has_room_for(0));
    assert!(index.has_room_for(100_000_000));
    // two nodes for each sketch in the arena of the root, which holds one
    assert!(index.has_room_for((u32::MAX as usize - 1) / 2));
    assert!(!index.has_room_for((u32::MAX as usize - 1) / 2 + 1));
    assert!(!index.has_room_for(u32::MAX as usize));
}
