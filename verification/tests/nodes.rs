use dyft::dyft::{
    HamTables, IntoMartNode, MartArray, MartArrayExtractable, MartCursor, MartDense, MartEdge,
    MartFull, MartInsertFlags, MartNode2, MartNode256, MartNode4, MartNode64, MartNodeTypes,
    MartPointer, MartSparse, StateType, TrieCounts, BIT_POSITION_TABLE, MART_NILID,
};
use dyft::dyft::label_distance_of;

#[test]
fn pointer_survives_its_bytes() {
    let p = MartPointer::new(0x01020304, MartNodeTypes::Mart16Node);
    let raw = p.to_raw();
    assert_eq!(raw, [4, 3, 2, 1, 4]);
    assert_eq!(MartPointer::from_raw(&raw), p);
    assert_eq!(MartPointer::try_from_slice(&raw[..]), Ok(p));
    assert_eq!(MartPointer::try_from_slice(&raw[..4]), Err(MartPointer::nil()));
    assert_eq!(MartPointer::nil_raw(), [0xFF; 5]);
    assert!(MartPointer::nil().is_null_ptr());
    assert!(MartPointer::new(MART_NILID, MartNodeTypes::Mart2Node).is_null_ptr());
    assert!(!p.is_null_ptr());
    assert!(MartPointer::leaf(3).is_leaf());
    assert_eq!(MartPointer::default(), MartPointer::nil());
    assert_eq!(p.nid_idx(), 0x01020304);
}

#[test]
fn tags_of_node_types() {
    let all = [
        MartNodeTypes::MartLeafNode,
        MartNodeTypes::Mart2Node,
        MartNodeTypes::Mart4Node,
        MartNodeTypes::Mart8Node,
        MartNodeTypes::Mart16Node,
        MartNodeTypes::Mart32Node,
        MartNodeTypes::Mart64Node,
        MartNodeTypes::Mart128Node,
        MartNodeTypes::Mart256Node,
        MartNodeTypes::MartNilNode,
    ];
    for (i, t) in all.iter().enumerate() {
        assert_eq!(t.tag(), i as u8);
        assert_eq!(MartNodeTypes::from_tag(i as u8), *t);
    }
    assert_eq!(MartNodeTypes::from_tag(200), MartNodeTypes::MartNilNode);
    assert_eq!(MartNode4::bytes(), 4);
    assert_eq!(MartNode256::type_id(), MartNodeTypes::Mart256Node);
    assert_eq!(MartNode2::create(7).into_mart(), MartPointer::new(7, MartNodeTypes::Mart2Node));
}

#[test]
fn cursor_steps_down() {
    let root = MartPointer::new(0, MartNodeTypes::Mart256Node);
    let mut mc = MartCursor::from_next(&root);
    assert_eq!(mc.offset(), MART_NILID as usize);
    assert_eq!(*mc.pptr(), MartPointer::nil());
    assert_eq!(*mc.nptr(), root);
    let child = MartPointer::leaf(9);
    mc.update(17, &child);
    assert_eq!(mc.offset(), 17);
    assert_eq!(*mc.pptr(), root);
    assert_eq!(*mc.nptr(), child);
    assert!(mc.is_leaf());
    assert_eq!(mc.ptype(), MartNodeTypes::Mart256Node);
    assert_eq!(mc.ntype(), MartNodeTypes::MartLeafNode);
    let s = StateType::new(root, 2, 3);
    let n = s.next(5, MartNodeTypes::Mart2Node, 1);
    assert_eq!(n.pos(), 3);
    assert_eq!(n.dist(), 4);
    assert_eq!(n.nid(), 5);
    assert_eq!(n.ntype(), MartNodeTypes::Mart2Node);
}

#[test]
fn sparse_node_fills_up_and_asks_to_expand() {
    let mut a = MartSparse::<MartNode2>::new();
    let p = a.make_node();
    assert_eq!(p, MartPointer::new(0, MartNodeTypes::Mart2Node));
    let mut mc = MartCursor::from_next(&p);
    assert_eq!(a.insert_ptr(&mut mc, 10, &MartPointer::leaf(1)), MartInsertFlags::MartInserted);
    assert_eq!(mc.offset(), 0);
    let mut mc = MartCursor::from_next(&p);
    assert_eq!(a.insert_ptr(&mut mc, 20, &MartPointer::leaf(2)), MartInsertFlags::MartInserted);
    assert_eq!(mc.offset(), 1);
    let mut mc = MartCursor::from_next(&p);
    assert_eq!(a.insert_ptr(&mut mc, 10, &MartPointer::leaf(3)), MartInsertFlags::MartFound);
    assert_eq!(*mc.nptr(), MartPointer::leaf(1));
    assert_eq!(*mc.pptr(), p);
    let mut mc = MartCursor::from_next(&p);
    assert_eq!(
        a.insert_ptr(&mut mc, 30, &MartPointer::leaf(3)),
        MartInsertFlags::MartNeededToExpand
    );
    assert_eq!(*mc.nptr(), p);
    assert_eq!(a.find_child(p, 20), Some(MartPointer::leaf(2)));
    assert_eq!(a.find_child(p, 30), None);
    assert_eq!(a.find_child(p, 255), None);
    assert_eq!(
        a.linear_scan(0),
        vec![
            MartEdge { label: 10, ptr: MartPointer::leaf(1) },
            MartEdge { label: 20, ptr: MartPointer::leaf(2) }
        ]
    );
}

#[test]
fn freed_node_is_reused_before_a_new_one() {
    let mut a = MartSparse::<MartNode4>::new();
    let first = a.make_node();
    let second = a.make_node();
    let third = a.make_node();
    assert_eq!((first.nid(), second.nid(), third.nid()), (0, 1, 2));
    let mut mc = MartCursor::from_next(&second);
    a.insert_ptr(&mut mc, 5, &MartPointer::leaf(50));
    let edges = a.extract_edges(&MartCursor::from_next(&second));
    assert_eq!(edges, vec![MartEdge { label: 5, ptr: MartPointer::leaf(50) }]);
    assert_eq!(a.num_empty(), 1);
    assert_eq!(a.num_nodes(), 3);
    let _ = a.extract_edges(&MartCursor::from_next(&first));
    assert_eq!(a.num_empty(), 2);
    // the nodes come back in the order in which they were freed
    let q = a.make_node();
    assert_eq!(q.nid(), 1);
    assert_eq!(a.find_child(q, 5), None);
    let r = a.make_node();
    assert_eq!(r.nid(), 0);
    assert_eq!(a.num_empty(), 0);
    let s = a.make_node();
    assert_eq!(s.nid(), 3);
    assert_eq!(a.num_nodes(), 4);
}

#[test]
fn dense_node_keeps_label_255() {
    let mut a = MartDense::<MartNode64>::new();
    let edges: Vec<MartEdge> = [255u8, 0, 7]
        .iter()
        .enumerate()
        .map(|(i, &l)| MartEdge { label: l, ptr: MartPointer::leaf(i as u32) })
        .collect();
    let p = a.make_node_with_edges(&edges);
    assert_eq!(a.find_child(p, 255), Some(MartPointer::leaf(0)));
    assert_eq!(a.find_child(p, 0), Some(MartPointer::leaf(1)));
    assert_eq!(a.find_child(p, 7), Some(MartPointer::leaf(2)));
    assert_eq!(a.find_child(p, 8), None);
    let mut mc = MartCursor::from_next(&p);
    assert_eq!(a.append_ptr(&mut mc, 9, &MartPointer::leaf(3)), MartInsertFlags::MartInserted);
    assert_eq!(mc.offset(), 3);
    let mut got = a.children(&p);
    got.sort_by_key(|e| e.label);
    assert_eq!(got.len(), 4);
    assert_eq!(got[3], MartEdge { label: 255, ptr: MartPointer::leaf(0) });
    let out = a.extract_edges(&MartCursor::from_next(&p));
    assert_eq!(out.len(), 4);
    assert!(out.contains(&MartEdge { label: 255, ptr: MartPointer::leaf(0) }));
}

#[test]
fn full_node_goes_by_label() {
    let mut a = MartFull::<MartNode256>::new();
    let root = a.make_node();
    let mut mc = MartCursor::from_next(&root);
    assert_eq!(a.insert_ptr(&mut mc, 200, &MartPointer::leaf(1)), MartInsertFlags::MartInserted);
    assert_eq!(mc.offset(), 200);
    assert_eq!(a.header(0), 1);
    let mut mc = MartCursor::from_next(&root);
    assert_eq!(a.insert_ptr(&mut mc, 200, &MartPointer::leaf(2)), MartInsertFlags::MartFound);
    assert_eq!(*mc.nptr(), MartPointer::leaf(1));
    // the parent is told of a node that took the place of the leaf
    let node = MartPointer::new(4, MartNodeTypes::Mart2Node);
    a.update_srcptr(&MartCursor::new(200, root, node));
    assert_eq!(a.find_child(root, 200), Some(node));
    assert_eq!(a.children(&root), vec![MartEdge { label: 200, ptr: node }]);
    assert_eq!(a.len(), 1);
    for l in 0..=255u8 {
        let mut mc = MartCursor::from_next(&root);
        let flag = a.insert_ptr(&mut mc, l, &MartPointer::leaf(l as u32));
        assert_ne!(flag, MartInsertFlags::MartNeededToExpand);
    }
    assert_eq!(a.children(&root).len(), 256);
}

#[test]
fn label_distance_counts_positions() {
    assert_eq!(label_distance_of(8, 0x00, 0xFF), 1);
    assert_eq!(label_distance_of(8, 0x12, 0x12), 0);
    assert_eq!(label_distance_of(1, 0x00, 0xFF), 8);
    assert_eq!(label_distance_of(1, 0b1010, 0b0110), 2);
    assert_eq!(label_distance_of(4, 0x1F, 0x2F), 1);
    assert_eq!(label_distance_of(4, 0x1F, 0x20), 2);
    assert_eq!(label_distance_of(2, 0b00_01_10_11, 0b11_01_00_11), 2);
    // with three bits per position only two positions count
    assert_eq!(label_distance_of(3, 0b11_000_000, 0b00_000_000), 0);
    assert_eq!(label_distance_of(3, 0b00_001_000, 0b00_000_001), 2);
}

#[test]
fn tables_agree_with_the_position_table() {
    for bits in 1..=8usize {
        let t = HamTables::new(bits);
        assert_eq!(HamTables::bit_positions(bits), BIT_POSITION_TABLE[bits - 1]);
        let ipc = (8 / bits) as u8;
        assert_eq!(t.ints_per_chunk(), ipc);
        assert_eq!(t.bits(), bits);
        for label in [0u8, 1, 5, 31] {
            let row = t.hamming_distance(label);
            let look = t.lookup(label);
            for r in 0..=ipc {
                let lo = BIT_POSITION_TABLE[bits - 1][r as usize];
                let hi = BIT_POSITION_TABLE[bits - 1][r as usize + 1];
                assert_eq!(t.within(r), hi);
                for k in lo..hi {
                    assert_eq!(row[look[k] as usize], r);
                    assert_eq!(look[k], label ^ t.mask(k));
                }
            }
        }
    }
}

#[test]
fn free_nodes_are_listed_by_their_offsets() {
    let mut a = MartSparse::<MartNode4>::new();
    let first = a.make_node();
    let second = a.make_node();
    let _third = a.make_node();
    assert!(a.inner.empty_nodes_iter().is_empty());
    let _ = a.extract_edges(&MartCursor::from_next(&second));
    let _ = a.extract_edges(&MartCursor::from_next(&first));
    // a node of four children takes 1 + 4 + 4 * 5 bytes
    let ids = a.inner.iter_empty();
    let offsets = a.inner.empty_nodes_iter();
    assert_eq!(ids.len(), 2);
    assert_eq!(offsets, ids.iter().map(|id| id * 25).collect::<Vec<u32>>());
    let mut sorted = offsets.clone();
    sorted.sort();
    assert_eq!(sorted, vec![0, 25]);
}
