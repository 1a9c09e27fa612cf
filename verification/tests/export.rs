use dyft::dyft::{
    MartConfig, MartExporter, MartIndex, MartNodeTypes, MartPointer, MartTrieExport, TrieNode,
    VCodeArray,
};

fn leaf(id: u32) -> TrieNode {
    TrieNode::new(id, MartNodeTypes::MartLeafNode)
}

fn node(id: u32, tier: MartNodeTypes, children: Vec<(u8, TrieNode)>) -> TrieNode {
    let mut n = TrieNode::new(id, tier);
    for (label, child) in children {
        n.insert(child, label);
    }
    n
}

fn shape(n: &TrieNode) -> String {
    let mut s = format!("({} {:?}", n.id(), n.ntype());
    for (label, child) in n.children.iter() {
        s.push_str(&format!(" {}:{}", label, shape(child)));
    }
    s.push(')');
    s
}

fn shape_of(e: &MartTrieExport) -> String {
    match &e.root {
        Some(root) => shape(root),
        None => String::from("-"),
    }
}

#[test]
fn first_insert_makes_the_root() {
    let mut export = MartTrieExport::new();
    assert_eq!(shape_of(&export), "-");
    let root = node(0, MartNodeTypes::Mart256Node, vec![(7, leaf(3))]);
    export.insert(&MartPointer::new(0, MartNodeTypes::Mart256Node), root);
    assert_eq!(shape_of(&export), "(0 Mart256Node 7:(3 MartLeafNode))");
}

#[test]
fn insert_adds_children_to_the_node_that_stands_for_the_pointer() {
    let mut export = MartTrieExport::new();
    let root = node(
        0,
        MartNodeTypes::Mart256Node,
        vec![
            (1, TrieNode::new(5, MartNodeTypes::Mart2Node)),
            (2, TrieNode::new(6, MartNodeTypes::Mart2Node)),
        ],
    );
    export.insert(&MartPointer::new(0, MartNodeTypes::Mart256Node), root);
    let below = node(6, MartNodeTypes::Mart2Node, vec![(9, leaf(3)), (10, leaf(4))]);
    export.insert(&MartPointer::new(6, MartNodeTypes::Mart2Node), below);
    assert_eq!(
        shape_of(&export),
        "(0 Mart256Node 1:(5 Mart2Node) 2:(6 Mart2Node 9:(3 MartLeafNode) 10:(4 MartLeafNode)))"
    );
    // one level further down
    let deeper = node(5, MartNodeTypes::Mart2Node, vec![(0, TrieNode::new(1, MartNodeTypes::Mart4Node))]);
    export.insert(&MartPointer::new(5, MartNodeTypes::Mart2Node), deeper);
    let deepest = node(1, MartNodeTypes::Mart4Node, vec![(8, leaf(9))]);
    export.insert(&MartPointer::new(1, MartNodeTypes::Mart4Node), deepest);
    assert_eq!(
        shape_of(&export),
        "(0 Mart256Node 1:(5 Mart2Node 0:(1 Mart4Node 8:(9 MartLeafNode))) 2:(6 Mart2Node 9:(3 MartLeafNode) 10:(4 MartLeafNode)))"
    );
}

#[test]
fn insert_takes_the_first_match_level_by_level() {
    // the pointer occurs below the first child and as the second child:
    // the second child lies higher and is met first
    let mut export = MartTrieExport::new();
    let root = node(
        0,
        MartNodeTypes::Mart256Node,
        vec![
            (
                1,
                node(
                    5,
                    MartNodeTypes::Mart2Node,
                    vec![(3, TrieNode::new(7, MartNodeTypes::Mart4Node))],
                ),
            ),
            (2, TrieNode::new(7, MartNodeTypes::Mart4Node)),
        ],
    );
    export.insert(&MartPointer::new(0, MartNodeTypes::Mart256Node), root);
    export.insert(
        &MartPointer::new(7, MartNodeTypes::Mart4Node),
        node(7, MartNodeTypes::Mart4Node, vec![(4, leaf(1))]),
    );
    assert_eq!(
        shape_of(&export),
        "(0 Mart256Node 1:(5 Mart2Node 3:(7 Mart4Node)) 2:(7 Mart4Node 4:(1 MartLeafNode)))"
    );
}

#[test]
fn insert_does_not_look_below_a_pointer_twice() {
    // both children stand for the same node: the walk does not look at
    // the children of the second, where the pointer would be found
    let mut export = MartTrieExport::new();
    let root = node(
        0,
        MartNodeTypes::Mart256Node,
        vec![
            (1, node(5, MartNodeTypes::Mart2Node, vec![(3, leaf(1))])),
            (
                2,
                node(
                    5,
                    MartNodeTypes::Mart2Node,
                    vec![(4, TrieNode::new(8, MartNodeTypes::Mart4Node))],
                ),
            ),
        ],
    );
    export.insert(&MartPointer::new(0, MartNodeTypes::Mart256Node), root);
    let before = shape_of(&export);
    export.insert(
        &MartPointer::new(8, MartNodeTypes::Mart4Node),
        node(8, MartNodeTypes::Mart4Node, vec![(6, leaf(2))]),
    );
    assert_eq!(shape_of(&export), before);
}

#[test]
fn insert_without_a_match_changes_nothing() {
    let mut export = MartTrieExport::new();
    let root = node(0, MartNodeTypes::Mart256Node, vec![(1, leaf(0))]);
    export.insert(&MartPointer::new(0, MartNodeTypes::Mart256Node), root);
    export.insert(
        &MartPointer::new(9, MartNodeTypes::Mart2Node),
        node(9, MartNodeTypes::Mart2Node, vec![(1, leaf(1))]),
    );
    assert_eq!(shape_of(&export), "(0 Mart256Node 1:(0 MartLeafNode))");
    // the children of a leaf are not looked at
    export.insert(&MartPointer::leaf(0), node(0, MartNodeTypes::MartLeafNode, vec![(1, leaf(1))]));
    assert_eq!(
        shape_of(&export),
        "(0 Mart256Node 1:(0 MartLeafNode 1:(1 MartLeafNode)))"
    );
}

#[test]
fn node_at_and_child_for_follow_the_tree() {
    let root = node(
        0,
        MartNodeTypes::Mart256Node,
        vec![
            (1, node(5, MartNodeTypes::Mart2Node, vec![(3, leaf(1)), (4, leaf(2))])),
            (2, leaf(0)),
        ],
    );
    assert_eq!(root.node_at(&vec![]).id(), 0);
    assert_eq!(root.node_at(&vec![1]).ntype(), MartNodeTypes::MartLeafNode);
    assert_eq!(root.node_at(&vec![0, 1]).id(), 2);
    assert_eq!(root.child_for(&MartPointer::leaf(0)), Some(1));
    assert_eq!(root.child_for(&MartPointer::leaf(1)), None);
    assert_eq!(root.find_target(&MartPointer::leaf(2)), Some(vec![0, 1]));
    assert_eq!(root.find_target(&MartPointer::leaf(7)), None);
}

#[test]
fn export_of_a_flat_trie() {
    let data = VCodeArray::<u8>::new(&[0x00, 0x01, 0xFF], 1);
    let config = MartConfig { bits: 1, splitthreshold: Some(1000), radius: 0, errors: 0 };
    let mut index = MartIndex::new(&config, 0, 1, Vec::new());
    index.build(&data, 3);
    let export = index.export();
    assert_eq!(
        shape_of(&export),
        "(0 Mart256Node 0:(0 MartLeafNode) 1:(1 MartLeafNode) 255:(2 MartLeafNode))"
    );
}

#[test]
fn export_of_a_trie_after_a_split() {
    let mut words = Vec::new();
    for _ in 0..10 {
        words.push(0b1010_0101u8);
        words.push(0b0000_1111u8);
    }
    let data = VCodeArray::<u8>::new(&words, 2);
    let config = MartConfig { bits: 2, splitthreshold: Some(5), radius: 0, errors: 0 };
    let mut index = MartIndex::new(&config, 0, 2, Vec::new());
    index.build(&data, 10);
    assert_eq!(index.split_count(), 1);
    let export = index.export();
    let root = export.root.expect("the root is always there");
    assert_eq!(root.id(), 0);
    assert_eq!(root.ntype(), MartNodeTypes::Mart256Node);
    assert_eq!(root.children.len(), 1);
    let (_, inner) = &root.children[0];
    assert_eq!(inner.ntype(), MartNodeTypes::Mart2Node);
    assert_eq!(inner.children.len(), 1);
    let (_, below) = &inner.children[0];
    assert_eq!(below.ntype(), MartNodeTypes::MartLeafNode);
    assert!(below.children.is_empty());
    // the same trie gives the same tree
    let mut again = MartIndex::new(&config, 0, 2, Vec::new());
    again.build(&data, 10);
    assert_eq!(shape(&again.export().root.expect("root")), shape(&root));
}
