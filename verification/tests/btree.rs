use pagedb::btree::node::{Node, NodeType};
use pagedb::btree::slot::{Either, Slot};
use pagedb::btree::{BTree, BTreeError};
use pagedb::disk::Memory;
use pagedb::page::{PageId, NO_PAGE, PAGE_SIZE};
use pagedb::page_cache::PageCache;
use pagedb::replacer::LruK;

fn node_of<K, V>(
    t: NodeType,
    is_root: bool,
    max: u32,
    next: PageId,
    id: PageId,
    slots: Vec<Slot<K, V>>,
) -> Node<K, V>
where
    K: pagedb::storable::Increment,
    V: pagedb::storable::Storable,
{
    let mut node = Node::new(id, max, t, is_root);
    node.next = next;
    for slot in slots {
        assert!(node.insert(slot));
    }
    node
}

#[test]
fn test_from() {
    let node: Node<i32, i32> = node_of(
        NodeType::Leaf,
        true,
        20,
        -1,
        0,
        vec![
            Slot(10, Either::Value(20)),
            Slot(0, Either::Pointer(1)),
            Slot(20, Either::Value(30)),
            Slot(1, Either::Pointer(2)),
            Slot(30, Either::Value(40)),
            Slot(2, Either::Pointer(3)),
            Slot(40, Either::Value(50)),
            Slot(3, Either::Pointer(4)),
            Slot(50, Either::Value(60)),
            Slot(4, Either::Pointer(5)),
        ],
    );
    assert_eq!(node.len(), 10);

    let bytes = node.clone().to_page();

    let node2: Node<i32, i32> = Node::from(&bytes).unwrap();

    assert!(node == node2, "Node: {:?}\n Node2: {:?}", node, node2);
}

#[test]
fn node_test_split() {
    let mut node: Node<i32, i32> = node_of(
        NodeType::Leaf,
        true,
        20,
        -1,
        0,
        vec![
            Slot(10, Either::Value(1)),
            Slot(20, Either::Value(2)),
            Slot(30, Either::Value(3)),
            Slot(40, Either::Value(4)),
            Slot(50, Either::Value(5)),
            Slot(60, Either::Value(6)),
            Slot(70, Either::Value(7)),
            Slot(80, Either::Value(8)),
            Slot(90, Either::Value(9)),
            Slot(100, Either::Value(10)),
            Slot(110, Either::Value(11)),
        ],
    );

    let new = node.split(1);

    let expected = node_of(
        NodeType::Leaf,
        false,
        20,
        1,
        0,
        vec![
            Slot(10, Either::Value(1)),
            Slot(20, Either::Value(2)),
            Slot(30, Either::Value(3)),
            Slot(40, Either::Value(4)),
            Slot(50, Either::Value(5)),
        ],
    );

    assert!(node == expected, "\nExpected: {:?}\n    Node: {:?}\n", expected, node);
    assert_eq!(node.len(), 5);

    let expected_new = node_of(
        NodeType::Leaf,
        false,
        20,
        -1,
        1,
        vec![
            Slot(60, Either::Value(6)),
            Slot(70, Either::Value(7)),
            Slot(80, Either::Value(8)),
            Slot(90, Either::Value(9)),
            Slot(100, Either::Value(10)),
            Slot(110, Either::Value(11)),
        ],
    );

    assert!(new == expected_new, "\nExpected: {:?}\n    Node: {:?}\n", expected_new, new);
    assert_eq!(new.len(), 6);
}

#[test]
fn test_get_separators_leaf() {
    let node: Node<i32, i32> = node_of(
        NodeType::Leaf,
        false,
        20,
        1,
        0,
        vec![
            Slot(10, Either::Value(1)),
            Slot(20, Either::Value(2)),
            Slot(30, Either::Value(3)),
            Slot(40, Either::Value(4)),
            Slot(50, Either::Value(5)),
        ],
    );

    let other = node_of(
        NodeType::Leaf,
        false,
        20,
        -1,
        1,
        vec![
            Slot(60, Either::Value(6)),
            Slot(70, Either::Value(7)),
            Slot(80, Either::Value(8)),
            Slot(90, Either::Value(9)),
            Slot(100, Either::Value(10)),
            Slot(110, Either::Value(11)),
        ],
    );

    let Some(slots) = node.get_separators(Some(other)) else { panic!() };
    let expected = (Slot(51, Either::Pointer(0)), Slot(111, Either::Pointer(1)));
    assert!(slots == expected);
}

#[test]
fn test_get_separators_internal() {
    let node: Node<u16, i32> = node_of(
        NodeType::Internal,
        false,
        20,
        1,
        0,
        vec![
            Slot(10, Either::Pointer(1)),
            Slot(20, Either::Pointer(2)),
            Slot(30, Either::Pointer(3)),
            Slot(40, Either::Pointer(4)),
            Slot(50, Either::Pointer(5)),
        ],
    );

    let other = node_of(
        NodeType::Internal,
        false,
        20,
        -1,
        1,
        vec![
            Slot(60, Either::Pointer(6)),
            Slot(70, Either::Pointer(7)),
            Slot(80, Either::Pointer(8)),
            Slot(90, Either::Pointer(9)),
            Slot(100, Either::Pointer(10)),
            Slot(110, Either::Pointer(11)),
        ],
    );

    let Some(slots) = node.get_separators(Some(other)) else { panic!() };
    let expected = (Slot(50, Either::Pointer(0)), Slot(110, Either::Pointer(1)));
    assert!(slots == expected);
}

#[test]
fn test_find_child() {
    let node: Node<i32, i32> = node_of(
        NodeType::Internal,
        false,
        20,
        1,
        0,
        vec![
            Slot(10, Either::Pointer(1)),
            Slot(20, Either::Pointer(2)),
            Slot(30, Either::Pointer(3)),
            Slot(40, Either::Pointer(4)),
            Slot(50, Either::Pointer(5)),
        ],
    );

    let a = node.find_child(25);
    let b = node.find_child(30);
    let c = node.find_child(60);

    assert!(a == Some(3));
    assert!(b == Some(4));
    assert!(c == Some(1));
}

#[test]
fn get_separators_without_a_split_is_none() {
    let node: Node<i32, i32> = node_of(NodeType::Leaf, false, 20, -1, 0, vec![]);
    assert!(node.get_separators(None).is_none());
}

#[test]
fn find_child_of_a_leaf_is_none() {
    let node: Node<i32, i32> =
        node_of(NodeType::Leaf, false, 20, 7, 0, vec![Slot(10, Either::Value(1))]);
    assert_eq!(node.find_child(5), None);
}

#[test]
fn find_child_without_next_is_none() {
    let node: Node<i32, i32> =
        node_of(NodeType::Internal, false, 20, NO_PAGE, 0, vec![Slot(10, Either::Pointer(1))]);
    assert_eq!(node.find_child(10), None);
    assert_eq!(node.find_child(9), Some(1));
}

#[test]
fn node_page_layout_is_byte_exact() {
    let node: Node<i32, i32> = node_of(
        NodeType::Leaf,
        true,
        20,
        -1,
        3,
        vec![Slot(258, Either::Value(-2)), Slot(-1, Either::Pointer(7))],
    );
    let page = node.to_page();
    assert_eq!(page.len(), PAGE_SIZE);
    assert_eq!(page[0], 2);
    assert_eq!(page[1], 1);
    assert_eq!(&page[2..6], &[0, 0, 0, 2]);
    assert_eq!(&page[6..10], &[0, 0, 0, 20]);
    assert_eq!(&page[10..14], &[0xff, 0xff, 0xff, 0xff]);
    assert_eq!(&page[14..18], &[0, 0, 0, 3]);
    // slots in key order: -1 first
    assert_eq!(&page[18..27], &[0xff, 0xff, 0xff, 0xff, 1, 0, 0, 0, 7]);
    assert_eq!(&page[27..36], &[0, 0, 1, 2, 0, 0xff, 0xff, 0xff, 0xfe]);
    assert!(page[36..].iter().all(|b| *b == 0));
}

#[test]
fn malformed_pages_hold_no_node() {
    let zeros = vec![0u8; PAGE_SIZE];
    assert!(Node::<i32, i32>::from(&zeros).is_none());
    let short = vec![2u8; 10];
    assert!(Node::<i32, i32>::from(&short).is_none());
    // keys out of order
    let node: Node<i32, i32> = node_of(
        NodeType::Leaf,
        false,
        20,
        -1,
        0,
        vec![Slot(1, Either::Value(1)), Slot(2, Either::Value(2))],
    );
    let mut page = node.to_page();
    page[21] = 5;
    assert!(Node::<i32, i32>::from(&page).is_none());
    // unknown slot tag
    let mut page = node.to_page();
    page[22] = 9;
    assert!(Node::<i32, i32>::from(&page).is_none());
    // more slots than a page holds
    let mut page = node.to_page();
    page[4] = 0xff;
    assert!(Node::<i32, i32>::from(&page).is_none());
}

#[test]
fn replace_stores_in_key_order() {
    let mut node: Node<i32, i32> = node_of(NodeType::Leaf, false, 20, -1, 0, vec![]);
    assert_eq!(node.replace(Slot(5, Either::Value(50))), None);
    assert_eq!(node.replace(Slot(1, Either::Value(10))), None);
    assert_eq!(node.replace(Slot(3, Either::Value(30))), None);
    assert_eq!(node.replace(Slot(3, Either::Value(31))), Some(Slot(3, Either::Value(30))));
    assert!(!node.insert(Slot(3, Either::Value(32))));
    assert_eq!(
        node.values,
        vec![
            Slot(1, Either::Value(10)),
            Slot(3, Either::Value(31)),
            Slot(5, Either::Value(50)),
        ]
    );
    assert_eq!(node.get(&3), Some(Slot(3, Either::Value(31))));
    assert_eq!(node.get(&4), None);
    assert_eq!(node.first_key(), Some(1));
    assert_eq!(node.last_key(), Some(5));
}

#[test]
fn almost_full_at_half_capacity() {
    let mut node: Node<i32, i32> = node_of(NodeType::Leaf, false, 6, -1, 0, vec![]);
    assert!(!node.almost_full());
    node.insert(Slot(1, Either::Value(1)));
    node.insert(Slot(2, Either::Value(1)));
    assert!(!node.almost_full());
    node.insert(Slot(3, Either::Value(1)));
    assert!(node.almost_full());
}

fn cache(pages: usize, pool: usize) -> PageCache {
    PageCache::with_pool_size(Memory::new(pages * PAGE_SIZE), LruK::new(2), 0, pool)
}

fn leaf_chain(pc: &mut PageCache, root: PageId) -> Vec<(i32, i32)> {
    // down the first pointers to the leftmost leaf, then along the chain
    let mut id = root;
    loop {
        let node: Node<i32, i32> = Node::from(&pc.read_page(id).unwrap()).unwrap();
        if node.t == NodeType::Leaf {
            break;
        }
        id = match node.first_ptr() {
            Some(ptr) => ptr,
            None => node.next,
        };
    }
    let mut out = Vec::new();
    while id != NO_PAGE {
        let node: Node<i32, i32> = Node::from(&pc.read_page(id).unwrap()).unwrap();
        assert!(node.t == NodeType::Leaf);
        for slot in &node.values {
            match slot.1 {
                Either::Value(v) => out.push((slot.0, v)),
                Either::Pointer(_) => panic!("pointer in a leaf"),
            }
        }
        id = node.next;
    }
    out
}

#[test]
fn insert_thousand_keys_then_leaves_are_sorted() {
    let mut pc = cache(512, 8);
    let mut tree: BTree<i32, i32> = BTree::new(20);
    assert_eq!(tree.get(&mut pc, 5), Ok(None));
    for i in 0..1000i32 {
        let key = (i * 7919) % 1000;
        assert_eq!(tree.insert(&mut pc, key, key * 2), Ok(()));
    }
    for key in 0..1000i32 {
        assert_eq!(tree.get(&mut pc, key), Ok(Some(key * 2)), "key {}", key);
    }
    assert_eq!(tree.get(&mut pc, 1000), Ok(None));
    assert_eq!(tree.get(&mut pc, -1), Ok(None));

    let have = leaf_chain(&mut pc, tree.root_page());
    let want: Vec<(i32, i32)> = (0..1000).map(|k| (k, k * 2)).collect();
    assert_eq!(have, want);

    let scanned = tree.scan(&mut pc).unwrap();
    let want: Vec<Slot<i32, i32>> = (0..1000).map(|k| Slot(k, Either::Value(k * 2))).collect();
    assert_eq!(scanned, want);
}

#[test]
fn no_node_holds_more_than_half_its_capacity() {
    let mut pc = cache(512, 8);
    let mut tree: BTree<i32, i32> = BTree::new(20);
    for i in 0..1000i32 {
        let key = (i * 7919) % 1000;
        assert_eq!(tree.insert(&mut pc, key, key), Ok(()));
    }
    let mut roots = 0;
    for id in 0..pc.next_page_id() {
        let node: Node<i32, i32> = Node::from(&pc.read_page(id).unwrap()).unwrap();
        assert_eq!(node.max, 20);
        assert!(node.len() <= 10, "page {} holds {} slots", id, node.len());
        assert_eq!(node.is_root, id == tree.root_page());
        if node.is_root {
            roots += 1;
        }
    }
    assert_eq!(roots, 1);
}

#[test]
fn a_tree_of_the_least_capacity_keeps_to_two_slots() {
    let mut pc = cache(512, 8);
    let mut tree: BTree<i32, i32> = BTree::new(2);
    for key in 0..16i32 {
        assert_eq!(tree.insert(&mut pc, key, -key), Ok(()));
    }
    for id in 0..pc.next_page_id() {
        let node: Node<i32, i32> = Node::from(&pc.read_page(id).unwrap()).unwrap();
        assert!(node.len() <= 2);
    }
    for key in 0..16i32 {
        assert_eq!(tree.get(&mut pc, key), Ok(Some(-key)));
    }
}

#[test]
fn scan_of_an_empty_tree_is_empty() {
    let mut pc = cache(4, 2);
    let tree: BTree<i32, i32> = BTree::new(20);
    assert_eq!(tree.scan(&mut pc), Ok(vec![]));
    let tree: BTree<i32, i32> = BTree::open(1, 20);
    assert_eq!(tree.scan(&mut pc), Err(BTreeError::Corrupt));
}

#[test]
fn find_child_routes_by_the_first_greater_key() {
    let node: Node<i32, i32> = node_of(
        NodeType::Internal,
        false,
        20,
        9,
        0,
        vec![Slot(10, Either::Pointer(1)), Slot(20, Either::Pointer(2))],
    );
    assert_eq!(BTree::<i32, i32>::find_child(&node, &5), Ok(Some(1)));
    assert_eq!(BTree::<i32, i32>::find_child(&node, &10), Ok(Some(2)));
    assert_eq!(BTree::<i32, i32>::find_child(&node, &20), Ok(Some(9)));
    let leaf: Node<i32, i32> = node_of(NodeType::Leaf, false, 20, 9, 0, vec![]);
    assert_eq!(BTree::<i32, i32>::find_child(&leaf, &5), Ok(None));
    let open: Node<i32, i32> =
        node_of(NodeType::Internal, false, 20, NO_PAGE, 0, vec![Slot(10, Either::Pointer(1))]);
    assert_eq!(BTree::<i32, i32>::find_child(&open, &10), Err(BTreeError::Corrupt));
}

#[test]
fn insert_ascending_and_descending() {
    let mut pc = cache(2048, 4);
    let mut up: BTree<i32, i32> = BTree::new(8);
    for key in 0..500i32 {
        assert_eq!(up.insert(&mut pc, key, -key), Ok(()));
    }
    let mut down: BTree<i32, i32> = BTree::new(8);
    for key in (0..500i32).rev() {
        assert_eq!(down.insert(&mut pc, key, key + 1), Ok(()));
    }
    for key in 0..500i32 {
        assert_eq!(up.get(&mut pc, key), Ok(Some(-key)));
        assert_eq!(down.get(&mut pc, key), Ok(Some(key + 1)));
    }
    let have = leaf_chain(&mut pc, up.root_page());
    assert_eq!(have, (0..500).map(|k| (k, -k)).collect::<Vec<_>>());
    let have = leaf_chain(&mut pc, down.root_page());
    assert_eq!(have, (0..500).map(|k| (k, k + 1)).collect::<Vec<_>>());
}

#[test]
fn insert_replaces_the_value_of_a_key() {
    let mut pc = cache(64, 4);
    let mut tree: BTree<i32, i32> = BTree::new(20);
    assert_eq!(tree.insert(&mut pc, 7, 1), Ok(()));
    assert_eq!(tree.insert(&mut pc, 7, 2), Ok(()));
    assert_eq!(tree.get(&mut pc, 7), Ok(Some(2)));
    assert_eq!(leaf_chain(&mut pc, tree.root_page()), vec![(7, 2)]);
}

#[test]
fn first_insert_makes_a_root_leaf() {
    let mut pc = cache(8, 2);
    let mut tree: BTree<i32, i32> = BTree::new(20);
    assert_eq!(tree.root_page(), NO_PAGE);
    assert_eq!(tree.insert(&mut pc, 1, 1), Ok(()));
    assert_eq!(tree.root_page(), 0);
    let root: Node<i32, i32> = Node::from(&pc.read_page(0).unwrap()).unwrap();
    assert!(root.is_root);
    assert!(root.t == NodeType::Leaf);
    assert_eq!(root.max, 20);
    assert_eq!(root.id, 0);
}

#[test]
fn root_split_grows_a_new_root() {
    let mut pc = cache(16, 4);
    let mut tree: BTree<i32, i32> = BTree::new(4);
    for key in [10, 20, 30] {
        assert_eq!(tree.insert(&mut pc, key, key), Ok(()));
    }
    // the root leaf held two slots, half of four, when 30 came: it was split
    let root: Node<i32, i32> = Node::from(&pc.read_page(tree.root_page()).unwrap()).unwrap();
    assert!(root.t == NodeType::Internal);
    assert!(root.is_root);
    assert_eq!(root.values, vec![Slot(11, Either::Pointer(0))]);
    assert_eq!(root.next, 1);
    let lower: Node<i32, i32> = Node::from(&pc.read_page(0).unwrap()).unwrap();
    let upper: Node<i32, i32> = Node::from(&pc.read_page(1).unwrap()).unwrap();
    assert!(!lower.is_root && !upper.is_root);
    assert_eq!(lower.next, 1);
    assert_eq!(upper.next, NO_PAGE);
    assert_eq!(lower.values, vec![Slot(10, Either::Value(10))]);
    assert_eq!(upper.values, vec![Slot(20, Either::Value(20)), Slot(30, Either::Value(30))]);
}

#[test]
fn insert_without_a_free_frame_is_out_of_memory() {
    let mut pc = cache(16, 1);
    let mut tree: BTree<i32, i32> = BTree::new(20);
    assert_eq!(tree.insert(&mut pc, 1, 1), Ok(()));
    let guard = pc.fetch_page(0).unwrap();
    assert_eq!(tree.insert(&mut pc, 2, 2), Err(BTreeError::OutOfMemory));
    assert_eq!(tree.get(&mut pc, 1), Err(BTreeError::OutOfMemory));
    pc.unpin(guard);
    assert_eq!(tree.insert(&mut pc, 2, 2), Ok(()));
    assert_eq!(tree.get(&mut pc, 1), Ok(Some(1)));
}

#[test]
fn insert_on_a_full_store_is_out_of_memory() {
    let mut pc = cache(0, 2);
    let mut tree: BTree<i32, i32> = BTree::new(20);
    assert_eq!(tree.insert(&mut pc, 1, 1), Err(BTreeError::OutOfMemory));
    assert_eq!(tree.root_page(), NO_PAGE);
}

#[test]
fn a_page_that_holds_no_node_is_corrupt() {
    let mut pc = cache(4, 2);
    let tree: BTree<i32, i32> = BTree::open(2, 20);
    assert_eq!(tree.get(&mut pc, 1), Err(BTreeError::Corrupt));
    let mut tree: BTree<i32, i32> = BTree::open(9, 20);
    assert_eq!(tree.insert(&mut pc, 1, 1), Err(BTreeError::Corrupt));
}
