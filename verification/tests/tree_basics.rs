use btree::btree::{BPlusTree, TreeError};
use btree::config::{MAX_KEYS, MAX_ORDER, MAX_PAGES};
use btree::node::{HeaderNode, InternalNode, LeafNode, Node};
use btree::record::Record;
use btree::storage::{InMemoryStorage, Storage};
use std::collections::BTreeMap;

fn rec(f: [i32; 7]) -> Record {
    Record::from_fields(f)
}

fn keyed(k: i32) -> Record {
    rec([k, k.wrapping_mul(3), 1, 2, 3, 4, 5])
}

fn tree_of(order: usize, keys: &[i32]) -> BPlusTree<InMemoryStorage> {
    let mut tree = BPlusTree::open_with_order(InMemoryStorage::new(), order).unwrap();
    for &k in keys {
        tree.insert(keyed(k)).unwrap();
    }
    tree
}

fn chain_keys(tree: &mut BPlusTree<InMemoryStorage>) -> Vec<i32> {
    tree.dump_records().iter().map(|r| r.key).collect()
}

#[test]
fn sanity_single_insert() {
    let storage = InMemoryStorage::new();
    let mut tree = BPlusTree::open(storage).unwrap();

    let r = rec([42, 1, 2, 3, 4, 5, 6]);
    tree.insert(r).unwrap();

    assert_eq!(tree.find(42), Some(r));
    assert_eq!(tree.find(7), None);
}

#[test]
fn sanity_update_overwrites_value() {
    let storage = InMemoryStorage::new();
    let mut tree = BPlusTree::open(storage).unwrap();

    let r1 = rec([1, 1, 1, 1, 1, 1, 1]);
    let r2 = rec([1, 9, 9, 9, 9, 9, 9]);

    tree.insert(r1).unwrap();
    tree.insert(r2).unwrap();

    assert_eq!(tree.find(1), Some(r2));
}

#[test]
fn fresh_tree_finds_nothing_until_insert() {
    let mut tree = BPlusTree::open(InMemoryStorage::new()).unwrap();
    assert_eq!(tree.max_keys(), MAX_KEYS);
    assert_eq!(tree.root_page(), 1);
    assert_eq!(tree.find(42), None);
    tree.insert(rec([42, 1, 2, 3, 4, 5, 6])).unwrap();
    assert_eq!(tree.find(42), Some(rec([42, 1, 2, 3, 4, 5, 6])));
    assert_eq!(tree.find(7), None);
}

#[test]
fn fresh_store_gets_header_and_empty_root_leaf() {
    let tree = BPlusTree::open(InMemoryStorage::new()).unwrap();
    let store = tree.into_storage();
    assert_eq!(store.nodes.len(), 2);
    assert_eq!(store.nodes[0], Some(Node::Header(HeaderNode { root: 1 })));
    assert_eq!(store.nodes[1], Some(Node::Leaf(LeafNode::new())));
}

#[test]
fn leaf_split_copies_first_key_of_right_leaf_up() {
    let mut tree = tree_of(4, &[10, 20, 30, 40, 50]);
    for k in [10, 20, 30, 40, 50] {
        assert_eq!(tree.find(k), Some(keyed(k)));
    }
    let root = tree.root_page();
    let store = tree.into_storage();
    assert_eq!(store.nodes[0], Some(Node::Header(HeaderNode { root })));
    let (keys, children) = match &store.nodes[root] {
        Some(Node::Internal(n)) => (n.keys.clone(), n.children.clone()),
        other => panic!("root is not internal: {:?}", other),
    };
    assert_eq!(keys.len(), 1);
    assert_eq!(children.len(), 2);
    let left = match &store.nodes[children[0]] {
        Some(Node::Leaf(l)) => l.clone(),
        other => panic!("left child is not a leaf: {:?}", other),
    };
    let right = match &store.nodes[children[1]] {
        Some(Node::Leaf(l)) => l.clone(),
        other => panic!("right child is not a leaf: {:?}", other),
    };
    assert_eq!(left.keys, vec![10, 20, 30]);
    assert_eq!(right.keys, vec![40, 50]);
    assert_eq!(keys[0], right.keys[0]);
    assert_eq!(left.next, Some(children[1]));
    assert_eq!(right.next, None);
    assert_eq!(children[0], 1);
}

#[test]
fn no_split_while_leaf_holds_at_most_the_capacity() {
    let mut tree = tree_of(4, &[10, 20, 30, 40]);
    assert_eq!(tree.root_page(), 1);
    assert_eq!(tree.storage().total_nodes(), 2);
    tree.insert(keyed(25)).unwrap();
    assert_ne!(tree.root_page(), 1);
    assert_eq!(tree.storage().total_nodes(), 4);
}

#[test]
fn recursive_split_grows_the_tree_by_levels() {
    let keys: Vec<i32> = (1..=20).collect();
    let mut tree = tree_of(4, &keys);
    for k in 1..=20 {
        assert_eq!(tree.find(k), Some(keyed(k)));
    }
    assert_eq!(chain_keys(&mut tree), keys);
    let lines = tree.dump_tree();
    let height = lines.iter().map(|l| l.depth).max().unwrap();
    assert!(height >= 2);
    assert_eq!(lines[0].depth, 0);
    assert_eq!(lines[0].loc, tree.root_page());
    assert!(!lines[0].leaf);
    for l in &lines {
        assert_eq!(l.leaf, l.depth == height);
        assert!(l.keys.len() <= 4);
    }
}

#[test]
fn internal_split_pushes_the_middle_key_up() {
    let order = 2;
    let keys: Vec<i32> = (1..=8).collect();
    let mut tree = tree_of(order, &keys);
    let lines = tree.dump_tree();
    let leaf_keys: Vec<i32> = lines.iter().filter(|l| l.leaf).flat_map(|l| l.keys.clone()).collect();
    assert_eq!(leaf_keys, keys);
    let mut separators: Vec<i32> =
        lines.iter().filter(|l| !l.leaf).flat_map(|l| l.keys.clone()).collect();
    let n = separators.len();
    separators.sort();
    separators.dedup();
    assert_eq!(separators.len(), n);
    for s in separators {
        assert!(leaf_keys.contains(&s));
    }
}

#[test]
fn reverse_order_insert_keeps_chain_ascending() {
    let keys: Vec<i32> = (1..=20).rev().collect();
    let mut tree = tree_of(4, &keys);
    for k in 1..=20 {
        assert_eq!(tree.find(k), Some(keyed(k)));
    }
    assert_eq!(chain_keys(&mut tree), (1..=20).collect::<Vec<i32>>());
    let first = tree.leftmost_leaf();
    let store = tree.into_storage();
    match &store.nodes[first] {
        Some(Node::Leaf(l)) => assert_eq!(l.keys[0], 1),
        other => panic!("leftmost page is not a leaf: {:?}", other),
    }
}

#[test]
fn boundary_keys_are_found_and_nothing_between() {
    let mut tree = tree_of(4, &[i32::MIN, i32::MAX]);
    assert_eq!(tree.find(i32::MIN), Some(keyed(i32::MIN)));
    assert_eq!(tree.find(i32::MAX), Some(keyed(i32::MAX)));
    assert_eq!(tree.find(0), None);
    assert_eq!(tree.find(i32::MIN + 1), None);
    assert_eq!(tree.find(i32::MAX - 1), None);
    assert_eq!(chain_keys(&mut tree), vec![i32::MIN, i32::MAX]);
}

#[test]
fn update_leaves_shape_and_pages_alone() {
    let keys: Vec<i32> = (1..=50).collect();
    let mut tree = tree_of(3, &keys);
    let root = tree.root_page();
    let total = tree.storage().total_nodes();
    let before = tree.dump_tree().iter().map(|l| (l.depth, l.loc, l.keys.clone())).collect::<Vec<_>>();
    tree.insert(rec([17, 7, 7, 7, 7, 7, 7])).unwrap();
    assert_eq!(tree.find(17), Some(rec([17, 7, 7, 7, 7, 7, 7])));
    assert_eq!(tree.root_page(), root);
    assert_eq!(tree.storage().total_nodes(), total);
    let after = tree.dump_tree().iter().map(|l| (l.depth, l.loc, l.keys.clone())).collect::<Vec<_>>();
    assert_eq!(before, after);
}

#[test]
fn inserting_the_same_record_twice_changes_no_page() {
    let keys: Vec<i32> = (1..=30).collect();
    let mut tree = tree_of(4, &keys);
    tree.insert(keyed(99)).unwrap();
    let once = tree.storage().nodes.clone();
    tree.insert(keyed(99)).unwrap();
    assert_eq!(tree.storage().nodes, once);
    assert_eq!(tree.find(99), Some(keyed(99)));
}

fn next_random(state: &mut u64) -> u64 {
    *state = state.wrapping_mul(6364136223846793005).wrapping_add(1442695040888963407);
    *state >> 33
}

#[test]
fn tree_matches_ordered_map_on_mixed_operations() {
    for order in [1usize, 2, 4, 5, 30] {
        let mut state = 7 + order as u64;
        let mut tree = BPlusTree::open_with_order(InMemoryStorage::new(), order).unwrap();
        let mut model = BTreeMap::<i32, Record>::new();
        for _ in 0..3000 {
            let key = (next_random(&mut state) % 400) as i32 - 200;
            if next_random(&mut state) % 3 == 0 {
                assert_eq!(tree.find(key), model.get(&key).copied());
            } else {
                let r = rec([key, next_random(&mut state) as i32, 0, 0, 0, 0, 0]);
                tree.insert(r).unwrap();
                model.insert(key, r);
            }
        }
        for (k, v) in &model {
            assert_eq!(tree.find(*k), Some(*v));
        }
        let all: Vec<Record> = model.values().copied().collect();
        assert_eq!(tree.dump_records(), all);
    }
}

#[test]
fn all_inserted_keys_are_findable() {
    let mut state = 99u64;
    let mut tree = BPlusTree::open(InMemoryStorage::new()).unwrap();
    let mut model = BTreeMap::<i32, Record>::new();
    for _ in 0..1000 {
        let r = rec([
            next_random(&mut state) as i32,
            next_random(&mut state) as i32,
            1,
            2,
            3,
            4,
            5,
        ]);
        tree.insert(r).unwrap();
        model.insert(r.key, r);
    }
    for (key, value) in model {
        assert_eq!(tree.find(key), Some(value));
    }
}

#[test]
fn every_node_keeps_order_and_arity_after_each_insert() {
    let order = 3;
    let mut state = 5u64;
    let mut tree = BPlusTree::open_with_order(InMemoryStorage::new(), order).unwrap();
    for _ in 0..300 {
        let key = (next_random(&mut state) % 1000) as i32;
        tree.insert(keyed(key)).unwrap();
        let nodes = tree.storage().nodes.clone();
        for node in nodes.iter().flatten() {
            match node {
                Node::Leaf(l) => {
                    assert_eq!(l.keys.len(), l.values.len());
                    assert!(l.keys.len() <= order);
                    assert!(l.keys.windows(2).all(|w| w[0] < w[1]));
                }
                Node::Internal(n) => {
                    assert_eq!(n.children.len(), n.keys.len() + 1);
                    assert!(n.keys.len() <= order);
                    assert!(n.keys.windows(2).all(|w| w[0] < w[1]));
                }
                Node::Header(h) => assert_eq!(h.root, tree.root_page()),
            }
        }
    }
}

#[test]
fn open_refuses_order_out_of_range() {
    assert_eq!(
        BPlusTree::open_with_order(InMemoryStorage::new(), 0).err(),
        Some(TreeError::OrderOutOfRange)
    );
    assert_eq!(
        BPlusTree::open_with_order(InMemoryStorage::new(), MAX_ORDER + 1).err(),
        Some(TreeError::OrderOutOfRange)
    );
    assert!(BPlusTree::open_with_order(InMemoryStorage::new(), MAX_ORDER).is_ok());
    assert!(BPlusTree::open_with_order(InMemoryStorage::new(), 1).is_ok());
}

#[test]
fn open_refuses_store_without_header() {
    let mut store = InMemoryStorage::new();
    store.write_node(0, &Node::Leaf(LeafNode::new()));
    assert_eq!(BPlusTree::open(store).err(), Some(TreeError::MissingHeader));

    let mut store = InMemoryStorage::new();
    store.write_node(1, &Node::Leaf(LeafNode::new()));
    assert_eq!(BPlusTree::open(store).err(), Some(TreeError::MissingHeader));
}

#[test]
fn reopened_store_holds_the_same_records() {
    let keys: Vec<i32> = (1..=40).collect();
    let tree = tree_of(MAX_KEYS, &keys);
    let root = tree.root_page();
    let store = tree.into_storage();
    let mut again = BPlusTree::open(store).unwrap();
    assert_eq!(again.root_page(), root);
    for k in 1..=40 {
        assert_eq!(again.find(k), Some(keyed(k)));
    }
    assert_eq!(again.find(41), None);
}

#[test]
fn insert_adds_a_page_for_each_split_and_one_for_a_new_root() {
    let mut tree = BPlusTree::open_with_order(InMemoryStorage::new(), 2).unwrap();
    let mut pages = vec![];
    for k in 1..=9 {
        assert_eq!(tree.insert(keyed(k)), Ok(()));
        pages.push(tree.storage().total_nodes());
    }
    // 1, 2 fit the root leaf; 3 cuts it and grows a root; 5 and 7 cut a
    // leaf; 7 also cuts the root and grows a new one; 9 cuts a leaf
    assert_eq!(pages, vec![2, 2, 4, 4, 5, 5, 8, 8, 9]);
    // replacing a record takes no page
    assert_eq!(tree.insert(rec([4, 8, 8, 8, 8, 8, 8])), Ok(()));
    assert_eq!(tree.storage().total_nodes(), 9);
    assert!(tree.storage().total_nodes() <= MAX_PAGES);
}

#[test]
fn in_memory_write_past_the_end_leaves_empty_pages_between() {
    let mut store = InMemoryStorage::new();
    assert_eq!(store.total_nodes(), 0);
    assert_eq!(store.read_node(0), None);
    let node = Node::Internal(InternalNode { keys: vec![5], children: vec![1, 2] });
    store.write_node(3, &node);
    assert_eq!(store.total_nodes(), 4);
    assert_eq!(store.read_node(0), None);
    assert_eq!(store.read_node(2), None);
    assert_eq!(store.read_node(3), Some(node.clone()));
    assert_eq!(store.read_node(4), None);
    store.write_node(1, &Node::Header(HeaderNode { root: 3 }));
    assert_eq!(store.read_node(3), Some(node));
    assert_eq!(store.total_nodes(), 4);
}

#[test]
fn validate_accepts_trees_built_by_insert() {
    let mut tree = BPlusTree::open(InMemoryStorage::new()).unwrap();
    assert!(tree.validate());
    let mut state = 3u64;
    for _ in 0..500 {
        tree.insert(keyed((next_random(&mut state) % 5000) as i32 - 2500)).unwrap();
    }
    assert!(tree.validate());
    let store = tree.into_storage();
    let mut again = BPlusTree::open(store).unwrap();
    assert!(again.validate());
    assert!(tree_of(1, &(1..=64).collect::<Vec<i32>>()).validate());
    assert!(tree_of(30, &(1..=64).rev().collect::<Vec<i32>>()).validate());
}

fn damaged(change: impl Fn(&mut InMemoryStorage, usize)) -> bool {
    let tree = tree_of(4, &[10, 20, 30, 40, 50, 60, 70, 80]);
    let root = tree.root_page();
    let mut store = tree.into_storage();
    change(&mut store, root);
    BPlusTree::open_with_order(store, 4).unwrap().validate()
}

fn leaf_at(store: &InMemoryStorage, loc: usize) -> LeafNode {
    match &store.nodes[loc] {
        Some(Node::Leaf(l)) => l.clone(),
        other => panic!("not a leaf: {:?}", other),
    }
}

fn internal_at(store: &InMemoryStorage, loc: usize) -> InternalNode {
    match &store.nodes[loc] {
        Some(Node::Internal(n)) => n.clone(),
        other => panic!("not internal: {:?}", other),
    }
}

#[test]
fn validate_rejects_damaged_trees() {
    assert!(damaged(|_, _| {}));
    // keys out of order in a leaf
    assert!(!damaged(|s, _| {
        let mut l = leaf_at(s, 1);
        l.keys.swap(0, 1);
        l.values.swap(0, 1);
        s.nodes[1] = Some(Node::Leaf(l));
    }));
    // a record beside a key that is not its own
    assert!(!damaged(|s, _| {
        let mut l = leaf_at(s, 1);
        l.values[0] = keyed(11);
        s.nodes[1] = Some(Node::Leaf(l));
    }));
    // a key on the wrong side of a separator
    assert!(!damaged(|s, _| {
        let mut l = leaf_at(s, 1);
        l.keys[0] = 1000;
        l.values[0] = keyed(1000);
        s.nodes[1] = Some(Node::Leaf(l));
    }));
    // a broken successor link
    assert!(!damaged(|s, _| {
        let mut l = leaf_at(s, 1);
        l.next = None;
        s.nodes[1] = Some(Node::Leaf(l));
    }));
    // a leaf with more keys than records
    assert!(!damaged(|s, _| {
        let mut l = leaf_at(s, 1);
        l.values.pop();
        s.nodes[1] = Some(Node::Leaf(l));
    }));
    // one child reached twice
    assert!(!damaged(|s, root| {
        let mut n = internal_at(s, root);
        n.children[1] = n.children[0];
        s.nodes[root] = Some(Node::Internal(n));
    }));
    // a node that is its own child
    assert!(!damaged(|s, root| {
        let mut n = internal_at(s, root);
        n.children[0] = root;
        s.nodes[root] = Some(Node::Internal(n));
    }));
    // a child past the end of the store, and one that is the header
    assert!(!damaged(|s, root| {
        let mut n = internal_at(s, root);
        n.children[0] = 999;
        s.nodes[root] = Some(Node::Internal(n));
    }));
    assert!(!damaged(|s, root| {
        let mut n = internal_at(s, root);
        n.children[0] = 0;
        s.nodes[root] = Some(Node::Internal(n));
    }));
    // wrong arity
    assert!(!damaged(|s, root| {
        let mut n = internal_at(s, root);
        n.children.pop();
        s.nodes[root] = Some(Node::Internal(n));
    }));
    // leaves at different depths
    assert!(!damaged(|s, root| {
        let n = internal_at(s, root);
        let inner = InternalNode { keys: vec![], children: vec![n.children[0]] };
        s.nodes.push(Some(Node::Internal(inner)));
        let at = s.nodes.len() - 1;
        let mut n = n;
        n.children[0] = at;
        s.nodes[root] = Some(Node::Internal(n));
    }));
    // an overfull node
    assert!(!BPlusTree::open_with_order(tree_of(5, &[1, 2, 3, 4, 5]).into_storage(), 4)
        .unwrap()
        .validate());
    // a header that names another root than the one opened with is caught on reading page 0
    assert!(!damaged(|s, root| {
        s.nodes[root] = None;
    }));
}

#[test]
fn every_page_belongs_to_the_tree() {
    let mut state = 11u64;
    let mut tree = BPlusTree::open_with_order(InMemoryStorage::new(), 2).unwrap();
    for _ in 0..200 {
        tree.insert(keyed((next_random(&mut state) % 100000) as i32)).unwrap();
        let total = tree.storage().total_nodes();
        let mut seen: Vec<usize> = tree.dump_tree().iter().map(|l| l.loc).collect();
        seen.sort();
        assert_eq!(seen, (1..total).collect::<Vec<usize>>());
    }
}

#[test]
fn height_grows_exactly_when_the_root_moves() {
    let mut state = 21u64;
    let mut tree = BPlusTree::open_with_order(InMemoryStorage::new(), 2).unwrap();
    let mut height = 0;
    let mut root = tree.root_page();
    let mut grown = 0;
    for _ in 0..400 {
        tree.insert(keyed((next_random(&mut state) % 10000) as i32)).unwrap();
        let now = tree.dump_tree().iter().map(|l| l.depth).max().unwrap();
        if tree.root_page() != root {
            assert_eq!(now, height + 1);
            assert_eq!(tree.root_page(), tree.storage().total_nodes() - 1);
            grown += 1;
        } else {
            assert_eq!(now, height);
        }
        height = now;
        root = tree.root_page();
    }
    assert!(grown >= 3);
}
