use btree::btree::BPlusTree;
use btree::config::PAGE_SIZE;
use btree::node::{HeaderNode, InternalNode, LeafNode, Node};
use btree::node_storage::NodeStorage;
use btree::page::{decode_node, encode_node, fits_page};
use btree::record::Record;
use btree::storage::Storage;
use rand::Rng;

fn random_node() -> Node {
    let mut rng = rand::rng();
    let n = rng.random_range(1..=btree::config::MAX_KEYS);
    let mut values: Vec<Record> = (0..n).map(|_| Record::random()).collect();
    values.sort_by_key(|r| r.key);
    values.dedup_by_key(|r| r.key);
    let keys = values.iter().map(|r| r.key).collect();
    Node::Leaf(LeafNode { keys, values, next: Some(rng.random_range(0..200)) })
}

fn leaf_of(keys: &[i32], next: Option<usize>) -> Node {
    Node::Leaf(LeafNode {
        keys: keys.to_vec(),
        values: keys.iter().map(|&k| Record::from_fields([k, -k, 1, 2, 3, 4, i32::MIN])).collect(),
        next,
    })
}

#[test]
fn test_append_and_read_single_node() {
    let mut storage = NodeStorage::new();

    let node = random_node();
    let index = storage.append_node(&node);

    assert_eq!(index, 0);
    assert_eq!(storage.page_writes, 1);
    assert_eq!(storage.num_nodes(), 1);

    let read_node = storage.read_node(0);
    assert_eq!(read_node, Some(node));
    assert_eq!(storage.page_reads, 1);
}

#[test]
fn test_overwrite_node() {
    let mut storage = NodeStorage::new();

    let node1 = random_node();
    let node2 = random_node();

    let index = storage.append_node(&node1);
    storage.write_node(index, &node2);

    let read_node = storage.read_node(index);
    assert_eq!(read_node, Some(node2));

    assert_eq!(storage.page_writes, 2);
    assert_eq!(storage.page_reads, 1);
}

#[test]
fn test_multiple_nodes() {
    let mut storage = NodeStorage::new();

    let mut nodes = vec![];

    for _ in 0..10 {
        let node = random_node();
        storage.append_node(&node);
        nodes.push(node);
    }

    assert_eq!(storage.num_nodes(), 10);
    assert_eq!(storage.page_writes, 10);

    for i in 0..10 {
        let read_node = storage.read_node(i);
        assert_eq!(read_node.as_ref(), Some(&nodes[i]));
    }

    assert_eq!(storage.page_reads, 10);
}

#[test]
fn header_page_has_tag_and_little_endian_root() {
    let page = encode_node(&Node::Header(HeaderNode { root: 0x0102_0304 })).unwrap();
    assert_eq!(page.len(), PAGE_SIZE);
    assert_eq!(&page[..9], &[1, 4, 3, 2, 1, 0, 0, 0, 0]);
    assert!(page[9..].iter().all(|&b| b == 0));
}

#[test]
fn leaf_page_lays_out_lengths_keys_records_and_successor() {
    let node = Node::Leaf(LeafNode {
        keys: vec![-2, 258],
        values: vec![
            Record::from_fields([-2, 1, 2, 3, 4, 5, 6]),
            Record::from_fields([258, 0, 0, 0, 0, 0, -1]),
        ],
        next: Some(7),
    });
    let page = encode_node(&node).unwrap();
    assert_eq!(page[0], 2);
    assert_eq!(&page[1..5], &[2, 0, 0, 0]);
    assert_eq!(&page[5..9], &[0xfe, 0xff, 0xff, 0xff]);
    assert_eq!(&page[9..13], &[2, 1, 0, 0]);
    assert_eq!(&page[13..17], &[2, 0, 0, 0]);
    assert_eq!(&page[17..21], &[0xfe, 0xff, 0xff, 0xff]);
    assert_eq!(&page[21..25], &[1, 0, 0, 0]);
    assert_eq!(&page[41..45], &[6, 0, 0, 0]);
    assert_eq!(&page[45..49], &[2, 1, 0, 0]);
    assert_eq!(&page[69..73], &[0xff, 0xff, 0xff, 0xff]);
    assert_eq!(&page[73..82], &[1, 7, 0, 0, 0, 0, 0, 0, 0]);
    assert!(page[82..].iter().all(|&b| b == 0));
    assert_eq!(decode_node(&page), Some(node));
}

#[test]
fn internal_page_lays_out_keys_and_children() {
    let node = Node::Internal(InternalNode { keys: vec![40], children: vec![1, 0x1_0000] });
    let page = encode_node(&node).unwrap();
    assert_eq!(page[0], 3);
    assert_eq!(&page[1..5], &[1, 0, 0, 0]);
    assert_eq!(&page[5..9], &[40, 0, 0, 0]);
    assert_eq!(&page[9..13], &[2, 0, 0, 0]);
    assert_eq!(&page[13..21], &[1, 0, 0, 0, 0, 0, 0, 0]);
    assert_eq!(&page[21..29], &[0, 0, 1, 0, 0, 0, 0, 0]);
    assert!(page[29..].iter().all(|&b| b == 0));
    assert_eq!(decode_node(&page), Some(node));
}

#[test]
fn every_kind_of_node_round_trips() {
    let nodes = vec![
        Node::Header(HeaderNode { root: 0 }),
        Node::Header(HeaderNode { root: usize::MAX }),
        Node::Leaf(LeafNode::new()),
        leaf_of(&[i32::MIN, -1, 0, 1, i32::MAX], None),
        leaf_of(&[3], Some(usize::MAX)),
        leaf_of(&(0..31).collect::<Vec<i32>>(), Some(12)),
        Node::Leaf(LeafNode { keys: vec![1, 2, 3], values: vec![], next: None }),
        Node::Internal(InternalNode { keys: vec![], children: vec![9] }),
        Node::Internal(InternalNode { keys: vec![], children: vec![] }),
        Node::Internal(InternalNode {
            keys: (0..31).map(|k| k * 1000 - 7).collect(),
            children: (0..32).map(|c| c * 3 + 1).collect(),
        }),
    ];
    for node in nodes {
        assert!(fits_page(&node));
        let page = encode_node(&node).unwrap();
        assert_eq!(page.len(), PAGE_SIZE);
        assert_eq!(decode_node(&page), Some(node));
    }
}

#[test]
fn random_nodes_round_trip() {
    for _ in 0..200 {
        let node = random_node();
        let page = encode_node(&node).unwrap();
        assert_eq!(decode_node(&page), Some(node));
    }
}

#[test]
fn node_too_large_for_a_page_is_refused() {
    let fits = leaf_of(&(0..31).collect::<Vec<i32>>(), None);
    let too_large = leaf_of(&(0..32).collect::<Vec<i32>>(), None);
    assert!(fits_page(&fits));
    assert!(encode_node(&fits).is_some());
    assert!(!fits_page(&too_large));
    assert_eq!(encode_node(&too_large), None);
    let wide = Node::Internal(InternalNode { keys: vec![0; 200], children: vec![0; 30] });
    assert!(!fits_page(&wide));
    assert_eq!(encode_node(&wide), None);
}

#[test]
fn zero_page_and_garbage_decode_to_nothing() {
    assert_eq!(decode_node(&vec![0u8; PAGE_SIZE]), None);
    assert_eq!(decode_node(&vec![0xffu8; PAGE_SIZE]), None);
    assert_eq!(decode_node(&[]), None);
    assert_eq!(decode_node(&[1, 0, 0, 0]), None);
    let mut page = vec![0u8; PAGE_SIZE];
    page[0] = 2;
    page[1..5].copy_from_slice(&[0xff, 0xff, 0xff, 0x7f]);
    assert_eq!(decode_node(&page), None);
    let mut page = vec![0u8; PAGE_SIZE];
    page[0] = 2;
    page[9] = 2;
    assert_eq!(decode_node(&page), None);
    let mut page = vec![0u8; PAGE_SIZE];
    page[0] = 3;
    page[5..9].copy_from_slice(&[0, 1, 0, 0]);
    assert_eq!(decode_node(&page), None);
    let mut page = vec![0u8; PAGE_SIZE];
    page[0] = 4;
    assert_eq!(decode_node(&page), None);
}

#[test]
fn write_past_the_end_extends_with_empty_pages() {
    let mut storage = NodeStorage::new();
    let node = leaf_of(&[1, 2], None);
    storage.write_node(3, &node);
    assert_eq!(storage.num_nodes(), 4);
    assert_eq!(storage.total_nodes(), 4);
    assert_eq!(storage.as_bytes().len(), 4 * PAGE_SIZE);
    assert_eq!(storage.read_node(0), None);
    assert_eq!(storage.read_node(1), None);
    assert_eq!(storage.read_node(2), None);
    assert_eq!(storage.read_node(3), Some(node));
    assert_eq!(storage.read_node(4), None);
    assert_eq!(storage.page_reads, 5);
    assert_eq!(storage.page_writes, 1);
}

#[test]
fn read_of_a_page_never_written_is_counted() {
    let mut storage = NodeStorage::new();
    assert_eq!(storage.read_node(0), None);
    assert_eq!(storage.page_reads, 1);
    assert_eq!(storage.read_node(7), None);
    assert_eq!(storage.page_reads, 2);
    assert_eq!(storage.page_writes, 0);
    assert_eq!(storage.num_nodes(), 0);
    assert!(storage.as_bytes().is_empty());
}

#[test]
fn writing_one_page_leaves_the_others_alone() {
    let mut storage = NodeStorage::new();
    let nodes: Vec<Node> = (0..6).map(|i| leaf_of(&[i, i + 10], Some(i as usize))).collect();
    for n in &nodes {
        storage.append_node(n);
    }
    let image = storage.as_bytes().clone();
    let other = Node::Internal(InternalNode { keys: vec![1, 2, 3], children: vec![4, 5, 6, 7] });
    storage.write_node(2, &other);
    for i in 0..6 {
        let expected = if i == 2 { &other } else { &nodes[i] };
        assert_eq!(storage.read_node(i).as_ref(), Some(expected));
    }
    let after = storage.as_bytes();
    assert_eq!(after.len(), image.len());
    assert_eq!(&after[..2 * PAGE_SIZE], &image[..2 * PAGE_SIZE]);
    assert_eq!(&after[3 * PAGE_SIZE..], &image[3 * PAGE_SIZE..]);
}

#[test]
fn image_with_a_ragged_tail_counts_whole_pages_only() {
    let mut storage = NodeStorage::new();
    storage.append_node(&leaf_of(&[1], None));
    let mut bytes = storage.into_bytes();
    bytes.extend_from_slice(&[2, 9, 9, 9, 9]);
    let mut storage = NodeStorage::from_bytes(bytes);
    assert_eq!(storage.num_nodes(), 1);
    storage.write_node(2, &leaf_of(&[7], None));
    assert_eq!(storage.num_nodes(), 3);
    assert_eq!(storage.read_node(0), Some(leaf_of(&[1], None)));
    assert_eq!(storage.read_node(1), None);
    assert_eq!(storage.read_node(2), Some(leaf_of(&[7], None)));
    assert_eq!(storage.as_bytes().len(), 3 * PAGE_SIZE);
}

#[test]
fn tree_on_a_byte_image_survives_reopening() {
    let mut tree = BPlusTree::open_with_order(NodeStorage::new(), 4).unwrap();
    for k in (1..=200).rev() {
        tree.insert(Record::from_fields([k, k + 1, k + 2, 0, 0, 0, -k])).unwrap();
    }
    let bytes = tree.into_storage().into_bytes();
    assert_eq!(bytes.len() % PAGE_SIZE, 0);
    assert_eq!(bytes[0], 1);
    let mut tree = BPlusTree::open_with_order(NodeStorage::from_bytes(bytes), 4).unwrap();
    for k in 1..=200 {
        assert_eq!(tree.find(k), Some(Record::from_fields([k, k + 1, k + 2, 0, 0, 0, -k])));
    }
    assert_eq!(tree.find(0), None);
    let keys: Vec<i32> = tree.dump_records().iter().map(|r| r.key).collect();
    assert_eq!(keys, (1..=200).collect::<Vec<i32>>());
}
