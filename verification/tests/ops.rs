use cow_btree::error::Error;
use cow_btree::node::{BNode, Entry, NodeType, BTREE_PAGE_SIZE};
use cow_btree::ops::{
    insert_child_pointer, insert_leaf, lookup_child, merge_if_undersized, remove_leaf,
    replace_child_pointer, search, split_if_oversized, Lookup, Merged,
};

fn entry(ptr: u64, key: &[u8], val: &[u8]) -> Entry {
    Entry { ptr, key: key.to_vec(), val: val.to_vec() }
}

fn leaf(pairs: &[(&[u8], &[u8])]) -> BNode {
    let entries: Vec<Entry> = pairs.iter().map(|(k, v)| entry(0, k, v)).collect();
    BNode::decode(BNode::build(NodeType::Leaf, &entries).unwrap().into_bytes()).unwrap()
}

fn internal(kids: &[(&[u8], u64)]) -> BNode {
    let entries: Vec<Entry> = kids.iter().map(|(k, p)| entry(*p, k, b"")).collect();
    BNode::decode(BNode::build(NodeType::Internal, &entries).unwrap().into_bytes()).unwrap()
}

fn keys(node: &BNode) -> Vec<Vec<u8>> {
    (0..node.key_count()).map(|i| node.key_at(i).to_vec()).collect()
}

fn numbered(count: u32, value_len: usize) -> BNode {
    let entries: Vec<Entry> = (0..count)
        .map(|i| entry(0, format!("{:06}", i).as_bytes(), &vec![b'v'; value_len]))
        .collect();
    BNode::decode(BNode::build(NodeType::Leaf, &entries).unwrap().into_bytes()).unwrap()
}

#[test]
fn search_finds_the_position_of_a_key() {
    let node = leaf(&[(b"b", b"1"), (b"d", b"2"), (b"f", b"3")]);
    assert_eq!(search(&node, b"a"), (0, false));
    assert_eq!(search(&node, b"b"), (0, true));
    assert_eq!(search(&node, b"c"), (1, false));
    assert_eq!(search(&node, b"f"), (2, true));
    assert_eq!(search(&node, b"g"), (3, false));
}

#[test]
fn lookup_in_a_leaf_gives_the_value_or_absent() {
    let node = leaf(&[(b"b", b"1"), (b"d", b"2")]);
    assert!(matches!(lookup_child(&node, b"d"), Lookup::Value(v) if v == b"2".to_vec()));
    assert!(matches!(lookup_child(&node, b"c"), Lookup::Absent));
    assert!(matches!(lookup_child(&node, b""), Lookup::Absent));
}

#[test]
fn lookup_in_an_internal_node_gives_the_child_that_owns_the_key() {
    let node = internal(&[(b"b", 10), (b"d", 20), (b"f", 30)]);
    assert!(matches!(lookup_child(&node, b"a"), Lookup::Child { index: 0, page: 10 }));
    assert!(matches!(lookup_child(&node, b"b"), Lookup::Child { index: 0, page: 10 }));
    assert!(matches!(lookup_child(&node, b"c"), Lookup::Child { index: 0, page: 10 }));
    assert!(matches!(lookup_child(&node, b"d"), Lookup::Child { index: 1, page: 20 }));
    assert!(matches!(lookup_child(&node, b"e"), Lookup::Child { index: 1, page: 20 }));
    assert!(matches!(lookup_child(&node, b"zz"), Lookup::Child { index: 2, page: 30 }));
}

#[test]
fn insert_leaf_puts_the_key_at_its_sorted_position() {
    let node = leaf(&[(b"b", b"1"), (b"d", b"2")]);
    let first = insert_leaf(&node, b"a", b"0").unwrap();
    assert_eq!(keys(&first), vec![b"a".to_vec(), b"b".to_vec(), b"d".to_vec()]);
    let middle = insert_leaf(&node, b"c", b"x").unwrap();
    assert_eq!(keys(&middle), vec![b"b".to_vec(), b"c".to_vec(), b"d".to_vec()]);
    assert_eq!(middle.value_at(1), b"x");
    let last = insert_leaf(&node, b"e", b"9").unwrap();
    assert_eq!(keys(&last), vec![b"b".to_vec(), b"d".to_vec(), b"e".to_vec()]);
    // the node it was made from is as it was
    assert_eq!(keys(&node), vec![b"b".to_vec(), b"d".to_vec()]);
}

#[test]
fn insert_leaf_replaces_the_value_of_a_key_it_holds() {
    let node = leaf(&[(b"b", b"1"), (b"d", b"2")]);
    let new = insert_leaf(&node, b"d", b"changed").unwrap();
    assert_eq!(new.key_count(), 2);
    assert_eq!(new.value_at(1), b"changed");
    assert_eq!(new.value_at(0), b"1");
}

#[test]
fn insert_leaf_refuses_what_is_over_the_limits() {
    let node = leaf(&[(b"b", b"1")]);
    assert_eq!(insert_leaf(&node, &vec![0u8; 1001], b"v").unwrap_err(), Error::KeyTooLarge);
    assert_eq!(insert_leaf(&node, b"k", &vec![0u8; 3001]).unwrap_err(), Error::ValueTooLarge);
    assert_eq!(
        insert_leaf(&node, &vec![0u8; 1001], &vec![0u8; 3001]).unwrap_err(),
        Error::KeyTooLarge
    );
    assert!(insert_leaf(&node, &vec![0u8; 1000], &vec![0u8; 3000]).is_ok());
}

#[test]
fn remove_leaf_takes_the_key_out() {
    let node = leaf(&[(b"a", b"1"), (b"b", b"2"), (b"c", b"3")]);
    let (new, found) = remove_leaf(&node, b"b");
    assert!(found);
    assert_eq!(keys(&new), vec![b"a".to_vec(), b"c".to_vec()]);
    assert_eq!(new.value_at(1), b"3");
}

#[test]
fn remove_leaf_of_an_absent_key_copies_the_node() {
    let node = leaf(&[(b"a", b"1"), (b"c", b"3")]);
    let (new, found) = remove_leaf(&node, b"b");
    assert!(!found);
    assert_eq!(new.as_bytes(), node.as_bytes());
}

#[test]
fn child_pointers_can_be_replaced_and_inserted() {
    let node = internal(&[(b"b", 10), (b"f", 30)]);
    let replaced = replace_child_pointer(&node, 0, b"a", 11);
    assert_eq!(keys(&replaced), vec![b"a".to_vec(), b"f".to_vec()]);
    assert_eq!(replaced.child_pointer(0), 11);
    assert_eq!(replaced.child_pointer(1), 30);
    let grown = insert_child_pointer(&replaced, 1, b"d", 20);
    assert_eq!(keys(&grown), vec![b"a".to_vec(), b"d".to_vec(), b"f".to_vec()]);
    assert_eq!(grown.child_pointer(1), 20);
    assert_eq!(grown.child_pointer(2), 30);
    let at_end = insert_child_pointer(&grown, 3, b"h", 40);
    assert_eq!(at_end.key_count(), 4);
    assert_eq!(at_end.child_pointer(3), 40);
}

#[test]
fn a_node_that_fits_is_not_split() {
    let node = numbered(20, 100);
    let bytes = node.as_bytes().to_vec();
    let parts = split_if_oversized(node);
    assert_eq!(parts.len(), 1);
    assert_eq!(parts[0].node.as_bytes(), &bytes[..]);
    assert_eq!(parts[0].key, b"000000".to_vec());
}

#[test]
fn an_oversized_node_is_split_in_two_near_the_middle() {
    let node = numbered(40, 100);
    assert!(node.encoded_size() > BTREE_PAGE_SIZE);
    let all = keys(&node);
    let parts = split_if_oversized(node);
    assert_eq!(parts.len(), 2);
    let mut joined = keys(&parts[0].node);
    joined.extend(keys(&parts[1].node));
    assert_eq!(joined, all);
    for part in &parts {
        assert!(part.node.encoded_size() <= BTREE_PAGE_SIZE);
        assert_eq!(part.key, part.node.key_at(0).to_vec());
    }
    assert_eq!(parts[0].node.key_count(), 20);
    assert_eq!(parts[1].node.key_count(), 20);
}

#[test]
fn large_entries_can_take_three_nodes() {
    let entries = vec![
        entry(0, b"a", &vec![1u8; 2000]),
        entry(0, b"b", &vec![2u8; 3000]),
        entry(0, b"c", &vec![3u8; 3000]),
    ];
    let node = BNode::decode(BNode::build(NodeType::Leaf, &entries).unwrap().into_bytes()).unwrap();
    let parts = split_if_oversized(node);
    assert_eq!(parts.len(), 3);
    assert_eq!(parts[0].key, b"a".to_vec());
    assert_eq!(parts[1].key, b"b".to_vec());
    assert_eq!(parts[2].key, b"c".to_vec());
    for part in &parts {
        assert_eq!(part.node.key_count(), 1);
        assert!(part.node.encoded_size() <= BTREE_PAGE_SIZE);
    }
}

#[test]
fn a_node_over_the_low_water_mark_is_kept() {
    let node = numbered(10, 100);
    assert!(node.encoded_size() >= 1024);
    let left = leaf(&[(b"-", b"1")]);
    assert!(matches!(merge_if_undersized(&node, Some(&left), None), Merged::Keep));
}

#[test]
fn a_node_without_siblings_is_kept() {
    let node = leaf(&[(b"k", b"v")]);
    assert!(matches!(merge_if_undersized(&node, None, None), Merged::Keep));
}

#[test]
fn an_undersized_node_merges_with_the_left_sibling_first() {
    let left = leaf(&[(b"a", b"1"), (b"b", b"2")]);
    let node = leaf(&[(b"m", b"3")]);
    let right = leaf(&[(b"x", b"4")]);
    match merge_if_undersized(&node, Some(&left), Some(&right)) {
        Merged::WithLeft(m) => {
            assert_eq!(keys(&m), vec![b"a".to_vec(), b"b".to_vec(), b"m".to_vec()]);
            assert_eq!(m.value_at(2), b"3");
        }
        _ => panic!("another outcome was expected"),
    }
}

#[test]
fn an_undersized_node_merges_with_the_right_sibling_if_the_left_is_too_full() {
    let left = numbered(34, 100);
    assert!(left.encoded_size() > BTREE_PAGE_SIZE - 100);
    let node = leaf(&[(b"m", &[7u8; 200])]);
    let right = leaf(&[(b"x", b"4")]);
    match merge_if_undersized(&node, Some(&left), Some(&right)) {
        Merged::WithRight(m) => {
            assert_eq!(keys(&m), vec![b"m".to_vec(), b"x".to_vec()]);
        }
        _ => panic!("another outcome was expected"),
    }
    match merge_if_undersized(&node, None, Some(&right)) {
        Merged::WithRight(m) => assert_eq!(m.key_count(), 2),
        _ => panic!("another outcome was expected"),
    }
}

#[test]
fn an_undersized_node_takes_an_entry_from_a_sibling_too_full_to_merge() {
    let left = numbered(34, 100);
    let node = leaf(&[(b"m", &[7u8; 200])]);
    match merge_if_undersized(&node, Some(&left), None) {
        Merged::BorrowLeft { left: l, node: n } => {
            assert_eq!(l.key_count(), 33);
            assert_eq!(keys(&n), vec![b"000033".to_vec(), b"m".to_vec()]);
        }
        _ => panic!("the node should take an entry from the left"),
    }
    let small = leaf(&[(b"!", &[7u8; 200])]);
    let right = numbered(34, 100);
    match merge_if_undersized(&small, None, Some(&right)) {
        Merged::BorrowRight { node: n, right: r } => {
            assert_eq!(keys(&n), vec![b"!".to_vec(), b"000000".to_vec()]);
            assert_eq!(r.key_count(), 33);
            assert_eq!(r.key_at(0), b"000001");
        }
        _ => panic!("the node should take an entry from the right"),
    }
}

#[test]
fn an_empty_node_joins_its_sibling() {
    let empty = BNode::decode(BNode::build(NodeType::Leaf, &Vec::new()).unwrap().into_bytes()).unwrap();
    let left = numbered(30, 100);
    match merge_if_undersized(&empty, Some(&left), None) {
        Merged::WithLeft(m) => assert_eq!(m.key_count(), 30),
        _ => panic!("another outcome was expected"),
    }
}

#[test]
fn a_node_is_paired_with_its_first_key() {
    let node = leaf(&[(b"m", b"1"), (b"n", b"2")]);
    let sibling = cow_btree::ops::sibling_of(node);
    assert_eq!(sibling.key, b"m".to_vec());
    assert_eq!(sibling.node.key_count(), 2);
}

#[test]
fn rebuild_checks_the_entries() {
    let sorted = vec![entry(1, b"a", b""), entry(2, b"b", b"")];
    let node = cow_btree::prune::rebuild(NodeType::Internal, &sorted).unwrap();
    assert_eq!(node.child_pointer(1), 2);
    let unsorted = vec![entry(1, b"b", b""), entry(2, b"a", b"")];
    assert_eq!(
        cow_btree::prune::rebuild(NodeType::Internal, &unsorted).unwrap_err(),
        Error::CorruptPage
    );
}
