use cow_btree::error::Error;
use cow_btree::node::{BNode, Entry, NodeType, BNODE_LEAF, BNODE_NODE, BTREE_PAGE_SIZE, HEADER};

fn entry(ptr: u64, key: &[u8], val: &[u8]) -> Entry {
    Entry { ptr, key: key.to_vec(), val: val.to_vec() }
}

fn leaf(pairs: &[(&[u8], &[u8])]) -> BNode {
    let entries: Vec<Entry> = pairs.iter().map(|(k, v)| entry(0, k, v)).collect();
    BNode::build(NodeType::Leaf, &entries).unwrap()
}

#[test]
fn build_then_read_back() {
    let entries = vec![entry(0, b"a", b"1"), entry(0, b"b", b"22"), entry(0, b"c", b"")];
    let node = BNode::build(NodeType::Leaf, &entries).unwrap();
    assert_eq!(node.node_type(), NodeType::Leaf);
    assert_eq!(node.key_count(), 3);
    assert_eq!(node.key_at(0), b"a");
    assert_eq!(node.key_at(1), b"b");
    assert_eq!(node.value_at(1), b"22");
    assert_eq!(node.value_at(2), b"");
    assert_eq!(node.encoded_size(), 4 + 3 * 10 + (4 + 1 + 1) + (4 + 1 + 2) + (4 + 1 + 0));
    assert_eq!(node.as_bytes().len(), node.encoded_size());
}

#[test]
fn encoding_then_decoding_gives_the_same_node() {
    let entries = vec![entry(7, b"apple", b""), entry(9, b"melon", b""), entry(11, b"pear", b"")];
    let built = BNode::build(NodeType::Internal, &entries).unwrap();
    let size = built.encoded_size();
    let node = BNode::decode(built.into_bytes()).unwrap();
    assert_eq!(node.node_type(), NodeType::Internal);
    assert_eq!(node.key_count(), 3);
    assert_eq!(node.encoded_size(), size);
    for (i, e) in entries.iter().enumerate() {
        assert_eq!(node.key_at(i as u16), &e.key[..]);
        assert_eq!(node.child_pointer(i as u16), e.ptr);
    }
    let copy = node.entries();
    assert_eq!(copy.len(), 3);
    assert_eq!(copy[2].ptr, 11);
    assert_eq!(copy[2].key, b"pear".to_vec());
}

#[test]
fn the_layout_is_little_endian() {
    let node = BNode::build(NodeType::Leaf, &vec![entry(0x0102030405060708, b"k", b"vv")]).unwrap();
    let want: Vec<u8> = vec![
        2, 0, // type
        1, 0, // key count
        8, 7, 6, 5, 4, 3, 2, 1, // pointer 0
        7, 0, // offset 1
        1, 0, // key length
        2, 0, // value length
        b'k', b'v', b'v',
    ];
    assert_eq!(node.as_bytes(), &want[..]);
}

#[test]
fn raw_fields_read_what_was_written() {
    let mut node = BNode::from_bytes(vec![0u8; 64]);
    node.setHeader(BNODE_NODE, 3);
    assert_eq!(node.btype(), 1);
    assert_eq!(node.nkeys(), 3);
    assert_eq!(&node.as_bytes()[0..4], &[1, 0, 3, 0]);
    node.setPtr(2, 0xAABBCCDD11223344);
    assert_eq!(node.getPtr(2), 0xAABBCCDD11223344);
    assert_eq!(node.getPtr(1), 0);
    assert_eq!(&node.as_bytes()[20..28], &[0x44, 0x33, 0x22, 0x11, 0xDD, 0xCC, 0xBB, 0xAA]);
    node.setOffset(1, 0x1234);
    node.setOffset(3, 500);
    assert_eq!(node.getOffset(0), 0);
    assert_eq!(node.getOffset(1), 0x1234);
    assert_eq!(node.getOffset(2), 0);
    assert_eq!(node.getOffset(3), 500);
    assert_eq!(&node.as_bytes()[28..30], &[0x34, 0x12]);
    assert_eq!(node.nkeys(), 3);
    assert_eq!(node.btype(), BNODE_NODE);
}

#[test]
fn offsets_are_stored_after_the_pointers() {
    let mut node = BNode::from_bytes(vec![0u8; 128]);
    node.setHeader(BNODE_LEAF, 5);
    assert_eq!(BNode::offsetPos(&node, 1), HEADER + 8 * 5);
    assert_eq!(BNode::offsetPos(&node, 2), HEADER + 8 * 5 + 2);
    assert_eq!(BNode::offsetPos(&node, 5), HEADER + 8 * 5 + 2 * 4);
    node.setOffset(5, 30);
    assert_eq!(node.kvPos(0), HEADER + 10 * 5);
    assert_eq!(node.kvPos(5), HEADER + 10 * 5 + 30);
}

#[test]
fn a_node_padded_to_a_page_reads_the_same() {
    let node = leaf(&[(b"a", b"1"), (b"b", b"2")]);
    let page = node.to_page();
    assert_eq!(page.len(), BTREE_PAGE_SIZE);
    assert!(page[node.encoded_size()..].iter().all(|b| *b == 0));
    let again = BNode::decode(page).unwrap();
    assert_eq!(again.key_count(), 2);
    assert_eq!(again.value_at(1), b"2");
    assert_eq!(again.encoded_size(), node.encoded_size());
}

#[test]
fn an_empty_node_is_a_node() {
    let node = BNode::build(NodeType::Leaf, &Vec::new()).unwrap();
    assert_eq!(node.key_count(), 0);
    assert_eq!(node.encoded_size(), 4);
    assert!(BNode::decode(node.into_bytes()).is_ok());
}

#[test]
fn build_refuses_what_the_fields_cannot_describe() {
    let huge = vec![entry(0, b"k", &vec![0u8; 70000])];
    assert!(BNode::build(NodeType::Leaf, &huge).is_none());
    let many: Vec<Entry> = (0..20).map(|i| entry(0, &[i as u8], &vec![0u8; 4000])).collect();
    assert!(BNode::build(NodeType::Leaf, &many).is_none());
}

#[test]
fn decode_refuses_a_truncated_buffer() {
    assert_eq!(BNode::decode(vec![2, 0, 0]).unwrap_err(), Error::CorruptPage);
    let node = leaf(&[(b"a", b"1"), (b"b", b"2")]);
    let mut bytes = node.into_bytes();
    bytes.pop();
    assert_eq!(BNode::decode(bytes).unwrap_err(), Error::CorruptPage);
}

#[test]
fn decode_refuses_an_unknown_type() {
    let node = leaf(&[(b"a", b"1")]);
    for tag in [0u8, 3, 4, 255] {
        let mut bytes = node.as_bytes().to_vec();
        bytes[0] = tag;
        assert_eq!(BNode::decode(bytes).unwrap_err(), Error::CorruptPage);
    }
}

#[test]
fn decode_refuses_offsets_that_do_not_match_the_records() {
    let node = leaf(&[(b"a", b"1"), (b"b", b"2")]);
    let mut bytes = node.as_bytes().to_vec();
    // offset 1 is stored after the two pointers
    bytes[4 + 16] = bytes[4 + 16] + 1;
    assert_eq!(BNode::decode(bytes).unwrap_err(), Error::CorruptPage);
}

#[test]
fn decode_refuses_keys_out_of_order() {
    let unsorted = vec![entry(0, b"b", b"1"), entry(0, b"a", b"2")];
    let node = BNode::build(NodeType::Leaf, &unsorted).unwrap();
    assert_eq!(BNode::decode(node.into_bytes()).unwrap_err(), Error::CorruptPage);
    let twice = vec![entry(0, b"a", b"1"), entry(0, b"a", b"2")];
    let node = BNode::build(NodeType::Leaf, &twice).unwrap();
    assert_eq!(BNode::decode(node.into_bytes()).unwrap_err(), Error::CorruptPage);
}

#[test]
fn decode_refuses_keys_and_values_over_the_limits() {
    let long_key = vec![entry(0, &vec![1u8; 1001], b"")];
    let node = BNode::build(NodeType::Leaf, &long_key).unwrap();
    assert_eq!(BNode::decode(node.into_bytes()).unwrap_err(), Error::CorruptPage);
    let long_val = vec![entry(0, b"k", &vec![1u8; 3001])];
    let node = BNode::build(NodeType::Leaf, &long_val).unwrap();
    assert_eq!(BNode::decode(node.into_bytes()).unwrap_err(), Error::CorruptPage);
    let at_limit = vec![entry(0, &vec![1u8; 1000], &vec![2u8; 3000])];
    let node = BNode::build(NodeType::Leaf, &at_limit).unwrap();
    assert_eq!(node.encoded_size(), 4018);
    assert!(BNode::decode(node.into_bytes()).is_ok());
}

#[test]
fn errors_describe_themselves() {
    assert_eq!(Error::KeyTooLarge.describe(), "key too large");
    assert_eq!(Error::ValueTooLarge.describe(), "value too large");
    assert_eq!(Error::CorruptPage.describe(), "corrupt page");
    assert_eq!(Error::CorruptMeta.describe(), "corrupt meta page");
    assert_eq!(Error::InvalidPageId.describe(), "invalid page id");
}
