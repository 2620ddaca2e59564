use cow_btree::error::Error;
use cow_btree::node::{BNode, Entry, NodeType};
use cow_btree::pager::{compute_checksum, Meta, PageManager};

const PAGE: usize = 4096;

fn page_of(byte: u8) -> Vec<u8> {
    vec![byte; 100]
}

#[test]
fn a_new_store_has_the_two_reserved_pages() {
    let pm = PageManager::new();
    assert_eq!(pm.page_count(), 2);
    assert_eq!(pm.extent(), 2);
    assert_eq!(pm.current_root(), 0);
    assert_eq!(pm.get(0).unwrap_err(), Error::InvalidPageId);
    assert_eq!(pm.get(2).unwrap_err(), Error::InvalidPageId);
    let meta = Meta::decode(pm.get(1).unwrap()).unwrap();
    assert_eq!(meta, Meta { root: 0, free_head: 0, page_count: 2 });
}

#[test]
fn allocation_grows_the_file_and_pads_the_page() {
    let mut pm = PageManager::new();
    let a = pm.allocate(&page_of(1));
    let b = pm.allocate(&page_of(2));
    assert_eq!((a, b), (2, 3));
    assert_eq!(pm.page_count(), 4);
    let page = pm.get(a).unwrap();
    assert_eq!(page.len(), PAGE);
    assert!(page[..100].iter().all(|x| *x == 1));
    assert!(page[100..].iter().all(|x| *x == 0));
    assert_eq!(pm.get(4).unwrap_err(), Error::InvalidPageId);
}

#[test]
fn freed_pages_are_recycled_last_freed_first_after_a_commit() {
    let mut pm = PageManager::new();
    let a = pm.allocate(&page_of(1));
    let b = pm.allocate(&page_of(2));
    let c = pm.allocate(&page_of(3));
    assert_eq!(pm.commit(c), Ok(()));
    assert_eq!(pm.free(a), Ok(()));
    assert_eq!(pm.free(b), Ok(()));
    // not yet released: a new page grows the file
    let d = pm.allocate(&page_of(4));
    assert_eq!(d, 5);
    // a page waiting to be freed can still be read
    assert!(pm.get(a).is_ok());
    assert_eq!(pm.commit(c), Ok(()));
    assert_eq!(pm.get(a).unwrap_err(), Error::InvalidPageId);
    assert_eq!(pm.get(b).unwrap_err(), Error::InvalidPageId);
    let e = pm.allocate(&page_of(5));
    let f = pm.allocate(&page_of(6));
    let g = pm.allocate(&page_of(7));
    assert_eq!((e, f, g), (b, a, 6));
    assert!(pm.get(e).unwrap()[..100].iter().all(|x| *x == 5));
}

#[test]
fn free_refuses_reserved_missing_and_freed_pages() {
    let mut pm = PageManager::new();
    let a = pm.allocate(&page_of(1));
    assert_eq!(pm.free(0), Err(Error::InvalidPageId));
    assert_eq!(pm.free(1), Err(Error::InvalidPageId));
    assert_eq!(pm.free(9), Err(Error::InvalidPageId));
    assert_eq!(pm.free(a), Ok(()));
    assert_eq!(pm.free(a), Err(Error::InvalidPageId));
    assert_eq!(pm.commit(0), Ok(()));
    assert_eq!(pm.free(a), Err(Error::InvalidPageId));
}

#[test]
fn commit_refuses_a_root_that_is_not_live() {
    let mut pm = PageManager::new();
    let a = pm.allocate(&page_of(1));
    assert_eq!(pm.commit(1), Err(Error::InvalidPageId));
    assert_eq!(pm.commit(7), Err(Error::InvalidPageId));
    assert_eq!(pm.free(a), Ok(()));
    assert_eq!(pm.commit(a), Err(Error::InvalidPageId));
    assert_eq!(pm.current_root(), 0);
    pm.abandon();
    assert_eq!(pm.commit(a), Ok(()));
    assert_eq!(pm.current_root(), a);
}

#[test]
fn abandoning_keeps_the_pages_live() {
    let mut pm = PageManager::new();
    let a = pm.allocate(&page_of(1));
    assert_eq!(pm.free(a), Ok(()));
    pm.abandon();
    assert_eq!(pm.commit(0), Ok(()));
    assert!(pm.get(a).is_ok());
    assert_eq!(pm.allocate(&page_of(2)), 3);
}

#[test]
fn a_store_survives_a_restart() {
    let mut pm = PageManager::new();
    let a = pm.allocate(&page_of(1));
    let b = pm.allocate(&page_of(2));
    let c = pm.allocate(&page_of(3));
    let d = pm.allocate(&page_of(4));
    pm.free(b).unwrap();
    pm.free(d).unwrap();
    pm.commit(c).unwrap();
    let mut again = PageManager::open(pm.into_pages()).unwrap();
    assert_eq!(again.current_root(), c);
    assert_eq!(again.page_count(), 6);
    assert!(again.get(a).is_ok());
    assert_eq!(again.get(b).unwrap_err(), Error::InvalidPageId);
    assert_eq!(again.get(d).unwrap_err(), Error::InvalidPageId);
    assert_eq!(again.allocate(&page_of(5)), d);
    assert_eq!(again.allocate(&page_of(6)), b);
    assert_eq!(again.allocate(&page_of(7)), 6);
}

#[test]
fn open_refuses_a_damaged_meta_page() {
    let mut pm = PageManager::new();
    let a = pm.allocate(&page_of(1));
    pm.commit(a).unwrap();
    let pages = pm.into_pages();
    for at in [0usize, 8, 16, 24, 31] {
        let mut damaged = pages.clone();
        damaged[1][at] ^= 1;
        assert_eq!(PageManager::open(damaged).unwrap_err(), Error::CorruptMeta);
    }
    assert!(PageManager::open(pages.clone()).is_ok());
    let mut short = pages.clone();
    short.pop();
    assert_eq!(PageManager::open(short).unwrap_err(), Error::CorruptMeta);
    let mut ragged = pages.clone();
    ragged[2].pop();
    assert_eq!(PageManager::open(ragged).unwrap_err(), Error::CorruptMeta);
    assert_eq!(PageManager::open(Vec::new()).unwrap_err(), Error::CorruptMeta);
}

#[test]
fn open_refuses_a_broken_free_list() {
    let mut pm = PageManager::new();
    let a = pm.allocate(&page_of(1));
    let b = pm.allocate(&page_of(2));
    let c = pm.allocate(&page_of(3));
    pm.free(a).unwrap();
    pm.free(b).unwrap();
    pm.commit(c).unwrap();
    let pages = pm.into_pages();
    // the page freed last no longer says it is free
    let mut untagged = pages.clone();
    untagged[b as usize][0] = 2;
    assert_eq!(PageManager::open(untagged).unwrap_err(), Error::CorruptMeta);
    // the chain runs in a circle
    let mut circle = pages.clone();
    circle[a as usize][4] = b as u8;
    assert_eq!(PageManager::open(circle).unwrap_err(), Error::CorruptMeta);
    // the chain leaves the file
    let mut outside = pages.clone();
    outside[a as usize][4] = 200;
    assert_eq!(PageManager::open(outside).unwrap_err(), Error::CorruptMeta);
}

#[test]
fn the_meta_page_reads_back() {
    let meta = Meta { root: 0x1122334455667788, free_head: 9, page_count: 0xABCDEF };
    let page = meta.encode();
    assert_eq!(page.len(), PAGE);
    assert_eq!(&page[0..8], &[0x88, 0x77, 0x66, 0x55, 0x44, 0x33, 0x22, 0x11]);
    assert_eq!(&page[8..16], &[9, 0, 0, 0, 0, 0, 0, 0]);
    assert_eq!(&page[16..24], &[0xEF, 0xCD, 0xAB, 0, 0, 0, 0, 0]);
    let sum = compute_checksum(&page[0..24]);
    assert_eq!(&page[24..32], &sum.to_le_bytes());
    assert!(page[32..].iter().all(|b| *b == 0));
    assert_eq!(Meta::decode(&page), Ok(meta));
    assert_eq!(Meta::decode(&page[..31]), Err(Error::CorruptMeta));
}

#[test]
fn the_checksum_is_two_running_sums() {
    assert_eq!(compute_checksum(&[]), 1);
    assert_eq!(compute_checksum(&[1]), 2 * 65536 + 2);
    assert_eq!(compute_checksum(&[1, 2]), (2 + 4) * 65536 + 4);
    assert_eq!(compute_checksum(b"Wikipedia"), 0x11E60398);
    // both sums wrap at 65521
    let many = vec![255u8; 1000];
    let a = (1 + 255 * 1000) % 65521;
    let mut b: u64 = 0;
    let mut s: u64 = 1;
    for _ in 0..1000 {
        s = (s + 255) % 65521;
        b = (b + s) % 65521;
    }
    assert_eq!(compute_checksum(&many), b * 65536 + a);
}

#[test]
fn load_reads_a_page_as_a_node() {
    let mut pm = PageManager::new();
    let entries = vec![Entry { ptr: 0, key: b"k".to_vec(), val: b"v".to_vec() }];
    let node = BNode::decode(BNode::build(NodeType::Leaf, &entries).unwrap().into_bytes()).unwrap();
    let id = pm.allocate(&node.to_page());
    let junk = pm.allocate(&[9u8; 64]);
    let read = cow_btree::store::load(&pm, id).unwrap();
    assert_eq!(read.key_at(0), b"k");
    assert_eq!(read.value_at(0), b"v");
    assert_eq!(cow_btree::store::load(&pm, junk).unwrap_err(), Error::CorruptPage);
    assert_eq!(cow_btree::store::load(&pm, 0).unwrap_err(), Error::InvalidPageId);
    assert_eq!(cow_btree::store::load(&pm, 99).unwrap_err(), Error::InvalidPageId);
}
