use cow_btree::error::Error;
use cow_btree::tree::BTree;

fn key20(i: u32) -> Vec<u8> {
    format!("key-{:016}", i).into_bytes()
}

#[test]
fn insert_then_get() {
    let mut tree = BTree::new();
    tree.insert(b"a", b"1").unwrap();
    tree.insert(b"b", b"2").unwrap();
    tree.insert(b"c", b"3").unwrap();
    assert_eq!(tree.get(b"b").unwrap(), Some(b"2".to_vec()));
    assert_eq!(tree.get(b"a").unwrap(), Some(b"1".to_vec()));
    assert_eq!(tree.get(b"d").unwrap(), None);
    assert_eq!(tree.height(), 0);
}

#[test]
fn insert_replaces_value() {
    let mut tree = BTree::new();
    tree.insert(b"k", b"old").unwrap();
    tree.insert(b"k", b"new").unwrap();
    assert_eq!(tree.get(b"k").unwrap(), Some(b"new".to_vec()));
}

#[test]
fn two_thousand_sequential_keys_split_leaves_and_an_internal_node() {
    let mut tree = BTree::new();
    let value = vec![7u8; 100];
    assert_eq!(tree.height(), 0);
    let mut grew = Vec::new();
    for i in 0..2000u32 {
        let before = tree.height();
        tree.insert(&key20(i), &value).unwrap();
        let after = tree.height();
        assert!(after == before || after == before + 1, "insert {}: {} -> {}", i, before, after);
        if after != before {
            grew.push(i);
        }
    }
    // the first growth is a leaf that split under the root, the second an
    // internal node that split
    assert_eq!(tree.height(), 2);
    assert_eq!(grew.len(), 2);
    for i in 0..2000u32 {
        assert_eq!(tree.get(&key20(i)).unwrap(), Some(value.clone()), "key {}", i);
    }
    assert_eq!(tree.get(&key20(2000)).unwrap(), None);
}

#[test]
fn keys_in_scattered_order_fill_a_tree() {
    let mut tree = BTree::new();
    let value = vec![1u8; 100];
    for i in 0..6000u32 {
        tree.insert(&key20(i * 7 % 6000), &value).unwrap();
    }
    assert_eq!(tree.height(), 2);
    for i in 0..6000u32 {
        assert_eq!(tree.get(&key20(i)).unwrap(), Some(value.clone()), "key {}", i);
    }
}

#[test]
fn size_limits_are_inclusive() {
    let mut tree = BTree::new();
    tree.insert(b"seed", b"x").unwrap();
    let big_key = vec![b'k'; 1000];
    let big_val = vec![b'v'; 3000];
    assert_eq!(tree.insert(&big_key, &big_val), Ok(()));
    assert_eq!(tree.get(&big_key).unwrap(), Some(big_val.clone()));
    let root = tree.root();
    assert_eq!(tree.insert(&vec![b'k'; 1001], b"v"), Err(Error::KeyTooLarge));
    assert_eq!(tree.insert(b"k", &vec![b'v'; 3001]), Err(Error::ValueTooLarge));
    assert_eq!(tree.root(), root);
    assert_eq!(tree.get(b"k").unwrap(), None);
    assert_eq!(tree.get(b"seed").unwrap(), Some(b"x".to_vec()));
}

#[test]
fn insert_three_delete_one() {
    let mut tree = BTree::new();
    tree.insert(b"a", b"1").unwrap();
    tree.insert(b"b", b"2").unwrap();
    tree.insert(b"c", b"3").unwrap();
    assert_eq!(tree.get(b"b").unwrap(), Some(b"2".to_vec()));
    assert_eq!(tree.del(b"b"), Ok(true));
    assert_eq!(tree.get(b"b").unwrap(), None);
    assert_eq!(tree.get(b"a").unwrap(), Some(b"1".to_vec()));
    assert_eq!(tree.get(b"c").unwrap(), Some(b"3".to_vec()));
}

#[test]
fn deleting_twice_changes_nothing_the_second_time() {
    let mut tree = BTree::new();
    tree.insert(b"x", b"1").unwrap();
    tree.insert(b"y", b"2").unwrap();
    assert_eq!(tree.del(b"x"), Ok(true));
    let root = tree.root();
    let pages = tree.pager().page_count();
    assert_eq!(tree.del(b"x"), Ok(false));
    assert_eq!(tree.root(), root);
    assert_eq!(tree.pager().page_count(), pages);
    assert_eq!(tree.get(b"y").unwrap(), Some(b"2".to_vec()));
    assert_eq!(tree.get(b"x").unwrap(), None);
}

#[test]
fn deleting_an_absent_key_reports_not_present() {
    let mut tree = BTree::new();
    assert_eq!(tree.del(b"nothing"), Ok(false));
    tree.insert(b"k", b"v").unwrap();
    assert_eq!(tree.del(b"j"), Ok(false));
    assert_eq!(tree.del(b"l"), Ok(false));
    assert_eq!(tree.get(b"k").unwrap(), Some(b"v".to_vec()));
}

#[test]
fn deleting_the_last_key_empties_the_tree() {
    let mut tree = BTree::new();
    tree.insert(b"only", b"one").unwrap();
    assert_eq!(tree.del(b"only"), Ok(true));
    assert_eq!(tree.root(), 0);
    assert_eq!(tree.height(), 0);
    assert_eq!(tree.get(b"only").unwrap(), None);
    tree.insert(b"again", b"two").unwrap();
    assert_eq!(tree.get(b"again").unwrap(), Some(b"two".to_vec()));
}

#[test]
fn deleting_everything_shrinks_the_tree_to_nothing() {
    let mut tree = BTree::new();
    let value = vec![9u8; 100];
    for i in 0..3000u32 {
        tree.insert(&key20(i), &value).unwrap();
    }
    assert!(tree.height() >= 1);
    for i in 0..3000u32 {
        let k = (i * 7) % 3000;
        assert_eq!(tree.del(&key20(k)), Ok(true), "key {}", k);
        assert_eq!(tree.get(&key20(k)).unwrap(), None);
    }
    assert_eq!(tree.root(), 0);
    assert_eq!(tree.height(), 0);
}

#[test]
fn interleaved_inserts_and_deletes_keep_the_other_keys() {
    let mut tree = BTree::new();
    let mut present = vec![false; 1500];
    let mut x: u32 = 12345;
    for _ in 0..20000 {
        x = x.wrapping_mul(1103515245).wrapping_add(12345);
        let k = ((x >> 8) % 1500) as usize;
        let v = format!("v{}", x).into_bytes();
        if (x >> 3) % 3 == 0 {
            assert_eq!(tree.del(&key20(k as u32)), Ok(present[k]));
            present[k] = false;
        } else {
            tree.insert(&key20(k as u32), &v).unwrap();
            present[k] = true;
            assert_eq!(tree.get(&key20(k as u32)).unwrap(), Some(v));
        }
    }
    for k in 0..1500usize {
        assert_eq!(tree.get(&key20(k as u32)).unwrap().is_some(), present[k], "key {}", k);
    }
}

#[test]
fn freed_pages_are_used_again() {
    let mut tree = BTree::new();
    let value = vec![3u8; 200];
    for i in 0..200u32 {
        tree.insert(&key20(i), &value).unwrap();
    }
    let pages = tree.pager().page_count();
    for round in 0..50u32 {
        for i in 0..200u32 {
            tree.insert(&key20(i), &vec![round as u8; 200]).unwrap();
        }
    }
    assert!(tree.pager().page_count() <= pages + 8, "{} -> {}", pages, tree.pager().page_count());
}

#[test]
fn a_tree_survives_a_restart() {
    let mut tree = BTree::new();
    let value = vec![5u8; 300];
    for i in 0..500u32 {
        tree.insert(&key20(i), &value).unwrap();
    }
    for i in 0..200u32 {
        assert_eq!(tree.del(&key20(i * 2)), Ok(true));
    }
    let height = tree.height();
    let root = tree.root();
    let pages = tree.into_pager().into_pages();
    assert_eq!(pages.iter().map(|p| p.len()).max(), Some(4096));
    let pager = cow_btree::pager::PageManager::open(pages).unwrap();
    let mut again = BTree::open(pager).unwrap();
    assert_eq!(again.height(), height);
    assert_eq!(again.root(), root);
    for i in 0..500u32 {
        let want = if i < 400 && i % 2 == 0 { None } else { Some(value.clone()) };
        assert_eq!(again.get(&key20(i)).unwrap(), want, "key {}", i);
    }
    again.insert(b"after", b"restart").unwrap();
    assert_eq!(again.get(b"after").unwrap(), Some(b"restart".to_vec()));
}

#[test]
fn an_empty_store_opens_as_an_empty_tree() {
    let tree = BTree::open(cow_btree::pager::PageManager::new()).unwrap();
    assert_eq!(tree.root(), 0);
    assert_eq!(tree.height(), 0);
    assert_eq!(tree.get(b"k").unwrap(), None);
}

#[test]
fn a_damaged_page_is_reported_not_repaired() {
    let mut tree = BTree::new();
    for i in 0..300u32 {
        tree.insert(&key20(i), &vec![1u8; 100]).unwrap();
    }
    let root = tree.root() as usize;
    let mut pages = tree.into_pager().into_pages();
    pages[root][0] = 9;
    let pager = cow_btree::pager::PageManager::open(pages).unwrap();
    assert_eq!(BTree::open(pager).unwrap_err(), Error::CorruptPage);
}

#[test]
fn large_values_split_leaves_three_ways() {
    let mut tree = BTree::new();
    tree.insert(b"a", &vec![1u8; 2000]).unwrap();
    tree.insert(b"c", &vec![3u8; 2000]).unwrap();
    tree.insert(b"b", &vec![2u8; 3000]).unwrap();
    assert_eq!(tree.height(), 1);
    assert_eq!(tree.get(b"a").unwrap(), Some(vec![1u8; 2000]));
    assert_eq!(tree.get(b"b").unwrap(), Some(vec![2u8; 3000]));
    assert_eq!(tree.get(b"c").unwrap(), Some(vec![3u8; 2000]));
    assert_eq!(tree.del(b"b"), Ok(true));
    assert_eq!(tree.get(b"a").unwrap(), Some(vec![1u8; 2000]));
    assert_eq!(tree.get(b"c").unwrap(), Some(vec![3u8; 2000]));
}

#[test]
fn long_keys_are_kept_apart() {
    let mut tree = BTree::new();
    let mut wanted = Vec::new();
    for i in 0..400u32 {
        let mut key = vec![b'k'; 990];
        key.extend_from_slice(format!("{:010}", (i * 37) % 400).as_bytes());
        let value = format!("value {}", i).into_bytes();
        tree.insert(&key, &value).unwrap();
        wanted.push((key, value));
    }
    assert!(tree.height() >= 2);
    for (key, value) in &wanted {
        assert_eq!(tree.get(key).unwrap(), Some(value.clone()));
    }
    for (i, (key, _)) in wanted.iter().enumerate() {
        if i % 3 != 0 {
            assert_eq!(tree.del(key), Ok(true));
        }
    }
    for (i, (key, value)) in wanted.iter().enumerate() {
        let want = if i % 3 != 0 { None } else { Some(value.clone()) };
        assert_eq!(tree.get(key).unwrap(), want);
    }
}
