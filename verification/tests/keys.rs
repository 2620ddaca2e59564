use cow_btree::keys::{compare_keys, KeyOrder};

#[test]
fn keys_compare_byte_by_byte() {
    assert_eq!(compare_keys(b"a", b"b"), KeyOrder::Before);
    assert_eq!(compare_keys(b"b", b"a"), KeyOrder::After);
    assert_eq!(compare_keys(b"abc", b"abc"), KeyOrder::Same);
    assert_eq!(compare_keys(b"abc", b"abd"), KeyOrder::Before);
    assert_eq!(compare_keys(&[0xff], &[0x00, 0x01]), KeyOrder::After);
}

#[test]
fn a_prefix_sorts_before_what_it_begins() {
    assert_eq!(compare_keys(b"", b""), KeyOrder::Same);
    assert_eq!(compare_keys(b"", b"a"), KeyOrder::Before);
    assert_eq!(compare_keys(b"a", b""), KeyOrder::After);
    assert_eq!(compare_keys(b"ab", b"abc"), KeyOrder::Before);
    assert_eq!(compare_keys(b"abc", b"ab"), KeyOrder::After);
}
