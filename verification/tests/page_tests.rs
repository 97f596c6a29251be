use mini_db::btree::page::{
    BTreeInternalPage, BTreeLeafPage, KeyEntry, KeyVal, PageHeader, PageType,
};
use mini_db::codec::Cursor;

#[test]
fn test_page_header_serialization() {
    let header = PageHeader {
        page_type: PageType::Internal,
        next_page_pointer: 1024,
        prev_page_pointer: 512,
    };

    let mut buffer = Vec::new();
    header.write_to(&mut buffer).unwrap();

    let mut cursor = Cursor::new(buffer);
    let deserialized = PageHeader::read_from(&mut cursor).unwrap();

    assert_eq!(header, deserialized);
}

#[test]
fn test_invalid_page_type() {
    let mut buffer = vec![0u8; 17];
    buffer[0] = 255;
    let mut cursor = Cursor::new(buffer);
    let result = PageHeader::read_from(&mut cursor);
    assert!(result.is_err());
}

#[test]
fn test_key_entry_ordering() {
    let key1 = KeyEntry::from_i64(3);
    let key2 = KeyEntry::from_i64(10);
    let key3 = KeyEntry::from_i64(5);

    assert!(key1 < key2);
    assert!(key3 < key2);
    assert!(key1 < key3);
}

#[test]
fn test_internal_page_insert() {
    let mut node = BTreeInternalPage::new();

    node.insert_kv(KeyEntry::from_i64(3), 100).unwrap();
    assert_eq!(node.nkey, 1);
    assert_eq!(node.keys[0], KeyEntry::from_i64(3));

    node.insert_kv(KeyEntry::from_i64(10), 200).unwrap();
    assert_eq!(node.nkey, 2);
    assert_eq!(node.keys[1], KeyEntry::from_i64(10));

    node.insert_kv(KeyEntry::from_i64(5), 150).unwrap();
    assert_eq!(node.nkey, 3);
    assert_eq!(node.keys[0], KeyEntry::from_i64(3));
    assert_eq!(node.keys[1], KeyEntry::from_i64(5));
    assert_eq!(node.keys[2], KeyEntry::from_i64(10));
}

#[test]
fn test_internal_page_split() {
    let mut node = BTreeInternalPage::new();

    node.insert_kv(KeyEntry::from_i64(3), 100).unwrap();
    node.insert_kv(KeyEntry::from_i64(5), 150).unwrap();
    node.insert_kv(KeyEntry::from_i64(10), 200).unwrap();
    node.insert_kv(KeyEntry::from_i64(12), 250).unwrap();

    let new_node = node.split();

    assert_eq!(node.nkey, 2);
    assert_eq!(new_node.nkey, 2);
    assert_eq!(node.keys[0], KeyEntry::from_i64(3));
    assert_eq!(node.keys[1], KeyEntry::from_i64(5));
    assert_eq!(new_node.keys[0], KeyEntry::from_i64(10));
    assert_eq!(new_node.keys[1], KeyEntry::from_i64(12));
}

#[test]
fn test_internal_page_serialization() {
    let mut node = BTreeInternalPage::new();
    node.insert_kv(KeyEntry::from_i64(3), 100).unwrap();
    node.insert_kv(KeyEntry::from_i64(5), 150).unwrap();

    let mut buffer = Vec::new();
    node.write_to(&mut buffer).unwrap();

    let mut cursor = Cursor::new(buffer);
    let header = PageHeader::read_from(&mut cursor).unwrap();
    let deserialized = BTreeInternalPage::read_from(&mut cursor, header).unwrap();

    assert_eq!(node.nkey, deserialized.nkey);
    assert_eq!(node.keys, deserialized.keys);
    assert_eq!(node.children, deserialized.children);
}

#[test]
fn test_keyval_creation() {
    let kv = KeyVal::from_i64(42, 100);
    assert_eq!(kv.keylen, 8);
    assert_eq!(kv.vallen, 8);
}

#[test]
fn test_keyval_ordering() {
    let kv1 = KeyVal::from_i64(3, 100);
    let kv2 = KeyVal::from_i64(10, 200);
    let kv3 = KeyVal::from_i64(5, 150);

    assert!(kv1 < kv2);
    assert!(kv3 < kv2);
    assert!(kv1 < kv3);
}

#[test]
fn test_leaf_page_insert() {
    let mut node = BTreeLeafPage::new();

    node.insert_kv(KeyVal::from_i64(3, 300)).unwrap();
    assert_eq!(node.nkv, 1);

    node.insert_kv(KeyVal::from_i64(10, 1000)).unwrap();
    assert_eq!(node.nkv, 2);

    node.insert_kv(KeyVal::from_i64(5, 500)).unwrap();
    assert_eq!(node.nkv, 3);

    // Check ordering
    assert_eq!(node.kv[0], KeyVal::from_i64(3, 300));
    assert_eq!(node.kv[1], KeyVal::from_i64(5, 500));
    assert_eq!(node.kv[2], KeyVal::from_i64(10, 1000));
}

#[test]
fn test_leaf_page_delete() {
    let mut node = BTreeLeafPage::new();

    node.insert_kv(KeyVal::from_i64(3, 300)).unwrap();
    node.insert_kv(KeyVal::from_i64(5, 500)).unwrap();
    node.insert_kv(KeyVal::from_i64(10, 1000)).unwrap();

    let del_kv = KeyVal::from_i64(5, 500);
    let deleted = node.del_kv(&del_kv);

    assert!(deleted);
    assert_eq!(node.nkv, 2);
    assert_eq!(node.kv[0], KeyVal::from_i64(3, 300));
    assert_eq!(node.kv[1], KeyVal::from_i64(10, 1000));
}

#[test]
fn test_leaf_page_split() {
    let mut node = BTreeLeafPage::new();

    node.insert_kv(KeyVal::from_i64(1, 100)).unwrap();
    node.insert_kv(KeyVal::from_i64(2, 200)).unwrap();
    node.insert_kv(KeyVal::from_i64(3, 300)).unwrap();
    node.insert_kv(KeyVal::from_i64(4, 400)).unwrap();

    let new_node = node.split();

    assert_eq!(node.nkv, 2);
    assert_eq!(new_node.nkv, 2);
    assert_eq!(node.kv[0], KeyVal::from_i64(1, 100));
    assert_eq!(node.kv[1], KeyVal::from_i64(2, 200));
    assert_eq!(new_node.kv[0], KeyVal::from_i64(3, 300));
    assert_eq!(new_node.kv[1], KeyVal::from_i64(4, 400));
}

#[test]
fn test_leaf_page_serialization() {
    let mut node = BTreeLeafPage::new();
    node.insert_kv(KeyVal::from_i64(3, 300)).unwrap();
    node.insert_kv(KeyVal::from_i64(5, 500)).unwrap();

    let mut buffer = Vec::new();
    node.write_to(&mut buffer).unwrap();

    let mut cursor = Cursor::new(buffer);
    let header = PageHeader::read_from(&mut cursor).unwrap();
    let deserialized = BTreeLeafPage::read_from(&mut cursor, header).unwrap();

    assert_eq!(node.nkv, deserialized.nkv);
    assert_eq!(node.kv, deserialized.kv);
}
