use mini_db::btree::page::{BTreeLeafPage, KeyEntry, KeyVal, PageHeader, PageType};
use mini_db::btree::{BPTreeDisk, BTreeIterator};
use mini_db::codec::Cursor;
use mini_db::memtree::{BPTree, Node};
use mini_db::{DbError, IoErrorKind, KVStore, Record, TableDef, Value, ValueType};

fn collect_pairs(node: &Node<u64>, out: &mut Vec<(usize, u64)>) {
    match node {
        Node::Internal(internal) => {
            for child in internal.children.iter() {
                collect_pairs(child, out);
            }
        }
        Node::Leaf(leaf) => {
            for i in 0..leaf.len {
                out.push((leaf.keys[i], leaf.values[i]));
            }
        }
    }
}

#[test]
fn memtree_holds_every_inserted_pair() {
    let mut tree = BPTree::new();
    let mut expected = Vec::new();
    for i in 0..40usize {
        let k = (i * 7) % 23;
        tree.insert(k, i as u64);
        expected.push((k, i as u64));
    }
    let mut got = Vec::new();
    collect_pairs(tree.root.as_ref().unwrap(), &mut got);
    got.sort();
    expected.sort();
    assert_eq!(got, expected);
}

#[test]
fn memtree_root_splits_after_eight_keys() {
    let mut tree = BPTree::new();
    for i in 0..7usize {
        tree.insert(i, i as u64);
    }
    assert!(matches!(tree.root.as_deref(), Some(Node::Leaf(l)) if l.len == 7));
    tree.insert(7, 7);
    match tree.root.as_deref() {
        Some(Node::Internal(n)) => {
            assert_eq!(n.len, 2);
            assert_eq!(n.keys, vec![0, 4]);
        }
        _ => panic!("root should be internal"),
    }
}

#[test]
fn disk_insert_then_find_in_random_order() {
    let mut tree = BPTreeDisk::from_image(Vec::new()).unwrap();
    let keys: Vec<i64> = (0..300).map(|i| (i * 7919) % 1000).collect();
    for &k in &keys {
        tree.insert(&k.to_be_bytes(), &(k * 3).to_be_bytes()).unwrap();
        let found = tree.find(&k.to_be_bytes()).unwrap().unwrap();
        assert_eq!(found, KeyVal::from_i64(k, k * 3));
    }
    for &k in &keys {
        assert_eq!(tree.find(&k.to_be_bytes()).unwrap().unwrap(), KeyVal::from_i64(k, k * 3));
    }
}

#[test]
fn disk_update_and_remove_then_find() {
    let mut tree = BPTreeDisk::from_image(Vec::new()).unwrap();
    for k in 0..50i64 {
        tree.insert(&k.to_be_bytes(), &k.to_be_bytes()).unwrap();
    }
    assert!(tree.set(&7i64.to_be_bytes(), b"seven").unwrap());
    assert_eq!(tree.find(&7i64.to_be_bytes()).unwrap().unwrap().val_bytes(), b"seven");
    assert!(!tree.set(&500i64.to_be_bytes(), b"x").unwrap());
    assert!(tree.del(&7i64.to_be_bytes()).unwrap());
    assert!(tree.find(&7i64.to_be_bytes()).unwrap().is_none());
    assert!(!tree.del(&7i64.to_be_bytes()).unwrap());
}

#[test]
fn disk_key_and_value_size_errors() {
    let mut tree = BPTreeDisk::from_image(Vec::new()).unwrap();
    let long = [1u8; 13];
    assert!(matches!(tree.insert(&long, b"v"), Err(DbError::KeySizeExceeded(13, 12))));
    assert!(matches!(tree.insert(b"k", &long), Err(DbError::ValueSizeExceed(13, 12))));
    assert!(matches!(tree.set(&long, b"v"), Err(DbError::KeySizeExceeded(13, 12))));
    assert!(matches!(KeyEntry::new(&long), Err(DbError::KeySizeExceeded(13, 12))));
}

#[test]
fn reopened_image_reads_the_same() {
    let mut tree = BPTreeDisk::from_image(Vec::new()).unwrap();
    for k in 0..80i64 {
        tree.insert(&k.to_be_bytes(), &(k + 1).to_be_bytes()).unwrap();
    }
    let bytes = tree.image_bytes();
    assert_eq!(bytes.len() % 4096, 0);
    let reopened = BPTreeDisk::from_image(bytes.clone()).unwrap();
    assert_eq!(reopened.image_bytes(), bytes);
    for k in 0..80i64 {
        assert_eq!(reopened.find(&k.to_be_bytes()).unwrap().unwrap(), KeyVal::from_i64(k, k + 1));
    }
}

#[test]
fn written_blocks_are_reported_in_order() {
    let mut tree = BPTreeDisk::from_image(Vec::new()).unwrap();
    assert_eq!(tree.take_written(), vec![0]);
    tree.insert(b"a", b"1").unwrap();
    assert_eq!(tree.take_written(), vec![0]);
    assert_eq!(tree.take_written(), Vec::<u64>::new());
    assert_eq!(tree.block_bytes(0).unwrap().len(), 4096);
    assert!(tree.block_bytes(5).is_none());
}

#[test]
fn iterator_visits_keys_in_order() {
    let mut tree = BPTreeDisk::from_image(Vec::new()).unwrap();
    for k in (0..200i64).rev() {
        tree.insert(&k.to_be_bytes(), &k.to_be_bytes()).unwrap();
    }
    let mut iter = BTreeIterator::new(&tree, &50i64.to_be_bytes()).unwrap();
    let mut seen = Vec::new();
    while let Some(kv) = iter.deref() {
        seen.push(i64::from_be_bytes(kv.key_bytes().try_into().unwrap()));
        if !iter.next(&tree).unwrap() {
            break;
        }
    }
    assert_eq!(seen, (50..200).collect::<Vec<i64>>());
    assert!(iter.is_exhausted());
    assert!(iter.deref().is_none());
}

#[test]
fn store_range_is_inclusive_and_ordered() {
    let mut store = KVStore::from_image(Vec::new()).unwrap();
    for i in 0..30u32 {
        store.set(format!("k{:02}", i).as_bytes(), format!("v{}", i).as_bytes()).unwrap();
    }
    let got = store.get_range(b"k10", b"k12").unwrap();
    assert_eq!(got, vec![b"v10".to_vec(), b"v11".to_vec(), b"v12".to_vec()]);
    assert!(store.get_range(b"k50", b"k60").unwrap().is_empty());
    assert_eq!(store.get_range(b"k29", b"k99").unwrap(), vec![b"v29".to_vec()]);
}

#[test]
fn store_set_then_get_and_del_then_get() {
    let mut store = KVStore::from_image(Vec::new()).unwrap();
    store.set(b"a", b"1").unwrap();
    store.set(b"a", b"2").unwrap();
    assert_eq!(store.get(b"a").unwrap(), Some(b"2".to_vec()));
    assert!(store.del(b"a").unwrap());
    assert_eq!(store.get(b"a").unwrap(), None);
    assert!(!store.del(b"a").unwrap());
}

#[test]
fn header_bytes_are_big_endian() {
    let header = PageHeader {
        page_type: PageType::Leaf,
        next_page_pointer: 0x0102030405060708,
        prev_page_pointer: 9,
    };
    let mut buffer = Vec::new();
    header.write_to(&mut buffer).unwrap();
    assert_eq!(buffer.len(), 17);
    assert_eq!(buffer[0], 2);
    assert_eq!(&buffer[1..9], &[1, 2, 3, 4, 5, 6, 7, 8]);
    assert_eq!(&buffer[9..17], &[0, 0, 0, 0, 0, 0, 0, 9]);
}

#[test]
fn header_read_errors() {
    let mut cursor = Cursor::new(vec![9u8; 17]);
    assert!(matches!(PageHeader::read_from(&mut cursor), Err(DbError::InvalidPageType(9))));
    let mut short = Cursor::new(vec![1u8, 0, 0]);
    assert!(matches!(PageHeader::read_from(&mut short), Err(DbError::Io(IoErrorKind::UnexpectedEof))));
}

#[test]
fn key_entry_bytes() {
    let key = KeyEntry::new(b"abc").unwrap();
    assert_eq!(key.as_bytes(), b"abc");
    let mut buffer = Vec::new();
    key.write_to(&mut buffer).unwrap();
    assert_eq!(buffer, vec![0, 3, b'a', b'b', b'c']);
    let mut cursor = Cursor::new(buffer);
    assert_eq!(KeyEntry::read_from(&mut cursor).unwrap(), key);
    let mut bad = Cursor::new(vec![0, 13]);
    assert!(matches!(KeyEntry::read_from(&mut bad), Err(DbError::InvalidFormat(m)) if m == "Key length 13 exceeds maximum 12"));
}

#[test]
fn leaf_page_full_and_exact_lookup() {
    let mut leaf = BTreeLeafPage::new();
    for i in 0..32i64 {
        leaf.insert_kv(KeyVal::from_i64(i, i)).unwrap();
    }
    assert!(leaf.is_full());
    assert!(matches!(leaf.insert_kv(KeyVal::from_i64(99, 99)), Err(DbError::NodeFull)));
    assert_eq!(leaf.find_exact(&5i64.to_be_bytes()), Some(5));
    assert_eq!(leaf.find_exact(b"zz"), None);
    assert_eq!(leaf.find_last_le(&KeyVal::from_i64(10, 0)), Some(10));
}

#[test]
fn value_bytes_and_errors() {
    let mut buffer = Vec::new();
    Value::Int64(-2).write_to(&mut buffer).unwrap();
    assert_eq!(buffer, vec![2, 0xff, 0xff, 0xff, 0xff, 0xff, 0xff, 0xff, 0xfe]);
    let mut buffer = Vec::new();
    Value::Bytes(b"hi".to_vec()).write_to(&mut buffer).unwrap();
    assert_eq!(buffer, vec![1, 2, b'h', b'i']);
    let mut cursor = Cursor::new(vec![7]);
    assert!(matches!(Value::read_from(&mut cursor), Err(DbError::InvalidFormat(m)) if m == "Invalid value type: 7"));
    assert!(matches!(ValueType::try_from_u8(3), Err(DbError::InvalidFormat(m)) if m == "Invalid value type: 3"));
    assert_eq!(ValueType::try_from_u8(2).unwrap(), ValueType::Int64);
}

#[test]
fn key_encoding_bytes() {
    let tdef = TableDef::new("t", 7);
    let key = tdef.encode_key(&[Value::Int64(1), Value::Bytes(b"x".to_vec())]).unwrap();
    assert_eq!(key, vec![7, 2, 2, 0, 0, 0, 0, 0, 0, 0, 1, 1, 1, b'x']);
    assert!(matches!(tdef.decode_values(&[7]), Err(DbError::Io(IoErrorKind::UnexpectedEof))));
}

#[test]
fn table_serialization_bytes_and_errors() {
    let tdef = TableDef::new("ab", 3).add_column("c", ValueType::Bytes).with_pkeys(1);
    let bytes = tdef.serialize().unwrap();
    assert_eq!(bytes, vec![2, b'a', b'b', 3, 1, 1, 1, b'c', 1]);
    assert_eq!(TableDef::deserialize(&bytes).unwrap(), tdef);
    let bad = vec![1, 0xff, 3, 1, 0];
    assert!(matches!(TableDef::deserialize(&bad), Err(DbError::InvalidFormat(m)) if m.starts_with("Invalid UTF-8: ")));
    assert!(matches!(TableDef::deserialize(&[5, b'a']), Err(DbError::Io(IoErrorKind::UnexpectedEof))));
}

#[test]
fn check_record_errors_and_drops_unknown_columns() {
    let tdef = TableDef::new("t", 1)
        .add_column("id", ValueType::Int64)
        .add_column("name", ValueType::Bytes)
        .with_pkeys(1);
    let mut rec = Record::new().add_str("name", b"n".to_vec()).add_int64("extra", 5).add_int64("id", 9);
    tdef.check_record(&mut rec).unwrap();
    assert_eq!(rec.cols, vec!["id", "name"]);
    assert_eq!(rec.vals, vec![Value::Int64(9), Value::Bytes(b"n".to_vec())]);
    let mut missing = Record::new().add_str("name", b"n".to_vec());
    assert!(matches!(tdef.check_record(&mut missing), Err(DbError::InvalidRecord(m)) if m == "Missing primary key column: id"));
}

#[test]
fn catalog_table_definitions() {
    let meta = mini_db::get_meta_tdef();
    assert_eq!(meta.name, "@meta");
    assert_eq!(meta.cols, vec!["key", "value"]);
    assert_eq!(meta.pkeys, 2);
    assert_eq!(meta.prefix, 1);
    let table = mini_db::get_table_tdef();
    assert_eq!(table.name, "@table");
    assert_eq!(table.cols, vec!["name", "def"]);
    assert_eq!(table.prefix, 2);
}

#[test]
fn record_accessors() {
    let mut rec = Record::new();
    assert!(rec.is_empty());
    rec = rec.add("a", Value::Int64(1));
    assert_eq!(rec.len(), 1);
    if let Some(v) = rec.get_mut("a") {
        *v = Value::Int64(2);
    }
    assert_eq!(rec.get("a"), Some(&Value::Int64(2)));
    assert!(rec.get_mut("b").is_none());
}

#[test]
fn disk_insert_keeps_every_other_key() {
    let mut tree = BPTreeDisk::from_image(Vec::new()).unwrap();
    let keys: Vec<i64> = (0..200).map(|i| (i * 37) % 211).collect();
    for (n, &k) in keys.iter().enumerate() {
        tree.insert(&k.to_be_bytes(), &(k + 1).to_be_bytes()).unwrap();
        for &j in &keys[..n] {
            assert_eq!(tree.find(&j.to_be_bytes()).unwrap().unwrap(), KeyVal::from_i64(j, j + 1));
        }
    }
}

#[test]
fn disk_update_keeps_every_other_key() {
    let mut tree = BPTreeDisk::from_image(Vec::new()).unwrap();
    for k in 0..60i64 {
        tree.insert(&k.to_be_bytes(), &k.to_be_bytes()).unwrap();
    }
    assert!(tree.set(&30i64.to_be_bytes(), &(-30i64).to_be_bytes()).unwrap());
    assert!(tree.del(&31i64.to_be_bytes()).unwrap());
    for k in 0..60i64 {
        let found = tree.find(&k.to_be_bytes()).unwrap();
        match k {
            30 => assert_eq!(found.unwrap(), KeyVal::from_i64(30, -30)),
            31 => assert!(found.is_none()),
            _ => assert_eq!(found.unwrap(), KeyVal::from_i64(k, k)),
        }
    }
}

#[test]
fn store_set_keeps_every_other_key() {
    let mut store = KVStore::from_image(Vec::new()).unwrap();
    for k in 0..80i64 {
        store.set(&k.to_be_bytes(), &(2 * k).to_be_bytes()).unwrap();
        store.set(&0i64.to_be_bytes(), &(-1i64).to_be_bytes()).unwrap();
        for j in 1..=k {
            let v = store.get(&j.to_be_bytes()).unwrap().unwrap();
            assert_eq!(v, (2 * j).to_be_bytes().to_vec());
        }
    }
}

#[test]
fn disk_insert_below_every_key_then_find() {
    let mut tree = BPTreeDisk::from_image(Vec::new()).unwrap();
    for k in (0..300i64).rev() {
        tree.insert(&k.to_be_bytes(), &(k * 5).to_be_bytes()).unwrap();
        assert_eq!(tree.find(&k.to_be_bytes()).unwrap().unwrap(), KeyVal::from_i64(k, k * 5));
    }
    for k in 0..300i64 {
        assert_eq!(tree.find(&k.to_be_bytes()).unwrap().unwrap(), KeyVal::from_i64(k, k * 5));
    }
}

#[test]
fn store_set_below_every_key_then_get() {
    let mut store = KVStore::from_image(Vec::new()).unwrap();
    for k in (0..150i64).rev() {
        store.set(&k.to_be_bytes(), &(k + 7).to_be_bytes()).unwrap();
        assert_eq!(store.get(&k.to_be_bytes()).unwrap().unwrap(), (k + 7).to_be_bytes().to_vec());
    }
}

#[test]
fn iterator_starts_at_next_leaf_when_leaf_has_no_later_key() {
    let mut tree = BPTreeDisk::from_image(Vec::new()).unwrap();
    for i in 1..=32i64 {
        tree.insert(&(2 * i).to_be_bytes(), &i.to_be_bytes()).unwrap();
    }
    let it = BTreeIterator::new(&tree, &33i64.to_be_bytes()).unwrap();
    let kv = it.deref().unwrap();
    assert_eq!(kv.key_bytes(), 34i64.to_be_bytes());
    let mut it = BTreeIterator::new(&tree, &65i64.to_be_bytes()).unwrap();
    assert!(it.deref().is_none());
    assert!(!it.is_exhausted());
    assert!(!it.next(&tree).unwrap());
    assert!(it.is_exhausted());
    assert!(it.deref().is_none());
}

#[test]
fn iterator_on_empty_tree_starts_without_running_out() {
    let tree = BPTreeDisk::from_image(Vec::new()).unwrap();
    let mut it = BTreeIterator::new(&tree, &7i64.to_be_bytes()).unwrap();
    assert!(!it.is_exhausted());
    assert!(it.deref().is_none());
    assert!(!it.next(&tree).unwrap());
    assert!(it.is_exhausted());
}

#[test]
fn store_range_across_leaves() {
    let mut store = KVStore::from_image(Vec::new()).unwrap();
    for i in 1..=32i64 {
        store.set(&(2 * i).to_be_bytes(), &i.to_be_bytes()).unwrap();
    }
    let got = store.get_range(&33i64.to_be_bytes(), &40i64.to_be_bytes()).unwrap();
    let want: Vec<Vec<u8>> = (17..=20i64).map(|i| i.to_be_bytes().to_vec()).collect();
    assert_eq!(got, want);
}

#[test]
fn lookup_sticks_below_first_separator() {
    let mut tree = BPTreeDisk::from_image(Vec::new()).unwrap();
    for i in 10..80i64 {
        tree.insert(&i.to_be_bytes(), &i.to_be_bytes()).unwrap();
    }
    assert!(!tree.lookup_sticks(&20i64.to_be_bytes()));
    assert!(tree.lookup_sticks(&1i64.to_be_bytes()));
}

#[test]
fn store_delete_keeps_every_other_key() {
    let mut store = KVStore::from_image(Vec::new()).unwrap();
    for k in 1..=90i64 {
        store.set(&k.to_be_bytes(), &(3 * k).to_be_bytes()).unwrap();
    }
    for k in (3..=90i64).step_by(3) {
        assert!(store.del(&k.to_be_bytes()).unwrap());
        assert!(!store.del(&k.to_be_bytes()).unwrap());
    }
    for k in 1..=90i64 {
        let got = store.get(&k.to_be_bytes()).unwrap();
        if k % 3 == 0 {
            assert!(got.is_none());
        } else {
            assert_eq!(got.unwrap(), (3 * k).to_be_bytes().to_vec());
        }
    }
    let range = store.get_range(&10i64.to_be_bytes(), &20i64.to_be_bytes()).unwrap();
    let expected: Vec<Vec<u8>> = (10..=20i64)
        .filter(|k| k % 3 != 0)
        .map(|k| (3 * k).to_be_bytes().to_vec())
        .collect();
    assert_eq!(range, expected);
}

#[test]
fn small_store_reopens_with_same_entries() {
    let mut store = KVStore::from_image(Vec::new()).unwrap();
    for k in (1..=30i64).rev() {
        store.set(&k.to_be_bytes(), &(k * 10).to_be_bytes()).unwrap();
    }
    store.set(&7i64.to_be_bytes(), &(-7i64).to_be_bytes()).unwrap();
    assert!(store.del(&8i64.to_be_bytes()).unwrap());
    let bytes = store.image_bytes();
    assert_eq!(bytes.len(), 4096);
    let mut again = KVStore::from_image(bytes).unwrap();
    for k in 1..=30i64 {
        let got = again.get(&k.to_be_bytes()).unwrap();
        match k {
            7 => assert_eq!(got.unwrap(), (-7i64).to_be_bytes().to_vec()),
            8 => assert!(got.is_none()),
            _ => assert_eq!(got.unwrap(), (k * 10).to_be_bytes().to_vec()),
        }
    }
    let range = again.get_range(&5i64.to_be_bytes(), &9i64.to_be_bytes()).unwrap();
    assert_eq!(
        range,
        vec![
            50i64.to_be_bytes().to_vec(),
            60i64.to_be_bytes().to_vec(),
            (-7i64).to_be_bytes().to_vec(),
            90i64.to_be_bytes().to_vec(),
        ]
    );
}
