use mini_db::btree::page::KeyVal;
use mini_db::btree::{BPTreeDisk, BTreeIterator};
use rand::seq::SliceRandom;

fn int_to_bytes(x: i64) -> Vec<u8> {
    x.to_be_bytes().to_vec()
}

/// A tree over an empty page file.
fn empty_tree() -> BPTreeDisk {
    BPTreeDisk::from_image(Vec::new()).unwrap()
}

#[test]
fn test_btree_insert_find() {
    let mut tree = empty_tree();

    let key = 42i64.to_be_bytes();
    let val = 100i64.to_be_bytes();

    tree.insert(&key, &val).unwrap();

    let result = tree.find(&key).unwrap();
    assert!(result.is_some());
    assert_eq!(result.unwrap().val_bytes(), val);
}

#[test]
fn test_btree_update() {
    let mut tree = empty_tree();

    let key = 42i64.to_be_bytes();
    let val1 = 100i64.to_be_bytes();
    let val2 = 200i64.to_be_bytes();

    tree.insert(&key, &val1).unwrap();
    tree.set(&key, &val2).unwrap();

    let result = tree.find(&key).unwrap();
    assert!(result.is_some());
    assert_eq!(result.unwrap().val_bytes(), val2);
}

#[test]
fn test_btree_delete() {
    let mut tree = empty_tree();

    let key = 42i64.to_be_bytes();
    let val = 100i64.to_be_bytes();

    tree.insert(&key, &val).unwrap();
    let deleted = tree.del(&key).unwrap();
    assert!(deleted);

    let result = tree.find(&key).unwrap();
    assert!(result.is_none());
}

#[test]
fn test_iterator_basic() {
    let mut tree = empty_tree();

    // Insert test data
    for i in 1..=10 {
        let key = (i as i64).to_be_bytes();
        let val = (i as i64 * 10).to_be_bytes();
        tree.insert(&key, &val).unwrap();
    }

    // Test iteration
    let start_key = 1i64.to_be_bytes();
    let mut iter = BTreeIterator::new(&tree, &start_key).unwrap();

    let mut count = 0;
    while let Some(_kv) = iter.deref() {
        count += 1;
        if !iter.next(&tree).unwrap() {
            break;
        }
    }

    assert_eq!(count, 10);
}

#[test]
fn test_iterator_seek() {
    let mut tree = empty_tree();

    // Insert test data
    for i in 1..=10 {
        let key = (i as i64).to_be_bytes();
        let val = (i as i64 * 10).to_be_bytes();
        tree.insert(&key, &val).unwrap();
    }

    // Seek to middle
    let start_key = 5i64.to_be_bytes();
    let mut iter = BTreeIterator::new(&tree, &start_key).unwrap();

    let first = iter.deref().unwrap();
    assert_eq!(first.key_bytes(), start_key);

    let mut count = 1;
    while iter.next(&tree).unwrap() {
        count += 1;
    }

    assert_eq!(count, 6); // 5, 6, 7, 8, 9, 10
}

#[test]
fn test_btree_disk_sequential() {
    let max_num = 100;
    let mut test_db = empty_tree();

    // Insert test: insert nodes from 1 to max_num
    for i in 1..=max_num {
        let key = int_to_bytes(i);
        let val = int_to_bytes(i);
        println!("insert key = {:?}", key);
        test_db.insert(&key, &val).unwrap();
        println!("=========================================");
    }

    // Find test: Find these kv if they are the same
    for i in 1..=max_num {
        let key = int_to_bytes(i);
        let kv = test_db.find(&key).unwrap();
        let expected = KeyVal::from_i64(i, i);

        assert!(kv.is_some(), "Cannot find key = {}", i);
        assert_eq!(kv.unwrap(), expected, "Find test failed for key = {}", i);
    }

    // Set test: Set to i + 5
    for i in 1..=max_num {
        let key = int_to_bytes(i);
        let val = int_to_bytes(i + 5);
        println!("set key = {:?}", key);
        test_db.set(&key, &val).unwrap();
        println!("=========================================");
    }

    // Find test: Find these kv if they are the same
    for i in 1..=max_num {
        let key = int_to_bytes(i);
        let kv = test_db.find(&key).unwrap();
        let expected = KeyVal::from_i64(i, i + 5);

        assert!(kv.is_some(), "Cannot find key = {}", i);
        assert_eq!(kv.unwrap(), expected, "Find test failed for key = {}", i);
    }

    // Iter test: Get an iterator and next 10 times
    for i in 1..=max_num - 10 {
        let key = int_to_bytes(i);
        let mut iter = test_db.seek_ge(&key).unwrap();

        for j in 0..10 {
            let kv = iter.deref().expect("Iterator exhausted too early");
            let expected = KeyVal::from_i64(i + j, i + j + 5);

            assert_eq!(kv, expected, "Iter test failed for i = {} and j = {}", i, j);

            if j < 9 {
                iter.next(&test_db).unwrap();
            }
        }
    }

    // Del test: delete odd keys
    for i in 1..=max_num {
        if i % 2 == 0 {
            continue;
        }
        let key = int_to_bytes(i);
        println!("del key = {:?}", key);
        test_db.del(&key).unwrap();
        println!("=========================================");
    }

    // Find test: Find these kv if they are the same
    for i in 1..=max_num {
        let key = int_to_bytes(i);
        let kv = test_db.find(&key).unwrap();

        if i % 2 == 0 {
            let expected = KeyVal::from_i64(i, i + 5);
            assert!(kv.is_some(), "Cannot find key = {}", i);
            assert_eq!(kv.unwrap(), expected, "Find test failed for key = {}", i);
        } else {
            assert!(kv.is_none(), "Expected key {} to be deleted", i);
        }
    }
}

#[test]
fn test_btree_disk_shuffle() {
    let max_num = 2000;
    let mut rng = rand::thread_rng();

    let mut numbers: Vec<i64> = (1..=max_num).collect();
    numbers.shuffle(&mut rng);

    let mut test_db = empty_tree();

    // Insert test: insert in random order
    for &i in &numbers {
        let key = int_to_bytes(i);
        let val = int_to_bytes(i);
        println!("insert key = {:?}", key);
        test_db.insert(&key, &val).unwrap();
        println!("=========================================");
    }

    // Find test: Find these kv if they are the same
    numbers.shuffle(&mut rng);
    for &i in &numbers {
        let key = int_to_bytes(i);
        let kv = test_db.find(&key).unwrap();
        let expected = KeyVal::from_i64(i, i);

        assert!(kv.is_some(), "Cannot find key = {}", i);
        assert_eq!(kv.unwrap(), expected, "Find test failed for key = {}", i);
    }

    // Set test: Set to i + 5
    numbers.shuffle(&mut rng);
    for &i in &numbers {
        let key = int_to_bytes(i);
        let val = int_to_bytes(i + 5);
        println!("set key = {:?}", key);
        test_db.set(&key, &val).unwrap();
        println!("=========================================");
    }

    // Find test: Find these kv if they are the same
    numbers.shuffle(&mut rng);
    for &i in &numbers {
        let key = int_to_bytes(i);
        let kv = test_db.find(&key).unwrap();
        let expected = KeyVal::from_i64(i, i + 5);

        assert!(kv.is_some(), "Cannot find key = {}", i);
        assert_eq!(kv.unwrap(), expected, "Find test failed for key = {}", i);
    }

    // Del test: delete odd keys
    numbers.shuffle(&mut rng);
    for &i in &numbers {
        if i % 2 == 0 {
            continue;
        }
        let key = int_to_bytes(i);
        println!("del key = {:?}", key);
        test_db.del(&key).unwrap();
        println!("=========================================");
    }

    // Find test: Find these kv if they are the same
    numbers.shuffle(&mut rng);
    for &i in &numbers {
        let key = int_to_bytes(i);
        let kv = test_db.find(&key).unwrap();

        if i % 2 == 0 {
            let expected = KeyVal::from_i64(i, i + 5);
            assert!(kv.is_some(), "Cannot find key = {}", i);
            assert_eq!(kv.unwrap(), expected, "Find test failed for key = {}", i);
        } else {
            assert!(kv.is_none(), "Expected key {} to be deleted", i);
        }
    }
}

#[test]
fn test_btree_persistence() {
    // Insert data
    let image = {
        let mut db = empty_tree();
        for i in 1..=100 {
            let key = int_to_bytes(i);
            let val = int_to_bytes(i * 10);
            db.insert(&key, &val).unwrap();
        }
        db.image_bytes()
    }; // db is dropped here

    // Reopen and verify data persists
    {
        let db = BPTreeDisk::from_image(image).unwrap();
        for i in 1..=100 {
            let key = int_to_bytes(i);
            let kv = db.find(&key).unwrap();
            assert!(kv.is_some(), "Key {} not found after reopening", i);

            let expected = KeyVal::from_i64(i, i * 10);
            assert_eq!(kv.unwrap(), expected, "Value mismatch for key {}", i);
        }
    }
}

#[test]
fn test_btree_large_dataset() {
    let mut db = empty_tree();

    let count = 5000;

    // Insert large dataset
    for i in 1..=count {
        let key = int_to_bytes(i);
        let val = int_to_bytes(i * 100);
        db.insert(&key, &val).unwrap();
    }

    // Verify all entries
    for i in 1..=count {
        let key = int_to_bytes(i);
        let kv = db.find(&key).unwrap();
        assert!(kv.is_some(), "Key {} not found", i);
    }

    // Range query test
    let start_key = int_to_bytes(100);
    let mut iter = db.seek_ge(&start_key).unwrap();
    let mut count_iter = 0;

    while let Some(_kv) = iter.deref() {
        count_iter += 1;
        if !iter.next(&db).unwrap() || count_iter >= 100 {
            break;
        }
    }

    assert!(count_iter >= 100, "Iterator didn't traverse enough entries");
}
