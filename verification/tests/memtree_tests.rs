use mini_db::memtree::{BPTree, Node, INTERNAL_NODE_MAX_KEYS};

#[test]
fn test_insert() {
    let mut tree = BPTree::new();
    // Insert enough keys to force at least one split and create an internal root
    for i in 0..INTERNAL_NODE_MAX_KEYS * 2 {
        tree.insert(i, format!("value_{}", i));
    }

    let root = tree.root.as_ref().expect("root should exist");

    match root.as_ref() {
        Node::Internal(internal) => {
            assert_eq!(internal.len, 4);
            assert_eq!(internal.keys[..4], [0, 4, 8, 12]);
        }
        Node::Leaf(_) => {
            panic!("expected internal root after many inserts, but got leaf");
        }
    }
}
