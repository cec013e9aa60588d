use artdb::b_plus_tree::{BPlusTree, BPlusTreeNode, InternalNode, LeafNode};
use artdb::error::Error;
use artdb::page::PageData;
use artdb::storage_engine::StorageEngine;

fn tree(order: usize) -> BPlusTree {
    BPlusTree::new(order, StorageEngine::new(Vec::new())).unwrap()
}

#[test]
fn order_three_scenario_splits_once() {
    let mut t = tree(3);
    for k in [10u32, 20, 30] {
        t.insert(k, k as u64 * 100).unwrap();
    }
    assert_eq!(t.height(), 1);
    t.insert(40, 4000).unwrap();
    assert_eq!(t.height(), 2);
    let root = t.root_page_id();
    match &t.pool().page(root).unwrap().page {
        PageData::Node(BPlusTreeNode::Internal(n)) => {
            assert_eq!(n.keys.len(), 1);
            assert_eq!(n.children.len(), 2);
        }
        other => panic!("unexpected root {:?}", other),
    }
    assert_eq!(t.search(25), Ok(None));
    assert_eq!(t.search(30), Ok(Some(3000)));
    assert_eq!(t.keys_in_order(), Ok(vec![10, 20, 30, 40]));
}

#[test]
fn search_finds_latest_values() {
    let mut t = tree(4);
    let mut expected = std::collections::BTreeMap::new();
    for i in 0..600u32 {
        let k = (i * 7919) % 1000;
        t.insert(k, i as u64).unwrap();
        expected.insert(k, i as u64);
    }
    for i in 0..300u32 {
        let k = (i * 31) % 1000;
        t.insert(k, 100_000 + i as u64).unwrap();
        expected.insert(k, 100_000 + i as u64);
    }
    for k in 0..1000u32 {
        assert_eq!(t.search(k), Ok(expected.get(&k).copied()), "key {}", k);
    }
    assert_eq!(t.search(5000), Ok(None));
}

#[test]
fn leaves_in_order_and_height_grows_by_one_at_most() {
    let mut t = tree(3);
    let mut height = t.height();
    for i in 0..400u32 {
        t.insert((i * 37) % 401, i as u64).unwrap();
        let h = t.height();
        assert!(h == height || h == height + 1);
        height = h;
    }
    assert!(height > 2);
    let keys = t.keys_in_order().unwrap();
    assert_eq!(keys.len(), 400);
    assert!(keys.windows(2).all(|w| w[0] < w[1]));
}

#[test]
fn empty_tree_finds_nothing() {
    let mut t = tree(3);
    assert_eq!(t.height(), 1);
    assert_eq!(t.search(1), Ok(None));
    assert_eq!(t.keys_in_order(), Ok(vec![]));
}

#[test]
fn delete_removes_key_or_reports_missing() {
    let mut t = tree(3);
    for k in 1..=10u32 {
        t.insert(k, k as u64).unwrap();
    }
    assert_eq!(t.delete(4), Ok(()));
    assert_eq!(t.search(4), Ok(None));
    assert_eq!(t.search(5), Ok(Some(5)));
    assert_eq!(t.delete(4), Err(Error::KeyNotFound));
    assert_eq!(t.delete(99), Err(Error::KeyNotFound));
}

#[test]
fn tree_pages_reach_the_engine_after_flush() {
    let mut t = tree(3);
    for k in 1..=20u32 {
        t.insert(k, k as u64 + 1).unwrap();
    }
    t.flush().unwrap();
    match t.engine().read_page(t.root_page_id()).unwrap() {
        PageData::Node(BPlusTreeNode::Internal(n)) => assert!(!n.keys.is_empty()),
        other => panic!("unexpected root {:?}", other),
    }
}

#[test]
fn root_is_allocated_after_existing_pages() {
    let mut t = BPlusTree::new(3, StorageEngine::new(vec![0u8; 4096])).unwrap();
    assert_eq!(t.root_page_id(), 1);
    assert_eq!(t.order(), 3);
    assert_eq!(t.search(1), Ok(None));
}

#[test]
fn leaf_insert_split_and_remove() {
    let mut l = LeafNode::new();
    l.insert(5, 50);
    l.insert(1, 10);
    l.insert(3, 30);
    l.insert(3, 33);
    assert_eq!(l.keys, vec![1, 3, 5]);
    assert_eq!(l.values, vec![10, 33, 50]);
    assert_eq!(l.search(3), Some(33));
    assert_eq!(l.search(4), None);
    l.insert(7, 70);
    let (sep, right) = l.split();
    assert_eq!(sep, 5);
    assert_eq!(l.keys, vec![1, 3]);
    assert_eq!(right.keys, vec![5, 7]);
    assert_eq!(right.values, vec![50, 70]);
    assert!(l.remove(1));
    assert!(!l.remove(1));
    assert_eq!(l.keys, vec![3]);
}

#[test]
fn internal_child_index_insert_and_split() {
    let mut n = InternalNode { keys: vec![10, 20, 30], children: vec![1, 2, 3, 4] };
    assert_eq!(n.child_index(5), 0);
    assert_eq!(n.child_index(10), 1);
    assert_eq!(n.child_index(25), 2);
    assert_eq!(n.child_index(99), 3);
    n.insert_child(25, 9);
    assert_eq!(n.keys, vec![10, 20, 25, 30]);
    assert_eq!(n.children, vec![1, 2, 3, 9, 4]);
    let (up, right) = n.split();
    assert_eq!(up, 25);
    assert_eq!(n.keys, vec![10, 20]);
    assert_eq!(n.children, vec![1, 2, 3]);
    assert_eq!(right.keys, vec![30]);
    assert_eq!(right.children, vec![9, 4]);
}

#[test]
fn new_tree_root_slot_holds_empty_leaf() {
    let t = tree(3);
    assert_eq!(t.root_page_id(), 0);
    assert_eq!(t.engine().next_id(), 1);
    assert!(t.pool().resident_pages().is_empty());
    match t.engine().read_page(0).unwrap() {
        PageData::Node(BPlusTreeNode::Leaf(l)) => {
            assert!(l.keys.is_empty());
            assert!(l.values.is_empty());
        }
        other => panic!("unexpected root {:?}", other),
    }
}

#[test]
fn flush_leaves_every_resident_page_clean() {
    let mut t = tree(3);
    for k in 1..=12u32 {
        t.insert(k, k as u64 * 3).unwrap();
    }
    t.flush().unwrap();
    for id in t.pool().resident_pages() {
        assert!(!t.pool().page(id).unwrap().is_dirty);
        assert!(t.engine().read_page(id).is_ok());
    }
}
