use ferrumdb::btree::node::lower_bound;
use ferrumdb::btree::{BTree, Node, ScanIter, MIN_KEYS, ORDER};
use std::collections::HashSet;

fn keys_of(mut it: ScanIter<'_, i32, i32>) -> Vec<i32> {
    let mut out = Vec::new();
    while let Some((k, _)) = it.next() {
        out.push(*k);
    }
    out
}

#[test]
fn btree_types_are_exported() {
    let _: fn() -> BTree<i32, i32> = BTree::new;
}

#[test]
fn empty_tree() {
    let t: BTree<i32, i32> = BTree::new();
    assert_eq!(t.len(), 0);
    assert_eq!(t.height(), 0);
    assert!(t.get(&5).unwrap().is_none());
}

#[test]
fn insert_and_get_single() {
    let mut t = BTree::new();
    t.insert(5, "five".to_string()).unwrap();
    assert_eq!(t.get(&5).unwrap(), Some("five".to_string()));
    assert_eq!(t.get(&6).unwrap(), None);
    assert_eq!(t.len(), 1);
}

#[test]
fn insert_overwrites_existing_key() {
    let mut t = BTree::new();
    t.insert(1, "a".to_string()).unwrap();
    t.insert(1, "b".to_string()).unwrap();
    assert_eq!(t.get(&1).unwrap(), Some("b".to_string()));
    assert_eq!(t.len(), 1);
}

#[test]
fn root_split_increases_height() {
    let mut t = BTree::new();
    for i in 0..(ORDER * 2) {
        t.insert(i as i32, i).unwrap();
    }
    assert_eq!(t.len(), ORDER * 2);
    assert!(t.height() >= 2);
}

#[test]
fn ten_thousand_random_inserts_then_scan_all_in_order() {
    let mut state: u64 = 0xC0FFEE;
    let mut next = || -> i32 {
        state = state.wrapping_mul(6364136223846793005).wrapping_add(1442695040888963407);
        (state as i32) ^ ((state >> 32) as i32)
    };
    let mut t = BTree::new();
    let mut inserted = HashSet::new();
    for _ in 0..10_000 {
        let k = next();
        if inserted.insert(k) {
            t.insert(k, k).unwrap();
        }
    }
    let scanned: Vec<i32> = keys_of(t.scan_all());
    let mut expected: Vec<i32> = inserted.iter().copied().collect();
    expected.sort();
    assert_eq!(scanned, expected);
}

#[test]
fn range_scan_excludes_end() {
    let mut t = BTree::new();
    for i in 0..10 {
        t.insert(i, i * 10).unwrap();
    }
    let r: Vec<i32> = keys_of(t.scan_range(&3, &7));
    assert_eq!(r, vec![3, 4, 5, 6]);
}

#[test]
fn delete_removes_key() {
    let mut t = BTree::new();
    for i in 0..100 {
        t.insert(i, i).unwrap();
    }
    assert_eq!(t.len(), 100);
    assert!(t.delete(&50).unwrap());
    assert_eq!(t.len(), 99);
    assert!(t.get(&50).unwrap().is_none());
    assert_eq!(t.get(&49).unwrap(), Some(49));
    assert_eq!(t.get(&51).unwrap(), Some(51));
}

#[test]
fn tree_delete_missing_key_returns_false() {
    let mut t = BTree::new();
    t.insert(1, 10).unwrap();
    assert!(!t.delete(&999).unwrap());
    assert_eq!(t.len(), 1);
}

#[test]
fn scan_values_follow_keys() {
    let mut t = BTree::new();
    for i in (0..300).rev() {
        t.insert(i, i * 2).unwrap();
    }
    let mut it = t.scan_range(&100, &103);
    assert_eq!(it.next(), Some((&100, &200)));
    assert_eq!(it.next(), Some((&101, &202)));
    assert_eq!(it.next(), Some((&102, &204)));
    assert_eq!(it.next(), None);
    assert_eq!(it.next(), None);
}

#[test]
fn scan_range_with_start_after_end_is_empty() {
    let mut t = BTree::new();
    for i in 0..500 {
        t.insert(i, i).unwrap();
    }
    assert!(keys_of(t.scan_range(&300, &200)).is_empty());
    assert_eq!(keys_of(t.scan_range(&250, &400)), (250..400).collect::<Vec<_>>());
}

#[test]
fn reinsert_deleted_separator_keeps_order() {
    let mut t = BTree::new();
    for i in 0..1000 {
        t.insert(i, i).unwrap();
    }
    for i in 0..1000 {
        assert!(t.delete(&i).unwrap());
    }
    assert_eq!(t.len(), 0);
    for i in (0..1000).rev() {
        t.insert(i, -i).unwrap();
    }
    assert_eq!(t.len(), 1000);
    assert_eq!(keys_of(t.scan_all()), (0..1000).collect::<Vec<_>>());
    for i in 0..1000 {
        assert_eq!(t.get(&i).unwrap(), Some(-i));
    }
}

#[test]
fn deleting_everything_keeps_a_root() {
    let mut t = BTree::new();
    for i in 0..200 {
        t.insert(i, i).unwrap();
    }
    for i in 0..200 {
        t.delete(&i).unwrap();
    }
    assert_eq!(t.len(), 0);
    assert!(t.is_empty());
    assert!(keys_of(t.scan_all()).is_empty());
}

#[test]
fn small_tree_empties_completely() {
    let mut t = BTree::new();
    t.insert(1, 1).unwrap();
    t.insert(2, 2).unwrap();
    t.delete(&1).unwrap();
    t.delete(&2).unwrap();
    assert!(t.is_empty());
    assert_eq!(t.height(), 0);
}

#[test]
fn default_tree_is_empty() {
    let t: BTree<u8, u8> = BTree::default();
    assert!(t.is_empty());
    assert_eq!(t.len(), 0);
}

#[test]
fn node_helpers() {
    let leaf: Box<Node<i32, i32>> = Node::new_leaf();
    assert!(leaf.is_leaf());
    assert_eq!(leaf.key_len(), 0);
    assert!(!leaf.needs_split());
    let internal: Box<Node<i32, i32>> = Node::new_internal();
    assert!(!internal.is_leaf());
    let full: Node<i32, i32> =
        Node::Leaf { keys: (0..ORDER as i32).collect(), values: vec![0; ORDER] };
    assert!(full.needs_split());
    assert_eq!(MIN_KEYS, ORDER / 2);
}

#[test]
fn lower_bound_positions() {
    let keys = [10, 20, 30];
    assert_eq!(lower_bound(&keys, &5), 0);
    assert_eq!(lower_bound(&keys, &10), 0);
    assert_eq!(lower_bound(&keys, &25), 2);
    assert_eq!(lower_bound(&keys, &30), 2);
    assert_eq!(lower_bound(&keys, &31), 3);
}
