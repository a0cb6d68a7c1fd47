use ferrumdb::btree::PersistentBtree;
use ferrumdb::space::Space;
use std::collections::BTreeMap;

fn key(i: u32) -> Vec<u8> {
    i.to_be_bytes().to_vec()
}

#[test]
fn three_level_tree_reads_back_every_key() {
    let mut space = Space::create();
    let mut tree = PersistentBtree::create(&mut space).unwrap();
    let n = 8000u32;
    for step in 0..n {
        let i = (step * 7919) % n;
        tree.insert(&mut space, key(i), (i + 1).to_le_bytes().to_vec()).unwrap();
    }
    assert_eq!(tree.height(), 3);
    for i in 0..n {
        assert_eq!(tree.get(&mut space, &key(i)).unwrap(), Some((i + 1).to_le_bytes().to_vec()));
    }
    let all = tree.scan_range(&mut space, &[], &[0xFF; 5]).unwrap();
    assert_eq!(all.len(), n as usize);
    for (i, (k, v)) in all.iter().enumerate() {
        assert_eq!(*k, key(i as u32));
        assert_eq!(*v, (i as u32 + 1).to_le_bytes().to_vec());
    }
}

#[test]
fn reinserted_separator_key_splits_in_place() {
    let mut space = Space::create();
    let mut tree = PersistentBtree::create(&mut space).unwrap();
    for i in 0..64u32 {
        tree.insert(&mut space, key(i), vec![1]).unwrap();
    }
    assert_eq!(tree.height(), 2);
    // Key 32 now separates the two leaves; remove it and store it again, so
    // that the right leaf holds it, then make that leaf split.
    assert!(tree.delete(&mut space, &key(32)).unwrap());
    tree.insert(&mut space, key(32), vec![2]).unwrap();
    for i in 64..200u32 {
        tree.insert(&mut space, key(i), vec![3]).unwrap();
    }
    for i in 0..200u32 {
        let expected = if i == 32 {
            vec![2]
        } else if i < 64 {
            vec![1]
        } else {
            vec![3]
        };
        assert_eq!(tree.get(&mut space, &key(i)).unwrap(), Some(expected), "key {i}");
    }
    let all = tree.scan_range(&mut space, &[], &[0xFF; 5]).unwrap();
    let keys: Vec<Vec<u8>> = all.into_iter().map(|(k, _)| k).collect();
    let expected: Vec<Vec<u8>> = (0..200u32).map(key).collect();
    assert_eq!(keys, expected);
}

#[test]
fn scan_from_separator_key_starts_at_it() {
    let mut space = Space::create();
    let mut tree = PersistentBtree::create(&mut space).unwrap();
    for i in 0..200u32 {
        tree.insert(&mut space, key(i), vec![i as u8]).unwrap();
    }
    let hits = tree.scan_range(&mut space, &key(32), &key(100)).unwrap();
    assert_eq!(hits.len(), 68);
    assert_eq!(hits[0].0, key(32));
    assert_eq!(hits[67].0, key(99));
    let none = tree.scan_range(&mut space, &key(100), &key(32)).unwrap();
    assert!(none.is_empty());
}

#[test]
fn mixed_operations_match_ordered_map() {
    let mut space = Space::create();
    let mut tree = PersistentBtree::create(&mut space).unwrap();
    let mut model: BTreeMap<Vec<u8>, Vec<u8>> = BTreeMap::new();
    let mut x: u32 = 12345;
    for round in 0..4000u32 {
        x = x.wrapping_mul(1103515245).wrapping_add(12345);
        let k = key((x >> 8) % 700);
        if x % 4 == 0 {
            let removed = tree.delete(&mut space, &k).unwrap();
            assert_eq!(removed, model.remove(&k).is_some(), "round {round}");
        } else {
            let v = round.to_le_bytes().to_vec();
            tree.insert(&mut space, k.clone(), v.clone()).unwrap();
            model.insert(k, v);
        }
    }
    for i in 0..700u32 {
        assert_eq!(tree.get(&mut space, &key(i)).unwrap(), model.get(&key(i)).cloned());
    }
    let lo = key(100);
    let hi = key(450);
    let got = tree.scan_range(&mut space, &lo, &hi).unwrap();
    let want: Vec<(Vec<u8>, Vec<u8>)> =
        model.range(lo.clone()..hi.clone()).map(|(k, v)| (k.clone(), v.clone())).collect();
    assert_eq!(got, want);
}
