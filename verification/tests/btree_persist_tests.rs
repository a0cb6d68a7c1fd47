use ferrumdb::btree::persist::{decode_node_from_page, encode_node_to_page};
use ferrumdb::btree::{BTreeError, DecodedNode, EncodedNode, PersistentBtree, KIND_INTERNAL, KIND_LEAF};
use ferrumdb::buffer::{BufferPool, BufferPoolSource};
use ferrumdb::page::{Page, PageType};
use ferrumdb::space::{Space, SpaceError};
use std::collections::HashSet;

#[test]
fn leaf_round_trip() {
    let mut page = Page::new(7, PageType::Index);
    let node = EncodedNode {
        kind: KIND_LEAF,
        keys: vec![b"alpha".as_ref(), b"bravo".as_ref(), b"charlie".as_ref()],
        children: None,
        values: Some(vec![b"v1".as_ref(), b"v2".as_ref(), b"v3".as_ref()]),
        next_leaf: Some(42),
    };
    encode_node_to_page(&mut page, node).unwrap();
    let decoded = decode_node_from_page(&page).unwrap();
    match decoded {
        DecodedNode::Leaf { keys, values, next_leaf } => {
            assert_eq!(keys, vec![b"alpha".to_vec(), b"bravo".to_vec(), b"charlie".to_vec()]);
            assert_eq!(values, vec![b"v1".to_vec(), b"v2".to_vec(), b"v3".to_vec()]);
            assert_eq!(next_leaf, Some(42));
        }
        _ => panic!("expected leaf"),
    }
}

#[test]
fn internal_round_trip() {
    let mut page = Page::new(3, PageType::Index);
    let node = EncodedNode {
        kind: KIND_INTERNAL,
        keys: vec![b"k1".as_ref(), b"k2".as_ref()],
        children: Some(vec![10, 20, 30]),
        values: None,
        next_leaf: None,
    };
    encode_node_to_page(&mut page, node).unwrap();
    let decoded = decode_node_from_page(&page).unwrap();
    match decoded {
        DecodedNode::Internal { keys, children } => {
            assert_eq!(keys, vec![b"k1".to_vec(), b"k2".to_vec()]);
            assert_eq!(children, vec![10, 20, 30]);
        }
        _ => panic!("expected internal"),
    }
}

#[test]
fn persist_arity_mismatch_returns_error() {
    let mut page = Page::new(1, PageType::Index);
    let node = EncodedNode {
        kind: KIND_LEAF,
        keys: vec![b"k1".as_ref()],
        children: None,
        values: Some(vec![b"v1".as_ref(), b"v2".as_ref()]),
        next_leaf: None,
    };
    let err = encode_node_to_page(&mut page, node);
    assert!(matches!(err, Err(BTreeError::ArityMismatch { .. })));
}

#[test]
fn invalid_kind_returns_error() {
    let mut page = Page::new(1, PageType::Index);
    page.user_data_mut()[0] = 99;
    let err = decode_node_from_page(&page);
    assert!(matches!(err, Err(BTreeError::InvalidNodeKind(99))));
}

#[test]
fn node_header_layout() {
    let mut page = Page::new(9, PageType::Index);
    let node = EncodedNode {
        kind: KIND_LEAF,
        keys: vec![b"ab".as_ref()],
        children: None,
        values: Some(vec![b"c".as_ref()]),
        next_leaf: None,
    };
    encode_node_to_page(&mut page, node).unwrap();
    let data = page.user_data();
    assert_eq!(data[0], KIND_LEAF);
    assert_eq!(&data[4..8], &[1, 0, 0, 0]);
    // key length prefix then the key bytes
    assert_eq!(&data[8..12], &[2, 0, 0, 0]);
    assert_eq!(&data[12..14], b"ab");
}

#[test]
fn create_insert_get_round_trip() {
    let mut space = Space::create();
    let mut tree = PersistentBtree::create(&mut space).unwrap();
    space.set_root_page_id(tree.root_page_id()).unwrap();
    tree.insert(&mut space, b"hello".to_vec(), b"world".to_vec()).unwrap();
    tree.insert(&mut space, b"foo".to_vec(), b"bar".to_vec()).unwrap();
    assert_eq!(tree.get(&mut space, b"hello").unwrap(), Some(b"world".to_vec()));
    assert_eq!(tree.get(&mut space, b"foo").unwrap(), Some(b"bar".to_vec()));
    assert_eq!(tree.get(&mut space, b"missing").unwrap(), None);
}

#[test]
fn thousand_keys_reopen() {
    let root_id;
    let image = {
        let mut space = Space::create();
        let mut tree = PersistentBtree::create(&mut space).unwrap();
        root_id = tree.root_page_id();
        for i in 0..1000u32 {
            let k = i.to_be_bytes().to_vec();
            let v = (i as u64 * 10).to_be_bytes().to_vec();
            tree.insert(&mut space, k, v).unwrap();
        }
        space.set_root_page_id(root_id).unwrap();
        space.image()
    };
    let mut space = Space::open(&image).unwrap();
    let tree = PersistentBtree::open(&mut space, root_id).unwrap();
    assert_eq!(tree.len(), 1000);
    for i in 0..1000u32 {
        let k = i.to_be_bytes().to_vec();
        let expected = (i as u64 * 10).to_be_bytes().to_vec();
        assert_eq!(tree.get(&mut space, &k).unwrap(), Some(expected));
    }
}

#[test]
fn root_split_persists() {
    let initial_height;
    let root_id;
    let image = {
        let mut space = Space::create();
        let mut tree = PersistentBtree::create(&mut space).unwrap();
        initial_height = tree.height();
        for i in 0..200u32 {
            tree.insert(&mut space, i.to_be_bytes().to_vec(), vec![0u8]).unwrap();
        }
        root_id = tree.root_page_id();
        assert!(tree.height() > initial_height, "root split did not happen");
        space.set_root_page_id(root_id).unwrap();
        space.image()
    };
    let mut space = Space::open(&image).unwrap();
    let tree = PersistentBtree::open(&mut space, root_id).unwrap();
    assert_eq!(tree.height(), 2, "height should be 2 after root split");
    for i in (0..200u32).step_by(50) {
        let k = i.to_be_bytes().to_vec();
        assert_eq!(tree.get(&mut space, &k).unwrap(), Some(vec![0u8]));
    }
}

#[test]
fn delete_removes_all_keys_after_multi_level_split() {
    let mut space = Space::create();
    let mut tree = PersistentBtree::create(&mut space).unwrap();
    let n = 1000u32;
    for i in 0..n {
        tree.insert(&mut space, i.to_be_bytes().to_vec(), (i * 2).to_be_bytes().to_vec()).unwrap();
    }
    for i in (0..n).rev() {
        let k = i.to_be_bytes().to_vec();
        assert!(tree.delete(&mut space, &k).unwrap(), "delete {i} should succeed");
        assert_eq!(tree.get(&mut space, &k).unwrap(), None, "key {i} gone");
    }
    assert_eq!(tree.len(), 0);
    assert!(tree.scan_range(&mut space, &[], &[0xFFu8; 8]).unwrap().is_empty());
    assert!(!tree.delete(&mut space, b"zzz").unwrap());
}

#[test]
fn persistent_delete_missing_key_returns_false() {
    let mut space = Space::create();
    let mut tree = PersistentBtree::create(&mut space).unwrap();
    tree.insert(&mut space, b"a".to_vec(), vec![1]).unwrap();
    assert!(!tree.delete(&mut space, b"missing").unwrap());
    assert!(tree.delete(&mut space, b"a").unwrap());
    assert!(!tree.delete(&mut space, b"a").unwrap());
}

#[test]
fn delete_interleaved_with_insert_preserves_remaining() {
    let mut space = Space::create();
    let mut tree = PersistentBtree::create(&mut space).unwrap();
    let n = 300u32;
    for i in 0..n {
        tree.insert(&mut space, i.to_be_bytes().to_vec(), vec![i as u8]).unwrap();
    }
    for i in (0..n).step_by(2) {
        assert!(tree.delete(&mut space, &i.to_be_bytes()).unwrap());
    }
    for i in 1..n {
        if i % 2 == 1 {
            assert_eq!(tree.get(&mut space, &i.to_be_bytes()).unwrap(), Some(vec![i as u8]));
        } else {
            assert_eq!(tree.get(&mut space, &i.to_be_bytes()).unwrap(), None);
        }
    }
}

#[test]
fn all_node_page_ids_covers_entire_tree() {
    let mut space = Space::create();
    let mut tree = PersistentBtree::create(&mut space).unwrap();
    let ids = tree.all_node_page_ids(&mut space).unwrap();
    assert_eq!(ids, vec![tree.root_page_id()]);

    for i in 0..1000u32 {
        tree.insert(&mut space, i.to_be_bytes().to_vec(), vec![i as u8]).unwrap();
    }
    assert!(tree.height() >= 2, "should have grown");
    let ids = tree.all_node_page_ids(&mut space).unwrap();
    let unique: HashSet<u32> = ids.iter().copied().collect();
    assert_eq!(ids.len(), unique.len(), "ids must be unique");
    assert!(unique.contains(&tree.root_page_id()));

    let mut readable = 0u32;
    for &id in &ids {
        let page = space.read_page(id).unwrap();
        assert_eq!(page.page_type(), PageType::Index);
        readable += 1;
    }
    assert_eq!(readable as usize, ids.len());
}

#[test]
fn scan_range_persisted() {
    let root_id;
    let image = {
        let mut space = Space::create();
        let mut tree = PersistentBtree::create(&mut space).unwrap();
        for i in 0..50u32 {
            tree.insert(&mut space, i.to_be_bytes().to_vec(), vec![i as u8]).unwrap();
        }
        root_id = tree.root_page_id();
        space.set_root_page_id(root_id).unwrap();
        space.image()
    };
    let mut space = Space::open(&image).unwrap();
    let tree = PersistentBtree::open(&mut space, root_id).unwrap();
    let results = tree.scan_range(&mut space, &10u32.to_be_bytes(), &20u32.to_be_bytes()).unwrap();
    assert_eq!(results.len(), 10);
    for (i, (k, v)) in results.iter().enumerate() {
        assert_eq!(*k, (10 + i as u32).to_be_bytes().to_vec());
        assert_eq!(*v, vec![10 + i as u8]);
    }
}

#[test]
fn persistent_btree_through_buffer_pool_basic() {
    let mut pool = BufferPool::create(64).unwrap();
    let mut source = BufferPoolSource::new(&mut pool);
    let mut tree = PersistentBtree::create(&mut source).unwrap();
    for i in 0..100u32 {
        tree.insert(&mut source, i.to_be_bytes().to_vec(), vec![i as u8]).unwrap();
    }
    assert!(tree.height() >= 2, "tree should have grown after 100 inserts");
    for i in 0..100u32 {
        assert_eq!(tree.get(&mut source, &i.to_be_bytes()).unwrap(), Some(vec![i as u8]));
    }
}

#[test]
fn open_rejects_non_node_page() {
    let mut space = Space::create();
    let id = space.allocate_page().unwrap();
    let mut page = Page::new(id, PageType::Index);
    page.user_data_mut()[0] = 7;
    space.write_page(id, &page).unwrap();
    assert!(matches!(
        PersistentBtree::open(&mut space, id),
        Err(BTreeError::InvalidNodeKind(7))
    ));
}

#[test]
fn fresh_tree_is_empty_leaf() {
    let mut space = Space::create();
    let tree = PersistentBtree::create(&mut space).unwrap();
    assert!(tree.is_empty());
    assert_eq!(tree.len(), 0);
    assert_eq!(tree.height(), 1);
    let root = DecodedNode::load(&mut space, tree.root_page_id()).unwrap();
    assert!(matches!(root, DecodedNode::Leaf { ref keys, next_leaf: None, .. } if keys.is_empty()));
}

#[test]
fn one_frame_pool_carries_a_whole_tree() {
    let mut pool = BufferPool::create(1).unwrap();
    let mut source = BufferPoolSource::new(&mut pool);
    let mut tree = PersistentBtree::create(&mut source).unwrap();
    for i in 0u32..500 {
        let key = format!("key{:05}", i).into_bytes();
        let value = format!("value{}", i).into_bytes();
        tree.insert(&mut source, key, value).unwrap();
    }
    assert!(tree.height() > 1);
    for i in 0u32..500 {
        let key = format!("key{:05}", i).into_bytes();
        let got = tree.get(&mut source, &key).unwrap();
        assert_eq!(got, Some(format!("value{}", i).into_bytes()));
    }
    pool.flush_all().unwrap();
}

#[test]
fn longest_sure_entries_insert_in_a_space() {
    let mut space = Space::create();
    let mut tree = PersistentBtree::create(&mut space).unwrap();
    for i in 0u32..300 {
        let mut key = format!("{:08}", i).into_bytes();
        key.resize(ferrumdb::btree::persistent::ENTRY_MAX, b'k');
        let value = vec![b'v'; ferrumdb::btree::persistent::ENTRY_MAX];
        tree.insert(&mut space, key, value).unwrap();
    }
    assert_eq!(tree.len(), 300);
    assert!(tree.height() >= 2);
}

#[test]
fn btree_error_messages() {
    assert_eq!(BTreeError::TooManyKeys { got: 70, max: 64 }.message(), "node has too many keys: 70 > 64");
    assert_eq!(
        BTreeError::ArityMismatch { keys: 2, children: 0, values: 1 }.message(),
        "node arity mismatch: keys=2, children=0, values=1"
    );
    assert_eq!(BTreeError::Space(ferrumdb::space::SpaceError::FreeListCorrupted(9)).message(), "space error: free list corrupted at page 9");
}

#[test]
fn read_error_is_handed_on_as_space_error() {
    let r = DecodedNode::from_read(Err(SpaceError::PageIdOutOfRange(9)));
    assert!(matches!(r, Err(BTreeError::Space(SpaceError::PageIdOutOfRange(9)))));
    let mut page = Page::new(3, PageType::Index);
    let leaf = EncodedNode {
        kind: KIND_LEAF,
        keys: vec![b"k".as_ref()],
        children: None,
        values: Some(vec![b"v".as_ref()]),
        next_leaf: None,
    };
    encode_node_to_page(&mut page, leaf).unwrap();
    assert!(matches!(DecodedNode::from_read(Ok(page)), Ok(DecodedNode::Leaf { .. })));
}
