use btree::btreeindex::BTree;
use btree::BTreeStoreError;

fn new_tree() -> BTree {
    let page_size: u16 = 88;
    BTree::new(page_size, 8).unwrap()
}

#[test]
fn insert_many() {
    let tree = &mut new_tree();

    let n: u64 = 2000;
    let items: Vec<(u64, u64)> = (0..n).map(|i| (i, i)).collect();
    tree.insert_many(&items).unwrap();

    for i in 0..n {
        assert_eq!(tree.lookup(&i).expect("Key not found"), i);
    }
    assert!(tree.lookup(&n).is_none());
}

#[test]
fn range_query_empty_tree() {
    let tree = new_tree();

    let a = 10u64;
    let b = 11u64;
    let mut found = tree.range(a, b);
    assert!(found.next().is_none());
}

#[test]
fn can_delete_key() {
    let tree = &mut new_tree();
    let n: u64 = 2000;
    let delete: u64 = 50;

    let items: Vec<(u64, u64)> = (0..n).map(|i| (i, i)).collect();
    tree.insert_many(&items).unwrap();

    let key_to_delete = delete;
    assert!(tree.lookup(&key_to_delete).is_some());

    tree.delete(&key_to_delete).unwrap();

    assert!(tree.lookup(&key_to_delete).is_none());

    for i in (0..n).filter(|k| *k != delete) {
        assert!(tree.lookup(&i).is_some());
    }
}

fn assert_send<T: Send>() {}

fn assert_sync<T: Sync>() {}

#[test]
fn is_send() {
    // compile-time check that the tree can move between threads
    assert_send::<BTree>();
}

#[test]
fn is_sync() {
    // compile-time check that shared references to the tree can be shared
    assert_sync::<BTree>();
}

#[test]
fn saves_and_restores_right() {
    let key_buffer_size: u32 = 8;
    let page_size: u16 = 86;

    let tree = BTree::new(page_size, key_buffer_size).unwrap();
    let metadata = tree.serialize_metadata().unwrap();
    let pages = tree.serialize_pages().unwrap();
    let settings = tree.serialize_static_settings();

    let restored_tree = BTree::open(&metadata, &pages, &settings).expect("restore to work");
    assert_eq!(restored_tree.static_settings.key_buffer_size, key_buffer_size);
    assert_eq!(restored_tree.static_settings.page_size, page_size);
}

#[test]
fn reopen_after_checkpoint_keeps_values() {
    let tree = &mut new_tree();
    tree.insert_one(0, 0).unwrap();
    tree.insert_one(1, 1).unwrap();
    tree.checkpoint().unwrap();

    let metadata = tree.serialize_metadata().unwrap();
    let pages = tree.serialize_pages().unwrap();
    let settings = tree.serialize_static_settings();

    let restored = BTree::open(&metadata, &pages, &settings).expect("restore to work");
    assert_eq!(restored.lookup(&0), Some(0));
    assert_eq!(restored.lookup(&1), Some(1));
    assert_eq!(restored.static_settings.page_size, 88);
    assert_eq!(restored.static_settings.key_buffer_size, 8);
}

#[test]
fn double_insert_is_refused_and_harmless() {
    let tree = &mut new_tree();
    tree.insert_one(5, 7).unwrap();
    let r = tree.insert_one(5, 9);
    assert!(matches!(r, Err(BTreeStoreError::DuplicatedKey)));
    assert_eq!(tree.lookup(&5), Some(7));
}

#[test]
fn delete_of_absent_key_is_no_error() {
    let tree = &mut new_tree();
    tree.insert_one(1, 10).unwrap();
    tree.insert_one(2, 20).unwrap();
    tree.delete(&99).unwrap();
    assert_eq!(tree.lookup(&1), Some(10));
    assert_eq!(tree.lookup(&2), Some(20));
    assert_eq!(tree.lookup(&99), None);
}

#[test]
fn range_with_start_at_or_past_end_is_empty() {
    let tree = &mut new_tree();
    let items: Vec<(u64, u64)> = (0..100).map(|i| (i, i)).collect();
    tree.insert_many(&items).unwrap();

    let mut it = tree.range(20, 20);
    assert!(it.next().is_none());
    let mut it = tree.range(30, 10);
    assert!(it.next().is_none());
}

#[test]
fn range_yields_the_in_bounds_values_in_order() {
    let tree = &mut new_tree();
    let n: u64 = 2000;
    let items: Vec<(u64, u64)> = (0..n).map(|i| (i, i)).collect();
    tree.insert_many(&items).unwrap();

    let mut it = tree.range(10, 20);
    let mut found: Vec<u64> = Vec::new();
    while let Some(v) = it.next() {
        found.push(v);
    }
    let expected: Vec<u64> = (10..20).collect();
    assert_eq!(found, expected);
}

#[test]
fn root_split_keeps_every_key_reachable() {
    // page_size 88 gives a leaf capacity of 5: the sixth insert splits the root
    let tree = &mut new_tree();
    for i in 0..6u64 {
        tree.insert_one(i, i * 100).unwrap();
    }
    for i in 0..6u64 {
        assert_eq!(tree.lookup(&i), Some(i * 100));
    }
}

#[test]
fn deleting_down_to_one_key_collapses_the_root() {
    let tree = &mut new_tree();
    for i in 0..50u64 {
        tree.insert_one(i, i).unwrap();
    }
    for i in 1..50u64 {
        tree.delete(&i).unwrap();
    }
    assert_eq!(tree.lookup(&0), Some(0));
    for i in 1..50u64 {
        assert_eq!(tree.lookup(&i), None);
    }
}

#[test]
fn random_permutation_insert_and_delete_subset() {
    let n: u64 = 500;
    // a fixed linear-congruential walk stands in for a random permutation
    let mut perm: Vec<u64> = (0..n).collect();
    let mut state: u64 = 0x2545F4914F6CDD1D;
    for i in (1..perm.len()).rev() {
        state = state.wrapping_mul(6364136223846793005).wrapping_add(1442695040888963407);
        let j = (state % ((i + 1) as u64)) as usize;
        perm.swap(i, j);
    }

    let tree = &mut new_tree();
    for &k in &perm {
        tree.insert_one(k, k * 3).unwrap();
    }
    let deleted: Vec<u64> = perm.iter().copied().filter(|k| k % 3 == 0).collect();
    for &k in &deleted {
        tree.delete(&k).unwrap();
    }
    for k in 0..n {
        if k % 3 == 0 {
            assert_eq!(tree.lookup(&k), None);
        } else {
            assert_eq!(tree.lookup(&k), Some(k * 3));
        }
    }
}

#[test]
fn metadata_image_round_trips() {
    let tree = &mut new_tree();
    for i in 0..100u64 {
        tree.insert_one(i, i).unwrap();
    }
    let image = tree.serialize_metadata().unwrap();
    let parsed = btree::metadata::Metadata::read(&image).unwrap();
    assert_eq!(parsed.root, tree.metadata.root);
    assert_eq!(parsed.page_manager.next_page, tree.metadata.page_manager.next_page);
    assert_eq!(parsed.page_manager.free.len(), tree.metadata.page_manager.free.len());
}

#[test]
fn corrupt_images_are_refused() {
    let garbage: Vec<u8> = vec![9, 9, 9];
    let r = BTree::open(&garbage, &garbage, &garbage);
    assert!(r.is_err());

    let tree = new_tree();
    let metadata = tree.serialize_metadata().unwrap();
    let settings = tree.serialize_static_settings();
    let mut pages = tree.serialize_pages().unwrap();
    pages[0] = 77; // not a node tag
    let r = BTree::open(&metadata, &pages, &settings);
    assert!(matches!(r, Err(BTreeStoreError::CorruptedPage)));
}

#[test]
fn too_small_page_size_is_refused() {
    let r = BTree::new(16, 8);
    assert!(matches!(r, Err(BTreeStoreError::InvariantViolation)));
}

#[test]
fn insert_async_is_visible_before_checkpoint() {
    let tree = &mut new_tree();
    tree.insert_async(7, 70).unwrap();
    assert_eq!(tree.lookup(&7), Some(70));
    tree.checkpoint().unwrap();
    assert_eq!(tree.lookup(&7), Some(70));
}

#[test]
fn batch_with_repeated_key_is_refused_atomically() {
    let tree = &mut new_tree();
    tree.insert_one(1, 10).unwrap();
    let items: Vec<(u64, u64)> = vec![(2, 20), (3, 30), (2, 21)];
    let r = tree.insert_many(&items);
    assert!(matches!(r, Err(BTreeStoreError::DuplicatedKey)));
    // nothing of the batch became visible
    assert_eq!(tree.lookup(&2), None);
    assert_eq!(tree.lookup(&3), None);
    assert_eq!(tree.lookup(&1), Some(10));
}
