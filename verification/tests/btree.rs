use matt_db::btree::{BTree, BTreeError, ScanIterator};
use matt_db::buffer_pool::{BufferPool, ObjectID};
use matt_db::data_storage::storage::MemoryIO;
use matt_db::representations::page::{Leaf, NULL_PTR};
use matt_db::representations::tuple::TupleBuf;
use rand::seq::SliceRandom;

fn create_test_tree() -> (BTree<MemoryIO>, ObjectID) {
    let mut pool = BufferPool::new(MemoryIO::default(), 1000);
    let (object_id, root) = pool.new_object_root().unwrap();

    let root_ref = pool.get_page_ref(root).unwrap();
    let mut root_repr = Leaf::from_bytes(pool.page_content(&root_ref).to_vec());
    root_repr.init(root, NULL_PTR, NULL_PTR);
    pool.set_page_content(&root_ref, root_repr.0.into_bytes());
    pool.release(root_ref);

    (BTree::new(pool), object_id)
}

fn collect(scan: &mut ScanIterator, tree: &mut BTree<MemoryIO>) -> Vec<u32> {
    let mut out = Vec::new();
    while let Some(v) = scan.next(tree) {
        out.push(u32::from_be_bytes(v.try_into().unwrap()));
    }
    out
}

#[test]
fn test_tree_growth_and_scan() {
    let (mut tree, object_id) = create_test_tree();

    for i in 0..1u32 {
        let v = i.to_be_bytes();
        tree.insert_tuple(object_id, &TupleBuf::new(&v, &v)).unwrap();
    }

    let mut scan = tree.iter_scan(object_id, &0u32.to_be_bytes(), &500u32.to_be_bytes());
    while let Some(v) = scan.next(&mut tree) {
        println!("{}", u32::from_be_bytes(v.try_into().unwrap()))
    }
}

#[test]
fn one_tuple_is_scanned_back() {
    let (mut tree, object_id) = create_test_tree();
    let key = 7u32.to_be_bytes();
    tree.insert_tuple(object_id, &TupleBuf::new(&key, b"seven")).unwrap();

    let mut scan = tree.iter_scan(object_id, &0u32.to_be_bytes(), &500u32.to_be_bytes());
    assert_eq!(scan.next(&mut tree), Some(b"seven".to_vec()));
    assert_eq!(scan.next(&mut tree), None);
}

#[test]
fn scan_of_empty_tree_is_empty() {
    let (mut tree, object_id) = create_test_tree();
    let mut scan = tree.iter_scan(object_id, &0u32.to_be_bytes(), &500u32.to_be_bytes());
    assert_eq!(scan.next(&mut tree), None);
    assert_eq!(scan.next(&mut tree), None);
}

#[test]
fn shuffled_inserts_scan_in_key_order() {
    let (mut tree, object_id) = create_test_tree();
    let mut keys: Vec<u32> = (0..5000u32).collect();
    keys.shuffle(&mut rand::rng());
    for k in keys.iter() {
        let bytes = k.to_be_bytes();
        tree.insert_tuple(object_id, &TupleBuf::new(&bytes, &bytes)).unwrap();
    }

    let mut scan = tree.iter_scan(object_id, &0u32.to_be_bytes(), &4999u32.to_be_bytes());
    let scanned = collect(&mut scan, &mut tree);
    assert_eq!(scanned, (0..5000u32).collect::<Vec<_>>());
}

#[test]
fn scan_stops_at_end_key_and_starts_at_start_key() {
    let (mut tree, object_id) = create_test_tree();
    for k in (0..3000u32).rev() {
        let bytes = (2 * k).to_be_bytes();
        tree.insert_tuple(object_id, &TupleBuf::new(&bytes, &bytes)).unwrap();
    }

    // Keys are the even numbers below 6000; 1001 is not a key, 2000 is.
    let mut scan = tree.iter_scan(object_id, &1001u32.to_be_bytes(), &2000u32.to_be_bytes());
    let scanned = collect(&mut scan, &mut tree);
    assert_eq!(scanned, (501..=1000u32).map(|k| 2 * k).collect::<Vec<_>>());
}

#[test]
fn large_tuples_split_leaves() {
    let (mut tree, object_id) = create_test_tree();
    // Each tuple takes about a third of a page, so leaves split often.
    let value = vec![9u8; 2500];
    for k in 0..40u32 {
        let bytes = k.to_be_bytes();
        tree.insert_tuple(object_id, &TupleBuf::new(&bytes, &value)).unwrap();
    }
    let mut scan = tree.iter_scan(object_id, &0u32.to_be_bytes(), &39u32.to_be_bytes());
    let mut count = 0;
    while let Some(v) = scan.next(&mut tree) {
        assert_eq!(v, value);
        count += 1;
    }
    assert_eq!(count, 40);
}

#[test]
fn tuple_larger_than_a_page_is_refused() {
    let (mut tree, object_id) = create_test_tree();
    let value = vec![1u8; 9000];
    let key = 1u32.to_be_bytes();
    assert_eq!(
        tree.insert_tuple(object_id, &TupleBuf::new(&key, &value)),
        Err(BTreeError::TupleTooLarge)
    );
    let mut scan = tree.iter_scan(object_id, &0u32.to_be_bytes(), &5u32.to_be_bytes());
    assert_eq!(scan.next(&mut tree), None);
}

#[test]
fn each_inserted_key_is_found_by_a_point_scan() {
    let (mut tree, object_id) = create_test_tree();
    let mut keys: Vec<u32> = (0..2000u32).map(|k| k * 3).collect();
    keys.shuffle(&mut rand::rng());
    for k in keys.iter() {
        let key = k.to_be_bytes();
        let value = (k + 1).to_be_bytes();
        tree.insert_tuple(object_id, &TupleBuf::new(&key, &value)).unwrap();
        let mut scan = tree.iter_scan(object_id, &key, &key);
        assert_eq!(scan.next(&mut tree), Some(value.to_vec()));
        assert_eq!(scan.next(&mut tree), None);
    }
    for k in 0..2000u32 {
        let key = (k * 3).to_be_bytes();
        let mut scan = tree.iter_scan(object_id, &key, &key);
        assert_eq!(scan.next(&mut tree), Some((k * 3 + 1).to_be_bytes().to_vec()));
        let missing = (k * 3 + 1).to_be_bytes();
        let mut scan = tree.iter_scan(object_id, &missing, &missing);
        assert_eq!(scan.next(&mut tree), None);
    }
}

fn wide_key(k: u32) -> Vec<u8> {
    let mut key = vec![0u8; 196];
    key.extend_from_slice(&k.to_be_bytes());
    key
}

#[test]
fn wide_keys_split_nodes_and_stay_findable() {
    // Keys of 200 bytes fill inner nodes quickly, so nodes split too; each
    // separator then moves up out of both halves.
    let (mut tree, object_id) = create_test_tree();
    let mut keys: Vec<u32> = (0..3000u32).collect();
    keys.shuffle(&mut rand::rng());
    for k in keys.iter() {
        let key = wide_key(*k);
        tree.insert_tuple(object_id, &TupleBuf::new(&key, &k.to_be_bytes())).unwrap();
    }
    for k in 0..3000u32 {
        let key = wide_key(k);
        let mut scan = tree.iter_scan(object_id, &key, &key);
        assert_eq!(scan.next(&mut tree), Some(k.to_be_bytes().to_vec()), "key {}", k);
        assert_eq!(scan.next(&mut tree), None);
    }
    let mut scan = tree.iter_scan(object_id, &wide_key(0), &wide_key(2999));
    assert_eq!(collect(&mut scan, &mut tree), (0..3000u32).collect::<Vec<_>>());
}

#[test]
fn a_new_tuple_joins_the_scan_among_the_old_ones() {
    let (mut tree, object_id) = create_test_tree();
    for k in (0..3000u32).step_by(2) {
        let bytes = k.to_be_bytes();
        tree.insert_tuple(object_id, &TupleBuf::new(&bytes, &bytes)).unwrap();
    }
    let mut scan = tree.iter_scan(object_id, &0u32.to_be_bytes(), &u32::MAX.to_be_bytes());
    let before = collect(&mut scan, &mut tree);

    let new_key = 1001u32.to_be_bytes();
    tree.insert_tuple(object_id, &TupleBuf::new(&new_key, &new_key)).unwrap();
    let mut scan = tree.iter_scan(object_id, &0u32.to_be_bytes(), &u32::MAX.to_be_bytes());
    let after = collect(&mut scan, &mut tree);

    let mut expected = before.clone();
    let at = expected.iter().position(|&k| k > 1001).unwrap();
    expected.insert(at, 1001);
    assert_eq!(after, expected);
    assert_eq!(before.len(), 1500);
}
