use matt_db::buffer_pool::PAGE_SIZE;
use matt_db::representations::page::{HeaderElem, Leaf, PageType, HEADER_SIZE, NULL_PTR};
use matt_db::representations::tuple::{Key, TupleBuf};
use rand::seq::SliceRandom;

#[test]
fn test_page_split() {
    let mut page = Leaf::from_bytes(vec![0u8; PAGE_SIZE]);
    page.init(1, NULL_PTR, NULL_PTR);

    for i in 0..50u32 {
        let bytes = i.to_be_bytes();
        let t = TupleBuf::new(&bytes, &bytes);
        page.0.insert(&t).unwrap();
    }

    for i in 51..100u32 {
        let bytes = i.to_be_bytes();
        let t = TupleBuf::new(&bytes, &bytes);
        page.0.insert(&t).unwrap();
    }

    let bytes = 50u32.to_be_bytes();
    let t = TupleBuf::new(&bytes, &bytes);
    let (middle, right) = page.0.split_half(&t);

    assert_eq!(t, middle);

    let bytes = 51u32.to_be_bytes();
    let t = TupleBuf::new(&bytes, &bytes);
    assert_eq!(*right.get(0).unwrap(), t);
}

#[test]
fn test_page_insert_delete() {
    let mut page = Leaf::from_bytes(vec![0u8; PAGE_SIZE]);
    page.init(1, NULL_PTR, NULL_PTR);

    // insert 100 random tuples where key = value
    let mut idxs: Vec<u32> = (0..100u32).collect();
    idxs.shuffle(&mut rand::rng());
    for i in &idxs {
        let bytes = i.to_be_bytes();
        let t = TupleBuf::new(&bytes, &bytes);
        page.0.insert(&t).unwrap();
    }

    // check that we are in order
    for i in 0..100usize {
        let t = page.tuple(i).unwrap();
        let k = u32::from_be_bytes(t.key().bytes().try_into().unwrap());
        assert_eq!(i, k as usize)
    }

    // delete in arbitrary order
    for i in &idxs {
        let bytes = i.to_be_bytes();
        page.0.delete(&bytes).unwrap();
    }

    // cleanup and check we have restored space
    page.0.collapse();
    assert_eq!(
        PAGE_SIZE - HEADER_SIZE,
        page.get_header(&HeaderElem::ContFreeSpace) as usize
    )
}

#[test]
fn partition_lands_after_equal_keys() {
    let mut page = Leaf::from_bytes(vec![0u8; PAGE_SIZE]);
    page.init(2, NULL_PTR, NULL_PTR);
    for k in [3u8, 5, 5, 7] {
        page.0.insert(&TupleBuf::new(&[k], &[])).unwrap();
    }
    assert_eq!(page.find_partition(&[2]), 0);
    assert_eq!(page.find_partition(&[5]), 3);
    assert_eq!(page.find_partition(&[9]), 4);
    assert!(page.find_key(&[5]).is_some());
    assert_eq!(page.find_key(&[4]), None);
}

#[test]
fn insert_fails_when_the_page_is_full() {
    let mut page = Leaf::from_bytes(vec![0u8; PAGE_SIZE]);
    page.init(3, NULL_PTR, NULL_PTR);
    let big = vec![1u8; 4000];
    assert!(page.0.insert(&TupleBuf::new(&[1], &big)).is_ok());
    assert!(page.0.insert(&TupleBuf::new(&[2], &big)).is_ok());
    assert!(page.0.insert(&TupleBuf::new(&[3], &big)).is_err());
}

#[test]
fn delete_of_a_missing_key_reports_it() {
    let mut page = Leaf::from_bytes(vec![0u8; PAGE_SIZE]);
    page.init(4, NULL_PTR, NULL_PTR);
    match page.0.delete(&[1, 2]) {
        Err(matt_db::representations::page::PageReadWriteError::KeyNotFound(msg)) => {
            assert_eq!(msg, "[1, 2]")
        }
        _ => panic!("expected KeyNotFound"),
    }
}

#[test]
fn deleted_space_is_reused_after_collapse() {
    let mut page = Leaf::from_bytes(vec![0u8; PAGE_SIZE]);
    page.init(5, NULL_PTR, NULL_PTR);
    let big = vec![1u8; 4000];
    page.0.insert(&TupleBuf::new(&[1], &big)).unwrap();
    page.0.insert(&TupleBuf::new(&[2], &big)).unwrap();
    page.0.delete(&[1]).unwrap();
    // Fits only once the deleted tuple's fragment is reclaimed.
    page.0.insert(&TupleBuf::new(&[3], &big)).unwrap();
    assert_eq!(page.get_header(&HeaderElem::ItemCount), 2);
    assert_eq!(page.tuple(0).unwrap().key().bytes(), &[2]);
    assert_eq!(page.tuple(1).unwrap().key().bytes(), &[3]);
}

#[test]
fn init_sets_the_header() {
    let mut page = Leaf::from_bytes(vec![0u8; PAGE_SIZE]);
    page.init(9, 15, 66);
    assert_eq!(page.get_header(&HeaderElem::PageID), 9);
    assert_eq!(
        PageType::new(page.get_header(&HeaderElem::PageType)).unwrap(),
        PageType::Leaf
    );
    assert_eq!(page.get_header(&HeaderElem::LeftSiblingPtr), 15);
    assert_eq!(page.get_header(&HeaderElem::RightSiblingPtr), 66);
    assert_eq!(page.get_header(&HeaderElem::LeftChildPtr), NULL_PTR);
    assert_eq!(page.percent_full(), 0);
}

#[test]
fn free_space_fields_follow_inserts_deletes_and_collapse() {
    let mut page = Leaf::from_bytes(vec![0u8; PAGE_SIZE]);
    page.init(5, NULL_PTR, NULL_PTR);
    let big = vec![1u8; 4000];
    page.0.insert(&TupleBuf::new(&[1], &big)).unwrap();
    page.0.insert(&TupleBuf::new(&[2], &big)).unwrap();
    // Each tuple takes 4005 bytes and a 2-byte slot.
    let cont = (PAGE_SIZE - HEADER_SIZE - 2 * 4007) as u32;
    assert_eq!(page.get_header(&HeaderElem::ContFreeSpace), cont);
    assert_eq!(page.get_header(&HeaderElem::TotalFreeSpace), cont);
    assert_eq!(page.get_header(&HeaderElem::FreeSpacePtr), (PAGE_SIZE - 2 * 4005) as u32);

    // A delete frees total space only; the contiguous space and the free
    // space pointer stay.
    page.0.delete(&[1]).unwrap();
    assert_eq!(page.get_header(&HeaderElem::ContFreeSpace), cont);
    assert_eq!(page.get_header(&HeaderElem::TotalFreeSpace), cont + 4007);
    assert_eq!(page.get_header(&HeaderElem::FreeSpacePtr), (PAGE_SIZE - 2 * 4005) as u32);

    // Collapsing gathers the free space below the one tuple left.
    page.0.collapse();
    assert_eq!(page.get_header(&HeaderElem::ContFreeSpace), cont + 4007);
    assert_eq!(page.get_header(&HeaderElem::TotalFreeSpace), cont + 4007);
    assert_eq!(page.get_header(&HeaderElem::FreeSpacePtr), (PAGE_SIZE - 4005) as u32);

    // An insert that needs the collapsed space takes it from the total.
    page.0.delete(&[2]).unwrap();
    page.0.insert(&TupleBuf::new(&[3], &big)).unwrap();
    page.0.insert(&TupleBuf::new(&[4], &big)).unwrap();
    assert_eq!(page.get_header(&HeaderElem::ContFreeSpace), cont);
    assert_eq!(page.get_header(&HeaderElem::FreeSpacePtr), (PAGE_SIZE - 2 * 4005) as u32);
}

#[test]
fn init_leaves_the_data_area_alone() {
    let mut page = Leaf::from_bytes(vec![0x5au8; PAGE_SIZE]);
    page.init(3, NULL_PTR, NULL_PTR);
    let bytes = page.0.into_bytes();
    assert!(bytes[HEADER_SIZE..].iter().all(|b| *b == 0x5a));
}

#[test]
fn owned_key_gets_a_size_field_of_its_own() {
    let key = Key(vec![1, 2]);
    let owned = key.to_owned();
    assert_eq!(owned.key().0, vec![0, 4, 1, 2]);
}

#[test]
fn missing_key_is_reported_in_decimal() {
    let mut page = Leaf::from_bytes(vec![0u8; PAGE_SIZE]);
    page.init(4, NULL_PTR, NULL_PTR);
    match page.0.delete(&[255, 0, 10]) {
        Err(matt_db::representations::page::PageReadWriteError::KeyNotFound(msg)) => {
            assert_eq!(msg, "[255, 0, 10]")
        }
        _ => panic!("expected KeyNotFound"),
    }
}

#[test]
fn percent_full_counts_hundredths_of_the_free_space() {
    let mut page = Leaf::from_bytes(vec![0u8; PAGE_SIZE]);
    page.init(3, NULL_PTR, NULL_PTR);
    page.0.set_header(&HeaderElem::ContFreeSpace, 4076);
    assert_eq!(page.0.percent_full(), 50);
    page.0.set_header(&HeaderElem::ContFreeSpace, 8200);
    assert_eq!(page.0.percent_full(), 0);
    page.0.set_header(&HeaderElem::ContFreeSpace, 0);
    assert_eq!(page.0.percent_full(), 100);
}

#[test]
fn last_commit_survives_inserts_and_deletes_but_not_a_rebuild() {
    let mut page = Leaf::from_bytes(vec![0u8; PAGE_SIZE]);
    page.init(4, NULL_PTR, NULL_PTR);
    page.0.set_header(&HeaderElem::LastCommit, 7);
    page.0.insert(&TupleBuf::new(&[1], &[1])).unwrap();
    page.0.insert(&TupleBuf::new(&[2], &[2])).unwrap();
    page.0.delete(&[1]).unwrap();
    assert_eq!(page.0.get_header(&HeaderElem::LastCommit), 7);
    page.0.collapse();
    assert_eq!(page.0.get_header(&HeaderElem::LastCommit), 0);
    assert_eq!(
        page.0.get_header(&HeaderElem::ContFreeSpace),
        page.0.get_header(&HeaderElem::TotalFreeSpace)
    );
}
