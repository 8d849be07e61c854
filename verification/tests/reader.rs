use matt_db::buffer_pool::PAGE_SIZE;
use matt_db::reader::{
    HeaderElem, Page, PageReader, PageType, PageWriteError, PageWriter, Tuple, TupleBuf,
};
use matt_db::serialization::{DataType, DataValue, Serializer};

fn empty_leaf() -> Page {
    let mut page = Page::from_bytes(vec![0u8; PAGE_SIZE]);
    page.init(1, PageType::Leaf, 15, 66);
    page
}

#[test]
fn new_page() {
    let page = empty_leaf();

    assert_eq!(1, page.get_header(HeaderElem::PageID));
    assert_eq!(
        PageType::Leaf,
        PageType::new(page.get_header(HeaderElem::PageType))
    );
}

#[test]
fn init_sets_every_header_field_but_last_commit() {
    let mut page = Page::from_bytes(vec![0xaau8; PAGE_SIZE]);
    page.init(7, PageType::Node, 3, 4);
    assert_eq!(page.get_header(HeaderElem::PageID), 7);
    assert_eq!(page.get_header(HeaderElem::PageType), 0);
    assert_eq!(page.get_header(HeaderElem::FreeSpace), (PAGE_SIZE - 32) as u32);
    assert_eq!(page.get_header(HeaderElem::LastCommit), 0xaaaa_aaaa);
    assert_eq!(page.get_header(HeaderElem::ItemCount), 0);
    assert_eq!(page.get_header(HeaderElem::LeftPtr), 3);
    assert_eq!(page.get_header(HeaderElem::RightPtr), 4);
    assert_eq!(page.get_header(HeaderElem::FreeSpacePtr), PAGE_SIZE as u32);
    let bytes = page.into_bytes();
    assert_eq!(&bytes[12..16], &[0xaa, 0xaa, 0xaa, 0xaa]);
    assert_eq!(bytes[32], 0xaa);
}

#[test]
fn page_type_numbers() {
    assert_eq!(PageType::Node.id(), 0);
    assert_eq!(PageType::Leaf.id(), 1);
    assert_eq!(PageType::new(0), PageType::Node);
    assert_eq!(PageType::new(1), PageType::Leaf);
}

#[test]
fn tuple_fields_read_back() {
    let buf = TupleBuf::new(b"key", b"value!");
    let t: &Tuple = &buf;
    assert_eq!(t.size(), 13);
    assert_eq!(t.key_size(), 3);
    assert_eq!(t.key(), b"key");
    assert_eq!(t.value(), b"value!");
    assert_eq!(t.len(), 13);
    assert_eq!(buf.tuple.0, vec![0, 13, 0, 3, b'k', b'e', b'y', b'v', b'a', b'l', b'u', b'e', b'!']);
}

#[test]
fn tuple_insert() {
    let mut page = empty_leaf();

    // Insert tuple 1
    let key = Serializer::serialize_single(&DataType::Int, &DataValue::Int(5)).unwrap();
    let value = Serializer::serialize_single(&DataType::Int, &DataValue::Int(15)).unwrap();
    let tuple = TupleBuf::new(&key, &value);
    assert!(page.insert(&tuple).is_ok());

    // Assert looks good
    let ret_tuple = page.tuple_at(0).unwrap();
    assert_eq!(*tuple, ret_tuple);

    // Insert tuple 2; should go before 1
    let key = Serializer::serialize_single(&DataType::Int, &DataValue::Int(3)).unwrap();
    let value = Serializer::serialize_single(&DataType::Int, &DataValue::Int(15)).unwrap();
    let tuple = TupleBuf::new(&key, &value);
    assert!(page.insert(&tuple).is_ok());

    // Assert looks good
    let ret_tuple = page.tuple_at(0).unwrap();
    assert_eq!(*tuple, ret_tuple)
}

#[test]
fn first_insert_reads_back_at_slot_zero() {
    let mut page = empty_leaf();
    let key = Serializer::serialize_single(&DataType::Int, &DataValue::Int(5)).unwrap();
    let value = Serializer::serialize_single(&DataType::Int, &DataValue::Int(15)).unwrap();
    let tuple = TupleBuf::new(&key, &value);
    assert!(page.insert(&tuple).is_ok());

    let ret_tuple = page.tuple_at(0).unwrap();
    assert_eq!(*tuple, ret_tuple);
    assert_eq!(page.get_header(HeaderElem::ItemCount), 1);
    assert_eq!(page.get_header(HeaderElem::FreeSpacePtr), (PAGE_SIZE - 12) as u32);
    assert_eq!(page.get_header(HeaderElem::FreeSpace), (PAGE_SIZE - 32 - 12) as u32);
    assert_eq!(page.get_tuple_ptr(0), Some(PAGE_SIZE - 12));
    assert_eq!(page.get_slot_ptr(3), Some(38));
    assert_eq!(page.get_tuple_ptr(2), None);
}

#[test]
fn insert_without_room_is_refused_and_changes_nothing() {
    let mut page = empty_leaf();
    page.set_header(HeaderElem::FreeSpace, 10);
    let tuple = TupleBuf::new(b"abcd", b"efgh");
    assert_eq!(page.insert(&tuple), Err(PageWriteError::OutOfSpace));
    assert_eq!(page.get_header(HeaderElem::ItemCount), 0);
    assert_eq!(page.get_header(HeaderElem::FreeSpacePtr), PAGE_SIZE as u32);
}

#[test]
fn write_slot_at_moves_later_slots_up() {
    let mut page = empty_leaf();
    page.write_slot_at(0, 0x1111);
    page.set_header(HeaderElem::ItemCount, 1);
    page.write_slot_at(0, 0x2222);
    page.set_header(HeaderElem::ItemCount, 2);
    page.write_slot_at(1, 0x3333);
    let bytes = page.into_bytes();
    assert_eq!(&bytes[32..38], &[0x22, 0x22, 0x33, 0x33, 0x11, 0x11]);
}

/// A page whose slots point at tuples with keys `a`, `c`, `e`.
fn three_key_page() -> Page {
    let mut bytes = vec![0u8; PAGE_SIZE];
    let offsets = [0x1010usize, 0x1111, 0x1212];
    let keys: [&[u8]; 3] = [b"a", b"c", b"e"];
    for (i, (off, key)) in offsets.iter().zip(keys.iter()).enumerate() {
        let t = TupleBuf::new(key, &[i as u8]);
        bytes[*off..*off + t.tuple.0.len()].copy_from_slice(&t.tuple.0);
        bytes[32 + 2 * i] = (*off >> 8) as u8;
        bytes[33 + 2 * i] = (*off & 0xff) as u8;
    }
    let mut page = Page::from_bytes(bytes);
    page.set_header(HeaderElem::ItemCount, 3);
    page
}

#[test]
fn searches_go_through_the_slots() {
    let page = three_key_page();
    assert_eq!(page.pointers(), vec![0x1010, 0x1111, 0x1212]);
    assert_eq!(page.search_key(b"c"), Some(1));
    assert_eq!(page.search_key(b"e"), Some(2));
    assert_eq!(page.search_key(b"b"), None);
    assert_eq!(page.search_partition(b"0"), 0);
    assert_eq!(page.search_partition(b"a"), 0);
    assert_eq!(page.search_partition(b"b"), 1);
    assert_eq!(page.search_partition(b"d"), 2);
    assert_eq!(page.search_partition(b"z"), 3);
    assert_eq!(page.tuple_at(2).unwrap().value(), &[2u8]);
}

#[test]
fn slots_read_big_endian() {
    let mut page = empty_leaf();
    page.set_header(HeaderElem::ItemCount, 1);
    let mut bytes = page.into_bytes();
    bytes[32] = 0x01;
    bytes[33] = 0x02;
    let page = Page::from_bytes(bytes);
    assert_eq!(page.pointers(), vec![0x0102]);
    assert_eq!(page.slots_in_order(), vec![0x0102]);
}

#[test]
fn find_child_walks_entries_from_the_page_start() {
    // Entries [id: u64 | len: u16 | key] from offset 0. The first key spans
    // the item count field (bytes 16..20), which reads 3.
    let first_key: Vec<u8> = vec![b'b', 0, 0, 0, 0, 0, 0, 0, 0, 3, 0, 0];
    let mut bytes = vec![0u8; 64];
    let mut at = 0;
    for (id, key) in [(10u64, first_key.as_slice()), (20, &b"d"[..]), (30, &b"f"[..])] {
        bytes[at..at + 8].copy_from_slice(&id.to_be_bytes());
        bytes[at + 8..at + 10].copy_from_slice(&(key.len() as u16).to_be_bytes());
        bytes[at + 10..at + 10 + key.len()].copy_from_slice(key);
        at += 10 + key.len();
    }
    let mut page = Page::from_bytes(bytes);
    assert_eq!(page.get_header(HeaderElem::ItemCount), 3);
    assert_eq!(page.find_child(b"a"), 10);
    assert_eq!(page.find_child(b"c"), 20);
    assert_eq!(page.find_child(b"e"), 30);
    assert_eq!(page.find_child(b"z"), 30);
    // With no items the walk stops at the first entry.
    page.set_header(HeaderElem::ItemCount, 0);
    assert_eq!(page.find_child(b"z"), 10);
}
