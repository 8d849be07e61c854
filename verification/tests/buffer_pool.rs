use matt_db::buffer_pool::{BufferPool, EvictManager, PageID, PAGE_SIZE};
use matt_db::data_storage::storage::{DBReader, MemoryIO};

struct MockReader;

impl MockReader {
    fn new() -> Self {
        Self {}
    }
}

impl DBReader for MockReader {
    fn write_page(&mut self, _page_id: PageID, _content: &[u8]) {
        // Definitely wrote a page here
    }

    fn read_page(&self, _page_id: PageID) -> Vec<u8> {
        // Definitely read a real page here, really
        vec![0u8; PAGE_SIZE]
    }

    fn new_page(&mut self) -> Option<PageID> {
        panic!("the mock store does not allocate pages")
    }
}

#[test]
fn test_evict_manager() {
    let mut evict = EvictManager::new(0);

    // Test add and pop
    evict.add_to_queue(1);
    assert_eq!(evict.victim(), Some(1));

    // Test now free frames are empty => None
    assert_eq!(evict.victim(), None);

    // Test add, add, pop
    evict.add_to_queue(0);
    evict.add_to_queue(5);
    assert_eq!(evict.victim(), Some(0));

    // Add 7, remove 5
    evict.add_to_queue(7);
    evict.remove_from_queue(5);
    assert_eq!(evict.victim(), Some(7));

    // Test popping off of queue again
    let mut evict = EvictManager::new(2);
    assert_eq!(evict.victim(), Some(1));
    assert_eq!(evict.victim(), Some(0));
    assert_eq!(evict.victim(), None);
}

#[test]
fn test_buffer_pool() {
    let mut pool = BufferPool::new(MockReader::new(), 1);

    // Create new ref
    let page_ref = pool.get_page_ref(0).unwrap();
    assert_eq!(pool.page_of(&page_ref).page_id(), Some(0));

    // Use created frame
    let page_ref2 = pool.get_page_ref(0).unwrap();
    assert_eq!(pool.page_of(&page_ref2).page_id(), Some(0));

    // Try to pull new pool in -> error! No frames left
    assert!(pool.get_page_ref(1).is_err());

    // Even if we try to drop one ref, the other still is pinned:
    pool.release(page_ref);
    assert!(pool.get_page_ref(1).is_err());

    // After unpinning both we are good to bring new page into memory
    pool.release(page_ref2);
    assert!(pool.get_page_ref(1).is_ok());
}

#[test]
fn adding_a_queued_frame_twice_queues_it_once() {
    let mut evict = EvictManager::new(0);
    evict.add_to_queue(3);
    evict.add_to_queue(3);
    assert_eq!(evict.victim(), Some(3));
    assert_eq!(evict.victim(), None);
}

#[test]
fn memory_store_reads_back_writes() {
    let mut store = MemoryIO::default();
    let a = store.new_page().unwrap();
    let b = store.new_page().unwrap();
    assert_eq!((a, b), (1, 2));
    assert_eq!(store.read_page(a), vec![0u8; PAGE_SIZE]);
    let mut content = vec![0u8; PAGE_SIZE];
    content[0] = 42;
    store.write_page(b, &content);
    assert_eq!(store.read_page(b), content);
    assert_eq!(store.read_page(a), vec![0u8; PAGE_SIZE]);
}

#[test]
fn evicted_changes_are_read_back() {
    let mut pool = BufferPool::new(MemoryIO::default(), 1);
    let first = pool.new_page().unwrap();
    let first_id = first.id();
    let mut content = vec![0u8; PAGE_SIZE];
    content[10] = 7;
    pool.set_page_content(&first, content.clone());
    pool.release(first);

    // A second page takes the only frame, writing the first one back.
    let second = pool.new_page().unwrap();
    assert_ne!(second.id(), first_id);
    assert_eq!(pool.page_content(&second), &vec![0u8; PAGE_SIZE][..]);
    pool.release(second);

    // Reading the first page again gives the bytes written to it.
    let again = pool.get_page_ref(first_id).unwrap();
    assert_eq!(pool.page_content(&again), &content[..]);
    assert!(!pool.page_of(&again).is_dirty());
    assert_eq!(pool.page_of(&again).pins(), 1);
}

#[test]
fn object_roots_are_recorded() {
    let mut pool = BufferPool::new(MemoryIO::default(), 2);
    let (object, root) = pool.new_object_root().unwrap();
    assert_eq!(object, 0);
    assert_eq!(pool.get_object_root(object), root);
    pool.update_object_root(object, 99);
    assert_eq!(pool.get_object_root(object), 99);
}

/// A store that reads zeroed pages and logs the ids it is asked to write.
struct LoggingStore {
    written: std::rc::Rc<std::cell::RefCell<Vec<PageID>>>,
}

impl DBReader for LoggingStore {
    fn write_page(&mut self, page_id: PageID, _content: &[u8]) {
        self.written.borrow_mut().push(page_id);
    }

    fn read_page(&self, _page_id: PageID) -> Vec<u8> {
        vec![0u8; PAGE_SIZE]
    }

    fn new_page(&mut self) -> Option<PageID> {
        None
    }
}

#[test]
fn frames_are_reused_in_the_order_they_were_unpinned() {
    let written = std::rc::Rc::new(std::cell::RefCell::new(Vec::new()));
    let mut pool = BufferPool::new(LoggingStore { written: written.clone() }, 2);

    let one = pool.get_page_ref(1).unwrap();
    let two = pool.get_page_ref(2).unwrap();
    pool.set_page_content(&one, vec![1u8; PAGE_SIZE]);
    pool.set_page_content(&two, vec![2u8; PAGE_SIZE]);
    assert!(pool.page_of(&one).is_dirty());
    // Page 2 is unpinned first, so its frame goes first.
    pool.release(two);
    pool.release(one);
    assert!(written.borrow().is_empty());

    let three = pool.get_page_ref(3).unwrap();
    assert_eq!(*written.borrow(), vec![2]);
    assert!(!pool.page_of(&three).is_dirty());
    assert_eq!(pool.page_of(&three).page_id(), Some(3));
    pool.release(three);

    let four = pool.get_page_ref(4).unwrap();
    assert_eq!(*written.borrow(), vec![2, 1]);
    pool.release(four);

    // A clean page is not written back when its frame is reused.
    let five = pool.get_page_ref(5).unwrap();
    assert_eq!(*written.borrow(), vec![2, 1]);
    pool.release(five);
}
