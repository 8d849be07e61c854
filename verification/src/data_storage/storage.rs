//! Page stores: the trait the buffer pool reads and writes pages through,
//! and a store that keeps its pages in memory.
use vstd::prelude::*;

use std::collections::HashMap;

use crate::buffer_pool::{PageID, PAGE_SIZE};
use crate::representations::page::NULL_PTR;

verus! {

broadcast use vstd::std_specs::hash::group_hash_axioms;

/// `PAGE_SIZE` zero bytes.
pub open spec fn zero_page() -> Seq<u8> {
    Seq::new(PAGE_SIZE as nat, |i: int| 0u8)
}

/// A page store: reads and writes whole pages by id and allocates new ones.
///
/// Implementations keep what they are given: reading a page gives the bytes
/// last written to it, and a new page is zeroed under an id not used before.
pub trait DBReader {
    /// The pages the store holds, by id. A store that does not say holds none.
    open spec fn stored_pages(&self) -> Map<PageID, Seq<u8>> {
        Map::empty()
    }

    /// Overwrites the stored page `page_id` with `content`.
    fn write_page(&mut self, page_id: PageID, content: &[u8])
        requires
            old(self).stored_pages().contains_key(page_id),
            content@.len() == PAGE_SIZE,
        ensures
            final(self).stored_pages() == old(self).stored_pages().insert(page_id, content@),
    ;

    /// The bytes of the stored page `page_id`.
    fn read_page(&self, page_id: PageID) -> (r: Vec<u8>)
        requires
            self.stored_pages().contains_key(page_id),
        ensures
            r@ == self.stored_pages()[page_id],
            r@.len() == PAGE_SIZE,
    ;

    /// Allocates a zeroed page under a fresh id and returns the id, or `None`,
    /// changing nothing, when the store has no id left to hand out.
    ///
    /// A new id is never `NULL_PTR`, which marks a missing page link.
    fn new_page(&mut self) -> (r: Option<PageID>)
        ensures
            r matches Some(id) ==> {
                &&& !old(self).stored_pages().contains_key(id)
                &&& id != NULL_PTR
                &&& final(self).stored_pages() == old(self).stored_pages().insert(id, zero_page())
            },
            r is None ==> final(self).stored_pages() == old(self).stored_pages(),
    ;
}

/// A page store in memory. Its pages are numbered `1, 2, ...` in the order
/// they were allocated; ids run out one short of `NULL_PTR`.
#[derive(Debug)]
pub struct MemoryIO {
    pages: HashMap<PageID, Vec<u8>>,
}

impl MemoryIO {
    /// The store's pages hold `PAGE_SIZE` bytes each and are numbered from 1
    /// up to how many there are.
    #[verifier::type_invariant]
    spec fn wf(&self) -> bool {
        &&& forall|id: PageID| #[trigger] self.pages@.contains_key(id) ==> 1 <= id <= self.pages@.len()
        &&& forall|id: PageID|
            #[trigger] self.pages@.contains_key(id) ==> self.pages@[id]@.len() == PAGE_SIZE
    }
}

impl Default for MemoryIO {
    fn default() -> (r: Self)
        ensures
            r.stored_pages() == Map::<PageID, Seq<u8>>::empty(),
    {
        let r = MemoryIO { pages: HashMap::new() };
        assert(r.pages@.dom() =~= Set::<PageID>::empty());
        assert(r.stored_pages() =~= Map::<PageID, Seq<u8>>::empty());
        r
    }
}

/// A zeroed page.
fn zeroed_page() -> (r: Vec<u8>)
    ensures
        r@ == zero_page(),
{
    let mut v: Vec<u8> = Vec::with_capacity(PAGE_SIZE);
    let mut i: usize = 0;
    while i < PAGE_SIZE
        invariant
            0 <= i <= PAGE_SIZE,
            v@ == Seq::new(i as nat, |k: int| 0u8),
        decreases PAGE_SIZE - i,
    {
        v.push(0u8);
        i = i + 1;
        assert(v@ =~= Seq::new(i as nat, |k: int| 0u8));
    }
    v
}

impl DBReader for MemoryIO {
    closed spec fn stored_pages(&self) -> Map<PageID, Seq<u8>> {
        self.pages@.map_values(|v: Vec<u8>| v@)
    }

    /// Copies the stored page out.
    fn read_page(&self, page_id: PageID) -> (r: Vec<u8>) {
        proof {
            use_type_invariant(self);
        }
        match self.pages.get(&page_id) {
            Some(p) => p.clone(),
            None => zeroed_page(),
        }
    }

    /// Allocates the page numbered one past the number of pages.
    fn new_page(&mut self) -> (r: Option<PageID>)
        ensures
            r is None <==> old(self).stored_pages().len() >= NULL_PTR - 1,
            r matches Some(id) ==> id == old(self).stored_pages().len() + 1,
    {
        proof {
            use_type_invariant(&*self);
            assert(self.stored_pages().dom() =~= self.pages@.dom());
        }
        let len = self.pages.len();
        if len >= (NULL_PTR - 1) as usize {
            return None;
        }
        let new_id = len as u32 + 1;
        let mut pages: HashMap<PageID, Vec<u8>> = HashMap::new();
        std::mem::swap(&mut pages, &mut self.pages);
        let ghost before = pages@;
        pages.insert(new_id, zeroed_page());
        proof {
            assert(!before.contains_key(new_id));
            assert(pages@.dom() =~= before.dom().insert(new_id));
        }
        self.pages = pages;
        proof {
            assert(self.stored_pages() =~= old(self).stored_pages().insert(new_id, zero_page()));
        }
        Some(new_id)
    }

    /// Stores a copy of `content` as page `page_id`.
    fn write_page(&mut self, page_id: PageID, content: &[u8]) {
        proof {
            use_type_invariant(&*self);
        }
        let mut pages: HashMap<PageID, Vec<u8>> = HashMap::new();
        std::mem::swap(&mut pages, &mut self.pages);
        let ghost before = pages@;
        pages.insert(page_id, crate::representations::tuple::slice_to_vec(content));
        proof {
            assert(pages@.dom() =~= before.dom());
        }
        self.pages = pages;
        proof {
            assert(self.stored_pages() =~= old(self).stored_pages().insert(page_id, content@));
        }
    }
}

} // verus!
