//! The buffer pool: a fixed set of in-memory frames caching pages of a page store.
//!
//! The rest of the engine never talks to the page store directly: it asks the
//! pool for a page, which is pinned in a frame until its reference is released.
//! A frame whose page is unpinned may be reused for another page; if its page
//! was changed, it is written back to the store first.
use vstd::prelude::*;

use std::collections::{HashMap, VecDeque};

use crate::data_storage::storage::{zero_page, DBReader};
use crate::representations::page::NULL_PTR;

verus! {

broadcast use vstd::std_specs::hash::group_hash_axioms;

/// Size of every page, in bytes.
pub const PAGE_SIZE: usize = 8192;

/// Identifies a page in the page store.
pub type PageID = u32;

/// Index of a frame of the buffer pool.
pub type Frame = usize;

/// Identifies an object (a B-tree) whose root page the pool records.
pub type ObjectID = usize;

/// A frame of the buffer pool.
#[derive(Debug)]
pub struct Page {
    page_id: Option<PageID>,
    content: Vec<u8>,
    pins: u64,
    is_dirty: bool,
}

/// What a frame holds.
pub struct FrameView {
    pub page_id: Option<PageID>,
    pub content: Seq<u8>,
    pub pins: u64,
    pub dirty: bool,
}

impl View for Page {
    type V = FrameView;

    closed spec fn view(&self) -> FrameView {
        FrameView {
            page_id: self.page_id,
            content: self.content@,
            pins: self.pins,
            dirty: self.is_dirty,
        }
    }
}

impl Default for Page {
    fn default() -> (r: Self)
        ensures
            r@ == (FrameView { page_id: None, content: zero_page(), pins: 0, dirty: false }),
    {
        Page { page_id: None, content: zeroed_content(), pins: 0, is_dirty: false }
    }
}

/// A zeroed page.
fn zeroed_content() -> (r: Vec<u8>)
    ensures
        r@ == zero_page(),
{
    let mut v: Vec<u8> = Vec::with_capacity(PAGE_SIZE);
    let mut i: usize = 0;
    while i < PAGE_SIZE
        invariant
            0 <= i <= PAGE_SIZE,
            v@ == Seq::new(i as nat, |k: int| 0u8),
        decreases PAGE_SIZE - i,
    {
        v.push(0u8);
        i = i + 1;
        assert(v@ =~= Seq::new(i as nat, |k: int| 0u8));
    }
    v
}

impl Page {
    /// The page held in the frame, if any.
    pub fn page_id(&self) -> (r: Option<PageID>)
        ensures
            r == self@.page_id,
    {
        self.page_id
    }

    /// The frame's bytes.
    pub fn content(&self) -> (r: &[u8])
        ensures
            r@ == self@.content,
    {
        self.content.as_slice()
    }

    /// How many references pin the frame.
    pub fn pins(&self) -> (r: u64)
        ensures
            r == self@.pins,
    {
        self.pins
    }

    /// Whether the frame changed since its page was read.
    pub fn is_dirty(&self) -> (r: bool)
        ensures
            r == self@.dirty,
    {
        self.is_dirty
    }

    /// Puts page `page_id`, with bytes `content`, in the frame: clean and pinned once.
    fn load_new(&mut self, page_id: PageID, content: Vec<u8>)
        ensures
            final(self)@ == (FrameView {
                page_id: Some(page_id),
                content: content@,
                pins: 1,
                dirty: false,
            }),
    {
        self.content = content;
        self.page_id = Some(page_id);
        self.is_dirty = false;
        self.pins = 1;
    }
}

/// A pinned page: the pool keeps it in its frame until the reference is released.
#[derive(Debug)]
pub struct PageRef {
    page_id: PageID,
}

impl PageRef {
    /// The page referred to.
    pub closed spec fn spec_id(&self) -> PageID {
        self.page_id
    }

    /// The page referred to.
    pub fn id(&self) -> (r: PageID)
        ensures
            r == self.spec_id(),
    {
        self.page_id
    }
}

/// Picks the frames to reuse: unused frames first, then unpinned frames in
/// the order they were unpinned.
#[derive(Debug)]
pub struct EvictManager {
    /// Queue of frames to evict.
    evict_queue: VecDeque<Frame>,
    /// Stack of unused frames.
    unused_frames: Vec<Frame>,
}

impl EvictManager {
    /// The frames waiting for eviction, oldest first.
    pub closed spec fn queue(&self) -> Seq<Frame> {
        self.evict_queue@
    }

    /// The unused frames; the last is taken first.
    pub closed spec fn unused(&self) -> Seq<Frame> {
        self.unused_frames@
    }

    /// A manager for `size` frames, all unused.
    pub fn new(size: usize) -> (r: Self)
        ensures
            r.queue() == Seq::<Frame>::empty(),
            r.unused() == Seq::new(size as nat, |i: int| i as Frame),
    {
        let mut unused_frames: Vec<Frame> = Vec::with_capacity(size);
        let mut i: usize = 0;
        while i < size
            invariant
                0 <= i <= size,
                unused_frames@ == Seq::new(i as nat, |k: int| k as Frame),
            decreases size - i,
        {
            unused_frames.push(i);
            i = i + 1;
            assert(unused_frames@ =~= Seq::new(i as nat, |k: int| k as Frame));
        }
        EvictManager { evict_queue: VecDeque::new(), unused_frames }
    }

    /// Whether `frame` waits for eviction.
    fn queue_contains(&self, frame: Frame) -> (r: bool)
        ensures
            r == self.queue().contains(frame),
    {
        let mut i: usize = 0;
        while i < self.evict_queue.len()
            invariant
                0 <= i <= self.queue().len(),
                forall|j: int| 0 <= j < i ==> self.queue()[j] != frame,
            decreases self.queue().len() - i,
        {
            if self.evict_queue[i] == frame {
                return true;
            }
            i = i + 1;
        }
        false
    }

    /// Queues `frame` for eviction, unless it is queued already.
    pub fn add_to_queue(&mut self, frame: Frame)
        ensures
            final(self).unused() == old(self).unused(),
            final(self).queue() == if old(self).queue().contains(frame) {
                old(self).queue()
            } else {
                old(self).queue().push(frame)
            },
    {
        if !self.queue_contains(frame) {
            self.evict_queue.push_back(frame);
        }
    }

    /// Takes the first occurrence of `frame` out of the eviction queue.
    pub fn remove_from_queue(&mut self, frame: Frame)
        ensures
            final(self).unused() == old(self).unused(),
            !old(self).queue().contains(frame) ==> final(self).queue() == old(self).queue(),
            old(self).queue().contains(frame) ==> exists|i: int|
                0 <= i < old(self).queue().len() && old(self).queue()[i] == frame && (forall|j: int|
                    0 <= j < i ==> old(self).queue()[j] != frame) && final(self).queue() == old(
                    self,
                ).queue().remove(i),
    {
        let mut i: usize = 0;
        while i < self.evict_queue.len()
            invariant
                0 <= i <= self.queue().len(),
                self.queue() == old(self).queue(),
                self.unused() == old(self).unused(),
                forall|j: int| 0 <= j < i ==> self.queue()[j] != frame,
            decreases self.queue().len() - i,
        {
            if self.evict_queue[i] == frame {
                self.evict_queue.remove(i);
                return;
            }
            i = i + 1;
        }
    }

    /// The frame to use next: the last unused frame, else the frame queued
    /// longest; `None` when there is neither.
    pub fn victim(&mut self) -> (r: Option<Frame>)
        ensures
            old(self).unused().len() > 0 ==> {
                &&& r == Some(old(self).unused().last())
                &&& final(self).unused() == old(self).unused().drop_last()
                &&& final(self).queue() == old(self).queue()
            },
            old(self).unused().len() == 0 && old(self).queue().len() > 0 ==> {
                &&& r == Some(old(self).queue()[0])
                &&& final(self).unused() == old(self).unused()
                &&& final(self).queue() == old(self).queue().drop_first()
            },
            old(self).unused().len() == 0 && old(self).queue().len() == 0 ==> {
                &&& r is None
                &&& final(self).unused() == old(self).unused()
                &&& final(self).queue() == old(self).queue()
            },
    {
        if let Some(frame) = self.unused_frames.pop() {
            return Some(frame);
        }
        let r = self.evict_queue.pop_front();
        assert(self.queue() =~= old(self).queue().drop_first() || self.queue() == old(self).queue());
        r
    }
}

/// Errors of the buffer pool.
#[derive(Debug, PartialEq)]
pub enum BufferPoolError {
    /// No frames available in buffer.
    NoFreeFrames,
    /// The page store has no page id left to allocate.
    StoreFull,
}

/// The frame cache over a page store.
///
/// Every frame either holds no page (and is unused) or holds one page, which
/// the page table maps to it. A frame whose page is not pinned waits in the
/// eviction queue. A clean frame holds the same bytes as the store.
#[derive(Debug)]
pub struct BufferPool<R: DBReader> {
    /// The frames; their number never changes.
    pages: Vec<Page>,
    /// Mapping from page id to frame.
    page_table: HashMap<PageID, Frame>,
    /// Picks frames to reuse.
    evict_manager: EvictManager,
    /// The page store.
    disk_io: R,
    /// The root page of each object.
    object_roots: Vec<PageID>,
}

impl<R: DBReader> BufferPool<R> {
    /// What each frame holds.
    pub closed spec fn frames(&self) -> Seq<FrameView> {
        self.pages@.map_values(|p: Page| p@)
    }

    /// The frame of each cached page.
    pub closed spec fn table(&self) -> Map<PageID, Frame> {
        self.page_table@
    }

    /// The pages in the page store.
    pub closed spec fn disk(&self) -> Map<PageID, Seq<u8>> {
        self.disk_io.stored_pages()
    }

    /// The frames waiting for eviction, oldest first.
    pub closed spec fn queue(&self) -> Seq<Frame> {
        self.evict_manager.queue()
    }

    /// The unused frames.
    pub closed spec fn unused(&self) -> Seq<Frame> {
        self.evict_manager.unused()
    }

    /// The root page of each object.
    pub closed spec fn roots(&self) -> Seq<PageID> {
        self.object_roots@
    }

    /// Page `id` sits in a frame.
    pub open spec fn is_cached(&self, id: PageID) -> bool {
        self.table().contains_key(id)
    }

    /// The pins on cached page `id`.
    pub open spec fn pins_of(&self, id: PageID) -> u64 {
        self.frames()[self.table()[id] as int].pins
    }

    /// A frame can be taken for a page that is not cached.
    pub open spec fn can_take_frame(&self) -> bool {
        self.unused().len() > 0 || self.queue().len() > 0
    }

    /// The bytes of every page as the engine sees them: those of its frame
    /// when it is cached, else those in the store.
    pub open spec fn contents(&self) -> Map<PageID, Seq<u8>> {
        Map::new(
            |id: PageID| self.disk().contains_key(id),
            |id: PageID|
                if self.is_cached(id) {
                    self.frames()[self.table()[id] as int].content
                } else {
                    self.disk()[id]
                },
        )
    }

    /// The pool holds what `other` holds: the same store, frames, queues and roots.
    pub open spec fn unchanged_from(&self, other: Self) -> bool {
        &&& self.disk() == other.disk()
        &&& self.frames() == other.frames()
        &&& self.table() == other.table()
        &&& self.queue() == other.queue()
        &&& self.unused() == other.unused()
        &&& self.roots() == other.roots()
    }

    /// The pool's invariant.
    pub closed spec fn wf(&self) -> bool {
        let n = self.pages@.len();
        let fr = self.frames();
        &&& forall|f: int| 0 <= f < n ==> (#[trigger] fr[f]).content.len() == PAGE_SIZE
        &&& forall|f: int| 0 <= f < n && (#[trigger] fr[f]).page_id is None ==> !fr[f].dirty
        &&& forall|id: PageID|
            #[trigger] self.page_table@.contains_key(id) ==> self.page_table@[id] < n
                && fr[self.page_table@[id] as int].page_id == Some(id)
        &&& forall|f: int|
            0 <= f < n && (#[trigger] fr[f]).page_id is Some ==> {
                let id = fr[f].page_id->0;
                &&& self.page_table@.contains_key(id)
                &&& self.page_table@[id] == f
                &&& self.disk().contains_key(id)
                &&& !fr[f].dirty ==> fr[f].content == self.disk()[id]
            }
        &&& self.unused().no_duplicates()
        &&& self.queue().no_duplicates()
        &&& forall|f: Frame|
            #[trigger] self.unused().contains(f) <==> (f < n && fr[f as int].page_id is None)
        &&& forall|f: Frame|
            #[trigger] self.queue().contains(f) <==> (f < n && fr[f as int].page_id is Some
                && fr[f as int].pins == 0)
    }

    /// With at least one frame and no page pinned, a frame can be taken.
    pub proof fn lemma_unpinned_can_take_frame(&self)
        requires
            self.wf(),
            self.frames().len() > 0,
            forall|id: PageID| #[trigger] self.is_cached(id) ==> self.pins_of(id) == 0,
        ensures
            self.can_take_frame(),
    {
        let fr = self.frames();
        if fr[0].page_id is None {
            assert(self.unused().contains(0));
        } else {
            let id = fr[0].page_id->0;
            assert(self.is_cached(id));
            assert(self.pins_of(id) == 0);
            assert(self.queue().contains(0));
        }
    }

    /// A frame can be taken exactly when some frame holds no page or an
    /// unpinned one.
    pub proof fn lemma_can_take_frame(&self)
        requires
            self.wf(),
        ensures
            self.can_take_frame() <==> exists|f: Frame|
                f < self.frames().len() && ((#[trigger] self.frames()[f as int]).page_id is None
                    || self.frames()[f as int].pins == 0),
    {
        let fr = self.frames();
        if self.unused().len() > 0 {
            let f = self.unused()[0];
            assert(self.unused().contains(f));
            assert(fr[f as int].page_id is None);
        } else if self.queue().len() > 0 {
            let f = self.queue()[0];
            assert(self.queue().contains(f));
            assert(fr[f as int].pins == 0);
        } else {
            assert forall|f: Frame| f < fr.len() implies !((#[trigger] fr[f as int]).page_id is None
                || fr[f as int].pins == 0) by {
                assert(!self.unused().contains(f));
                assert(!self.queue().contains(f));
            }
        }
    }

    /// A cached page sits in the frame the table gives for it.
    pub proof fn lemma_cached_frame(&self, id: PageID)
        requires
            self.wf(),
            self.is_cached(id),
        ensures
            self.table()[id] < self.frames().len(),
            self.frames()[self.table()[id] as int].page_id == Some(id),
    {
    }

    /// A pool of `size` empty frames over the page store `disk`.
    pub fn new(disk: R, size: usize) -> (r: Self)
        ensures
            r.wf(),
            r.contents() == disk.stored_pages(),
            r.disk() == disk.stored_pages(),
            r.frames().len() == size,
            r.unused().len() == size,
            r.table() == Map::<PageID, Frame>::empty(),
            r.roots() == Seq::<PageID>::empty(),
    {
        let mut pages: Vec<Page> = Vec::with_capacity(size);
        let mut i: usize = 0;
        while i < size
            invariant
                0 <= i <= size,
                pages@.len() == i,
                forall|f: int|
                    0 <= f < i ==> (#[trigger] pages@[f])@ == (FrameView {
                        page_id: None,
                        content: zero_page(),
                        pins: 0,
                        dirty: false,
                    }),
            decreases size - i,
        {
            pages.push(Page::default());
            i = i + 1;
        }
        let r = BufferPool {
            pages,
            page_table: HashMap::new(),
            evict_manager: EvictManager::new(size),
            disk_io: disk,
            object_roots: Vec::new(),
        };
        proof {
            assert forall|f: Frame| #[trigger] r.unused().contains(f) <==> (f < size && r.frames()[f as int].page_id is None) by {
                if f < size {
                    assert(r.unused()[f as int] == f);
                }
            }
            assert(r.contents() =~= disk.stored_pages());
        }
        r
    }

    /// The frame holding cached page `page_id`.
    fn page(&self, page_id: PageID) -> (r: &Page)
        requires
            self.wf(),
            self.is_cached(page_id),
        ensures
            r@ == self.frames()[self.table()[page_id] as int],
    {
        let page_idx = self.frame(page_id);
        &self.pages[page_idx]
    }

    /// The frame index of cached page `page_id`.
    fn frame(&self, page_id: PageID) -> (r: Frame)
        requires
            self.wf(),
            self.is_cached(page_id),
        ensures
            r == self.table()[page_id],
            r < self.frames().len(),
    {
        match self.page_table.get(&page_id) {
            Some(f) => *f,
            None => 0,
        }
    }

    /// The frame holding the referenced page.
    pub fn page_of(&self, page_ref: &PageRef) -> (r: &Page)
        requires
            self.wf(),
            self.is_cached(page_ref.spec_id()),
        ensures
            r@ == self.frames()[self.table()[page_ref.spec_id()] as int],
            r@.page_id == Some(page_ref.spec_id()),
    {
        self.page(page_ref.page_id)
    }


    /// The stored bytes of page `page_id`.
    fn read_page(&self, page_id: PageID) -> (r: Vec<u8>)
        requires
            self.disk().contains_key(page_id),
        ensures
            r@ == self.disk()[page_id],
            r@.len() == PAGE_SIZE,
    {
        self.disk_io.read_page(page_id)
    }

    /// Writes the page held in frame `frame` back to the store.
    fn write_page(&mut self, frame: Frame)
        requires
            frame < old(self).frames().len(),
            old(self).frames()[frame as int].page_id is Some,
            old(self).disk().contains_key(old(self).frames()[frame as int].page_id->0),
            old(self).frames()[frame as int].content.len() == PAGE_SIZE,
        ensures
            final(self).disk() == old(self).disk().insert(
                old(self).frames()[frame as int].page_id->0,
                old(self).frames()[frame as int].content,
            ),
            final(self).frames() == old(self).frames(),
            final(self).table() == old(self).table(),
            final(self).queue() == old(self).queue(),
            final(self).unused() == old(self).unused(),
            final(self).roots() == old(self).roots(),
    {
        let id = match self.pages[frame].page_id {
            Some(id) => id,
            None => 0,
        };
        assert(self.frames()[frame as int] == self.pages@[frame as int]@);
        self.disk_io.write_page(id, self.pages[frame].content.as_slice());
    }

    /// Pins page `page_id` in a frame and returns a reference to it.
    ///
    /// A cached page gets one more pin. Otherwise a frame is taken (an unused
    /// one first, else the one unpinned longest ago), its page written back
    /// if it changed, and the page read into it; with no frame to take, this
    /// fails with `NoFreeFrames` and changes nothing. Either way every page
    /// keeps its bytes, and pinned pages keep their frames.
    pub fn get_page_ref(&mut self, page_id: PageID) -> (r: Result<PageRef, BufferPoolError>)
        requires
            old(self).wf(),
            old(self).disk().contains_key(page_id),
            old(self).is_cached(page_id) ==> old(self).pins_of(page_id) < u64::MAX,
        ensures
            final(self).wf(),
            final(self).contents() == old(self).contents(),
            final(self).disk().dom() == old(self).disk().dom(),
            final(self).roots() == old(self).roots(),
            final(self).frames().len() == old(self).frames().len(),
            r is Ok <==> old(self).is_cached(page_id) || old(self).can_take_frame(),
            r matches Ok(pr) ==> {
                &&& pr.spec_id() == page_id
                &&& final(self).is_cached(page_id)
                &&& final(self).pins_of(page_id) == if old(self).is_cached(page_id) {
                    old(self).pins_of(page_id) + 1
                } else {
                    1
                }
            },
            r is Err ==> {
                &&& r == Err::<PageRef, BufferPoolError>(BufferPoolError::NoFreeFrames)
                &&& final(self).frames() == old(self).frames()
                &&& final(self).table() == old(self).table()
                &&& final(self).disk() == old(self).disk()
                &&& final(self).queue() == old(self).queue()
                &&& final(self).unused() == old(self).unused()
            },
            old(self).is_cached(page_id) ==> {
                &&& final(self).table() == old(self).table()
                &&& final(self).disk() == old(self).disk()
                &&& final(self).unused() == old(self).unused()
                &&& !final(self).queue().contains(final(self).table()[page_id])
                &&& forall|f: Frame|
                    f != final(self).table()[page_id] ==> (#[trigger] final(self).queue().contains(f)
                        <==> old(self).queue().contains(f))
                &&& old(self).pins_of(page_id) == 0 ==> exists|i: int|
                    0 <= i < old(self).queue().len() && old(self).queue()[i] == old(self).table()[page_id]
                        && final(self).queue() == old(self).queue().remove(i)
                &&& old(self).pins_of(page_id) > 0 ==> final(self).queue() == old(self).queue()
            },
            !old(self).is_cached(page_id) && r is Ok ==> {
                let f = if old(self).unused().len() > 0 {
                    old(self).unused().last()
                } else {
                    old(self).queue()[0]
                };
                let prev = old(self).frames()[f as int];
                &&& f < old(self).frames().len()
                &&& final(self).table() == (if prev.page_id is Some {
                    old(self).table().remove(prev.page_id->0)
                } else {
                    old(self).table()
                }).insert(page_id, f)
                &&& final(self).frames() == old(self).frames().update(
                    f as int,
                    FrameView { page_id: Some(page_id), content: old(self).disk()[page_id], pins: 1, dirty: false },
                )
                &&& final(self).unused() == if old(self).unused().len() > 0 {
                    old(self).unused().drop_last()
                } else {
                    old(self).unused()
                }
                &&& final(self).queue() == if old(self).unused().len() > 0 {
                    old(self).queue()
                } else {
                    old(self).queue().drop_first()
                }
                &&& final(self).disk() == if prev.dirty && prev.page_id is Some {
                    old(self).disk().insert(prev.page_id->0, prev.content)
                } else {
                    old(self).disk()
                }
            },
            forall|id: PageID|
                id != page_id && #[trigger] old(self).is_cached(id) && old(self).pins_of(id) > 0
                    ==> final(self).is_cached(id) && final(self).table()[id] == old(self).table()[id]
                    && final(self).pins_of(id) == old(self).pins_of(id),
            forall|id: PageID|
                id != page_id && #[trigger] final(self).is_cached(id) ==> old(self).is_cached(id)
                    && final(self).pins_of(id) == old(self).pins_of(id),
    {
        if self.page_table.contains_key(&page_id) {
            self.pin(page_id);
            return Ok(PageRef { page_id });
        }
        let ghost fr0 = self.frames();
        let ghost t0 = self.table();
        let ghost q0 = self.queue();
        let ghost u0 = self.unused();
        let ghost d0 = self.disk();
        let evict_frame = match self.evict_manager.victim() {
            Some(f) => f,
            None => return Err(BufferPoolError::NoFreeFrames),
        };
        proof {
            if u0.len() > 0 {
                assert(u0[u0.len() - 1] == evict_frame);
                assert(u0.contains(evict_frame));
            } else {
                assert(q0[0] == evict_frame);
                assert(q0.contains(evict_frame));
            }
            assert(evict_frame < self.pages@.len());
        }
        let ghost old_frame = fr0[evict_frame as int];
        if self.pages[evict_frame].is_dirty {
            self.write_page(evict_frame);
        }
        let ghost d1 = self.disk();
        proof {
            assert(d1.dom() =~= d0.dom());
            assert(d1[page_id] == d0[page_id]);
            assert(self.frames() == fr0);
            assert(self.frames().len() == self.pages@.len());
            assert(evict_frame < self.pages@.len());
        }
        if let Some(old_page_id) = self.pages[evict_frame].page_id {
            self.page_table.remove(&old_page_id);
        }
        self.page_table.insert(page_id, evict_frame);
        let content = self.read_page(page_id);
        assert(self.frames().len() == self.pages@.len());
        assert(evict_frame < self.pages@.len());
        self.pages[evict_frame].load_new(page_id, content);
        proof {
            let n = fr0.len();
            let fr = self.frames();
            let t = self.table();
            let q = self.queue();
            let u = self.unused();
            let d = self.disk();
            let new_frame = FrameView { page_id: Some(page_id), content: d0[page_id], pins: 1, dirty: false };
            assert(fr =~= fr0.update(evict_frame as int, new_frame));
            if old_frame.page_id is Some {
                let qid = old_frame.page_id->0;
                assert(t =~= t0.remove(qid).insert(page_id, evict_frame));
            } else {
                assert(t =~= t0.insert(page_id, evict_frame));
            }
            // Frames other than the victim keep their pages and table entries.
            assert forall|id: PageID| #[trigger] t.contains_key(id) implies t[id] < n && fr[t[id] as int].page_id == Some(id) by {
                if id != page_id {
                    assert(t0.contains_key(id));
                    assert(fr0[t0[id] as int].page_id == Some(id));
                    assert(t0[id] != evict_frame);
                }
            }
            assert forall|f: int| 0 <= f < n && (#[trigger] fr[f]).page_id is Some implies {
                let id = fr[f].page_id->0;
                &&& t.contains_key(id)
                &&& t[id] == f
                &&& d.contains_key(id)
                &&& !fr[f].dirty ==> fr[f].content == d[id]
            } by {
                if f != evict_frame {
                    let id = fr0[f].page_id->0;
                    assert(t0.contains_key(id) && t0[id] == f);
                    assert(id != page_id);
                    if old_frame.page_id is Some {
                        assert(old_frame.page_id->0 != id);
                    }
                }
            }
            assert forall|g: Frame| #[trigger] u.contains(g) <==> (g < n && fr[g as int].page_id is None) by {
                assert(u0.contains(g) == (g < n && fr0[g as int].page_id is None));
                assert(q0.contains(g) == (g < n && fr0[g as int].page_id is Some && fr0[g as int].pins == 0));
                if u0.len() > 0 {
                    assert(u == u0.drop_last());
                    if u.contains(g) {
                        let k = choose|k: int| 0 <= k < u.len() && u[k] == g;
                        assert(u0[k] == g);
                        assert(u0.contains(g));
                        assert(u0[u0.len() - 1] == evict_frame);
                        assert(g != evict_frame);
                    }
                    if g < n && fr[g as int].page_id is None {
                        assert(g != evict_frame);
                        assert(u0.contains(g));
                        let k = choose|k: int| 0 <= k < u0.len() && u0[k] == g;
                        assert(k != u0.len() - 1);
                        assert(u[k] == g);
                    }
                } else {
                    assert(u == u0);
                    assert(!u0.contains(g));
                }
            }
            assert forall|g: Frame| #[trigger] q.contains(g) <==> (g < n && fr[g as int].page_id is Some && fr[g as int].pins == 0) by {
                assert(u0.contains(g) == (g < n && fr0[g as int].page_id is None));
                assert(q0.contains(g) == (g < n && fr0[g as int].page_id is Some && fr0[g as int].pins == 0));
                if u0.len() > 0 {
                    assert(q == q0);
                    assert(u0.contains(evict_frame) == (evict_frame < n && fr0[evict_frame as int].page_id is None));
                    assert(q0.contains(evict_frame) == (evict_frame < n && fr0[evict_frame as int].page_id is Some && fr0[evict_frame as int].pins == 0));
                    assert(!q0.contains(evict_frame));
                } else {
                    assert(q == q0.drop_first());
                    if q.contains(g) {
                        let k = choose|k: int| 0 <= k < q.len() && q[k] == g;
                        assert(q0[k + 1] == g);
                        assert(q0.contains(g));
                        assert(q0[0] == evict_frame);
                        assert(g != evict_frame);
                    }
                    if g < n && fr[g as int].page_id is Some && fr[g as int].pins == 0 {
                        assert(g != evict_frame);
                        assert(q0.contains(g));
                        let k = choose|k: int| 0 <= k < q0.len() && q0[k] == g;
                        assert(k != 0);
                        assert(q[k - 1] == g);
                    }
                }
            }
            assert(u.no_duplicates()) by {
                if u0.len() > 0 {
                    assert forall|a: int, b: int| 0 <= a < b < u.len() implies u[a] != u[b] by {
                        assert(u0[a] != u0[b]);
                    }
                }
            }
            assert(q.no_duplicates()) by {
                if u0.len() == 0 {
                    assert forall|a: int, b: int| 0 <= a < b < q.len() implies q[a] != q[b] by {
                        assert(q0[a + 1] != q0[b + 1]);
                    }
                }
            }
            assert(self.contents() =~= old(self).contents()) by {
                assert forall|id: PageID| #[trigger] d0.contains_key(id) implies self.contents()[id]
                    == old(self).contents()[id] by {
                    if id == page_id {
                    } else if old_frame.page_id == Some(id) {
                        assert(!t.contains_key(id));
                        if !old_frame.dirty {
                            assert(old_frame.content == d0[id]);
                        }
                    } else if t0.contains_key(id) {
                        assert(t0[id] != evict_frame);
                        assert(t[id] == t0[id]);
                    } else {
                        assert(!t.contains_key(id));
                    }
                }
            }
            assert forall|id: PageID|
                id != page_id && #[trigger] old(self).is_cached(id) && old(self).pins_of(id) > 0
                    implies self.is_cached(id) && self.table()[id] == old(self).table()[id]
                    && self.pins_of(id) == old(self).pins_of(id) by {
                assert(t0[id] != evict_frame);
            }
            assert forall|id: PageID|
                id != page_id && #[trigger] self.is_cached(id) implies old(self).is_cached(id)
                    && self.pins_of(id) == old(self).pins_of(id) by {
                assert(t0.contains_key(id));
                assert(t0[id] != evict_frame);
                assert(t[id] == t0[id]);
            }
            if old_frame.dirty {
                assert(old_frame.page_id is Some);
            } else {
                assert(d =~= d0);
            }
        }
        Ok(PageRef { page_id })
    }


    /// Allocates a zeroed page in the store and pins it in a frame.
    ///
    /// Fails with `StoreFull`, changing nothing, when the store has no page id
    /// left. Otherwise the page is allocated even when no frame can be taken
    /// for it, in which case this fails with `NoFreeFrames`.
    pub fn new_page(&mut self) -> (r: Result<PageRef, BufferPoolError>)
        requires
            old(self).wf(),
        ensures
            final(self).wf(),
            final(self).roots() == old(self).roots(),
            final(self).frames().len() == old(self).frames().len(),
            r matches Err(BufferPoolError::StoreFull) ==> final(self).unchanged_from(*old(self)),
            !(r matches Err(BufferPoolError::StoreFull)) ==> exists|id: PageID|
                {
                    &&& !old(self).contents().contains_key(id)
                    &&& id != NULL_PTR
                    &&& final(self).contents() == old(self).contents().insert(id, zero_page())
                    &&& final(self).disk().dom() == old(self).disk().dom().insert(id)
                    &&& (r matches Ok(pr) ==> pr.spec_id() == id && final(self).is_cached(id)
                        && final(self).pins_of(id) == 1)
                    &&& (r is Err ==> r == Err::<PageRef, BufferPoolError>(BufferPoolError::NoFreeFrames))
                    &&& (r is Ok <==> old(self).can_take_frame())
                    &&& forall|j: PageID|
                        j != id && #[trigger] final(self).is_cached(j) ==> old(self).is_cached(j)
                            && final(self).pins_of(j) == old(self).pins_of(j)
                },
            forall|id: PageID|
                #[trigger] old(self).is_cached(id) && old(self).pins_of(id) > 0
                    ==> final(self).is_cached(id) && final(self).table()[id] == old(self).table()[id]
                    && final(self).pins_of(id) == old(self).pins_of(id),
    {
        let new_id = match self.disk_io.new_page() {
            Some(id) => id,
            None => {
                proof {
                    assert(self.disk() == old(self).disk());
                }
                return Err(BufferPoolError::StoreFull);
            },
        };
        proof {
            assert(!old(self).is_cached(new_id));
            let fr = self.frames();
            assert forall|f: int| 0 <= f < fr.len() && (#[trigger] fr[f]).page_id is Some implies {
                let id = fr[f].page_id->0;
                &&& self.page_table@.contains_key(id)
                &&& self.page_table@[id] == f
                &&& self.disk().contains_key(id)
                &&& !fr[f].dirty ==> fr[f].content == self.disk()[id]
            } by {
                assert(old(self).disk().contains_key(fr[f].page_id->0));
            }
            assert(self.contents() =~= old(self).contents().insert(new_id, zero_page()));
            assert(self.table() == old(self).table());
            assert(self.frames() == old(self).frames());
        }
        let ghost mid = *self;
        let r = self.get_page_ref(new_id);
        proof {
            assert forall|id: PageID|
                #[trigger] old(self).is_cached(id) && old(self).pins_of(id) > 0
                    implies self.is_cached(id) && self.table()[id] == old(self).table()[id]
                    && self.pins_of(id) == old(self).pins_of(id) by {
                assert(mid.is_cached(id));
                assert(id != new_id);
            }
            assert forall|j: PageID|
                j != new_id && #[trigger] self.is_cached(j) implies old(self).is_cached(j)
                    && self.pins_of(j) == old(self).pins_of(j) by {
                assert(mid.is_cached(j));
            }
        }
        r
    }

    /// Releases a page reference: the page loses the pin it held.
    pub fn release(&mut self, page_ref: PageRef)
        requires
            old(self).wf(),
            old(self).is_cached(page_ref.spec_id()),
            old(self).pins_of(page_ref.spec_id()) > 0,
        ensures
            final(self).wf(),
            final(self).contents() == old(self).contents(),
            final(self).disk() == old(self).disk(),
            final(self).table() == old(self).table(),
            final(self).roots() == old(self).roots(),
            final(self).frames().len() == old(self).frames().len(),
            final(self).pins_of(page_ref.spec_id()) == old(self).pins_of(page_ref.spec_id()) - 1,
            forall|id: PageID|
                id != page_ref.spec_id() && #[trigger] old(self).is_cached(id) ==> final(self).pins_of(id) == old(self).pins_of(id),
            old(self).can_take_frame() ==> final(self).can_take_frame(),
            old(self).pins_of(page_ref.spec_id()) == 1 ==> final(self).can_take_frame(),
            final(self).queue() == if old(self).pins_of(page_ref.spec_id()) == 1 {
                old(self).queue().push(old(self).table()[page_ref.spec_id()])
            } else {
                old(self).queue()
            },
    {
        self.unpin(page_ref.page_id);
    }

    /// The bytes of the referenced page.
    pub fn page_content(&self, page_ref: &PageRef) -> (r: &[u8])
        requires
            self.wf(),
            self.is_cached(page_ref.spec_id()),
        ensures
            r@ == self.contents()[page_ref.spec_id()],
            r@.len() == PAGE_SIZE,
    {
        let f = self.frame(page_ref.page_id);
        proof {
            assert(self.frames()[f as int].page_id == Some(page_ref.spec_id()));
        }
        self.pages[f].content()
    }

    /// Replaces the bytes of the referenced page, marking its frame changed so
    /// that they are written back before the frame is reused.
    pub fn set_page_content(&mut self, page_ref: &PageRef, content: Vec<u8>)
        requires
            old(self).wf(),
            old(self).is_cached(page_ref.spec_id()),
            content@.len() == PAGE_SIZE,
        ensures
            final(self).wf(),
            final(self).contents() == old(self).contents().insert(page_ref.spec_id(), content@),
            final(self).disk() == old(self).disk(),
            final(self).table() == old(self).table(),
            final(self).roots() == old(self).roots(),
            final(self).frames().len() == old(self).frames().len(),
            forall|id: PageID|
                #[trigger] old(self).is_cached(id) ==> final(self).pins_of(id) == old(self).pins_of(id),
            final(self).can_take_frame() == old(self).can_take_frame(),
            final(self).frames() == old(self).frames().update(
                old(self).table()[page_ref.spec_id()] as int,
                FrameView {
                    content: content@,
                    dirty: true,
                    ..old(self).frames()[old(self).table()[page_ref.spec_id()] as int]
                },
            ),
    {
        let f = self.frame(page_ref.page_id);
        let ghost fr0 = self.frames();
        proof {
            assert(fr0[f as int].page_id == Some(page_ref.spec_id()));
        }
        self.pages[f].content = content;
        self.pages[f].is_dirty = true;
        proof {
            let fr = self.frames();
            assert(fr =~= fr0.update(
                f as int,
                FrameView { content: content@, dirty: true, ..fr0[f as int] },
            ));
            assert(self.contents() =~= old(self).contents().insert(page_ref.spec_id(), content@));
            assert forall|g: Frame| #[trigger] self.queue().contains(g) <==> (g < fr.len() && fr[g as int].page_id is Some
                && fr[g as int].pins == 0) by {
                assert(old(self).queue().contains(g) == (g < fr0.len() && fr0[g as int].page_id is Some
                && fr0[g as int].pins == 0));
            }
            assert forall|g: Frame| #[trigger] self.unused().contains(g) <==> (g < fr.len() && fr[g as int].page_id is None) by {
                assert(old(self).unused().contains(g) == (g < fr0.len() && fr0[g as int].page_id is None));
            }
        }
    }

    /// Allocates a zeroed page in the store as the root of a new object, and
    /// returns the object's id with the page's; fails with `StoreFull`,
    /// changing nothing, when the store has no page id left.
    pub fn new_object_root(&mut self) -> (r: Result<(ObjectID, PageID), BufferPoolError>)
        requires
            old(self).wf(),
        ensures
            final(self).wf(),
            r matches Ok((object_id, page_id)) ==> {
                &&& object_id == old(self).roots().len()
                &&& final(self).roots() == old(self).roots().push(page_id)
                &&& !old(self).contents().contains_key(page_id)
                &&& page_id != NULL_PTR
                &&& final(self).contents() == old(self).contents().insert(page_id, zero_page())
            },
            r is Err ==> r == Err::<(ObjectID, PageID), BufferPoolError>(BufferPoolError::StoreFull)
                && final(self).unchanged_from(*old(self)),
            final(self).table() == old(self).table(),
            final(self).frames() == old(self).frames(),
            final(self).can_take_frame() == old(self).can_take_frame(),
    {
        let new_id = match self.disk_io.new_page() {
            Some(id) => id,
            None => return Err(BufferPoolError::StoreFull),
        };
        let object_id = self.object_roots.len();
        self.object_roots.push(new_id);
        proof {
            assert(!old(self).is_cached(new_id));
            let fr = self.frames();
            assert forall|f: int| 0 <= f < fr.len() && (#[trigger] fr[f]).page_id is Some implies {
                let id = fr[f].page_id->0;
                &&& self.page_table@.contains_key(id)
                &&& self.page_table@[id] == f
                &&& self.disk().contains_key(id)
                &&& !fr[f].dirty ==> fr[f].content == self.disk()[id]
            } by {
                assert(old(self).disk().contains_key(fr[f].page_id->0));
            }
            assert(self.contents() =~= old(self).contents().insert(new_id, zero_page()));
        }
        Ok((object_id, new_id))
    }

    /// The root page of object `object_id`.
    pub fn get_object_root(&self, object_id: ObjectID) -> (r: PageID)
        requires
            object_id < self.roots().len(),
        ensures
            r == self.roots()[object_id as int],
    {
        self.object_roots[object_id]
    }

    /// Makes `page_id` the root page of object `object_id`.
    pub fn update_object_root(&mut self, object_id: ObjectID, page_id: PageID)
        requires
            old(self).wf(),
            object_id < old(self).roots().len(),
        ensures
            final(self).wf(),
            final(self).roots() == old(self).roots().update(object_id as int, page_id),
            final(self).contents() == old(self).contents(),
            final(self).disk() == old(self).disk(),
            final(self).table() == old(self).table(),
            final(self).frames() == old(self).frames(),
            final(self).can_take_frame() == old(self).can_take_frame(),
    {
        self.object_roots.set(object_id, page_id);
    }

    /// Drops a pin on cached page `page_id`; a page left without pins waits
    /// for eviction.
    fn unpin(&mut self, page_id: PageID)
        requires
            old(self).wf(),
            old(self).is_cached(page_id),
            old(self).pins_of(page_id) > 0,
        ensures
            final(self).wf(),
            final(self).contents() == old(self).contents(),
            final(self).disk() == old(self).disk(),
            final(self).table() == old(self).table(),
            final(self).roots() == old(self).roots(),
            final(self).frames().len() == old(self).frames().len(),
            final(self).pins_of(page_id) == old(self).pins_of(page_id) - 1,
            forall|id: PageID|
                id != page_id && #[trigger] old(self).is_cached(id) ==> final(self).pins_of(id)
                    == old(self).pins_of(id),
            final(self).unused() == old(self).unused(),
            old(self).can_take_frame() ==> final(self).can_take_frame(),
            old(self).pins_of(page_id) == 1 ==> final(self).can_take_frame(),
            final(self).queue() == if old(self).pins_of(page_id) == 1 {
                old(self).queue().push(old(self).table()[page_id])
            } else {
                old(self).queue()
            },
    {
        let f = self.frame(page_id);
        let ghost fr0 = self.frames();
        let pins = self.pages[f].pins - 1;
        self.pages[f].pins = pins;
        if pins == 0 {
            self.evict_manager.add_to_queue(f);
        }
        proof {
            let fr = self.frames();
            assert(fr =~= fr0.update(f as int, FrameView { pins: pins, ..fr0[f as int] }));
            assert(self.contents() =~= old(self).contents());
            let q0 = old(self).queue();
            if pins == 0 {
                assert(!q0.contains(f));
                assert(self.queue() == q0.push(f));
                assert(self.queue()[q0.len() as int] == f);
                assert(self.queue().no_duplicates()) by {
                    assert forall|a: int, b: int| 0 <= a < b < self.queue().len() implies self.queue()[a] != self.queue()[b] by {
                        if b == q0.len() {
                            assert(q0[a] != f);
                        }
                    }
                }
            }
            assert forall|g: Frame| #[trigger] self.queue().contains(g) <==> (g < fr.len() && fr[g as int].page_id is Some
                && fr[g as int].pins == 0) by {
                if g != f {
                    if self.queue().contains(g) {
                        let k = choose|k: int| 0 <= k < self.queue().len() && self.queue()[k] == g;
                        assert(q0[k] == g);
                    }
                    if q0.contains(g) {
                        let k = choose|k: int| 0 <= k < q0.len() && q0[k] == g;
                        assert(self.queue()[k] == g);
                    }
                }
            }
            assert forall|g: Frame| #[trigger] self.unused().contains(g) <==> (g < fr.len() && fr[g as int].page_id is None) by {
                assert(old(self).unused().contains(g) <==> self.unused().contains(g));
            }
        }
    }

    /// Adds a pin on cached page `page_id`; a page pinned again leaves the
    /// eviction queue.
    fn pin(&mut self, page_id: PageID)
        requires
            old(self).wf(),
            old(self).is_cached(page_id),
            old(self).pins_of(page_id) < u64::MAX,
        ensures
            final(self).wf(),
            final(self).contents() == old(self).contents(),
            final(self).disk() == old(self).disk(),
            final(self).table() == old(self).table(),
            final(self).roots() == old(self).roots(),
            final(self).frames().len() == old(self).frames().len(),
            final(self).pins_of(page_id) == old(self).pins_of(page_id) + 1,
            forall|id: PageID|
                id != page_id && #[trigger] old(self).is_cached(id) ==> final(self).pins_of(id)
                    == old(self).pins_of(id),
            final(self).unused() == old(self).unused(),
            !final(self).queue().contains(final(self).table()[page_id]),
            forall|f: Frame|
                f != final(self).table()[page_id] ==> (#[trigger] final(self).queue().contains(f)
                    <==> old(self).queue().contains(f)),
            old(self).pins_of(page_id) == 0 ==> exists|i: int|
                0 <= i < old(self).queue().len() && old(self).queue()[i] == old(self).table()[page_id]
                    && final(self).queue() == old(self).queue().remove(i),
            old(self).pins_of(page_id) > 0 ==> final(self).queue() == old(self).queue(),
    {
        let f = self.frame(page_id);
        let ghost fr0 = self.frames();
        let pins = self.pages[f].pins + 1;
        self.pages[f].pins = pins;
        if pins == 1 {
            self.evict_manager.remove_from_queue(f);
        }
        proof {
            let fr = self.frames();
            assert(fr =~= fr0.update(f as int, FrameView { pins: pins, ..fr0[f as int] }));
            assert(self.contents() =~= old(self).contents());
            let q0 = old(self).queue();
            if pins == 1 {
                assert(q0.contains(f));
                let i = choose|i: int| 0 <= i < q0.len() && q0[i] == f && (forall|j: int|
                    0 <= j < i ==> q0[j] != f) && self.queue() == q0.remove(i);
                assert forall|g: Frame| #[trigger] self.queue().contains(g) <==> (g != f && q0.contains(g)) by {
                    if self.queue().contains(g) {
                        let k = choose|k: int| 0 <= k < self.queue().len() && self.queue()[k] == g;
                        if k < i {
                            assert(q0[k] == g);
                        } else {
                            assert(q0[k + 1] == g);
                            assert(q0[k + 1] != f);
                        }
                    }
                    if g != f && q0.contains(g) {
                        let k = choose|k: int| 0 <= k < q0.len() && q0[k] == g;
                        if k < i {
                            assert(self.queue()[k] == g);
                        } else {
                            assert(k != i);
                            assert(self.queue()[k - 1] == g);
                        }
                    }
                }
                assert(self.queue().no_duplicates()) by {
                    assert forall|a: int, b: int| 0 <= a < b < self.queue().len() implies self.queue()[a] != self.queue()[b] by {
                        let a0 = if a < i { a } else { a + 1 };
                        let b0 = if b < i { b } else { b + 1 };
                        assert(q0[a0] != q0[b0]);
                    }
                }
            } else {
                assert(!q0.contains(f));
            }
            assert forall|g: Frame| #[trigger] self.queue().contains(g) <==> (g < fr.len() && fr[g as int].page_id is Some
                && fr[g as int].pins == 0) by {
                if g != f {
                    assert(q0.contains(g) <==> (g < fr.len() && fr0[g as int].page_id is Some && fr0[g as int].pins == 0));
                }
            }
            assert forall|g: Frame| #[trigger] self.unused().contains(g) <==> (g < fr.len() && fr[g as int].page_id is None) by {
                assert(old(self).unused().contains(g) <==> self.unused().contains(g));
            }
        }
    }
}

} // verus!
