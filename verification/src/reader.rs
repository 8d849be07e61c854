//! A compact slotted-page layout, read and written in place.
//!
//! A page starts with eight big-endian `u32` header fields (page id, page
//! type, free space, last commit, item count, left and right sibling, free
//! space pointer) and then one two-byte slot per tuple, in key order, holding
//! the tuple's offset; tuples are packed from the free space pointer down.
//! Slots are written and read big-endian, like every other field. Inner
//! nodes of this layout hold entries `[page id: u64 | key length: u16 | key]`
//! from the start of the page.
use vstd::prelude::*;

use crate::buffer_pool::{PageID, PAGE_SIZE};
use crate::codec::{
    compare_bytes, lemma_lex_order_basics, lex_lt, lex_order, read_u16,
    read_u32, read_u64, u16_at, u16_be, u16_to_be, u32_at, u32_be, u32_to_be, u64_at,
};
use crate::representations::tuple::{tuple_encoding, tuple_key, tuple_value};

verus! {

/// The bytes before the first slot: eight four-byte header fields.
const HEADER_SIZE: usize = 32;

/// A tuple: `[size: u16 | key_size: u16 | key | value]`, integers big-endian.
#[derive(Debug, PartialEq)]
pub struct Tuple(pub Vec<u8>);

impl Tuple {
    /// The tuple's size field.
    pub fn size(&self) -> (r: u16)
        requires
            self.0@.len() >= 2,
        ensures
            r == u16_at(self.0@, 0),
    {
        read_u16(self.0.as_slice(), 0)
    }

    /// The tuple's key-size field.
    pub fn key_size(&self) -> (r: u16)
        requires
            self.0@.len() >= 4,
        ensures
            r == u16_at(self.0@, 2),
    {
        read_u16(self.0.as_slice(), 2)
    }

    /// The key bytes.
    pub fn key(&self) -> (r: &[u8])
        requires
            self.0@.len() >= 4,
            4 + u16_at(self.0@, 2) <= self.0@.len(),
        ensures
            r@ == tuple_key(self.0@),
    {
        let key_size = self.key_size() as usize;
        let s = self.0.as_slice();
        &s[4..4 + key_size]
    }

    /// The value bytes: everything after the key.
    pub fn value(&self) -> (r: &[u8])
        requires
            self.0@.len() >= 4,
            4 + u16_at(self.0@, 2) <= self.0@.len(),
        ensures
            r@ == tuple_value(self.0@),
    {
        let key_size = self.key_size() as usize;
        let s = self.0.as_slice();
        &s[4 + key_size..s.len()]
    }

    /// The number of bytes of the tuple.
    pub fn len(&self) -> (r: usize)
        ensures
            r == self.0@.len(),
    {
        self.0.len()
    }
}

/// An owned tuple.
#[derive(Debug, PartialEq)]
pub struct TupleBuf {
    pub tuple: Tuple,
}

impl TupleBuf {
    /// The tuple holding `key` and `value`; its size fields are truncated to
    /// 16 bits.
    pub fn new(key: &[u8], value: &[u8]) -> (r: Self)
        requires
            key@.len() + value@.len() + 4 <= usize::MAX,
        ensures
            r.tuple.0@ == tuple_encoding(key@, value@),
    {
        let t = crate::representations::tuple::TupleBuf::new(key, value);
        TupleBuf { tuple: Tuple(t.tuple.0) }
    }
}

impl core::ops::Deref for TupleBuf {
    type Target = Tuple;

    fn deref(&self) -> (r: &Tuple)
        ensures
            *r == self.tuple,
    {
        &self.tuple
    }
}

/// The kind of a page: nodes map keys to page ids, leaves map keys to tuples.
#[derive(Debug, PartialEq, Eq, Structural)]
pub enum PageType {
    /// Maps keys to page ids.
    Node,
    /// Maps keys to tuples.
    Leaf,
}

impl PageType {
    /// The number that stands for the page type: 0 for a node, 1 for a leaf.
    pub open spec fn spec_id(&self) -> u64 {
        match self {
            PageType::Node => 0,
            PageType::Leaf => 1,
        }
    }

    /// The number that stands for the page type.
    pub fn id(&self) -> (r: u64)
        ensures
            r == self.spec_id(),
    {
        match self {
            Self::Node => 0,
            Self::Leaf => 1,
        }
    }

    /// The page type numbered `type_id`; only 0 and 1 number one.
    pub fn new(type_id: u32) -> (r: Self)
        requires
            type_id <= 1,
        ensures
            r.spec_id() == type_id,
    {
        if type_id == 0 {
            Self::Node
        } else {
            Self::Leaf
        }
    }
}

/// A header field.
#[derive(Debug, Clone, Copy, PartialEq, Eq, Structural)]
pub enum HeaderElem {
    PageID,
    PageType,
    FreeSpace,
    LastCommit,
    ItemCount,
    LeftPtr,
    RightPtr,
    FreeSpacePtr,
}

impl HeaderElem {
    /// The field's byte offset: fields are four bytes each, in declaration order.
    pub open spec fn spec_offset(&self) -> int {
        match self {
            HeaderElem::PageID => 0,
            HeaderElem::PageType => 4,
            HeaderElem::FreeSpace => 8,
            HeaderElem::LastCommit => 12,
            HeaderElem::ItemCount => 16,
            HeaderElem::LeftPtr => 20,
            HeaderElem::RightPtr => 24,
            HeaderElem::FreeSpacePtr => 28,
        }
    }

    /// The field's byte offset.
    fn offset(&self) -> (r: usize)
        ensures
            r == self.spec_offset(),
    {
        match self {
            Self::PageID => 0,
            Self::PageType => 4,
            Self::FreeSpace => 8,
            Self::LastCommit => 12,
            Self::ItemCount => 16,
            Self::LeftPtr => 20,
            Self::RightPtr => 24,
            Self::FreeSpacePtr => 28,
        }
    }
}

/// Why a write to a page failed.
#[derive(Debug, PartialEq, Eq, Structural)]
pub enum PageWriteError {
    /// The tuple and its slot do not fit in the page's free space.
    OutOfSpace,
}

/// A page of this layout, as its bytes.
pub struct Page(pub Vec<u8>);

impl Page {
    /// The page over `bytes`.
    pub fn from_bytes(bytes: Vec<u8>) -> (r: Self)
        ensures
            r.0@ == bytes@,
    {
        Page(bytes)
    }

    /// The page's bytes.
    pub fn into_bytes(self) -> (r: Vec<u8>)
        ensures
            r@ == self.0@,
    {
        self.0
    }
}

/// The header field `e` of the page bytes `b`.
pub open spec fn header_of(b: Seq<u8>, e: HeaderElem) -> u32 {
    u32_at(b, e.spec_offset())
}

/// The number of slots of the page bytes `b`.
pub open spec fn slot_count(b: Seq<u8>) -> int {
    header_of(b, HeaderElem::ItemCount) as int
}

/// The byte offset of slot `slot`: slots follow the 32 header bytes.
pub open spec fn slot_offset(slot: int) -> int {
    32 + 2 * slot
}

/// The tuple offset that slot `slot` holds, read big-endian.
pub open spec fn slot_at(b: Seq<u8>, slot: int) -> u16 {
    u16_at(b, slot_offset(slot))
}

/// The tuple at offset `ptr` lies in the page: its size field, and then as
/// many bytes as the field says.
pub open spec fn tuple_in_page(b: Seq<u8>, ptr: int) -> bool {
    &&& 0 <= ptr
    &&& ptr + 2 <= b.len()
    &&& ptr + u16_at(b, ptr) <= b.len()
}

/// The bytes of the tuple at offset `ptr`: as many as its size field says.
pub open spec fn tuple_bytes(b: Seq<u8>, ptr: int) -> Seq<u8> {
    b.subrange(ptr, ptr + u16_at(b, ptr))
}

/// The tuple at offset `ptr` lies in the page and its key lies in the tuple.
pub open spec fn key_readable(b: Seq<u8>, ptr: int) -> bool {
    &&& tuple_in_page(b, ptr)
    &&& tuple_bytes(b, ptr).len() >= 4
    &&& 4 + u16_at(tuple_bytes(b, ptr), 2) <= tuple_bytes(b, ptr).len()
}

/// The key of the tuple at offset `ptr`.
pub open spec fn key_at(b: Seq<u8>, ptr: int) -> Seq<u8> {
    tuple_key(tuple_bytes(b, ptr))
}

/// The tuple offsets that the first `n` slots of `b` hold.
pub open spec fn slot_values(b: Seq<u8>, n: int) -> Seq<u16> {
    Seq::new(n as nat, |i: int| slot_at(b, i))
}

/// Every offset of `ptrs` holds a tuple with a readable key.
pub open spec fn keys_readable(b: Seq<u8>, ptrs: Seq<u16>) -> bool {
    forall|i: int| 0 <= i < ptrs.len() ==> #[trigger] key_readable(b, ptrs[i] as int)
}

/// Through the slots `ptrs`, the keys that sort before `key` come first.
pub open spec fn before_key_first(b: Seq<u8>, ptrs: Seq<u16>, key: Seq<u8>) -> bool {
    forall|i: int, j: int|
        0 <= i <= j < ptrs.len() && lex_lt(key_at(b, #[trigger] ptrs[j] as int), key) ==> lex_lt(
            key_at(b, #[trigger] ptrs[i] as int),
            key,
        )
}

/// `r` is where, through the slots `ptrs`, the keys that sort before `key`
/// end.
pub open spec fn is_key_bound(b: Seq<u8>, ptrs: Seq<u16>, key: Seq<u8>, r: int) -> bool {
    &&& 0 <= r <= ptrs.len()
    &&& forall|i: int| 0 <= i < r ==> lex_lt(key_at(b, #[trigger] ptrs[i] as int), key)
    &&& forall|i: int| r <= i < ptrs.len() ==> !lex_lt(key_at(b, #[trigger] ptrs[i] as int), key)
}

/// `b` with the big-endian `v` written at `at`.
pub open spec fn put_u32(b: Seq<u8>, at: int, v: u32) -> Seq<u8> {
    b.take(at) + u32_be(v) + b.skip(at + 4)
}

/// The keys through the slots `ptrs`, compared with `key`, never go down:
/// those that sort before it come first, then those equal to it, then those
/// after it.
pub open spec fn ordered_around(b: Seq<u8>, ptrs: Seq<u16>, key: Seq<u8>) -> bool {
    forall|i: int, j: int|
        0 <= i <= j < ptrs.len() ==> lex_order(key_at(b, #[trigger] ptrs[i] as int), key) <= lex_order(
            key_at(b, #[trigger] ptrs[j] as int),
            key,
        )
}

/// `r` is an answer to the search for `key` through the slots `ptrs`: a slot
/// whose key is `key`; and when the keys are ordered around `key`, `None`
/// only if no slot's key is `key`.
pub open spec fn key_search_ok(b: Seq<u8>, ptrs: Seq<u16>, key: Seq<u8>, r: Option<usize>) -> bool {
    &&& r matches Some(i) ==> i < ptrs.len() && key_at(b, ptrs[i as int] as int) == key
    &&& ordered_around(b, ptrs, key) && r is None ==> forall|i: int|
        0 <= i < ptrs.len() ==> key_at(b, #[trigger] ptrs[i] as int) != key
}

/// `r` answers the partition search for `key` through the slots `ptrs`: at
/// most their number, and, when the keys that sort before `key` come first,
/// where those end.
pub open spec fn partition_ok(b: Seq<u8>, ptrs: Seq<u16>, key: Seq<u8>, r: int) -> bool {
    &&& 0 <= r <= ptrs.len()
    &&& before_key_first(b, ptrs, key) ==> is_key_bound(b, ptrs, key, r)
}

/// The entries `[page id: u64 | key length: u16 | key]` that `find_child`
/// walks, from offset `off` of `b` as entry `j` of `items`, lie in the page as
/// far as the walk goes: it stops at entry `items - 1` (or at the first when
/// there are none), and after the key of an entry that sorts after `key`.
pub open spec fn child_walk_ok(b: Seq<u8>, off: int, j: int, items: int, key: Seq<u8>) -> bool
    decreases items - j,
{
    &&& 0 <= off
    &&& off + 8 <= b.len()
    &&& j + 1 < items ==> {
        let len = u16_at(b, off + 8) as int;
        &&& off + 10 + len <= b.len()
        &&& (lex_lt(key, b.subrange(off + 10, off + 10 + len)) || child_walk_ok(b, off + 10 + len, j + 1, items, key))
    }
}

/// The page id of the entry where that walk stops.
pub open spec fn child_walk(b: Seq<u8>, off: int, j: int, items: int, key: Seq<u8>) -> u64
    decreases items - j,
{
    if j + 1 >= items {
        u64_at(b, off)
    } else {
        let len = u16_at(b, off + 8) as int;
        if lex_lt(key, b.subrange(off + 10, off + 10 + len)) {
            u64_at(b, off)
        } else {
            child_walk(b, off + 10 + len, j + 1, items, key)
        }
    }
}

/// The offset of entry `i` of a node of this layout, whose entries
/// `[page id: u64 | key length: u16 | key]` follow each other from the start
/// of the page.
pub open spec fn entry_off(b: Seq<u8>, i: int) -> int
    decreases i,
{
    if i <= 0 {
        0
    } else {
        let o = entry_off(b, i - 1);
        o + 10 + u16_at(b, o + 8) as int
    }
}

/// The key of entry `i`.
pub open spec fn entry_key(b: Seq<u8>, i: int) -> Seq<u8> {
    let o = entry_off(b, i);
    b.subrange(o + 10, o + 10 + u16_at(b, o + 8) as int)
}

/// The page id of entry `i`.
pub open spec fn entry_child(b: Seq<u8>, i: int) -> u64 {
    u64_at(b, entry_off(b, i))
}

/// Entry `s` of `items` is the child for `key`: no entry before it has a key
/// that sorts after `key`, and it is the last entry (the first when there
/// are none) or its own key sorts after `key`. An entry whose key equals
/// `key` is passed over.
pub open spec fn child_stop(b: Seq<u8>, items: int, key: Seq<u8>, s: int) -> bool {
    &&& 0 <= s
    &&& (s == 0 || s < items)
    &&& forall|i: int| 0 <= i < s ==> !lex_lt(key, #[trigger] entry_key(b, i))
    &&& (s + 1 >= items || lex_lt(key, entry_key(b, s)))
}

/// At most one entry is the child for a key.
pub proof fn lemma_child_stop_unique(b: Seq<u8>, items: int, key: Seq<u8>, s1: int, s2: int)
    requires
        child_stop(b, items, key, s1),
        child_stop(b, items, key, s2),
    ensures
        s1 == s2,
{
    if s1 < s2 {
        assert(!lex_lt(key, entry_key(b, s1)));
    } else if s2 < s1 {
        assert(!lex_lt(key, entry_key(b, s2)));
    }
}

/// The walk from entry `j`, past entries whose keys do not sort after `key`,
/// ends at the entry that is the child for `key`.
proof fn lemma_child_walk_entries(b: Seq<u8>, j: int, items: int, key: Seq<u8>)
    requires
        0 <= j,
        j == 0 || j < items,
        child_walk_ok(b, entry_off(b, j), j, items, key),
        forall|i: int| 0 <= i < j ==> !lex_lt(key, #[trigger] entry_key(b, i)),
    ensures
        exists|s: int|
            #[trigger] child_stop(b, items, key, s) && child_walk(b, entry_off(b, j), j, items, key) == entry_child(
                b,
                s,
            ),
    decreases items - j,
{
    let off = entry_off(b, j);
    if j + 1 >= items {
        assert(child_stop(b, items, key, j));
    } else if lex_lt(key, entry_key(b, j)) {
        assert(child_stop(b, items, key, j));
    } else {
        assert(entry_off(b, j + 1) == off + 10 + u16_at(b, off + 8) as int);
        assert forall|i: int| 0 <= i < j + 1 implies !lex_lt(key, #[trigger] entry_key(b, i)) by {
        }
        lemma_child_walk_entries(b, j + 1, items, key);
    }
}

/// `find_child` returns the page id of the entry that is the child for the
/// key: walking the entries from the start of the page, the first whose key
/// sorts strictly after the key, or the last entry when none does; an entry
/// with the key itself never stops the walk.
pub proof fn lemma_find_child_stops(b: Seq<u8>, items: int, key: Seq<u8>)
    requires
        child_walk_ok(b, 0, 0, items, key),
    ensures
        exists|s: int| #[trigger] child_stop(b, items, key, s) && child_walk(b, 0, 0, items, key) == entry_child(b, s),
{
    assert(entry_off(b, 0) == 0);
    lemma_child_walk_entries(b, 0, items, key);
}

/// Reading a page of this layout.
pub trait PageReader {
    /// The page's bytes.
    spec fn page_bytes(&self) -> Seq<u8>;

    /// The header field `element`.
    fn get_header(&self, element: HeaderElem) -> (r: u32)
        requires
            element.spec_offset() + 4 <= self.page_bytes().len(),
        ensures
            r == header_of(self.page_bytes(), element),
    ;

    /// The tuple that slot `idx` points at (see `get_tuple_ptr`).
    fn tuple_at(&self, idx: usize) -> (r: Option<Tuple>)
        requires
            20 <= self.page_bytes().len(),
            !(header_of(self.page_bytes(), HeaderElem::ItemCount) < (idx as u32)) ==> {
                &&& slot_offset(idx as int) + 2 <= self.page_bytes().len()
                &&& tuple_in_page(self.page_bytes(), slot_at(self.page_bytes(), idx as int) as int)
            },
        ensures
            header_of(self.page_bytes(), HeaderElem::ItemCount) < (idx as u32) ==> r is None,
            !(header_of(self.page_bytes(), HeaderElem::ItemCount) < (idx as u32)) ==> (r matches Some(t)
                && t.0@ == tuple_bytes(self.page_bytes(), slot_at(self.page_bytes(), idx as int) as int)),
    ;

    /// The tuple at offset `ptr`: as many bytes as its size field says.
    fn tuple_from_ptr(&self, ptr: usize) -> (r: Option<Tuple>)
        requires
            tuple_in_page(self.page_bytes(), ptr as int),
        ensures
            r matches Some(t) && t.0@ == tuple_bytes(self.page_bytes(), ptr as int),
    ;

    /// The tuple offset that slot `slot` holds, or `None` when the item count
    /// is below `slot` taken as a `u32` (truncated); the slot just past the
    /// last one is still read.
    fn get_tuple_ptr(&self, slot: usize) -> (r: Option<usize>)
        requires
            20 <= self.page_bytes().len(),
            !(header_of(self.page_bytes(), HeaderElem::ItemCount) < (slot as u32)) ==> slot_offset(slot as int) + 2
                <= self.page_bytes().len(),
        ensures
            header_of(self.page_bytes(), HeaderElem::ItemCount) < (slot as u32) ==> r is None,
            !(header_of(self.page_bytes(), HeaderElem::ItemCount) < (slot as u32)) ==> r == Some(
                slot_at(self.page_bytes(), slot as int) as usize,
            ),
    ;

    /// The byte offset of slot `slot`.
    fn get_slot_ptr(&self, slot: usize) -> (r: Option<usize>)
        requires
            slot_offset(slot as int) <= usize::MAX,
        ensures
            r == Some(slot_offset(slot as int) as usize),
    ;

    /// The tuple offsets that the slots hold, in slot order.
    fn pointers(&self) -> (r: Vec<u16>)
        requires
            20 <= self.page_bytes().len(),
            slot_offset(slot_count(self.page_bytes())) <= self.page_bytes().len(),
        ensures
            r@ == slot_values(self.page_bytes(), slot_count(self.page_bytes())),
    ;

    /// A slot whose tuple has the key `key`, searched by bisection through
    /// the offsets that `pointers` reads.
    fn search_key(&self, key: &[u8]) -> (r: Option<usize>)
        requires
            20 <= self.page_bytes().len(),
            slot_offset(slot_count(self.page_bytes())) <= self.page_bytes().len(),
            keys_readable(self.page_bytes(), slot_values(self.page_bytes(), slot_count(self.page_bytes()))),
        ensures
            key_search_ok(self.page_bytes(), slot_values(self.page_bytes(), slot_count(self.page_bytes())), key@, r),
    ;

    /// The number of slots, through the offsets that `pointers` reads, whose
    /// keys sort before `key`, searched by bisection.
    fn search_partition(&self, key: &[u8]) -> (r: usize)
        requires
            20 <= self.page_bytes().len(),
            slot_offset(slot_count(self.page_bytes())) <= self.page_bytes().len(),
            keys_readable(self.page_bytes(), slot_values(self.page_bytes(), slot_count(self.page_bytes()))),
        ensures
            partition_ok(
                self.page_bytes(),
                slot_values(self.page_bytes(), slot_count(self.page_bytes())),
                key@,
                r as int,
            ),
    ;

    /// The child for `key` of a node of this layout: walking the entries
    /// from the start of the page, the page id of the first entry whose key
    /// sorts strictly after `key`, or of the last entry when none does (see
    /// `child_stop`); an entry whose key equals `key` never stops the walk.
    fn find_child(&self, key: &[u8]) -> (r: u64)
        requires
            20 <= self.page_bytes().len(),
            child_walk_ok(self.page_bytes(), 0, 0, slot_count(self.page_bytes()), key@),
        ensures
            r == child_walk(self.page_bytes(), 0, 0, slot_count(self.page_bytes()), key@),
            exists|s: int|
                #[trigger] child_stop(self.page_bytes(), slot_count(self.page_bytes()), key@, s) && r == entry_child(
                    self.page_bytes(),
                    s,
                ),
    ;
}

impl Page {
    /// The tuple offsets that the slots hold, in slot order.
    pub fn slots_in_order(&self) -> (r: Vec<u16>)
        requires
            20 <= self.0@.len(),
            slot_offset(slot_count(self.0@)) <= self.0@.len(),
        ensures
            r@ == slot_values(self.0@, slot_count(self.0@)),
    {
        let n = self.get_header(HeaderElem::ItemCount) as usize;
        let s = self.0.as_slice();
        let ghost b = self.0@;
        let len = s.len();
        let mut v: Vec<u16> = Vec::with_capacity(n);
        let mut i: usize = 0;
        while i < n
            invariant
                0 <= i <= n,
                len == s@.len(),
                n == slot_count(b),
                b == s@,
                slot_offset(n as int) <= s@.len(),
                v@ == slot_values(b, n as int).take(i as int),
            decreases n - i,
        {
            let p = HEADER_SIZE + 2 * i;
            let x = read_u16(s, p);
            v.push(x);
            assert(v@ =~= slot_values(b, n as int).take(i + 1));
            i = i + 1;
        }
        assert(v@ =~= slot_values(b, n as int));
        v
    }

    /// A slot, among the offsets `ptrs`, whose tuple has the key `key`,
    /// searched by bisection.
    pub fn key_search_in(&self, ptrs: &[u16], key: &[u8]) -> (r: Option<usize>)
        requires
            keys_readable(self.0@, ptrs@),
        ensures
            key_search_ok(self.0@, ptrs@, key@, r),
    {
        let ghost b = self.0@;
        let mut lo: usize = 0;
        let mut hi: usize = ptrs.len();
        while lo < hi
            invariant
                0 <= lo <= hi <= ptrs@.len(),
                b == self.0@,
                keys_readable(b, ptrs@),
                ordered_around(b, ptrs@, key@) ==> forall|i: int|
                    0 <= i < lo ==> lex_order(key_at(b, #[trigger] ptrs@[i] as int), key@) < 0,
                ordered_around(b, ptrs@, key@) ==> forall|i: int|
                    hi <= i < ptrs@.len() ==> lex_order(key_at(b, #[trigger] ptrs@[i] as int), key@) > 0,
            decreases hi - lo,
        {
            let mid = lo + (hi - lo) / 2;
            proof {
                assert(key_readable(b, ptrs@[mid as int] as int));
            }
            let t = self.tuple_from_ptr(ptrs[mid] as usize).unwrap();
            let c = compare_bytes(t.key(), key);
            if c == 0 {
                proof {
                    lemma_lex_order_basics(key_at(b, ptrs@[mid as int] as int), key@);
                }
                return Some(mid);
            } else if c < 0 {
                proof {
                    assert forall|i: int| 0 <= i < mid + 1 && ordered_around(b, ptrs@, key@) implies lex_order(
                        key_at(b, #[trigger] ptrs@[i] as int),
                        key@,
                    ) < 0 by {
                        assert(lex_order(key_at(b, ptrs@[i] as int), key@) <= lex_order(key_at(b, ptrs@[mid as int] as int), key@));
                    }
                }
                lo = mid + 1;
            } else {
                proof {
                    assert forall|i: int| mid <= i < ptrs@.len() && ordered_around(b, ptrs@, key@) implies lex_order(
                        key_at(b, #[trigger] ptrs@[i] as int),
                        key@,
                    ) > 0 by {
                        assert(lex_order(key_at(b, ptrs@[mid as int] as int), key@) <= lex_order(key_at(b, ptrs@[i] as int), key@));
                    }
                }
                hi = mid;
            }
        }
        proof {
            assert forall|i: int| 0 <= i < ptrs@.len() && ordered_around(b, ptrs@, key@) implies key_at(
                b,
                #[trigger] ptrs@[i] as int,
            ) != key@ by {
                lemma_lex_order_basics(key_at(b, ptrs@[i] as int), key@);
            }
        }
        None
    }

    /// The number of the offsets `ptrs` whose tuples' keys sort before
    /// `key`, searched by bisection.
    pub fn partition_in(&self, ptrs: &[u16], key: &[u8]) -> (r: usize)
        requires
            keys_readable(self.0@, ptrs@),
        ensures
            partition_ok(self.0@, ptrs@, key@, r as int),
    {
        let ghost b = self.0@;
        let mut lo: usize = 0;
        let mut hi: usize = ptrs.len();
        while lo < hi
            invariant
                0 <= lo <= hi <= ptrs@.len(),
                b == self.0@,
                keys_readable(b, ptrs@),
                before_key_first(b, ptrs@, key@) ==> forall|i: int|
                    0 <= i < lo ==> lex_lt(key_at(b, #[trigger] ptrs@[i] as int), key@),
                before_key_first(b, ptrs@, key@) ==> forall|i: int|
                    hi <= i < ptrs@.len() ==> !lex_lt(key_at(b, #[trigger] ptrs@[i] as int), key@),
            decreases hi - lo,
        {
            let mid = lo + (hi - lo) / 2;
            proof {
                assert(key_readable(b, ptrs@[mid as int] as int));
            }
            let t = self.tuple_from_ptr(ptrs[mid] as usize).unwrap();
            if compare_bytes(t.key(), key) < 0 {
                lo = mid + 1;
            } else {
                hi = mid;
            }
        }
        lo
    }
}

impl PageReader for Page {
    open spec fn page_bytes(&self) -> Seq<u8> {
        self.0@
    }

    fn get_header(&self, element: HeaderElem) -> (r: u32) {
        let offset = element.offset();
        read_u32(self.0.as_slice(), offset)
    }

    fn tuple_at(&self, idx: usize) -> (r: Option<Tuple>) {
        let ptr = match self.get_tuple_ptr(idx) {
            Some(ptr) => ptr,
            None => return None,
        };
        self.tuple_from_ptr(ptr)
    }

    fn tuple_from_ptr(&self, ptr: usize) -> (r: Option<Tuple>) {
        let s = self.0.as_slice();
        let _len = s.len();
        let tuple_size = read_u16(s, ptr) as usize;
        Some(Tuple(crate::representations::tuple::slice_to_vec(&s[ptr..ptr + tuple_size])))
    }

    fn get_tuple_ptr(&self, slot: usize) -> (r: Option<usize>) {
        let _len = self.0.len();
        if self.get_header(HeaderElem::ItemCount) < slot as u32 {
            None
        } else {
            let slot_ptr = self.get_slot_ptr(slot).unwrap();
            Some(read_u16(self.0.as_slice(), slot_ptr) as usize)
        }
    }

    fn get_slot_ptr(&self, slot: usize) -> (r: Option<usize>) {
        Some(HEADER_SIZE + slot * 2)
    }

    fn pointers(&self) -> (r: Vec<u16>) {
        self.slots_in_order()
    }

    fn search_key(&self, key: &[u8]) -> (r: Option<usize>) {
        let ptrs = self.pointers();
        self.key_search_in(ptrs.as_slice(), key)
    }

    fn search_partition(&self, key: &[u8]) -> (r: usize) {
        let ptrs = self.pointers();
        self.partition_in(ptrs.as_slice(), key)
    }

    fn find_child(&self, key: &[u8]) -> (r: u64) {
        let s = self.0.as_slice();
        let ghost b = self.0@;
        let len = s.len();
        let items = self.get_header(HeaderElem::ItemCount);
        let mut ptr: usize = 0;
        let mut idx: u32 = 0;
        proof {
            lemma_find_child_stops(b, items as int, key@);
        }
        loop
            invariant
                b == s@,
                b == self.0@,
                len == s@.len(),
                items as int == slot_count(b),
                idx == 0 || idx < items,
                child_walk_ok(b, ptr as int, idx as int, items as int, key@),
                child_walk(b, ptr as int, idx as int, items as int, key@) == child_walk(b, 0, 0, items as int, key@),
                exists|s: int|
                    #[trigger] child_stop(b, items as int, key@, s) && child_walk(b, 0, 0, items as int, key@)
                        == entry_child(b, s),
            decreases items - idx,
        {
            let page_id = read_u64(s, ptr);
            let ghost j = idx as int;
            let ghost off = ptr as int;
            idx = idx + 1;
            if idx >= items {
                assert(child_walk(b, off, j, items as int, key@) == u64_at(b, off));
                return page_id;
            }
            ptr = ptr + 8;
            let length = read_u16(s, ptr) as usize;
            ptr = ptr + 2;
            let c = compare_bytes(&s[ptr..ptr + length], key);
            proof {
                lemma_lex_order_basics(s@.subrange(ptr as int, ptr + length), key@);
            }
            if c > 0 {
                assert(child_walk(b, off, j, items as int, key@) == u64_at(b, off));
                proof {
                    let w = choose|w: int|
                        #[trigger] child_stop(b, items as int, key@, w) && child_walk(b, 0, 0, items as int, key@)
                            == entry_child(b, w);
                    assert(child_stop(self.page_bytes(), slot_count(self.page_bytes()), key@, w) && page_id
                        == entry_child(self.page_bytes(), w));
                }
                return page_id;
            }
            ptr = ptr + length;
            assert(child_walk(b, off, j, items as int, key@) == child_walk(b, ptr as int, idx as int, items as int, key@));
        }
    }
}

/// `b` with the bytes `data` written at `at`.
pub open spec fn put_bytes(b: Seq<u8>, at: int, data: Seq<u8>) -> Seq<u8> {
    b.take(at) + data + b.skip(at + data.len())
}

/// The page bytes `b` after `write_slot_at(idx, ptr)`: the slots from `idx`
/// to the last, and the two bytes past it, move up one slot, and slot `idx`
/// holds `ptr`.
pub open spec fn slot_inserted(b: Seq<u8>, idx: int, ptr: u16) -> Seq<u8> {
    let s = slot_offset(idx);
    let e = slot_offset(slot_count(b)) + 2;
    b.take(s) + u16_be(ptr) + b.subrange(s, e) + b.skip(e + 2)
}

/// The page bytes `b` after `init`.
pub open spec fn init_bytes(b: Seq<u8>, page_id: PageID, page_type: PageType, left: PageID, right: PageID) -> Seq<u8> {
    let b1 = put_u32(b, 0, page_id);
    let b2 = put_u32(b1, 4, page_type.spec_id() as u32);
    let b3 = put_u32(b2, 8, (PAGE_SIZE - 32) as u32);
    let b4 = put_u32(b3, 16, 0);
    let b5 = put_u32(b4, 20, left);
    let b6 = put_u32(b5, 24, right);
    put_u32(b6, 28, PAGE_SIZE as u32)
}

/// Where `insert` writes the tuple `data`: right below the free space
/// pointer.
pub open spec fn tuple_spot(b: Seq<u8>, data: Seq<u8>) -> int {
    header_of(b, HeaderElem::FreeSpacePtr) - data.len()
}

/// The page bytes `b` after `insert` writes the tuple `data` and puts its
/// slot at `idx`: then the free space shrinks by the tuple's length, the
/// free space pointer moves to the tuple, and the item count grows by one.
pub open spec fn inserted(b: Seq<u8>, data: Seq<u8>, idx: int) -> Seq<u8> {
    let at = tuple_spot(b, data);
    let b1 = put_bytes(b, at, data);
    let b2 = slot_inserted(b1, idx, at as u16);
    let b3 = put_u32(b2, 8, (header_of(b, HeaderElem::FreeSpace) - data.len()) as u32);
    let b4 = put_u32(b3, 28, at as u32);
    put_u32(b4, 16, (slot_count(b2) + 1) as u32)
}

/// Writing a page of this layout.
pub trait PageWriter: PageReader {
    /// Writes `value` into the header field `element`.
    fn set_header(&mut self, element: HeaderElem, value: u32)
        requires
            element.spec_offset() + 4 <= old(self).page_bytes().len(),
        ensures
            final(self).page_bytes() == put_u32(old(self).page_bytes(), element.spec_offset(), value),
    ;

    /// Sets the page up as empty: its id, type and siblings, everything after
    /// the header free, no tuples, and the free space pointer at the page
    /// size. The last-commit field is left as it was.
    fn init(&mut self, page_id: PageID, page_type: PageType, left_ptr: PageID, right_ptr: PageID)
        requires
            old(self).page_bytes().len() >= 32,
        ensures
            final(self).page_bytes() == init_bytes(old(self).page_bytes(), page_id, page_type, left_ptr, right_ptr),
    ;

    /// Inserts the tuple `data` right below the free space pointer, with its
    /// slot where `search_partition` puts its key; fails with `OutOfSpace`,
    /// changing nothing, when the tuple and a slot take more than the free
    /// space.
    fn insert(&mut self, data: &Tuple) -> (r: Result<(), PageWriteError>)
        requires
            old(self).page_bytes().len() >= 32,
            data.0@.len() + 2 <= usize::MAX,
            data.0@.len() + 2 <= header_of(old(self).page_bytes(), HeaderElem::FreeSpace) ==> {
                let b = old(self).page_bytes();
                let at = tuple_spot(b, data.0@);
                let b1 = put_bytes(b, at, data.0@);
                &&& 0 <= at <= 0xffff
                &&& header_of(b, HeaderElem::FreeSpacePtr) <= b.len()
                &&& data.0@.len() >= 4
                &&& 4 + u16_at(data.0@, 2) <= data.0@.len()
                &&& slot_offset(slot_count(b)) <= b.len()
                &&& keys_readable(b, slot_values(b, slot_count(b)))
                &&& slot_count(b) <= slot_count(b1) + 1
                &&& slot_offset(slot_count(b1)) + 4 <= b.len()
                &&& slot_count(b1) < u32::MAX
            },
        ensures
            data.0@.len() + 2 > header_of(old(self).page_bytes(), HeaderElem::FreeSpace) ==> {
                &&& r == Err::<(), PageWriteError>(PageWriteError::OutOfSpace)
                &&& final(self).page_bytes() == old(self).page_bytes()
            },
            data.0@.len() + 2 <= header_of(old(self).page_bytes(), HeaderElem::FreeSpace) ==> {
                &&& r is Ok
                &&& exists|idx: int|
                    #[trigger] partition_ok(
                        old(self).page_bytes(),
                        slot_values(old(self).page_bytes(), slot_count(old(self).page_bytes())),
                        tuple_key(data.0@),
                        idx,
                    ) && final(self).page_bytes() == inserted(old(self).page_bytes(), data.0@, idx)
            },
    ;

    /// Puts a slot holding `ptr` at position `idx`, moving the slots from
    /// `idx` to the last, and the two bytes past the last, up one slot.
    fn write_slot_at(&mut self, idx: usize, ptr: u16)
        requires
            old(self).page_bytes().len() >= 32,
            idx <= slot_count(old(self).page_bytes()) + 1,
            slot_offset(slot_count(old(self).page_bytes())) + 4 <= old(self).page_bytes().len(),
        ensures
            final(self).page_bytes() == slot_inserted(old(self).page_bytes(), idx as int, ptr),
    ;
}

impl Page {
    /// Writes `src` at `at`.
    fn write_at(&mut self, at: usize, src: &[u8])
        requires
            at + src@.len() <= old(self).0@.len(),
        ensures
            final(self).0@ == put_bytes(old(self).0@, at as int, src@),
    {
        let len = self.0.len();
        let mut k: usize = 0;
        while k < src.len()
            invariant
                0 <= k <= src@.len(),
                len == self.0@.len(),
                at + src@.len() <= self.0@.len(),
                self.0@.len() == old(self).0@.len(),
                forall|i: int|
                    0 <= i < self.0@.len() ==> #[trigger] self.0@[i] == if at <= i < at + k {
                        src@[i - at]
                    } else {
                        old(self).0@[i]
                    },
            decreases src@.len() - k,
        {
            self.0.set(at + k, src[k]);
            k = k + 1;
        }
        assert(self.0@ =~= put_bytes(old(self).0@, at as int, src@));
    }
}

impl PageWriter for Page {
    fn set_header(&mut self, element: HeaderElem, value: u32) {
        let offset = element.offset();
        let bytes = u32_to_be(value);
        self.write_at(offset, bytes.as_slice());
    }

    fn init(&mut self, page_id: PageID, page_type: PageType, left_ptr: PageID, right_ptr: PageID) {
        self.set_header(HeaderElem::PageID, page_id);
        self.set_header(HeaderElem::PageType, page_type.id() as u32);
        self.set_header(HeaderElem::FreeSpace, (PAGE_SIZE - HEADER_SIZE) as u32);
        self.set_header(HeaderElem::ItemCount, 0);
        self.set_header(HeaderElem::LeftPtr, left_ptr);
        self.set_header(HeaderElem::RightPtr, right_ptr);
        self.set_header(HeaderElem::FreeSpacePtr, PAGE_SIZE as u32);
    }

    fn insert(&mut self, data: &Tuple) -> (r: Result<(), PageWriteError>) {
        let ghost b = self.0@;
        let free_space = self.get_header(HeaderElem::FreeSpace);
        if data.len() + 2usize > free_space as usize {
            return Err(PageWriteError::OutOfSpace);
        }
        let tuple_write_ptr = self.get_header(HeaderElem::FreeSpacePtr) as usize - data.len();
        let slot_write_idx = self.search_partition(data.key());
        self.write_at(tuple_write_ptr, data.0.as_slice());
        let ghost b1 = self.0@;
        self.write_slot_at(slot_write_idx, tuple_write_ptr as u16);
        let ghost b2 = self.0@;
        let item_count = self.get_header(HeaderElem::ItemCount);
        self.set_header(HeaderElem::FreeSpace, free_space - data.len() as u32);
        self.set_header(HeaderElem::FreeSpacePtr, tuple_write_ptr as u32);
        self.set_header(HeaderElem::ItemCount, item_count + 1);
        proof {
            assert(partition_ok(b, slot_values(b, slot_count(b)), tuple_key(data.0@), slot_write_idx as int)
                && self.0@ == inserted(b, data.0@, slot_write_idx as int));
        }
        Ok(())
    }

    fn write_slot_at(&mut self, idx: usize, ptr: u16) {
        let ghost b = self.0@;
        let len = self.0.len();
        let item_count = self.get_header(HeaderElem::ItemCount);
        let start_ptr = self.get_slot_ptr(idx).unwrap();
        let end_ptr = self.get_slot_ptr(item_count as usize).unwrap();
        // Move the bytes `start_ptr..end_ptr + 2` up by two, from the top down.
        let mut k: usize = end_ptr + 2;
        while k > start_ptr
            invariant
                start_ptr <= k <= end_ptr + 2,
                start_ptr == slot_offset(idx as int),
                end_ptr == slot_offset(slot_count(b)),
                end_ptr + 4 <= b.len(),
                self.0@.len() == b.len(),
                len == b.len(),
                forall|i: int|
                    0 <= i < b.len() ==> #[trigger] self.0@[i] == if k + 2 <= i < end_ptr + 4 {
                        b[i - 2]
                    } else {
                        b[i]
                    },
            decreases k,
        {
            k = k - 1;
            let x = self.0[k];
            self.0.set(k + 2, x);
        }
        let bytes = u16_to_be(ptr);
        self.write_at(start_ptr, bytes.as_slice());
        assert(self.0@ =~= slot_inserted(b, idx as int, ptr));
    }
}

} // verus!
