//! Slotted pages: a fixed header, a slot array growing up from the header,
//! and tuple data growing down from the end of the page.
//!
//! Header (ten big-endian `u32`s): page id, page type, contiguous free space,
//! last commit, item count, left sibling, right sibling, free-space pointer,
//! left child, total free space. Slot `i` is the big-endian `u16` at
//! `HEADER_SIZE + 2 * i`: the offset of the `i`-th tuple in key order.
use vstd::prelude::*;

use super::tuple::{slice_to_vec, tuple_key, tuple_value, tuple_wf, Tuple, TupleBuf};
use crate::buffer_pool::PAGE_SIZE;
use crate::codec::{
    lemma_lex_le_transitive, lemma_lex_order_basics, lemma_u16_bytes_roundtrip, lemma_u16_roundtrip,
    lemma_u32_roundtrip, lex_le, lex_lt, read_u16, read_u32, u16_at, u16_be, u16_to_be, u32_at, u32_be,
    u32_to_be, compare_bytes,
};

verus! {

/// The page pointer that points nowhere.
pub const NULL_PTR: u32 = 0xffff_ffffu32;

/// Bytes taken by the page header.
pub const HEADER_SIZE: usize = 40;

/// Errors of page operations.
#[derive(Debug)]
pub enum PageReadWriteError {
    /// Not enough free space in the page for the insert.
    OutOfSpace,
    /// No tuple holds the key (its bytes, rendered with `{:?}`).
    KeyNotFound(String),
    /// A page-type field that is neither node nor leaf.
    PageTypeError(u32),
}

/// The fields of the page header.
#[derive(Debug, Clone, Copy, PartialEq, Eq, Structural)]
pub enum HeaderElem {
    PageID,
    PageType,
    ContFreeSpace,
    LastCommit,
    ItemCount,
    LeftSiblingPtr,
    RightSiblingPtr,
    FreeSpacePtr,
    LeftChildPtr,
    TotalFreeSpace,
}

impl HeaderElem {
    /// Byte offset of the field in the page.
    pub open spec fn spec_offset(self) -> int {
        match self {
            HeaderElem::PageID => 0,
            HeaderElem::PageType => 4,
            HeaderElem::ContFreeSpace => 8,
            HeaderElem::LastCommit => 12,
            HeaderElem::ItemCount => 16,
            HeaderElem::LeftSiblingPtr => 20,
            HeaderElem::RightSiblingPtr => 24,
            HeaderElem::FreeSpacePtr => 28,
            HeaderElem::LeftChildPtr => 32,
            HeaderElem::TotalFreeSpace => 36,
        }
    }

    fn offset(&self) -> (r: usize)
        ensures
            r == self.spec_offset(),
    {
        match self {
            HeaderElem::PageID => 0,
            HeaderElem::PageType => 4,
            HeaderElem::ContFreeSpace => 8,
            HeaderElem::LastCommit => 12,
            HeaderElem::ItemCount => 16,
            HeaderElem::LeftSiblingPtr => 20,
            HeaderElem::RightSiblingPtr => 24,
            HeaderElem::FreeSpacePtr => 28,
            HeaderElem::LeftChildPtr => 32,
            HeaderElem::TotalFreeSpace => 36,
        }
    }
}

/// Page type in the B-tree: nodes map keys to page ids, leaves map keys to tuples.
#[derive(Debug, Clone, Copy, PartialEq, Eq, Structural)]
pub enum PageType {
    /// Nodes always map key to page id.
    Node,
    /// Leaves always map key to tuple.
    Leaf,
}

impl PageType {
    /// The number stored in the page-type header field.
    pub open spec fn spec_id(self) -> u32 {
        match self {
            PageType::Node => 0,
            PageType::Leaf => 1,
        }
    }

    /// The number stored in the page-type header field.
    pub fn id(&self) -> (r: u32)
        ensures
            r == self.spec_id(),
    {
        match self {
            PageType::Node => 0,
            PageType::Leaf => 1,
        }
    }

    /// The page type stored as `type_id`: `0` is a node, `1` a leaf, anything
    /// else a `PageTypeError`.
    pub fn new(type_id: u32) -> (r: Result<Self, PageReadWriteError>)
        ensures
            type_id == 0 ==> r == Ok::<PageType, PageReadWriteError>(PageType::Node),
            type_id == 1 ==> r == Ok::<PageType, PageReadWriteError>(PageType::Leaf),
            type_id > 1 ==> (r matches Err(PageReadWriteError::PageTypeError(t)) && t == type_id),
    {
        match type_id {
            0 => Ok(PageType::Node),
            1 => Ok(PageType::Leaf),
            _ => Err(PageReadWriteError::PageTypeError(type_id)),
        }
    }
}

impl TryFrom<u32> for PageType {
    type Error = PageReadWriteError;

    /// The page type stored as `value`, as `PageType::new` reads it.
    fn try_from(value: u32) -> (r: Result<Self, Self::Error>) {
        PageType::new(value)
    }
}

impl vstd::std_specs::convert::TryFromSpecImpl<u32> for PageType {
    open spec fn obeys_try_from_spec() -> bool {
        true
    }

    open spec fn try_from_spec(v: u32) -> Result<Self, PageReadWriteError> {
        if v == 0 {
            Ok(PageType::Node)
        } else if v == 1 {
            Ok(PageType::Leaf)
        } else {
            Err(PageReadWriteError::PageTypeError(v))
        }
    }
}

/// Result of a free-space check before an insert.
enum SpaceStatus {
    Fits,
    NeedsCollapse,
    OutOfSpace,
}

/* Reading a page's bytes. */

/// The header field `e` of page bytes `b`.
pub open spec fn header_at(b: Seq<u8>, e: HeaderElem) -> u32 {
    u32_at(b, e.spec_offset())
}

/// Number of tuples in the page.
pub open spec fn item_count(b: Seq<u8>) -> int {
    header_at(b, HeaderElem::ItemCount) as int
}

/// Byte offset of slot `i`.
pub open spec fn slot_offset(i: int) -> int {
    HEADER_SIZE + 2 * i
}

/// The tuple offset stored in slot `i`.
pub open spec fn slot_at(b: Seq<u8>, i: int) -> int {
    u16_at(b, slot_offset(i)) as int
}

/// The tuple whose first byte is at `p`: as many bytes as its size field says.
pub open spec fn tuple_at(b: Seq<u8>, p: int) -> Seq<u8> {
    b.subrange(p, p + u16_at(b, p) as int)
}

/// The page's tuples, in slot order.
pub open spec fn page_tuples(b: Seq<u8>) -> Seq<Seq<u8>> {
    Seq::new(item_count(b) as nat, |i: int| tuple_at(b, slot_at(b, i)))
}

/// Bytes taken by tuples and their slots.
pub open spec fn used_space(ts: Seq<Seq<u8>>) -> int
    decreases ts.len(),
{
    if ts.len() == 0 {
        0
    } else {
        used_space(ts.drop_last()) + ts.last().len() + 2
    }
}

/// The keys of the tuples are in non-decreasing lexicographic order.
pub open spec fn keys_sorted(ts: Seq<Seq<u8>>) -> bool {
    forall|i: int, j: int|
        0 <= i <= j < ts.len() ==> #[trigger] lex_le(tuple_key(ts[i]), tuple_key(ts[j]))
}

/// Number of tuples whose key sorts before or equal to `key`, in a sorted sequence.
/// `r` is that number exactly when it splits `ts` this way.
pub open spec fn is_partition(ts: Seq<Seq<u8>>, key: Seq<u8>, r: int) -> bool {
    &&& 0 <= r <= ts.len()
    &&& forall|i: int| 0 <= i < r ==> lex_le(#[trigger] tuple_key(ts[i]), key)
    &&& forall|i: int| r <= i < ts.len() ==> lex_lt(key, #[trigger] tuple_key(ts[i]))
}

/// Page bytes that the page operations can work on.
pub open spec fn page_wf(b: Seq<u8>) -> bool {
    let n = item_count(b);
    let fsp = header_at(b, HeaderElem::FreeSpacePtr) as int;
    let cont = header_at(b, HeaderElem::ContFreeSpace) as int;
    let total = header_at(b, HeaderElem::TotalFreeSpace) as int;
    &&& b.len() == PAGE_SIZE
    &&& HEADER_SIZE + 2 * n <= fsp <= PAGE_SIZE
    &&& cont + HEADER_SIZE + 2 * n <= fsp
    &&& cont <= total
    &&& total == PAGE_SIZE - HEADER_SIZE - used_space(page_tuples(b))
    &&& forall|i: int|
        0 <= i < n ==> {
            &&& fsp <= #[trigger] slot_at(b, i)
            &&& slot_at(b, i) + 2 <= PAGE_SIZE
            &&& slot_at(b, i) + u16_at(b, slot_at(b, i)) <= PAGE_SIZE
            &&& tuple_wf(tuple_at(b, slot_at(b, i)))
        }
    &&& keys_sorted(page_tuples(b))
    &&& header_at(b, HeaderElem::PageType) <= 1
}

/// What a page holds: its links and its tuples in key order.
pub struct PageView {
    pub page_id: u32,
    pub page_type: u32,
    pub left_sibling: u32,
    pub right_sibling: u32,
    pub left_child: u32,
    pub tuples: Seq<Seq<u8>>,
}

/// The view of page bytes `b`.
pub open spec fn page_view(b: Seq<u8>) -> PageView {
    PageView {
        page_id: header_at(b, HeaderElem::PageID),
        page_type: header_at(b, HeaderElem::PageType),
        left_sibling: header_at(b, HeaderElem::LeftSiblingPtr),
        right_sibling: header_at(b, HeaderElem::RightSiblingPtr),
        left_child: header_at(b, HeaderElem::LeftChildPtr),
        tuples: page_tuples(b),
    }
}

/// The split point `split_half` uses: the index of the first tuple that leaves
/// the page, for `n` tuples and a new key that sorts at `key_loc`.
pub open spec fn split_point(n: int, key_loc: int) -> int {
    let middle = (n + 1) / 2;
    if key_loc < middle {
        middle - 1
    } else {
        middle
    }
}

/* Lemmas about tuple sequences and page layouts. */

/// Inserting a tuple adds its length and slot to the used space.
pub proof fn lemma_used_space_insert(ts: Seq<Seq<u8>>, p: int, t: Seq<u8>)
    requires
        0 <= p <= ts.len(),
    ensures
        used_space(ts.insert(p, t)) == used_space(ts) + t.len() + 2,
    decreases ts.len(),
{
    if p == ts.len() {
        assert(ts.insert(p, t).drop_last() =~= ts);
    } else {
        lemma_used_space_insert(ts.drop_last(), p, t);
        assert(ts.insert(p, t).drop_last() =~= ts.drop_last().insert(p, t));
    }
}

/// Removing a tuple frees its length and slot.
pub proof fn lemma_used_space_remove(ts: Seq<Seq<u8>>, i: int)
    requires
        0 <= i < ts.len(),
    ensures
        used_space(ts.remove(i)) == used_space(ts) - ts[i].len() - 2,
{
    lemma_used_space_insert(ts.remove(i), i, ts[i]);
    assert(ts.remove(i).insert(i, ts[i]) =~= ts);
}

/// The used space of a prefix grows one tuple at a time and is at most the whole.
pub proof fn lemma_used_space_take(ts: Seq<Seq<u8>>, k: int)
    requires
        0 <= k < ts.len(),
    ensures
        used_space(ts.take(k + 1)) == used_space(ts.take(k)) + ts[k].len() + 2,
        used_space(ts.take(k + 1)) <= used_space(ts),
    decreases ts.len() - k,
{
    assert(ts.take(k + 1).drop_last() =~= ts.take(k));
    if k + 1 == ts.len() {
        assert(ts.take(k + 1) =~= ts);
    } else {
        lemma_used_space_take(ts, k + 1);
    }
}

/// Used space is never negative.
pub proof fn lemma_used_space_nonneg(ts: Seq<Seq<u8>>)
    ensures
        used_space(ts) >= 2 * ts.len(),
    decreases ts.len(),
{
    if ts.len() > 0 {
        lemma_used_space_nonneg(ts.drop_last());
    }
}

/// At most one index splits a sequence at a key.
pub proof fn lemma_partition_unique(ts: Seq<Seq<u8>>, key: Seq<u8>, r1: int, r2: int)
    requires
        is_partition(ts, key, r1),
        is_partition(ts, key, r2),
    ensures
        r1 == r2,
{
    if r1 < r2 {
        assert(lex_le(tuple_key(ts[r1]), key));
        assert(lex_lt(key, tuple_key(ts[r1])));
        lemma_lex_order_basics(key, tuple_key(ts[r1]));
    } else if r2 < r1 {
        assert(lex_le(tuple_key(ts[r2]), key));
        assert(lex_lt(key, tuple_key(ts[r2])));
        lemma_lex_order_basics(key, tuple_key(ts[r2]));
    }
}

/// The partition point of `key` in `ts`.
pub open spec fn partition_of(ts: Seq<Seq<u8>>, key: Seq<u8>) -> int {
    choose|r: int| is_partition(ts, key, r)
}

/// A found partition point is the partition point.
pub proof fn lemma_partition_of(ts: Seq<Seq<u8>>, key: Seq<u8>, r: int)
    requires
        is_partition(ts, key, r),
    ensures
        partition_of(ts, key) == r,
{
    lemma_partition_unique(ts, key, r, partition_of(ts, key));
}

/// Used space adds up over concatenation.
pub proof fn lemma_used_space_concat(a: Seq<Seq<u8>>, b: Seq<Seq<u8>>)
    ensures
        used_space(a + b) == used_space(a) + used_space(b),
    decreases b.len(),
{
    if b.len() > 0 {
        lemma_used_space_concat(a, b.drop_last());
        assert((a + b).drop_last() =~= a + b.drop_last());
    } else {
        assert(a + b =~= a);
    }
}

/// A run of tuples takes no more space than the whole sequence.
pub proof fn lemma_used_space_subrange(ts: Seq<Seq<u8>>, i: int, j: int)
    requires
        0 <= i <= j <= ts.len(),
    ensures
        used_space(ts.subrange(i, j)) <= used_space(ts),
{
    let a = ts.take(i);
    let b = ts.subrange(i, j);
    let c = ts.skip(j);
    assert(ts =~= a + b + c);
    lemma_used_space_concat(a + b, c);
    lemma_used_space_concat(a, b);
    lemma_used_space_nonneg(a);
    lemma_used_space_nonneg(c);
}

/// `r` splits the sorted `ts` into the tuples whose key sorts strictly before
/// `key` and the rest.
pub open spec fn is_lower_partition(ts: Seq<Seq<u8>>, key: Seq<u8>, r: int) -> bool {
    &&& 0 <= r <= ts.len()
    &&& forall|i: int| 0 <= i < r ==> lex_lt(#[trigger] tuple_key(ts[i]), key)
    &&& forall|i: int| r <= i < ts.len() ==> lex_le(key, #[trigger] tuple_key(ts[i]))
}

/// The child an inner node with view `v` sends the search for `key` to: its
/// left child when `key` sorts before all its keys, else the page id held by
/// the last tuple whose key sorts before or equal to `key`.
pub open spec fn child_for(v: PageView, key: Seq<u8>) -> u32 {
    let p = partition_of(v.tuples, key);
    if p == 0 {
        v.left_child
    } else {
        u32_at(tuple_value(v.tuples[p - 1]), 0)
    }
}

/// A sorted sequence has a partition point for every key.
pub proof fn lemma_partition_exists(ts: Seq<Seq<u8>>, key: Seq<u8>)
    requires
        keys_sorted(ts),
    ensures
        is_partition(ts, key, partition_of(ts, key)),
    decreases ts.len(),
{
    if ts.len() == 0 {
        lemma_partition_of(ts, key, 0);
    } else {
        let init = ts.drop_last();
        assert(keys_sorted(init)) by {
            assert forall|i: int, j: int| 0 <= i <= j < init.len() implies #[trigger] lex_le(
                tuple_key(init[i]),
                tuple_key(init[j]),
            ) by {
                assert(lex_le(tuple_key(ts[i]), tuple_key(ts[j])));
            }
        }
        lemma_partition_exists(init, key);
        let r0 = partition_of(init, key);
        let last = tuple_key(ts.last());
        lemma_lex_order_basics(last, key);
        if lex_le(last, key) {
            assert forall|i: int| 0 <= i < ts.len() implies lex_le(#[trigger] tuple_key(ts[i]), key) by {
                assert(lex_le(tuple_key(ts[i]), tuple_key(ts[ts.len() - 1])));
                lemma_lex_le_transitive(tuple_key(ts[i]), last, key);
            }
            lemma_partition_of(ts, key, ts.len() as int);
        } else {
            assert forall|i: int| 0 <= i < r0 implies lex_le(#[trigger] tuple_key(ts[i]), key) by {
                assert(tuple_key(init[i]) == tuple_key(ts[i]));
            }
            assert forall|i: int| r0 <= i < ts.len() implies lex_lt(key, #[trigger] tuple_key(ts[i])) by {
                if i < ts.len() - 1 {
                    assert(tuple_key(init[i]) == tuple_key(ts[i]));
                }
            }
            lemma_partition_of(ts, key, r0);
        }
    }
}

/// Deleting the key of a tuple just inserted into a page where no tuple had
/// that key gives back the page's tuples, and with them its used space.
pub proof fn lemma_delete_undoes_insert(ts: Seq<Seq<u8>>, t: Seq<u8>, i: int)
    requires
        keys_sorted(ts),
        forall|j: int| 0 <= j < ts.len() ==> tuple_key(#[trigger] ts[j]) != tuple_key(t),
        0 <= i <= ts.len(),
        tuple_key(ts.insert(partition_of(ts, tuple_key(t)), t)[i]) == tuple_key(t),
    ensures
        ts.insert(partition_of(ts, tuple_key(t)), t).remove(i) == ts,
        used_space(ts.insert(partition_of(ts, tuple_key(t)), t).remove(i)) == used_space(ts),
{
    let k = tuple_key(t);
    lemma_partition_exists(ts, k);
    let p = partition_of(ts, k);
    let grown = ts.insert(p, t);
    if i < p {
        assert(grown[i] == ts[i]);
    } else if i > p {
        assert(grown[i] == ts[i - 1]);
    }
    assert(i == p);
    assert(grown.remove(i) =~= ts);
}

/// A well-formed page holding no tuple has all the space after its header free.
pub proof fn lemma_empty_page_space(b: Seq<u8>)
    requires
        page_wf(b),
        page_tuples(b).len() == 0,
    ensures
        header_at(b, HeaderElem::TotalFreeSpace) == PAGE_SIZE - HEADER_SIZE,
{
}

/// The tuples of a page that starts empty and gets the tuples `us` inserted
/// one after another, each after the tuples whose keys sort before or equal
/// to its own.
pub open spec fn inserted_in_turn(us: Seq<Seq<u8>>) -> Seq<Seq<u8>>
    decreases us.len(),
{
    if us.len() == 0 {
        Seq::empty()
    } else {
        let prev = inserted_in_turn(us.drop_last());
        prev.insert(partition_of(prev, tuple_key(us.last())), us.last())
    }
}

/// Whatever order tuples are inserted in, the page holds every one of them,
/// once each, sorted by key.
pub proof fn lemma_any_insert_order_sorted(us: Seq<Seq<u8>>)
    ensures
        keys_sorted(inserted_in_turn(us)),
        inserted_in_turn(us).to_multiset() == us.to_multiset(),
    decreases us.len(),
{
    if us.len() == 0 {
        assert(inserted_in_turn(us) =~= Seq::<Seq<u8>>::empty());
        assert(us =~= Seq::<Seq<u8>>::empty());
    } else {
        let init = us.drop_last();
        let t = us.last();
        lemma_any_insert_order_sorted(init);
        let prev = inserted_in_turn(init);
        let p = partition_of(prev, tuple_key(t));
        lemma_partition_exists(prev, tuple_key(t));
        lemma_sorted_insert(prev, p, t);
        broadcast use vstd::multiset::group_multiset_axioms;
        let a = prev.take(p);
        let b = prev.skip(p);
        vstd::seq_lib::lemma_multiset_commutative(a, seq![t] + b);
        vstd::seq_lib::lemma_multiset_commutative(seq![t], b);
        vstd::seq_lib::lemma_multiset_commutative(a, b);
        assert(prev.insert(p, t) =~= a + (seq![t] + b));
        assert(prev =~= a + b);
        assert(us =~= init.push(t));
        Seq::<Seq<u8>>::empty().to_multiset_ensures();
        assert(seq![t] =~= Seq::<Seq<u8>>::empty().push(t));
        assert(Seq::<Seq<u8>>::empty().to_multiset() =~= vstd::multiset::Multiset::empty());
        init.to_multiset_ensures();
    }
}

/// Inserting a tuple at its partition point keeps the keys sorted.
pub proof fn lemma_sorted_insert(ts: Seq<Seq<u8>>, p: int, t: Seq<u8>)
    requires
        keys_sorted(ts),
        is_partition(ts, tuple_key(t), p),
    ensures
        keys_sorted(ts.insert(p, t)),
{
    let ts1 = ts.insert(p, t);
    assert forall|i: int, j: int| 0 <= i <= j < ts1.len() implies #[trigger] lex_le(
        tuple_key(ts1[i]),
        tuple_key(ts1[j]),
    ) by {
        if i < p && j > p {
            assert(lex_le(tuple_key(ts[i]), tuple_key(ts[j - 1])));
        } else if i < p && j == p {
            assert(lex_le(tuple_key(ts[i]), tuple_key(t)));
        } else if i == p && j > p {
            assert(lex_lt(tuple_key(t), tuple_key(ts[j - 1])));
        } else if i == p && j == p {
            lemma_lex_order_basics(tuple_key(t), tuple_key(t));
        } else if i < p {
            assert(lex_le(tuple_key(ts[i]), tuple_key(ts[j])));
        } else {
            assert(lex_le(tuple_key(ts[i - 1]), tuple_key(ts[j - 1])));
        }
    }
}

/// Removing a tuple keeps the keys sorted.
pub proof fn lemma_sorted_remove(ts: Seq<Seq<u8>>, k: int)
    requires
        keys_sorted(ts),
        0 <= k < ts.len(),
    ensures
        keys_sorted(ts.remove(k)),
{
    let ts1 = ts.remove(k);
    assert forall|i: int, j: int| 0 <= i <= j < ts1.len() implies #[trigger] lex_le(
        tuple_key(ts1[i]),
        tuple_key(ts1[j]),
    ) by {
        let i0 = if i < k { i } else { i + 1 };
        let j0 = if j < k { j } else { j + 1 };
        assert(lex_le(tuple_key(ts[i0]), tuple_key(ts[j0])));
    }
}

/// A tuple reads the same from two byte strings that agree on its bytes.
pub proof fn lemma_tuple_at_frame(b1: Seq<u8>, b2: Seq<u8>, p: int, lo: int, hi: int)
    requires
        0 <= lo <= p,
        p + 2 <= hi,
        p + u16_at(b1, p) <= hi,
        hi <= b1.len(),
        hi <= b2.len(),
        forall|j: int| lo <= j < hi ==> b1[j] == b2[j],
    ensures
        u16_at(b1, p) == u16_at(b2, p),
        tuple_at(b1, p) == tuple_at(b2, p),
{
    assert(b1[p] == b2[p] && b1[p + 1] == b2[p + 1]);
    assert(tuple_at(b1, p) =~= tuple_at(b2, p));
}

/// A header field reads the same from two byte strings that agree on the header.
pub proof fn lemma_header_frame(b1: Seq<u8>, b2: Seq<u8>, e: HeaderElem)
    requires
        b1.len() >= HEADER_SIZE,
        b2.len() >= HEADER_SIZE,
        forall|j: int| 0 <= j < HEADER_SIZE ==> b1[j] == b2[j],
    ensures
        header_at(b1, e) == header_at(b2, e),
{
    let o = e.spec_offset();
    assert(b1[o] == b2[o] && b1[o + 1] == b2[o + 1] && b1[o + 2] == b2[o + 2] && b1[o + 3] == b2[o
        + 3]);
}

/// Rewriting a link field of the header (the page's id, its last commit, its
/// siblings or its left child) keeps the page well formed with the same tuples
/// and the other header fields.
pub proof fn lemma_link_update(b0: Seq<u8>, b1: Seq<u8>, e: HeaderElem)
    requires
        page_wf(b0),
        e == HeaderElem::PageID || e == HeaderElem::LastCommit || e == HeaderElem::LeftSiblingPtr
            || e == HeaderElem::RightSiblingPtr || e == HeaderElem::LeftChildPtr,
        b1.len() == b0.len(),
        forall|j: int|
            0 <= j < b0.len() && !(e.spec_offset() <= j < e.spec_offset() + 4) ==> b1[j] == b0[j],
    ensures
        page_wf(b1),
        page_tuples(b1) == page_tuples(b0),
        forall|f: HeaderElem| f != e ==> #[trigger] header_at(b1, f) == header_at(b0, f),
{
    assert forall|f: HeaderElem| f != e implies #[trigger] header_at(b1, f) == header_at(b0, f) by {
        let o = f.spec_offset();
        assert(b1[o] == b0[o] && b1[o + 1] == b0[o + 1] && b1[o + 2] == b0[o + 2] && b1[o + 3]
            == b0[o + 3]);
    }
    assert(header_at(b1, HeaderElem::ItemCount) == header_at(b0, HeaderElem::ItemCount));
    assert(header_at(b1, HeaderElem::FreeSpacePtr) == header_at(b0, HeaderElem::FreeSpacePtr));
    assert(header_at(b1, HeaderElem::ContFreeSpace) == header_at(b0, HeaderElem::ContFreeSpace));
    assert(header_at(b1, HeaderElem::TotalFreeSpace) == header_at(b0, HeaderElem::TotalFreeSpace));
    assert(header_at(b1, HeaderElem::PageType) == header_at(b0, HeaderElem::PageType));
    let n = item_count(b0);
    let fsp = header_at(b0, HeaderElem::FreeSpacePtr) as int;
    assert forall|i: int| 0 <= i < n implies #[trigger] slot_at(b1, i) == slot_at(b0, i) by {
        assert(b1[slot_offset(i)] == b0[slot_offset(i)]);
        assert(b1[slot_offset(i) + 1] == b0[slot_offset(i) + 1]);
    }
    assert forall|i: int| 0 <= i < n implies #[trigger] tuple_at(b1, slot_at(b1, i)) == tuple_at(
        b0,
        slot_at(b0, i),
    ) && u16_at(b1, slot_at(b1, i)) == u16_at(b0, slot_at(b0, i)) by {
        assert(slot_at(b1, i) == slot_at(b0, i));
        assert(fsp <= slot_at(b0, i));
        lemma_tuple_at_frame(b0, b1, slot_at(b0, i), HEADER_SIZE as int, PAGE_SIZE as int);
    }
    assert(page_tuples(b1) =~= page_tuples(b0));
}

/// The layout after writing a tuple below the free-space pointer, shifting
/// the slots from `p` on, pointing slot `p` at it and updating the header.
proof fn lemma_insert_layout(b0: Seq<u8>, bf: Seq<u8>, p: int, data: Seq<u8>)
    requires
        page_wf(b0),
        tuple_wf(data),
        header_at(b0, HeaderElem::ContFreeSpace) >= data.len() + 2,
        is_partition(page_tuples(b0), tuple_key(data), p),
        bf.len() == PAGE_SIZE,
        ({
            let fsp = header_at(b0, HeaderElem::FreeSpacePtr) as int;
            let w = fsp - data.len();
            let n = item_count(b0);
            &&& forall|j: int| w <= j < fsp ==> bf[j] == data[j - w]
            &&& forall|j: int| fsp <= j < PAGE_SIZE ==> bf[j] == b0[j]
            &&& forall|k: int| 0 <= k < p ==> slot_at(bf, k) == slot_at(b0, k)
            &&& slot_at(bf, p) == w
            &&& forall|k: int| p < k <= n ==> slot_at(bf, k) == slot_at(b0, k - 1)
            &&& item_count(bf) == n + 1
            &&& header_at(bf, HeaderElem::FreeSpacePtr) == w
            &&& header_at(bf, HeaderElem::ContFreeSpace) == header_at(b0, HeaderElem::ContFreeSpace)
                - data.len() - 2
            &&& header_at(bf, HeaderElem::TotalFreeSpace) == header_at(
                b0,
                HeaderElem::TotalFreeSpace,
            ) - data.len() - 2
            &&& header_at(bf, HeaderElem::PageType) == header_at(b0, HeaderElem::PageType)
        }),
    ensures
        page_wf(bf),
        page_tuples(bf) == page_tuples(b0).insert(p, data),
{
    let fsp = header_at(b0, HeaderElem::FreeSpacePtr) as int;
    let w = fsp - data.len();
    let n = item_count(b0);
    let ts0 = page_tuples(b0);
    let ts1 = ts0.insert(p, data);
    assert(u16_at(data, 0) == data.len());
    assert forall|k: int| 0 <= k < n + 1 implies #[trigger] tuple_at(bf, slot_at(bf, k)) == ts1[k]
        && fsp - data.len() <= slot_at(bf, k) && slot_at(bf, k) + 2 <= PAGE_SIZE && slot_at(bf, k)
        + u16_at(bf, slot_at(bf, k)) <= PAGE_SIZE by {
        if k == p {
            assert(bf[w] == data[0] && bf[w + 1] == data[1]);
            assert(u16_at(bf, w) == u16_at(data, 0));
            assert(tuple_at(bf, w) =~= data);
        } else {
            let k0 = if k < p { k } else { k - 1 };
            let s = slot_at(b0, k0);
            assert(fsp <= slot_at(b0, k0));
            lemma_tuple_at_frame(b0, bf, s, fsp, PAGE_SIZE as int);
        }
    }
    assert(page_tuples(bf) =~= ts1);
    lemma_used_space_insert(ts0, p, data);
    lemma_sorted_insert(ts0, p, data);
}

/// The character of the decimal digit `d`.
pub open spec fn digit_char(d: nat) -> char {
    (48 + d) as char
}

/// The decimal digits of `n`, most significant first, without leading zeros.
pub open spec fn decimal(n: nat) -> Seq<char>
    decreases n,
{
    if n < 10 {
        seq![digit_char(n)]
    } else {
        decimal(n / 10).push(digit_char(n % 10))
    }
}

/// The bytes of `b` in decimal, separated by a comma and a space.
pub open spec fn decimal_list(b: Seq<u8>) -> Seq<char>
    decreases b.len(),
{
    if b.len() == 0 {
        Seq::empty()
    } else if b.len() == 1 {
        decimal(b[0] as nat)
    } else {
        decimal_list(b.drop_last()) + seq![',', ' '] + decimal(b.last() as nat)
    }
}

/// The text `{:?}` renders for a byte string: its bytes in decimal, separated
/// by a comma and a space, between square brackets.
pub open spec fn debug_bytes(b: Seq<u8>) -> Seq<char> {
    seq!['['] + decimal_list(b) + seq![']']
}

/// Renders a byte string with `{:?}`, as in `[1, 2, 3]`: the `Debug` format
/// of a slice lists its items between square brackets, separated by a comma
/// and a space, and that of a `u8` is its decimal number.
#[verifier::external_body]
fn format_bytes(b: &[u8]) -> (r: String)
    ensures
        r@ == debug_bytes(b@),
{
    format!("{:?}", b)
}

/// The tuple `split_half` hands to the parent for tuples `ts` and new tuple `t`.
pub open spec fn split_middle(ts: Seq<Seq<u8>>, t: Seq<u8>) -> Seq<u8> {
    let middle = (ts.len() + 1) as int / 2;
    let key_loc = partition_of(ts, tuple_key(t));
    if key_loc < middle {
        ts[middle - 1]
    } else if key_loc == middle {
        t
    } else {
        ts[middle]
    }
}

/// Every tuple of an inner node holds a four-byte page id as its value.
pub open spec fn node_values_wf(ts: Seq<Seq<u8>>) -> bool {
    forall|i: int| 0 <= i < ts.len() ==> (#[trigger] tuple_value(ts[i])).len() == 4
}

/// A page: its bytes, read through the slotted layout.
pub struct SlottedPage {
    bytes: Vec<u8>,
}

impl View for SlottedPage {
    type V = PageView;

    open spec fn view(&self) -> PageView {
        page_view(self.spec_bytes())
    }
}

impl SlottedPage {
    /// The page's bytes.
    pub closed spec fn spec_bytes(&self) -> Seq<u8> {
        self.bytes@
    }

    /// The page is well formed.
    pub open spec fn wf(&self) -> bool {
        page_wf(self.spec_bytes())
    }

    /// The page's tuples, in key order.
    pub open spec fn tuples(&self) -> Seq<Seq<u8>> {
        page_tuples(self.spec_bytes())
    }

    /// The header field `e`.
    pub open spec fn header(&self, e: HeaderElem) -> u32 {
        header_at(self.spec_bytes(), e)
    }

    /*
    INIT OPERATIONS
    */
    /// Reads `bytes` as a page.
    pub fn from_bytes(bytes: Vec<u8>) -> (r: Self)
        ensures
            r.spec_bytes() == bytes@,
    {
        SlottedPage { bytes }
    }

    /// The page's bytes.
    pub fn as_bytes(&self) -> (r: &[u8])
        ensures
            r@ == self.spec_bytes(),
    {
        self.bytes.as_slice()
    }

    /// Gives the page's bytes back.
    pub fn into_bytes(self) -> (r: Vec<u8>)
        ensures
            r@ == self.spec_bytes(),
    {
        self.bytes
    }

    /*
    HEADER OPERATIONS
    */
    /// Reads the header field `element`.
    pub fn get_header(&self, element: &HeaderElem) -> (r: u32)
        requires
            self.spec_bytes().len() >= HEADER_SIZE,
        ensures
            r == self.header(*element),
    {
        let offset = element.offset();
        read_u32(self.bytes.as_slice(), offset)
    }

    /// Writes `src` at `at`, leaving every other byte as it was.
    fn write_at(&mut self, at: usize, src: &[u8])
        requires
            at + src@.len() <= old(self).spec_bytes().len(),
        ensures
            final(self).spec_bytes().len() == old(self).spec_bytes().len(),
            forall|i: int|
                0 <= i < final(self).spec_bytes().len() ==> #[trigger] final(self).spec_bytes()[i]
                    == if at <= i < at + src@.len() {
                    src@[i - at]
                } else {
                    old(self).spec_bytes()[i]
                },
    {
        let mut k: usize = 0;
        let len = self.bytes.len();
        while k < src.len()
            invariant
                0 <= k <= src@.len(),
                len == self.bytes@.len(),
                at + src@.len() <= self.bytes@.len(),
                self.bytes@.len() == old(self).bytes@.len(),
                forall|i: int|
                    0 <= i < self.bytes@.len() ==> #[trigger] self.bytes@[i] == if at <= i < at
                        + k {
                        src@[i - at]
                    } else {
                        old(self).bytes@[i]
                    },
            decreases src@.len() - k,
        {
            self.bytes.set(at + k, src[k]);
            k = k + 1;
        }
    }

    /// Writes the header field `element`.
    pub fn set_header(&mut self, element: &HeaderElem, value: u32)
        requires
            old(self).spec_bytes().len() >= HEADER_SIZE,
        ensures
            final(self).spec_bytes() == old(self).spec_bytes().take(element.spec_offset())
                + u32_be(value) + old(self).spec_bytes().skip(element.spec_offset() + 4),
            final(self).header(*element) == value,
            final(self).spec_bytes().len() == old(self).spec_bytes().len(),
            forall|i: int|
                0 <= i < old(self).spec_bytes().len() && !(element.spec_offset() <= i
                    < element.spec_offset() + 4) ==> #[trigger] final(self).spec_bytes()[i] == old(
                    self,
                ).spec_bytes()[i],
    {
        let offset = element.offset();
        let bytes = u32_to_be(value);
        self.write_at(offset, bytes.as_slice());
        proof {
            assert(self.spec_bytes() =~= old(self).spec_bytes().take(element.spec_offset())
                + u32_be(value) + old(self).spec_bytes().skip(element.spec_offset() + 4));
            lemma_u32_roundtrip(value);
            assert(self.spec_bytes().subrange(offset as int, offset + 4) =~= u32_be(value));
        }
    }

    /// Adds `diff` to the header field `element`, keeping the low 32 bits.
    pub fn update_header(&mut self, element: &HeaderElem, diff: i64)
        requires
            old(self).spec_bytes().len() >= HEADER_SIZE,
            i64::MIN <= old(self).header(*element) + diff <= i64::MAX,
        ensures
            final(self).spec_bytes() == old(self).spec_bytes().take(element.spec_offset())
                + u32_be((old(self).header(*element) + diff) as u32) + old(
                self,
            ).spec_bytes().skip(element.spec_offset() + 4),
            final(self).header(*element) == (old(self).header(*element) + diff) as u32,
            final(self).spec_bytes().len() == old(self).spec_bytes().len(),
            forall|i: int|
                0 <= i < old(self).spec_bytes().len() && !(element.spec_offset() <= i
                    < element.spec_offset() + 4) ==> #[trigger] final(self).spec_bytes()[i] == old(
                    self,
                ).spec_bytes()[i],
    {
        let current = self.get_header(element);
        self.set_header(element, ((current as i64) + diff) as u32);
    }

    /// How full the page is, in percent of its contiguous free space: 100
    /// less the free space in hundredths of a page's room for tuples, the
    /// quotient taken as a byte (its value modulo 256).
    pub fn percent_full(&self) -> (r: u8)
        requires
            self.spec_bytes().len() >= HEADER_SIZE,
            self.header(HeaderElem::ContFreeSpace) * 100 <= usize::MAX,
            (self.header(HeaderElem::ContFreeSpace) * 100 / (PAGE_SIZE - HEADER_SIZE) as int) % 256 <= 100,
        ensures
            r == 100 - (self.header(HeaderElem::ContFreeSpace) * 100 / (PAGE_SIZE - HEADER_SIZE) as int) % 256,
    {
        let cont = self.get_header(&HeaderElem::ContFreeSpace) as usize;
        let scaled = cont * 100;
        let q = scaled / (PAGE_SIZE - HEADER_SIZE);
        let b = q as u8;
        assert(b == q % 256) by (bit_vector)
            requires
                b == q as u8,
        ;
        100 - b
    }

    /*
    B-TREE OPERATIONS
    */
    /// Sets up an empty page with the given id, type and links.
    pub fn init(
        &mut self,
        page_id: u32,
        page_type: PageType,
        left_ptr: u32,
        right_ptr: u32,
        left_child_ptr: u32,
    )
        requires
            old(self).spec_bytes().len() == PAGE_SIZE,
        ensures
            final(self).wf(),
            final(self)@ == (PageView {
                page_id,
                page_type: page_type.spec_id(),
                left_sibling: left_ptr,
                right_sibling: right_ptr,
                left_child: left_child_ptr,
                tuples: Seq::empty(),
            }),
            final(self).header(HeaderElem::ContFreeSpace) == PAGE_SIZE - HEADER_SIZE,
            final(self).header(HeaderElem::TotalFreeSpace) == PAGE_SIZE - HEADER_SIZE,
            final(self).header(HeaderElem::FreeSpacePtr) == PAGE_SIZE,
            final(self).header(HeaderElem::LastCommit) == old(self).header(HeaderElem::LastCommit),
            forall|j: int|
                HEADER_SIZE <= j < PAGE_SIZE ==> #[trigger] final(self).spec_bytes()[j] == old(
                    self,
                ).spec_bytes()[j],
    {
        let ghost b0 = self.spec_bytes();
        self.set_header(&HeaderElem::PageID, page_id);
        self.set_header(&HeaderElem::PageType, page_type.id());
        self.set_header(&HeaderElem::ContFreeSpace, (PAGE_SIZE - HEADER_SIZE) as u32);
        self.set_header(&HeaderElem::TotalFreeSpace, (PAGE_SIZE - HEADER_SIZE) as u32);
        self.set_header(&HeaderElem::ItemCount, 0);
        self.set_header(&HeaderElem::LeftSiblingPtr, left_ptr);
        self.set_header(&HeaderElem::RightSiblingPtr, right_ptr);
        self.set_header(&HeaderElem::FreeSpacePtr, PAGE_SIZE as u32);
        self.set_header(&HeaderElem::LeftChildPtr, left_child_ptr);
        proof {
            let b = self.spec_bytes();
            assert(page_tuples(b) =~= Seq::<Seq<u8>>::empty());
        }
    }

    /// The key bytes of the tuple in slot `idx`.
    fn key_at(&self, idx: usize) -> (r: &[u8])
        requires
            self.wf(),
            idx < self.tuples().len(),
        ensures
            r@ == tuple_key(self.tuples()[idx as int]),
    {
        let ghost b = self.spec_bytes();
        let s = self.bytes.as_slice();
        let slot = read_u16(s, HEADER_SIZE + idx * 2) as usize;
        proof {
            assert(slot == slot_at(b, idx as int));
        }
        let ghost t = tuple_at(b, slot as int);
        assert(u16_at(t, 2) == u16_at(b, slot + 2));
        let ks = read_u16(s, slot + 2) as usize;
        let r = &s[slot + 4..slot + 4 + ks];
        assert(r@ =~= tuple_key(t));
        r
    }

    /// The index at which a tuple with `key` is inserted to keep the slots
    /// sorted: after every tuple whose key sorts before or equal to `key`.
    ///
    /// For a page holding keys `[3, 5, 5, 7]`: `key = 2` gives `0`, `key = 5`
    /// gives `3` (after the last `5`, so equal keys keep their insertion order)
    /// and `key = 9` gives `4`.
    pub fn find_partition(&self, key: &[u8]) -> (r: usize)
        requires
            self.wf(),
        ensures
            is_partition(self.tuples(), key@, r as int),
    {
        let count = self.get_header(&HeaderElem::ItemCount);
        if count == 0 {
            0
        } else {
            self.find_partition_inner(key, 0, count as usize - 1)
        }
    }

    /// Binary search for the partition point within the inclusive range `[low, high]`.
    fn find_partition_inner(&self, key: &[u8], low: usize, high: usize) -> (r: usize)
        requires
            self.wf(),
            low <= high < self.tuples().len(),
            forall|i: int| 0 <= i < low ==> lex_le(#[trigger] tuple_key(self.tuples()[i]), key@),
            forall|i: int|
                high < i < self.tuples().len() ==> lex_lt(key@, #[trigger] tuple_key(self.tuples()[i])),
        ensures
            is_partition(self.tuples(), key@, r as int),
    {
        let ghost ts = self.tuples();
        let mut low = low;
        let mut high = high;
        loop
            invariant
                self.wf(),
                ts == self.tuples(),
                low <= high < ts.len(),
                forall|i: int| 0 <= i < low ==> lex_le(#[trigger] tuple_key(ts[i]), key@),
                forall|i: int| high < i < ts.len() ==> lex_lt(key@, #[trigger] tuple_key(ts[i])),
            decreases high - low,
        {
            let idx = low + (high - low) / 2;
            let this_key = self.key_at(idx);
            let c = compare_bytes(this_key, key);
            if high == low {
                proof {
                    lemma_lex_order_basics(this_key@, key@);
                }
                if c <= 0 {
                    return idx + 1;
                } else {
                    return idx;
                }
            }
            if c <= 0 {
                proof {
                    assert forall|i: int| 0 <= i < idx + 1 implies lex_le(
                        #[trigger] tuple_key(ts[i]),
                        key@,
                    ) by {
                        if i >= low {
                            assert(lex_le(tuple_key(ts[i]), tuple_key(ts[idx as int])));
                            lemma_lex_le_transitive(tuple_key(ts[i]), this_key@, key@);
                        }
                    }
                }
                low = idx + 1;
            } else {
                proof {
                    lemma_lex_order_basics(this_key@, key@);
                    assert forall|i: int| idx <= i < ts.len() implies lex_lt(
                        key@,
                        #[trigger] tuple_key(ts[i]),
                    ) by {
                        assert(lex_le(tuple_key(ts[idx as int]), tuple_key(ts[i])));
                        lemma_lex_le_transitive(key@, this_key@, tuple_key(ts[i]));
                    }
                }
                if idx == low {
                    high = high - 1;
                } else {
                    high = idx - 1;
                }
            }
        }
    }

    /// The index of the first tuple whose key does not sort before `key`:
    /// where a scan of keys from `key` on starts.
    ///
    /// For a page holding keys `[3, 5, 5, 7]`: `key = 2` gives `0`, `key = 5`
    /// gives `1` (before the first `5`) and `key = 9` gives `4`.
    pub fn find_partition_lower(&self, key: &[u8]) -> (r: usize)
        requires
            self.wf(),
        ensures
            is_lower_partition(self.tuples(), key@, r as int),
    {
        let ghost ts = self.tuples();
        let count = self.get_header(&HeaderElem::ItemCount) as usize;
        let mut low: usize = 0;
        let mut high: usize = count;
        while low < high
            invariant
                self.wf(),
                ts == self.tuples(),
                count == ts.len(),
                low <= high <= count,
                forall|i: int| 0 <= i < low ==> lex_lt(#[trigger] tuple_key(ts[i]), key@),
                forall|i: int| high <= i < ts.len() ==> lex_le(key@, #[trigger] tuple_key(ts[i])),
            decreases high - low,
        {
            let idx = low + (high - low) / 2;
            let this_key = self.key_at(idx);
            let c = compare_bytes(this_key, key);
            proof {
                lemma_lex_order_basics(this_key@, key@);
            }
            if c < 0 {
                proof {
                    assert forall|i: int| 0 <= i < idx + 1 implies lex_lt(
                        #[trigger] tuple_key(ts[i]),
                        key@,
                    ) by {
                        if i >= low {
                            assert(lex_le(tuple_key(ts[i]), tuple_key(ts[idx as int])));
                            lemma_lex_le_transitive(tuple_key(ts[i]), this_key@, key@);
                        }
                    }
                }
                low = idx + 1;
            } else {
                proof {
                    assert forall|i: int| idx <= i < ts.len() implies lex_le(
                        key@,
                        #[trigger] tuple_key(ts[i]),
                    ) by {
                        assert(lex_le(tuple_key(ts[idx as int]), tuple_key(ts[i])));
                        lemma_lex_le_transitive(key@, this_key@, tuple_key(ts[i]));
                    }
                }
                high = idx;
            }
        }
        low
    }

    /// The slot index of some tuple whose key is `key`, if there is one.
    pub fn find_key(&self, key: &[u8]) -> (r: Option<usize>)
        requires
            self.wf(),
        ensures
            r matches Some(i) ==> i < self.tuples().len() && tuple_key(self.tuples()[i as int])
                == key@,
            r is None ==> forall|i: int|
                0 <= i < self.tuples().len() ==> tuple_key(#[trigger] self.tuples()[i]) != key@,
    {
        let count = self.get_header(&HeaderElem::ItemCount);
        if count == 0 {
            None
        } else {
            self.find_key_inner(key, 0, count as usize - 1)
        }
    }

    /// Binary search for `key` within the inclusive range `[low, high]`.
    fn find_key_inner(&self, key: &[u8], low: usize, high: usize) -> (r: Option<usize>)
        requires
            self.wf(),
            low <= high < self.tuples().len(),
            forall|i: int|
                0 <= i < self.tuples().len() && !(low <= i <= high) ==> tuple_key(
                    #[trigger] self.tuples()[i],
                ) != key@,
        ensures
            r matches Some(i) ==> i < self.tuples().len() && tuple_key(self.tuples()[i as int])
                == key@,
            r is None ==> forall|i: int|
                0 <= i < self.tuples().len() ==> tuple_key(#[trigger] self.tuples()[i]) != key@,
    {
        let ghost ts = self.tuples();
        let mut low = low;
        let mut high = high;
        loop
            invariant
                self.wf(),
                ts == self.tuples(),
                low <= high < ts.len(),
                forall|i: int|
                    0 <= i < ts.len() && !(low <= i <= high) ==> tuple_key(#[trigger] ts[i])
                        != key@,
            decreases high - low,
        {
            let idx = low + (high - low) / 2;
            let this_key = self.key_at(idx);
            let c = compare_bytes(this_key, key);
            proof {
                lemma_lex_order_basics(this_key@, key@);
            }
            if high == low {
                if c == 0 {
                    return Some(high);
                } else {
                    return None;
                }
            }
            if c == 0 {
                return Some(idx);
            } else if c < 0 {
                proof {
                    assert forall|i: int| 0 <= i <= idx implies tuple_key(#[trigger] ts[i]) != key@ by {
                        assert(lex_le(tuple_key(ts[i]), tuple_key(ts[idx as int])));
                        if tuple_key(ts[i]) == key@ {
                            lemma_lex_order_basics(key@, this_key@);
                            lemma_lex_le_transitive(this_key@, key@, this_key@);
                            lemma_lex_order_basics(this_key@, this_key@);
                        }
                    }
                }
                low = idx + 1;
            } else {
                proof {
                    assert forall|i: int| idx <= i < ts.len() implies tuple_key(#[trigger] ts[i]) != key@ by {
                        assert(lex_le(tuple_key(ts[idx as int]), tuple_key(ts[i])));
                        if tuple_key(ts[i]) == key@ {
                            lemma_lex_order_basics(key@, this_key@);
                            lemma_lex_order_basics(this_key@, this_key@);
                        }
                    }
                }
                if idx == low {
                    high = high - 1;
                } else {
                    high = idx - 1;
                }
            }
        }
    }

    /// Inserts a slot pointing at `ptr` at position `idx` of the slot array,
    /// shifting the slots at `idx..item_count` one position to the right.
    ///
    /// The caller makes sure the grown slot array stays clear of the tuple data.
    fn insert_slot_at(&mut self, idx: usize, ptr: u16)
        requires
            old(self).spec_bytes().len() == PAGE_SIZE,
            idx <= item_count(old(self).spec_bytes()),
            slot_offset(item_count(old(self).spec_bytes()) + 1) <= PAGE_SIZE,
        ensures
            final(self).spec_bytes().len() == PAGE_SIZE,
            forall|j: int|
                0 <= j < PAGE_SIZE && !(slot_offset(idx as int) <= j < slot_offset(
                    item_count(old(self).spec_bytes()) + 1,
                )) ==> #[trigger] final(self).spec_bytes()[j] == old(self).spec_bytes()[j],
            forall|k: int|
                0 <= k < idx ==> #[trigger] slot_at(final(self).spec_bytes(), k) == slot_at(
                    old(self).spec_bytes(),
                    k,
                ),
            slot_at(final(self).spec_bytes(), idx as int) == ptr,
            forall|k: int|
                idx < k <= item_count(old(self).spec_bytes()) ==> #[trigger] slot_at(
                    final(self).spec_bytes(),
                    k,
                ) == slot_at(old(self).spec_bytes(), k - 1),
    {
        let ghost b0 = self.spec_bytes();
        let count = self.get_header(&HeaderElem::ItemCount) as usize;
        let start_ptr = HEADER_SIZE + idx * 2;
        let end = HEADER_SIZE + count * 2 + 2;
        let mut i = count;
        while i > idx
            invariant
                idx <= i <= count,
                count == item_count(b0),
                end == slot_offset(count + 1),
                end <= PAGE_SIZE,
                self.bytes@.len() == PAGE_SIZE,
                forall|j: int|
                    0 <= j < PAGE_SIZE ==> #[trigger] self.bytes@[j] == if slot_offset(i + 1) <= j
                        < end {
                        b0[j - 2]
                    } else {
                        b0[j]
                    },
            decreases i,
        {
            let at = HEADER_SIZE + i * 2;
            let v0 = self.bytes[at - 2];
            let v1 = self.bytes[at - 1];
            self.bytes.set(at, v0);
            self.bytes.set(at + 1, v1);
            i = i - 1;
        }
        let bytes = u16_to_be(ptr);
        self.write_at(start_ptr, bytes.as_slice());
        proof {
            let b = self.spec_bytes();
            lemma_u16_roundtrip(ptr);
            assert(u16_at(b, slot_offset(idx as int)) == u16_at(u16_be(ptr), 0));
            assert forall|k: int| idx < k <= count implies #[trigger] slot_at(b, k) == slot_at(
                b0,
                k - 1,
            ) by {
                assert(b[slot_offset(k)] == b0[slot_offset(k - 1)]);
                assert(b[slot_offset(k) + 1] == b0[slot_offset(k - 1) + 1]);
            }
            assert forall|k: int| 0 <= k < idx implies #[trigger] slot_at(b, k) == slot_at(b0, k) by {
                assert(b[slot_offset(k)] == b0[slot_offset(k)]);
                assert(b[slot_offset(k) + 1] == b0[slot_offset(k) + 1]);
            }
        }
    }

    /// Accounts in the header for an inserted tuple of `insert_size` bytes and its slot.
    fn update_header_insert(&mut self, insert_size: i64)
        requires
            old(self).spec_bytes().len() == PAGE_SIZE,
            0 <= insert_size <= 0xffff,
        ensures
            final(self).spec_bytes().len() == PAGE_SIZE,
            forall|j: int|
                HEADER_SIZE <= j < PAGE_SIZE ==> #[trigger] final(self).spec_bytes()[j] == old(
                    self,
                ).spec_bytes()[j],
            final(self).header(HeaderElem::FreeSpacePtr) == (old(self).header(
                HeaderElem::FreeSpacePtr,
            ) - insert_size) as u32,
            final(self).header(HeaderElem::ItemCount) == (old(self).header(HeaderElem::ItemCount)
                + 1) as u32,
            final(self).header(HeaderElem::ContFreeSpace) == (old(self).header(
                HeaderElem::ContFreeSpace,
            ) - insert_size - 2) as u32,
            final(self).header(HeaderElem::TotalFreeSpace) == (old(self).header(
                HeaderElem::TotalFreeSpace,
            ) - insert_size - 2) as u32,
            forall|e: HeaderElem|
                e != HeaderElem::FreeSpacePtr && e != HeaderElem::ItemCount && e
                    != HeaderElem::ContFreeSpace && e != HeaderElem::TotalFreeSpace
                    ==> #[trigger] header_at(final(self).spec_bytes(), e) == header_at(
                    old(self).spec_bytes(),
                    e,
                ),
    {
        let ghost b0 = self.spec_bytes();
        self.update_header(&HeaderElem::FreeSpacePtr, -insert_size);
        let ghost b1 = self.spec_bytes();
        self.update_header(&HeaderElem::ItemCount, 1);
        let ghost b2 = self.spec_bytes();
        self.update_header(&HeaderElem::ContFreeSpace, -insert_size - 2);
        let ghost b3 = self.spec_bytes();
        self.update_header(&HeaderElem::TotalFreeSpace, -insert_size - 2);
        proof {
            let b = self.spec_bytes();
            assert forall|e: HeaderElem|
                e != HeaderElem::FreeSpacePtr && e != HeaderElem::ItemCount && e
                    != HeaderElem::ContFreeSpace && e != HeaderElem::TotalFreeSpace
                    implies #[trigger] header_at(b, e) == header_at(b0, e) by {
                let o = e.spec_offset();
                assert(b[o] == b0[o] && b[o + 1] == b0[o + 1] && b[o + 2] == b0[o + 2] && b[o + 3]
                    == b0[o + 3]);
            }
            assert(header_at(b, HeaderElem::FreeSpacePtr) == header_at(b1, HeaderElem::FreeSpacePtr)) by {
                let o = 28int;
                assert(b[o] == b1[o] && b[o + 1] == b1[o + 1] && b[o + 2] == b1[o + 2] && b[o + 3]
                    == b1[o + 3]);
            }
            assert(header_at(b, HeaderElem::ItemCount) == header_at(b2, HeaderElem::ItemCount)) by {
                let o = 16int;
                assert(b[o] == b2[o] && b[o + 1] == b2[o + 1] && b[o + 2] == b2[o + 2] && b[o + 3]
                    == b2[o + 3]);
            }
            assert(header_at(b, HeaderElem::ContFreeSpace) == header_at(b3, HeaderElem::ContFreeSpace)) by {
                let o = 8int;
                assert(b[o] == b3[o] && b[o + 1] == b3[o + 1] && b[o + 2] == b3[o + 2] && b[o + 3]
                    == b3[o + 3]);
            }
            assert(header_at(b1, HeaderElem::ItemCount) == header_at(b0, HeaderElem::ItemCount)) by {
                let o = 16int;
                assert(b1[o] == b0[o] && b1[o + 1] == b0[o + 1] && b1[o + 2] == b0[o + 2] && b1[o + 3]
                    == b0[o + 3]);
            }
            assert(header_at(b2, HeaderElem::ContFreeSpace) == header_at(b0, HeaderElem::ContFreeSpace)) by {
                let o = 8int;
                assert(b2[o] == b0[o] && b2[o + 1] == b0[o + 1] && b2[o + 2] == b0[o + 2] && b2[o + 3]
                    == b0[o + 3]);
                assert(b1[o] == b0[o] && b1[o + 1] == b0[o + 1] && b1[o + 2] == b0[o + 2] && b1[o + 3]
                    == b0[o + 3]);
            }
            assert(header_at(b3, HeaderElem::TotalFreeSpace) == header_at(b0, HeaderElem::TotalFreeSpace)) by {
                let o = 36int;
                assert(b3[o] == b0[o] && b3[o + 1] == b0[o + 1] && b3[o + 2] == b0[o + 2] && b3[o + 3]
                    == b0[o + 3]);
                assert(b2[o] == b0[o] && b2[o + 1] == b0[o + 1] && b2[o + 2] == b0[o + 2] && b2[o + 3]
                    == b0[o + 3]);
                assert(b1[o] == b0[o] && b1[o + 1] == b0[o + 1] && b1[o + 2] == b0[o + 2] && b1[o + 3]
                    == b0[o + 3]);
            }
        }
    }

    /// Inserts `data` where its key belongs, into the contiguous free space.
    fn insert_core(&mut self, data: &Tuple)
        requires
            old(self).wf(),
            tuple_wf(data.0@),
            old(self).header(HeaderElem::ContFreeSpace) >= data.0@.len() + 2,
        ensures
            final(self).wf(),
            final(self)@ == (PageView {
                tuples: old(self)@.tuples.insert(
                    partition_of(old(self)@.tuples, tuple_key(data.0@)),
                    data.0@,
                ),
                ..old(self)@
            }),
            final(self).header(HeaderElem::ContFreeSpace) == old(self).header(
                HeaderElem::ContFreeSpace,
            ) - data.0@.len() - 2,
            final(self).header(HeaderElem::FreeSpacePtr) == old(self).header(HeaderElem::FreeSpacePtr)
                - data.0@.len(),
            final(self).header(HeaderElem::LastCommit) == old(self).header(HeaderElem::LastCommit),
    {
        let ghost b0 = self.spec_bytes();
        let len = data.len();
        let tuple_write_ptr = self.get_header(&HeaderElem::FreeSpacePtr) as usize - len;
        let slot_write_idx = self.find_partition(data.key_bytes());
        proof {
            lemma_partition_of(page_tuples(b0), tuple_key(data.0@), slot_write_idx as int);
            lemma_used_space_nonneg(page_tuples(b0));
        }
        self.write_at(tuple_write_ptr, data.0.as_slice());
        let ghost b1 = self.spec_bytes();
        proof {
            assert(item_count(b1) == item_count(b0)) by {
                let o = 16int;
                assert(b1[o] == b0[o] && b1[o + 1] == b0[o + 1] && b1[o + 2] == b0[o + 2] && b1[o
                    + 3] == b0[o + 3]);
            }
            assert forall|k: int| 0 <= k <= item_count(b0) implies #[trigger] slot_at(b1, k)
                == slot_at(b0, k) by {
                assert(b1[slot_offset(k)] == b0[slot_offset(k)]);
                assert(b1[slot_offset(k) + 1] == b0[slot_offset(k) + 1]);
            }
        }
        self.insert_slot_at(slot_write_idx, tuple_write_ptr as u16);
        let ghost b2 = self.spec_bytes();
        self.update_header_insert(data.size() as i64);
        proof {
            let bf = self.spec_bytes();
            let n = item_count(b0);
            assert forall|k: int| 0 <= k <= n + 1 implies #[trigger] slot_at(bf, k) == slot_at(
                b2,
                k,
            ) by {
                assert(bf[slot_offset(k)] == b2[slot_offset(k)]);
                assert(bf[slot_offset(k) + 1] == b2[slot_offset(k) + 1]);
            }
            assert forall|e: HeaderElem| #[trigger] header_at(b2, e) == header_at(b0, e) by {
                lemma_header_frame(b2, b1, e);
                lemma_header_frame(b1, b0, e);
            }
            assert(header_at(bf, HeaderElem::PageID) == header_at(b2, HeaderElem::PageID));
            assert(header_at(bf, HeaderElem::PageType) == header_at(b2, HeaderElem::PageType));
            assert(header_at(bf, HeaderElem::LeftSiblingPtr) == header_at(b2, HeaderElem::LeftSiblingPtr));
            assert(header_at(bf, HeaderElem::RightSiblingPtr) == header_at(b2, HeaderElem::RightSiblingPtr));
            assert(header_at(bf, HeaderElem::LeftChildPtr) == header_at(b2, HeaderElem::LeftChildPtr));
            assert(header_at(bf, HeaderElem::LastCommit) == header_at(b2, HeaderElem::LastCommit));
            assert forall|j: int| HEADER_SIZE <= j < PAGE_SIZE && !(slot_offset(slot_write_idx as int) <= j < slot_offset(n + 1)) implies
                #[trigger] bf[j] == b1[j] by {}
            lemma_insert_layout(b0, bf, slot_write_idx as int, data.0@);
        }
    }

    /// Whether an insert of `required` bytes fits: directly into the contiguous
    /// free space, after compacting the page, or not at all.
    fn check_space(&self, required: usize) -> (r: SpaceStatus)
        requires
            self.spec_bytes().len() >= HEADER_SIZE,
        ensures
            r is Fits <==> self.header(HeaderElem::ContFreeSpace) >= required,
            r is NeedsCollapse <==> self.header(HeaderElem::ContFreeSpace) < required
                && self.header(HeaderElem::TotalFreeSpace) >= required,
            r is OutOfSpace <==> self.header(HeaderElem::ContFreeSpace) < required && self.header(
                HeaderElem::TotalFreeSpace,
            ) < required,
    {
        if self.get_header(&HeaderElem::ContFreeSpace) as usize >= required {
            SpaceStatus::Fits
        } else if self.get_header(&HeaderElem::TotalFreeSpace) as usize >= required {
            SpaceStatus::NeedsCollapse
        } else {
            SpaceStatus::OutOfSpace
        }
    }

    /// Inserts `data` in key order after any tuples with an equal key.
    ///
    /// Fails with `OutOfSpace`, leaving the page as it was, when the tuple and
    /// its slot do not fit in the page's total free space; compacts the page
    /// first when they fit only once fragments are collected.
    pub fn insert(&mut self, data: &Tuple) -> (r: Result<(), PageReadWriteError>)
        requires
            old(self).wf(),
            tuple_wf(data.0@),
        ensures
            data.0@.len() + 2 > old(self).header(HeaderElem::TotalFreeSpace) ==> {
                &&& r matches Err(PageReadWriteError::OutOfSpace)
                &&& final(self).spec_bytes() == old(self).spec_bytes()
            },
            data.0@.len() + 2 <= old(self).header(HeaderElem::TotalFreeSpace) ==> {
                &&& r is Ok
                &&& final(self).wf()
                &&& final(self)@ == (PageView {
                    tuples: old(self)@.tuples.insert(
                        partition_of(old(self)@.tuples, tuple_key(data.0@)),
                        data.0@,
                    ),
                    ..old(self)@
                })
                &&& final(self).header(HeaderElem::ContFreeSpace) == (if old(self).header(
                    HeaderElem::ContFreeSpace,
                ) >= data.0@.len() + 2 {
                    old(self).header(HeaderElem::ContFreeSpace)
                } else {
                    old(self).header(HeaderElem::TotalFreeSpace)
                }) - (data.0@.len() + 2)
                &&& final(self).header(HeaderElem::FreeSpacePtr) == (if old(self).header(
                    HeaderElem::ContFreeSpace,
                ) >= data.0@.len() + 2 {
                    old(self).header(HeaderElem::FreeSpacePtr) as int
                } else {
                    PAGE_SIZE - (used_space(old(self)@.tuples) - 2 * old(self)@.tuples.len())
                }) - data.0@.len()
                &&& final(self).header(HeaderElem::LastCommit) == if old(self).header(HeaderElem::ContFreeSpace)
                    >= data.0@.len() + 2 {
                    old(self).header(HeaderElem::LastCommit)
                } else {
                    0
                }
            },
    {
        match self.check_space(data.len() + 2usize) {
            SpaceStatus::Fits => {},
            SpaceStatus::NeedsCollapse => self.collapse(),
            SpaceStatus::OutOfSpace => return Err(PageReadWriteError::OutOfSpace),
        }
        self.insert_core(data);
        Ok(())
    }

    /// Removes from the slot array the slot at `idx`, shifting the later slots left.
    fn remove_slot_at(&mut self, idx: usize)
        requires
            old(self).spec_bytes().len() == PAGE_SIZE,
            idx < item_count(old(self).spec_bytes()),
            slot_offset(item_count(old(self).spec_bytes())) <= PAGE_SIZE,
        ensures
            final(self).spec_bytes().len() == PAGE_SIZE,
            forall|j: int|
                0 <= j < PAGE_SIZE && !(slot_offset(idx as int) <= j < slot_offset(
                    item_count(old(self).spec_bytes()),
                )) ==> #[trigger] final(self).spec_bytes()[j] == old(self).spec_bytes()[j],
            forall|k: int|
                0 <= k < idx ==> #[trigger] slot_at(final(self).spec_bytes(), k) == slot_at(
                    old(self).spec_bytes(),
                    k,
                ),
            forall|k: int|
                idx <= k < item_count(old(self).spec_bytes()) - 1 ==> #[trigger] slot_at(
                    final(self).spec_bytes(),
                    k,
                ) == slot_at(old(self).spec_bytes(), k + 1),
    {
        let ghost b0 = self.spec_bytes();
        let current_count = self.get_header(&HeaderElem::ItemCount) as usize;
        if current_count > 1 {
            let start_ptr = HEADER_SIZE + idx * 2 + 2;
            let end_ptr = HEADER_SIZE + current_count * 2;
            let mut j = start_ptr;
            while j < end_ptr
                invariant
                    start_ptr <= j <= end_ptr,
                    start_ptr == slot_offset(idx as int) + 2,
                    end_ptr == slot_offset(item_count(b0)),
                    end_ptr <= PAGE_SIZE,
                    self.bytes@.len() == PAGE_SIZE,
                    forall|i: int|
                        0 <= i < PAGE_SIZE ==> #[trigger] self.bytes@[i] == if start_ptr - 2 <= i
                            < j - 2 {
                            b0[i + 2]
                        } else {
                            b0[i]
                        },
                decreases end_ptr - j,
            {
                let v = self.bytes[j];
                self.bytes.set(j - 2, v);
                j = j + 1;
            }
        }
        proof {
            let b = self.spec_bytes();
            assert forall|k: int| idx <= k < item_count(b0) - 1 implies #[trigger] slot_at(b, k)
                == slot_at(b0, k + 1) by {
                assert(b[slot_offset(k)] == b0[slot_offset(k + 1)]);
                assert(b[slot_offset(k) + 1] == b0[slot_offset(k + 1) + 1]);
            }
            assert forall|k: int| 0 <= k < idx implies #[trigger] slot_at(b, k) == slot_at(b0, k) by {
                assert(b[slot_offset(k)] == b0[slot_offset(k)]);
                assert(b[slot_offset(k) + 1] == b0[slot_offset(k) + 1]);
            }
        }
    }

    /// Removes a tuple whose key is `key`.
    ///
    /// Fails with `KeyNotFound`, leaving the page as it was, when no tuple holds
    /// the key. Otherwise the slot is removed and the tuple's bytes and slot
    /// count as free again in the total free space; the tuple's bytes stay where
    /// they were, as a fragment that `collapse` reclaims.
    pub fn delete(&mut self, key: &[u8]) -> (r: Result<(), PageReadWriteError>)
        requires
            old(self).wf(),
        ensures
            (forall|i: int|
                0 <= i < old(self)@.tuples.len() ==> tuple_key(#[trigger] old(self)@.tuples[i])
                    != key@) ==> {
                &&& r matches Err(PageReadWriteError::KeyNotFound(msg))
                &&& msg@ == debug_bytes(key@)
                &&& final(self).spec_bytes() == old(self).spec_bytes()
            },
            (exists|i: int|
                0 <= i < old(self)@.tuples.len() && tuple_key(#[trigger] old(self)@.tuples[i])
                    == key@) ==> {
                &&& r is Ok
                &&& final(self).wf()
                &&& exists|i: int|
                    0 <= i < old(self)@.tuples.len() && tuple_key(#[trigger] old(self)@.tuples[i])
                        == key@ && final(self)@ == (PageView {
                        tuples: old(self)@.tuples.remove(i),
                        ..old(self)@
                    })
                &&& final(self).header(HeaderElem::ContFreeSpace) == old(self).header(HeaderElem::ContFreeSpace)
                &&& final(self).header(HeaderElem::FreeSpacePtr) == old(self).header(HeaderElem::FreeSpacePtr)
                &&& final(self).header(HeaderElem::LastCommit) == old(self).header(HeaderElem::LastCommit)
            },
    {
        let found = self.find_key(key);
        let delete_idx = match found {
            Some(i) => i,
            None => {
                assert(self@.tuples == self.tuples());
                return Err(PageReadWriteError::KeyNotFound(format_bytes(key)));
            },
        };
        let ghost b0 = self.spec_bytes();
        let ghost ts0 = page_tuples(b0);
        let tuple_size = match self.tuple(delete_idx) {
            Some(t) => t.size(),
            None => 0,
        };
        self.remove_slot_at(delete_idx);
        let ghost b1 = self.spec_bytes();
        proof {
            assert(item_count(b1) == item_count(b0)) by {
                lemma_header_frame(b1, b0, HeaderElem::ItemCount);
            }
            lemma_header_frame(b1, b0, HeaderElem::TotalFreeSpace);
            lemma_used_space_remove(ts0, delete_idx as int);
            lemma_used_space_nonneg(ts0.remove(delete_idx as int));
        }
        self.update_header(&HeaderElem::ItemCount, -1);
        let ghost b2 = self.spec_bytes();
        proof {
            let o = 36int;
            assert(b2[o] == b1[o] && b2[o + 1] == b1[o + 1] && b2[o + 2] == b1[o + 2] && b2[o + 3]
                == b1[o + 3]);
        }
        self.update_header(&HeaderElem::TotalFreeSpace, tuple_size as i64 + 2);
        proof {
            let bf = self.spec_bytes();
            let n = item_count(b0);
            let fsp = header_at(b0, HeaderElem::FreeSpacePtr) as int;
            let ts1 = ts0.remove(delete_idx as int);
            assert forall|e: HeaderElem|
                e != HeaderElem::ItemCount && e != HeaderElem::TotalFreeSpace implies #[trigger] header_at(bf, e)
                == header_at(b0, e) by {
                let o = e.spec_offset();
                assert(bf[o] == b0[o] && bf[o + 1] == b0[o + 1] && bf[o + 2] == b0[o + 2] && bf[o
                    + 3] == b0[o + 3]);
            }
            assert(item_count(bf) == n - 1) by {
                let o = 16int;
                assert(bf[o] == b2[o] && bf[o + 1] == b2[o + 1] && bf[o + 2] == b2[o + 2] && bf[o
                    + 3] == b2[o + 3]);
            }
            assert forall|k: int| 0 <= k < n - 1 implies #[trigger] slot_at(bf, k) == slot_at(
                b0,
                if k < delete_idx { k } else { k + 1 },
            ) by {
                assert(bf[slot_offset(k)] == b2[slot_offset(k)]);
                assert(bf[slot_offset(k) + 1] == b2[slot_offset(k) + 1]);
                assert(b2[slot_offset(k)] == b1[slot_offset(k)]);
                assert(b2[slot_offset(k) + 1] == b1[slot_offset(k) + 1]);
                assert(slot_at(bf, k) == slot_at(b1, k));
                if k < delete_idx {
                    assert(slot_at(b1, k) == slot_at(b0, k));
                } else {
                    assert(slot_at(b1, k) == slot_at(b0, k + 1));
                }
            }
            assert forall|k: int| 0 <= k < n - 1 implies #[trigger] tuple_at(bf, slot_at(bf, k))
                == ts1[k] && fsp <= slot_at(bf, k) && slot_at(bf, k) + 2 <= PAGE_SIZE && slot_at(
                bf,
                k,
            ) + u16_at(bf, slot_at(bf, k)) <= PAGE_SIZE by {
                let k0 = if k < delete_idx { k } else { k + 1 };
                assert(fsp <= slot_at(b0, k0));
                lemma_tuple_at_frame(b0, bf, slot_at(b0, k0), fsp, PAGE_SIZE as int);
            }
            assert(page_tuples(bf) =~= ts1);
            lemma_sorted_remove(ts0, delete_idx as int);
            assert(ts0 == old(self)@.tuples);
            assert(tuple_key(ts0[delete_idx as int]) == key@);
        }
        Ok(())
    }

    /// Rebuilds the page holding only its first `split_idx` tuples, with no
    /// fragmented free space.
    fn keep_left(&mut self, split_idx: usize)
        requires
            old(self).wf(),
            split_idx <= old(self)@.tuples.len(),
        ensures
            final(self).wf(),
            final(self)@ == (PageView { tuples: old(self)@.tuples.take(split_idx as int), ..old(self)@ }),
            final(self).header(HeaderElem::ContFreeSpace) == final(self).header(
                HeaderElem::TotalFreeSpace,
            ),
            final(self).header(HeaderElem::FreeSpacePtr) == PAGE_SIZE - (used_space(
                old(self)@.tuples.take(split_idx as int),
            ) - 2 * split_idx),
            final(self).header(HeaderElem::LastCommit) == 0,
    {
        let ghost ts = self.tuples();
        let mut temp = SlottedPage::from_bytes(vec![0u8; PAGE_SIZE]);
        proof {
            let z = temp.spec_bytes();
            assert(z[12] == 0 && z[13] == 0 && z[14] == 0 && z[15] == 0);
            let (b0, b1, b2, b3) = (z[12], z[13], z[14], z[15]);
            assert(((b0 as u32) << 24u32) | ((b1 as u32) << 16u32) | ((b2 as u32) << 8u32) | (b3 as u32) == 0)
                by (bit_vector)
                requires
                    b0 == 0 && b1 == 0 && b2 == 0 && b3 == 0,
            ;
            assert(temp.header(HeaderElem::LastCommit) == 0);
        }
        let page_type = match PageType::new(self.get_header(&HeaderElem::PageType)) {
            Ok(t) => t,
            Err(_) => PageType::Leaf,
        };
        temp.init(
            self.get_header(&HeaderElem::PageID),
            page_type,
            self.get_header(&HeaderElem::LeftSiblingPtr),
            self.get_header(&HeaderElem::RightSiblingPtr),
            self.get_header(&HeaderElem::LeftChildPtr),
        );
        proof {
            assert(ts.take(0) =~= Seq::<Seq<u8>>::empty());
            lemma_used_space_nonneg(ts);
        }
        let mut idx: usize = 0;
        while idx < split_idx
            invariant
                self.wf(),
                ts == self.tuples(),
                split_idx <= ts.len(),
                0 <= idx <= split_idx,
                temp.wf(),
                temp@ == (PageView { tuples: ts.take(idx as int), ..self@ }),
                temp.header(HeaderElem::ContFreeSpace) == temp.header(HeaderElem::TotalFreeSpace),
                temp.header(HeaderElem::TotalFreeSpace) == PAGE_SIZE - HEADER_SIZE - used_space(
                    ts.take(idx as int),
                ),
                temp.header(HeaderElem::FreeSpacePtr) == PAGE_SIZE - (used_space(ts.take(idx as int)) - 2
                    * idx),
                temp.header(HeaderElem::LastCommit) == 0,
                used_space(ts) <= PAGE_SIZE - HEADER_SIZE,
            decreases split_idx - idx,
        {
            let t = match self.tuple(idx) {
                Some(t) => t,
                None => Tuple(Vec::new()),
            };
            proof {
                lemma_used_space_take(ts, idx as int);
                let pre = ts.take(idx as int);
                assert forall|i: int| 0 <= i < idx implies lex_le(
                    #[trigger] tuple_key(pre[i]),
                    tuple_key(t.0@),
                ) by {
                    assert(lex_le(tuple_key(ts[i]), tuple_key(ts[idx as int])));
                }
                lemma_partition_of(pre, tuple_key(t.0@), idx as int);
                assert(pre.insert(idx as int, t.0@) =~= ts.take(idx + 1));
            }
            temp.insert_core(&t);
            idx = idx + 1;
        }
        self.bytes = temp.bytes;
    }

    /// Compacts the page so that all its free space is contiguous.
    pub fn collapse(&mut self)
        requires
            old(self).wf(),
        ensures
            final(self).wf(),
            final(self)@ == old(self)@,
            final(self).header(HeaderElem::ContFreeSpace) == final(self).header(
                HeaderElem::TotalFreeSpace,
            ),
            final(self).header(HeaderElem::TotalFreeSpace) == old(self).header(
                HeaderElem::TotalFreeSpace,
            ),
            final(self).header(HeaderElem::FreeSpacePtr) == PAGE_SIZE - (used_space(old(self)@.tuples) - 2
                * old(self)@.tuples.len()),
            final(self).header(HeaderElem::LastCommit) == 0,
    {
        proof {
            assert(self.tuples().take(self.tuples().len() as int) =~= self.tuples());
        }
        self.keep_left(self.get_header(&HeaderElem::ItemCount) as usize);
    }

    /// Splits a full page to make room for `tuple`: returns the tuple that
    /// separates the halves and the tuples that move to the right, and keeps
    /// only the left half in this page.
    ///
    /// With `n` tuples in the page and `tuple`'s key sorting at `key_loc`, the
    /// middle is `(n + 1) / 2`. A new key left of the middle moves the split one
    /// to the left and the last kept-out tuple separates; a new key at the
    /// middle separates itself; a new key right of the middle leaves the tuple
    /// at the middle as the separator.
    pub fn split_half(&mut self, tuple: &Tuple) -> (r: (TupleBuf, Vec<TupleBuf>))
        requires
            old(self).wf(),
            tuple_wf(tuple.0@),
        ensures
            ({
                let ts = old(self)@.tuples;
                let sp = split_point(ts.len() as int, partition_of(ts, tuple_key(tuple.0@)));
                &&& r.0.tuple.0@ == split_middle(ts, tuple.0@)
                &&& r.1@.len() == ts.len() - sp
                &&& forall|i: int| 0 <= i < r.1@.len() ==> #[trigger] r.1@[i].tuple.0@ == ts[sp + i]
                &&& final(self).wf()
                &&& final(self)@ == (PageView { tuples: ts.take(sp), ..old(self)@ })
                &&& final(self).header(HeaderElem::ContFreeSpace) == final(self).header(HeaderElem::TotalFreeSpace)
                &&& final(self).header(HeaderElem::FreeSpacePtr) == PAGE_SIZE - (used_space(ts.take(sp)) - 2 * sp)
                &&& final(self).header(HeaderElem::LastCommit) == 0
            }),
    {
        let ghost ts = self.tuples();
        let item_count = self.get_header(&HeaderElem::ItemCount) as usize + 1;
        let key_loc = self.find_partition(tuple.key_bytes());
        proof {
            lemma_partition_of(ts, tuple_key(tuple.0@), key_loc as int);
        }
        let middle_idx = item_count / 2;
        let (split_idx, middle_tuple) = if key_loc < middle_idx {
            let t = match self.tuple(middle_idx - 1) {
                Some(t) => t,
                None => Tuple(Vec::new()),
            };
            (middle_idx - 1, TupleBuf { tuple: t })
        } else if key_loc == middle_idx {
            (middle_idx, tuple.to_owned())
        } else {
            let t = match self.tuple(middle_idx) {
                Some(t) => t,
                None => Tuple(Vec::new()),
            };
            (middle_idx, TupleBuf { tuple: t })
        };
        let mut tuples: Vec<TupleBuf> = Vec::with_capacity(item_count - split_idx - 1);
        let mut idx = split_idx;
        while idx < item_count - 1
            invariant
                self.wf(),
                ts == self.tuples(),
                item_count == ts.len() + 1,
                split_idx <= idx <= item_count - 1,
                tuples@.len() == idx - split_idx,
                forall|i: int|
                    0 <= i < tuples@.len() ==> #[trigger] tuples@[i].tuple.0@ == ts[split_idx + i],
            decreases item_count - 1 - idx,
        {
            let t = match self.tuple(idx) {
                Some(t) => t,
                None => Tuple(Vec::new()),
            };
            tuples.push(TupleBuf { tuple: t });
            idx = idx + 1;
        }
        self.keep_left(split_idx);
        (middle_tuple, tuples)
    }

    /// A copy of the tuple in slot `idx`, if the page has that many tuples.
    pub fn tuple(&self, idx: usize) -> (r: Option<Tuple>)
        requires
            self.wf(),
        ensures
            idx < self.tuples().len() ==> (r matches Some(t) && t.0@ == self.tuples()[idx as int]),
            idx >= self.tuples().len() ==> r is None,
    {
        if self.get_header(&HeaderElem::ItemCount) as usize <= idx {
            None
        } else {
            let ghost b = self.spec_bytes();
            let s = self.bytes.as_slice();
            let ptr = read_u16(s, HEADER_SIZE + idx * 2) as usize;
            assert(ptr == slot_at(b, idx as int));
            let tuple_size = read_u16(s, ptr) as usize;
            let t = Tuple(slice_to_vec(&s[ptr..ptr + tuple_size]));
            assert(t.0@ =~= tuple_at(b, slot_at(b, idx as int)));
            Some(t)
        }
    }
}

/// A leaf node: a slotted page whose tuples map keys to row data.
pub struct Leaf(pub SlottedPage);

impl Leaf {
    /// Reads `bytes` as a leaf page.
    pub fn from_bytes(bytes: Vec<u8>) -> (r: Self)
        ensures
            r.0.spec_bytes() == bytes@,
    {
        Leaf(SlottedPage::from_bytes(bytes))
    }

    /// Sets up an empty leaf with the given id and siblings.
    pub fn init(&mut self, page_id: u32, left_ptr: u32, right_ptr: u32)
        requires
            old(self).0.spec_bytes().len() == PAGE_SIZE,
        ensures
            final(self).0.wf(),
            final(self).0@ == (PageView {
                page_id,
                page_type: PageType::Leaf.spec_id(),
                left_sibling: left_ptr,
                right_sibling: right_ptr,
                left_child: NULL_PTR,
                tuples: Seq::empty(),
            }),
    {
        self.0.init(page_id, PageType::Leaf, left_ptr, right_ptr, NULL_PTR);
    }
}

/// An inner node: a slotted page whose tuples map keys to child page ids,
/// with the left-child pointer for keys before the first tuple.
pub struct InnerNode(pub SlottedPage);

impl InnerNode {
    /// Reads `bytes` as an inner-node page.
    pub fn from_bytes(bytes: Vec<u8>) -> (r: Self)
        ensures
            r.0.spec_bytes() == bytes@,
    {
        InnerNode(SlottedPage::from_bytes(bytes))
    }

    /// Sets up an empty inner node with the given id, siblings and left child.
    pub fn init(&mut self, page_id: u32, left_ptr: u32, right_ptr: u32, left_child_ptr: u32)
        requires
            old(self).0.spec_bytes().len() == PAGE_SIZE,
        ensures
            final(self).0.wf(),
            final(self).0@ == (PageView {
                page_id,
                page_type: PageType::Node.spec_id(),
                left_sibling: left_ptr,
                right_sibling: right_ptr,
                left_child: left_child_ptr,
                tuples: Seq::empty(),
            }),
    {
        self.0.init(page_id, PageType::Node, left_ptr, right_ptr, left_child_ptr);
    }

    /// The child page to follow in the search for `key`: the left child when
    /// `key` sorts before every key of the node, else the page id held by the
    /// last tuple whose key sorts before or equal to `key`.
    ///
    /// With keys `(4, 7)`: `key = 2` gives the left child, `4` and `5` the
    /// child of `4`, `7` the child of `7`.
    pub fn child(&self, key: &[u8]) -> (r: u32)
        requires
            self.0.wf(),
            node_values_wf(self.0@.tuples),
        ensures
            r == child_for(self.0@, key@),
            is_partition(self.0@.tuples, key@, partition_of(self.0@.tuples, key@)),
    {
        let found_idx = self.0.find_partition(key);
        proof {
            lemma_partition_of(self.0@.tuples, key@, found_idx as int);
        }
        if found_idx == 0 {
            self.0.get_header(&HeaderElem::LeftChildPtr)
        } else {
            match self.0.tuple(found_idx - 1) {
                Some(t) => read_u32(t.value(), 0),
                None => 0,
            }
        }
    }
}

impl core::ops::Deref for Leaf {
    type Target = SlottedPage;

    fn deref(&self) -> (r: &SlottedPage)
        ensures
            *r == self.0,
    {
        &self.0
    }
}

impl core::ops::Deref for InnerNode {
    type Target = SlottedPage;

    fn deref(&self) -> (r: &SlottedPage)
        ensures
            *r == self.0,
    {
        &self.0
    }
}

} // verus!
