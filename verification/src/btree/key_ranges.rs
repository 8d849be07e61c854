//! Key ranges of B-tree pages: the keys each page is responsible for.
//!
//! A tree is ordered when every page holds strictly increasing keys inside
//! its range, and every slot of a node (its left child, and each tuple's
//! child) that covers some keys points at a child whose range is exactly
//! the keys between the slot's separators, and whose recorded parent is
//! the node. The search for a key then only ever visits pages whose range
//! holds the key.
use vstd::prelude::*;

use super::{
    child_at, descent_step, is_descent, is_leaf, is_node, node_child, split_at,
    split_done, split_left, split_order, split_right, right_half,
};
use crate::representations::page::{keys_sorted, lemma_partition_exists, lemma_partition_of, split_middle};
use crate::buffer_pool::PageID;
use crate::representations::page::NULL_PTR;
use crate::codec::{lemma_lex_le_transitive, lemma_lex_order_basics, lex_le, lex_lt};
use crate::representations::page::{is_lower_partition, is_partition, page_view, partition_of, PageView};
use crate::codec::u32_at;
use crate::representations::tuple::{tuple_key, tuple_value};

verus! {

/// A range of keys: from `lo`, included, up to `hi`, excluded; a missing
/// bound does not bound.
pub struct KeyRange {
    pub lo: Option<Seq<u8>>,
    pub hi: Option<Seq<u8>>,
}

/// The range of all keys.
pub open spec fn full_range() -> KeyRange {
    KeyRange { lo: None, hi: None }
}

/// `k` lies in the range `r`.
pub open spec fn in_range(k: Seq<u8>, r: KeyRange) -> bool {
    &&& (r.lo matches Some(l) ==> lex_le(l, k))
    &&& (r.hi matches Some(h) ==> lex_lt(k, h))
}

/// The range's lower bound sorts before its upper bound.
pub open spec fn range_nonempty(r: KeyRange) -> bool {
    match (r.lo, r.hi) {
        (Some(l), Some(h)) => lex_lt(l, h),
        _ => true,
    }
}

/// The keys covered by slot `j` of a node whose tuples are `ts` and whose
/// range is `outer`: slot `-1` is the left child's, slot `j >= 0` the child
/// of tuple `j`; a slot runs from its tuple's key to the next tuple's key.
pub open spec fn slot_range(ts: Seq<Seq<u8>>, outer: KeyRange, j: int) -> KeyRange {
    KeyRange {
        lo: if j < 0 {
            outer.lo
        } else {
            Some(tuple_key(ts[j]))
        },
        hi: if j + 1 < ts.len() {
            Some(tuple_key(ts[j + 1]))
        } else {
            outer.hi
        },
    }
}

/// The child of slot `j` of a node with view `v`.
pub open spec fn slot_child(v: PageView, j: int) -> PageID {
    if j < 0 {
        v.left_child
    } else {
        child_at(v.tuples, j)
    }
}

/// The keys of `ts` strictly increase.
pub open spec fn keys_strict(ts: Seq<Seq<u8>>) -> bool {
    forall|i: int, j: int| 0 <= i < j < ts.len() ==> #[trigger] lex_lt(tuple_key(ts[i]), tuple_key(ts[j]))
}

/// Every key of `ts` lies in `r`.
pub open spec fn keys_in(ts: Seq<Seq<u8>>, r: KeyRange) -> bool {
    forall|i: int| 0 <= i < ts.len() ==> #[trigger] in_range(tuple_key(ts[i]), r)
}

/// Slot `j` of node `id`, if it covers some keys, points at a page of the
/// store whose range is the slot's and whose parent is `id`.
pub open spec fn slot_linked(
    pages: Map<PageID, Seq<u8>>,
    ranges: Map<PageID, KeyRange>,
    parent: Map<PageID, PageID>,
    id: PageID,
    j: int,
) -> bool {
    let v = page_view(pages[id]);
    let c = slot_child(v, j);
    let sr = slot_range(v.tuples, ranges[id], j);
    range_nonempty(sr) ==> {
        &&& pages.contains_key(c)
        &&& ranges.contains_key(c)
        &&& ranges[c] == sr
        &&& parent.contains_key(c)
        &&& parent[c] == id
    }
}

/// The leaf `id`, when it has a right sibling, is linked to a leaf of the
/// store whose range starts where its own ends.
pub open spec fn sibling_linked(pages: Map<PageID, Seq<u8>>, ranges: Map<PageID, KeyRange>, id: PageID) -> bool {
    let r = page_view(pages[id]).right_sibling;
    is_leaf(pages[id]) && r != NULL_PTR ==> {
        &&& pages.contains_key(r)
        &&& is_leaf(pages[r])
        &&& ranges.contains_key(r)
        &&& ranges[id].hi is Some
        &&& ranges[r].lo == ranges[id].hi
    }
}

/// Page `id` is in order: strictly increasing keys inside its range; for a
/// leaf, linked to its right sibling; for a node, every slot linked.
pub open spec fn page_ordered(
    pages: Map<PageID, Seq<u8>>,
    ranges: Map<PageID, KeyRange>,
    parent: Map<PageID, PageID>,
    id: PageID,
) -> bool {
    let v = page_view(pages[id]);
    &&& ranges.contains_key(id)
    &&& keys_strict(v.tuples)
    &&& keys_in(v.tuples, ranges[id])
    &&& sibling_linked(pages, ranges, id)
    &&& is_node(pages[id]) ==> forall|j: int|
        -1 <= j < v.tuples.len() ==> #[trigger] slot_linked(pages, ranges, parent, id, j)
}

/// Each object root covers all keys and is no page's child, and no two
/// objects share a root.
pub open spec fn roots_ok(ranges: Map<PageID, KeyRange>, parent: Map<PageID, PageID>, roots: Seq<PageID>) -> bool {
    &&& forall|i: int|
        0 <= i < roots.len() ==> {
            &&& ranges.contains_key(#[trigger] roots[i])
            &&& ranges[roots[i]] == full_range()
            &&& !parent.contains_key(roots[i])
        }
    &&& forall|i: int, j: int| 0 <= i < j < roots.len() ==> #[trigger] roots[i] != #[trigger] roots[j]
}

/// Every page of the store is in order.
#[verifier::opaque]
pub open spec fn all_ordered(
    pages: Map<PageID, Seq<u8>>,
    ranges: Map<PageID, KeyRange>,
    parent: Map<PageID, PageID>,
) -> bool {
    forall|id: PageID| #[trigger] pages.contains_key(id) ==> page_ordered(pages, ranges, parent, id)
}

/// Only pages of the store have parents.
pub open spec fn parents_in(pages: Map<PageID, Seq<u8>>, parent: Map<PageID, PageID>) -> bool {
    forall|x: PageID| #[trigger] parent.contains_key(x) ==> pages.contains_key(x)
}

/// The store is ordered: every page is in order, only pages have parents,
/// and the roots are as `roots_ok` says.
pub open spec fn ordered(
    pages: Map<PageID, Seq<u8>>,
    ranges: Map<PageID, KeyRange>,
    parent: Map<PageID, PageID>,
    roots: Seq<PageID>,
) -> bool {
    &&& all_ordered(pages, ranges, parent)
    &&& parents_in(pages, parent)
    &&& roots_ok(ranges, parent, roots)
}

/// Every page of the store but `cur` is in order and the roots are as
/// `roots_ok` says.
#[verifier::opaque]
pub open spec fn ordered_except(
    pages: Map<PageID, Seq<u8>>,
    ranges: Map<PageID, KeyRange>,
    parent: Map<PageID, PageID>,
    roots: Seq<PageID>,
    cur: PageID,
) -> bool {
    &&& forall|id: PageID|
        #[trigger] pages.contains_key(id) && id != cur ==> page_ordered(pages, ranges, parent, id)
    &&& parents_in(pages, parent)
    &&& roots_ok(ranges, parent, roots)
}

/// Node `cur` is in order but for the slot that holds `s`: that slot points
/// at `c`, whose range now ends at `s`, and the page `r`, whose range runs
/// from `s` to the slot's end, waits for a separator with key `s` in `cur`.
pub open spec fn pending_at(
    pages: Map<PageID, Seq<u8>>,
    ranges: Map<PageID, KeyRange>,
    parent: Map<PageID, PageID>,
    cur: PageID,
    c: PageID,
    s: Seq<u8>,
    r: PageID,
) -> bool {
    let v = page_view(pages[cur]);
    let j = partition_of(v.tuples, s) - 1;
    let sr = slot_range(v.tuples, ranges[cur], j);
    &&& pages.contains_key(cur)
    &&& is_node(pages[cur])
    &&& ranges.contains_key(cur)
    &&& keys_strict(v.tuples)
    &&& keys_in(v.tuples, ranges[cur])
    &&& is_partition(v.tuples, s, partition_of(v.tuples, s))
    &&& in_range(s, sr)
    &&& (sr.lo matches Some(l) ==> lex_lt(l, s))
    &&& slot_child(v, j) == c
    &&& forall|i: int| -1 <= i < v.tuples.len() && i != j ==> #[trigger] slot_linked(pages, ranges, parent, cur, i)
    &&& pages.contains_key(c)
    &&& ranges.contains_key(c)
    &&& ranges[c] == (KeyRange { lo: sr.lo, hi: Some(s) })
    &&& parent.contains_key(c)
    &&& parent[c] == cur
    &&& pages.contains_key(r)
    &&& ranges.contains_key(r)
    &&& ranges[r] == (KeyRange { lo: Some(s), hi: sr.hi })
    &&& !parent.contains_key(r)
}

/// The pages of an ordered store are in order.
pub proof fn lemma_ordered_page(
    pages: Map<PageID, Seq<u8>>,
    ranges: Map<PageID, KeyRange>,
    parent: Map<PageID, PageID>,
    roots: Seq<PageID>,
    id: PageID,
)
    requires
        ordered(pages, ranges, parent, roots),
        pages.contains_key(id),
    ensures
        page_ordered(pages, ranges, parent, id),
{
    reveal(all_ordered);
}

/// The roots of an ordered store cover all keys.
pub proof fn lemma_ordered_root(
    pages: Map<PageID, Seq<u8>>,
    ranges: Map<PageID, KeyRange>,
    parent: Map<PageID, PageID>,
    roots: Seq<PageID>,
    i: int,
)
    requires
        ordered(pages, ranges, parent, roots),
        0 <= i < roots.len(),
    ensures
        ranges.contains_key(roots[i]),
        ranges[roots[i]] == full_range(),
        !parent.contains_key(roots[i]),
{
    assert(ranges.contains_key(roots[i]));
}

/// In a node in order whose range holds `k`, the slot the search for `k`
/// takes holds `k`, and its child is the page the search goes to, with the
/// slot's range and the node as its parent.
pub proof fn lemma_child_in_range(
    pages: Map<PageID, Seq<u8>>,
    ranges: Map<PageID, KeyRange>,
    parent: Map<PageID, PageID>,
    id: PageID,
    k: Seq<u8>,
)
    requires
        page_ordered(pages, ranges, parent, id),
        is_node(pages[id]),
        in_range(k, ranges[id]),
        is_partition(page_view(pages[id]).tuples, k, partition_of(page_view(pages[id]).tuples, k)),
    ensures
        ({
            let v = page_view(pages[id]);
            let j = partition_of(v.tuples, k) - 1;
            let c = node_child(pages[id], k);
            &&& c == slot_child(v, j)
            &&& in_range(k, slot_range(v.tuples, ranges[id], j))
            &&& pages.contains_key(c)
            &&& ranges.contains_key(c)
            &&& ranges[c] == slot_range(v.tuples, ranges[id], j)
            &&& in_range(k, ranges[c])
            &&& parent.contains_key(c)
            &&& parent[c] == id
        }),
{
    let v = page_view(pages[id]);
    let ts = v.tuples;
    let p = partition_of(ts, k);
    let j = p - 1;
    let sr = slot_range(ts, ranges[id], j);
    assert(in_range(k, sr)) by {
        if j >= 0 {
            assert(lex_le(tuple_key(ts[j]), k));
        }
        if j + 1 < ts.len() {
            assert(lex_lt(k, tuple_key(ts[j + 1])));
        }
    }
    assert(range_nonempty(sr)) by {
        if sr.lo is Some && sr.hi is Some {
            lemma_lex_le_transitive(sr.lo->0, k, sr.hi->0);
        }
    }
    assert(slot_linked(pages, ranges, parent, id, j));
}

/// Along the search for `k` from a page whose range holds `k`, in an ordered
/// store, every page visited holds `k` in its range, and each one after the
/// first has the one before as its parent.
pub proof fn lemma_descent_in_range(
    pages: Map<PageID, Seq<u8>>,
    ranges: Map<PageID, KeyRange>,
    parent: Map<PageID, PageID>,
    roots: Seq<PageID>,
    start: PageID,
    k: Seq<u8>,
    path: Seq<PageID>,
    leaf: PageID,
)
    requires
        ordered(pages, ranges, parent, roots),
        pages.contains_key(start),
        ranges.contains_key(start),
        in_range(k, ranges[start]),
        is_descent(pages, start, k, path, leaf),
        forall|i: int|
            0 <= i < path.len() ==> is_partition(
                page_view(pages[#[trigger] path[i]]).tuples,
                k,
                partition_of(page_view(pages[path[i]]).tuples, k),
            ),
    ensures
        forall|i: int| 0 <= i < path.len() ==> in_range(k, ranges[#[trigger] path[i]]),
        ranges.contains_key(leaf),
        in_range(k, ranges[leaf]),
        path.len() > 0 ==> parent.contains_key(leaf) && parent[leaf] == path[path.len() - 1],
        forall|i: int|
            0 < i < path.len() ==> parent.contains_key(#[trigger] path[i]) && parent[path[i]]
                == path[i - 1],
    decreases path.len(),
{
    if path.len() > 0 {
        assert(descent_step(pages, k, path, leaf, 0));
        lemma_ordered_page(pages, ranges, parent, roots, start);
        lemma_child_in_range(pages, ranges, parent, start, k);
        let next = node_child(pages[start], k);
        let tail = path.drop_first();
        assert forall|i: int| 0 <= i < tail.len() implies #[trigger] descent_step(pages, k, tail, leaf, i) by {
            assert(descent_step(pages, k, path, leaf, i + 1));
        }
        if tail.len() > 0 {
            assert(tail[0] == next);
        }
        assert forall|i: int| 0 <= i < tail.len() implies is_partition(
            page_view(pages[#[trigger] tail[i]]).tuples,
            k,
            partition_of(page_view(pages[tail[i]]).tuples, k),
        ) by {
            assert(tail[i] == path[i + 1]);
        }
        lemma_descent_in_range(pages, ranges, parent, roots, next, k, tail, leaf);
        assert forall|i: int| 0 <= i < path.len() implies in_range(k, ranges[#[trigger] path[i]]) by {
            if i > 0 {
                assert(path[i] == tail[i - 1]);
            }
        }
        assert forall|i: int| 0 < i < path.len() implies parent.contains_key(#[trigger] path[i])
            && parent[path[i]] == path[i - 1] by {
            assert(path[i] == tail[i - 1]);
            if i > 1 {
                assert(path[i - 1] == tail[i - 2]);
            } else {
                assert(path[1] == next);
            }
        }
        if tail.len() > 0 {
            assert(path[path.len() - 1] == tail[tail.len() - 1]);
        }
    }
}

/// The slots of a node after the separator `u` goes in at `j + 1`: those
/// before `j` are as they were, slot `j` ends at `u`'s key, slot `j + 1` is
/// `u`'s and runs to where slot `j` ended, and later slots are the old ones
/// shifted by one.
pub proof fn lemma_slots_after_insert(v: PageView, outer: KeyRange, j: int, u: Seq<u8>, i: int)
    requires
        -1 <= j < v.tuples.len(),
        -1 <= i <= v.tuples.len(),
    ensures
        ({
            let w = PageView { tuples: v.tuples.insert(j + 1, u), ..v };
            let old_j = slot_range(v.tuples, outer, j);
            &&& i < j ==> slot_range(w.tuples, outer, i) == slot_range(v.tuples, outer, i) && slot_child(w, i) == slot_child(v, i)
            &&& i == j ==> slot_range(w.tuples, outer, i) == (KeyRange { lo: old_j.lo, hi: Some(tuple_key(u)) })
                && slot_child(w, i) == slot_child(v, i)
            &&& i == j + 1 ==> slot_range(w.tuples, outer, i) == (KeyRange { lo: Some(tuple_key(u)), hi: old_j.hi })
                && slot_child(w, i) == u32_at(tuple_value(u), 0)
            &&& i > j + 1 ==> slot_range(w.tuples, outer, i) == slot_range(v.tuples, outer, i - 1) && slot_child(w, i) == slot_child(v, i - 1)
        }),
{
    let ts = v.tuples;
    let w = PageView { tuples: ts.insert(j + 1, u), ..v };
    let ws = w.tuples;
    if 0 <= i && i < j + 1 {
        assert(ws[i] == ts[i]);
    }
    if i + 1 < j + 1 && i + 1 >= 0 {
        assert(ws[i + 1] == ts[i + 1]);
    }
    if i == j + 1 {
        assert(ws[i] == u);
        if i + 1 < ws.len() {
            assert(ws[i + 1] == ts[i]);
        }
    }
    if i > j + 1 {
        assert(ws[i] == ts[i - 1]);
        if i + 1 < ws.len() {
            assert(ws[i + 1] == ts[i]);
        }
    }
    if i == j && j + 1 < ws.len() {
        assert(ws[j + 1] == u);
    }
}

/// Putting the awaited separator `u` into node `cur` at its place puts the
/// store back in order, with `cur` as the parent of the waiting page.
pub proof fn lemma_resolve(
    pages: Map<PageID, Seq<u8>>,
    ranges: Map<PageID, KeyRange>,
    parent: Map<PageID, PageID>,
    roots: Seq<PageID>,
    cur: PageID,
    c: PageID,
    r: PageID,
    u: Seq<u8>,
    b: Seq<u8>,
)
    requires
        ordered_except(pages, ranges, parent, roots, cur),
        pending_at(pages, ranges, parent, cur, c, tuple_key(u), r),
        u32_at(tuple_value(u), 0) == r,
        is_node(b),
        page_view(b) == (PageView {
            tuples: page_view(pages[cur]).tuples.insert(partition_of(page_view(pages[cur]).tuples, tuple_key(u)), u),
            ..page_view(pages[cur])
        }),
    ensures
        ordered(pages.insert(cur, b), ranges, parent.insert(r, cur), roots),
{
    let s = tuple_key(u);
    let v = page_view(pages[cur]);
    let ts = v.tuples;
    let p = partition_of(ts, s);
    let j = p - 1;
    let sr = slot_range(ts, ranges[cur], j);
    let pages2 = pages.insert(cur, b);
    let parent2 = parent.insert(r, cur);
    let w = page_view(b);
    let ws = w.tuples;
    assert(w == (PageView { tuples: ts.insert(j + 1, u), ..v }));
    reveal(ordered_except);
    reveal(all_ordered);
    // The new key sits strictly between its neighbours.
    assert(keys_strict(ws)) by {
        assert forall|a: int, z: int| 0 <= a < z < ws.len() implies #[trigger] lex_lt(tuple_key(ws[a]), tuple_key(ws[z])) by {
            let ka = tuple_key(ws[a]);
            let kz = tuple_key(ws[z]);
            if a < p && z < p {
                assert(ws[a] == ts[a] && ws[z] == ts[z]);
            } else if a > p && z > p {
                assert(ws[a] == ts[a - 1] && ws[z] == ts[z - 1]);
            } else if a == p {
                assert(ws[z] == ts[z - 1]);
                assert(lex_lt(s, tuple_key(ts[z - 1])));
            } else if z == p {
                assert(ws[a] == ts[a]);
                assert(lex_le(tuple_key(ts[a]), s));
                if j >= 0 {
                    assert(sr.lo == Some(tuple_key(ts[j])));
                    if a < j {
                        assert(lex_lt(tuple_key(ts[a]), tuple_key(ts[j])));
                        lemma_lex_le_transitive(tuple_key(ts[a]), tuple_key(ts[j]), s);
                    }
                }
            } else {
                assert(a < p && z > p);
                assert(ws[a] == ts[a] && ws[z] == ts[z - 1]);
            }
        }
    }
    assert(keys_in(ws, ranges[cur])) by {
        assert forall|a: int| 0 <= a < ws.len() implies #[trigger] in_range(tuple_key(ws[a]), ranges[cur]) by {
            if a < p {
                assert(ws[a] == ts[a]);
            } else if a > p {
                assert(ws[a] == ts[a - 1]);
            } else {
                let outer = ranges[cur];
                if outer.lo is Some {
                    if j >= 0 {
                        assert(in_range(tuple_key(ts[j]), outer));
                        lemma_lex_le_transitive(outer.lo->0, tuple_key(ts[j]), s);
                    }
                }
                if outer.hi is Some {
                    if j + 1 < ts.len() {
                        assert(in_range(tuple_key(ts[j + 1]), outer));
                        lemma_lex_le_transitive(s, tuple_key(ts[j + 1]), outer.hi->0);
                    }
                }
            }
        }
    }
    assert forall|i: int| -1 <= i < ws.len() implies #[trigger] slot_linked(pages2, ranges, parent2, cur, i) by {
        lemma_slots_after_insert(v, ranges[cur], j, u, i);
        if i < j {
            assert(slot_linked(pages, ranges, parent, cur, i));
        } else if i > j + 1 {
            assert(slot_linked(pages, ranges, parent, cur, i - 1));
        }
    }
    assert forall|id: PageID| #[trigger] pages2.contains_key(id) implies page_ordered(pages2, ranges, parent2, id) by {
        if id != cur {
            assert(page_ordered(pages, ranges, parent, id));
            let vi = page_view(pages[id]);
            if is_node(pages[id]) {
                assert forall|i: int| -1 <= i < vi.tuples.len() implies #[trigger] slot_linked(pages2, ranges, parent2, id, i) by {
                    assert(slot_linked(pages, ranges, parent, id, i));
                }
            }
        }
    }
    assert(roots_ok(ranges, parent2, roots)) by {
        assert forall|i: int| 0 <= i < roots.len() implies !parent2.contains_key(#[trigger] roots[i]) by {
            assert(ranges[roots[i]] == full_range());
            assert(ranges[r].lo == Some(s));
        }
    }
    assert(parents_in(pages2, parent2));
}

/// Strictly increasing keys are sorted.
pub proof fn lemma_strict_sorted(ts: Seq<Seq<u8>>)
    requires
        keys_strict(ts),
    ensures
        keys_sorted(ts),
{
    assert forall|i: int, j: int| 0 <= i <= j < ts.len() implies #[trigger] lex_le(tuple_key(ts[i]), tuple_key(ts[j])) by {
        if i == j {
            lemma_lex_order_basics(tuple_key(ts[i]), tuple_key(ts[i]));
        } else {
            assert(lex_lt(tuple_key(ts[i]), tuple_key(ts[j])));
        }
    }
}

/// When a page with strictly increasing keys splits for a tuple whose key
/// it does not hold, the halves are a prefix and a suffix of its tuples
/// with the new one in place, cut at the separator: the left half ends just
/// before it, and the right half starts at it in a leaf and just after it in
/// a node, whose separator goes up.
pub proof fn lemma_split_halves(ts: Seq<Seq<u8>>, u: Seq<u8>, leaf: bool) -> (a: int)
    requires
        keys_strict(ts),
        forall|i: int| 0 <= i < ts.len() ==> tuple_key(#[trigger] ts[i]) != tuple_key(u),
        ts.len() >= 1,
    ensures
        ({
            let k = tuple_key(u);
            let tu = ts.insert(partition_of(ts, k), u);
            let m = split_middle(ts, u);
            &&& is_partition(ts, k, partition_of(ts, k))
            &&& keys_strict(tu)
            &&& 1 <= a < tu.len()
            &&& m == tu[a]
            &&& split_left(ts, u) == tu.take(a)
            &&& split_right(ts, u, leaf) == if !leaf {
                tu.skip(a + 1)
            } else {
                tu.skip(a)
            }
            &&& (m == u <==> split_order(ts, u) == 0)
        }),
{
    let k = tuple_key(u);
    lemma_strict_sorted(ts);
    lemma_partition_exists(ts, k);
    let kl = partition_of(ts, k);
    let tu = ts.insert(kl, u);
    let n = ts.len() as int;
    let mid = (n + 1) / 2;
    let sp = split_at(ts, u);
    let m = split_middle(ts, u);
    let left = ts.take(sp);
    let right = ts.skip(sp);
    // The new key sits strictly between its neighbours.
    assert(keys_strict(tu)) by {
        assert forall|x: int, z: int| 0 <= x < z < tu.len() implies #[trigger] lex_lt(tuple_key(tu[x]), tuple_key(tu[z])) by {
            if x < kl && z < kl {
                assert(tu[x] == ts[x] && tu[z] == ts[z]);
            } else if x > kl && z > kl {
                assert(tu[x] == ts[x - 1] && tu[z] == ts[z - 1]);
            } else if x == kl {
                assert(tu[z] == ts[z - 1]);
            } else if z == kl {
                assert(tu[x] == ts[x]);
                assert(lex_le(tuple_key(ts[x]), k));
                lemma_lex_order_basics(tuple_key(ts[x]), k);
            } else {
                assert(tu[x] == ts[x] && tu[z] == ts[z - 1]);
            }
        }
    }
    if kl < mid {
        assert(sp == mid - 1);
        assert(m == ts[mid - 1]);
        assert(lex_lt(k, tuple_key(m)));
        lemma_lex_order_basics(k, tuple_key(m));
        assert(is_partition(left, k, kl)) by {
            assert forall|i: int| 0 <= i < kl implies lex_le(#[trigger] tuple_key(left[i]), k) by {
                assert(left[i] == ts[i]);
            }
            assert forall|i: int| kl <= i < left.len() implies lex_lt(k, #[trigger] tuple_key(left[i])) by {
                assert(left[i] == ts[i]);
            }
        }
        lemma_partition_of(left, k, kl);
        assert(left.insert(kl, u) =~= tu.take(sp + 1));
        assert(right =~= tu.skip(sp + 1));
        assert(ts.skip(sp + 1) =~= tu.skip(sp + 2));
        assert(m == tu[sp + 1]);
        sp + 1
    } else if kl == mid {
        assert(sp == mid);
        assert(m == u);
        lemma_lex_order_basics(k, k);
        assert(left =~= tu.take(mid));
        assert(right =~= tu.skip(mid + 1));
        if leaf {
            assert(is_partition(right, k, 0)) by {
                assert forall|i: int| 0 <= i < right.len() implies lex_lt(k, #[trigger] tuple_key(right[i])) by {
                    assert(right[i] == ts[sp + i]);
                }
            }
            lemma_partition_of(right, k, 0);
            assert(right.insert(0, u) =~= tu.skip(mid));
        }
        assert(m == tu[mid]);
        mid
    } else {
        assert(sp == mid);
        assert(m == ts[mid]);
        assert(lex_le(tuple_key(m), k));
        assert(tuple_key(m) != k);
        lemma_lex_order_basics(k, tuple_key(m));
        assert(is_partition(right, k, kl - sp)) by {
            assert forall|i: int| 0 <= i < kl - sp implies lex_le(#[trigger] tuple_key(right[i]), k) by {
                assert(right[i] == ts[sp + i]);
            }
            assert forall|i: int| kl - sp <= i < right.len() implies lex_lt(k, #[trigger] tuple_key(right[i])) by {
                assert(right[i] == ts[sp + i]);
            }
        }
        lemma_partition_of(right, k, kl - sp);
        assert(left =~= tu.take(mid));
        assert(right.insert(kl - sp, u) =~= tu.skip(mid));
        if !leaf {
            let right1 = ts.skip(sp + 1);
            assert(is_partition(right1, k, kl - sp - 1)) by {
                assert forall|i: int| 0 <= i < kl - sp - 1 implies lex_le(#[trigger] tuple_key(right1[i]), k) by {
                    assert(right1[i] == ts[sp + 1 + i]);
                }
                assert forall|i: int| kl - sp - 1 <= i < right1.len() implies lex_lt(k, #[trigger] tuple_key(right1[i])) by {
                    assert(right1[i] == ts[sp + 1 + i]);
                }
            }
            lemma_partition_of(right1, k, kl - sp - 1);
            assert(right1.insert(kl - sp - 1, u) =~= tu.skip(mid + 1));
        }
        assert(m == tu[mid]);
        mid
    }
}

/// A key in the range of slot `i` of a node with strictly increasing keys
/// is searched in that slot.
pub proof fn lemma_slot_of_key(ts: Seq<Seq<u8>>, outer: KeyRange, i: int, k: Seq<u8>)
    requires
        keys_strict(ts),
        -1 <= i < ts.len(),
        in_range(k, slot_range(ts, outer, i)),
    ensures
        is_partition(ts, k, i + 1),
        partition_of(ts, k) == i + 1,
{
    assert forall|x: int| 0 <= x < i + 1 implies lex_le(#[trigger] tuple_key(ts[x]), k) by {
        if x < i {
            assert(lex_lt(tuple_key(ts[x]), tuple_key(ts[i])));
        } else {
            lemma_lex_order_basics(tuple_key(ts[x]), tuple_key(ts[x]));
        }
        lemma_lex_le_transitive(tuple_key(ts[x]), tuple_key(ts[i]), k);
    }
    assert forall|x: int| i + 1 <= x < ts.len() implies lex_lt(k, #[trigger] tuple_key(ts[x])) by {
        if x > i + 1 {
            assert(lex_lt(tuple_key(ts[i + 1]), tuple_key(ts[x])));
            lemma_lex_le_transitive(k, tuple_key(ts[i + 1]), tuple_key(ts[x]));
        }
    }
    lemma_partition_of(ts, k, i + 1);
}

/// Two different slots of a node with strictly increasing keys that both
/// cover keys have different ranges.
pub proof fn lemma_slot_ranges_differ(ts: Seq<Seq<u8>>, outer: KeyRange, i: int, i2: int)
    requires
        keys_strict(ts),
        keys_in(ts, outer),
        -1 <= i < i2 < ts.len(),
    ensures
        slot_range(ts, outer, i) != slot_range(ts, outer, i2),
{
    let a = slot_range(ts, outer, i);
    let b = slot_range(ts, outer, i2);
    assert(b.lo == Some(tuple_key(ts[i2])));
    if i >= 0 {
        assert(lex_lt(tuple_key(ts[i]), tuple_key(ts[i2])));
        lemma_lex_order_basics(tuple_key(ts[i]), tuple_key(ts[i2]));
    } else if i2 > 0 {
        assert(a.hi == Some(tuple_key(ts[0])));
        assert(lex_lt(tuple_key(ts[0]), tuple_key(ts[i2])));
        lemma_lex_order_basics(tuple_key(ts[0]), tuple_key(ts[i2]));
        if a.lo is Some {
            assert(in_range(tuple_key(ts[0]), outer));
            lemma_lex_le_transitive(a.lo->0, tuple_key(ts[0]), tuple_key(ts[i2]));
            lemma_lex_order_basics(a.lo->0, tuple_key(ts[i2]));
        }
    } else {
        assert(a.hi == Some(tuple_key(ts[0])));
        assert(in_range(tuple_key(ts[0]), outer));
        if i2 + 1 < ts.len() {
            assert(lex_lt(tuple_key(ts[0]), tuple_key(ts[1])));
            lemma_lex_order_basics(tuple_key(ts[0]), tuple_key(ts[1]));
        } else if b.hi is Some {
            lemma_lex_order_basics(tuple_key(ts[0]), b.hi->0);
        }
    }
}

/// The roots of all objects but `obj` are as `roots_ok` says, and no two
/// objects share a root.
pub open spec fn roots_ok_but(ranges: Map<PageID, KeyRange>, parent: Map<PageID, PageID>, roots: Seq<PageID>, obj: int) -> bool {
    &&& forall|i: int|
        0 <= i < roots.len() && i != obj ==> {
            &&& ranges.contains_key(#[trigger] roots[i])
            &&& ranges[roots[i]] == full_range()
            &&& !parent.contains_key(roots[i])
        }
    &&& forall|i: int, j: int| 0 <= i < j < roots.len() ==> #[trigger] roots[i] != #[trigger] roots[j]
}

/// The ranges after page `c` splits at key `s` into itself and the new page
/// `r`: `c` keeps the keys before `s`, `r` takes `s` and the keys up to where
/// `c` ended.
pub open spec fn split_ranges(ranges: Map<PageID, KeyRange>, c: PageID, r: PageID, s: Seq<u8>) -> Map<PageID, KeyRange> {
    ranges.insert(c, KeyRange { lo: ranges[c].lo, hi: Some(s) }).insert(r, KeyRange { lo: Some(s), hi: ranges[c].hi })
}

/// Page `c` has just split at key `s` into itself and the new page `r`.
/// Either `c`'s parent holds the separator pending, or `c` was the root of
/// object `obj` and everything is in order but that root's range.
pub open spec fn after_split(
    pages: Map<PageID, Seq<u8>>,
    ranges: Map<PageID, KeyRange>,
    parent: Map<PageID, PageID>,
    roots: Seq<PageID>,
    obj: int,
    c: PageID,
    s: Seq<u8>,
    r: PageID,
) -> bool {
    if parent.contains_key(c) {
        &&& parent[c] != c
        &&& ordered_except(pages, ranges, parent, roots, parent[c])
        &&& pending_at(pages, ranges, parent, parent[c], c, s, r)
    } else {
        &&& 0 <= obj < roots.len()
        &&& roots[obj] == c
        &&& all_ordered(pages, ranges, parent)
        &&& parents_in(pages, parent)
        &&& roots_ok_but(ranges, parent, roots, obj)
        &&& pages.contains_key(c)
        &&& ranges.contains_key(c)
        &&& ranges[c] == (KeyRange { lo: None, hi: Some(s) })
        &&& pages.contains_key(r)
        &&& ranges.contains_key(r)
        &&& ranges[r] == (KeyRange { lo: Some(s), hi: None })
        &&& !parent.contains_key(r)
    }
}

/// The parent of a page that has one, given the context the split of a page
/// needs: the parent is a node whose search for `k` goes to the page.
pub open spec fn parent_routes(
    pages: Map<PageID, Seq<u8>>,
    ranges: Map<PageID, KeyRange>,
    parent: Map<PageID, PageID>,
    roots: Seq<PageID>,
    obj: int,
    c: PageID,
    k: Seq<u8>,
) -> bool {
    &&& parent.contains_key(c) ==> {
        let p = parent[c];
        &&& p != c
        &&& pages.contains_key(p)
        &&& is_node(pages[p])
        &&& ranges.contains_key(p)
        &&& in_range(k, ranges[p])
        &&& node_child(pages[p], k) == c
        &&& is_partition(page_view(pages[p]).tuples, k, partition_of(page_view(pages[p]).tuples, k))
    }
    &&& !parent.contains_key(c) ==> 0 <= obj < roots.len() && roots[obj] == c
}

/// Splitting an ordered leaf for a tuple with a key it does not hold, in its
/// range, leaves the store split at the separator's key, with the tuple in
/// the half whose range holds its key.
pub proof fn lemma_leaf_split(
    pages: Map<PageID, Seq<u8>>,
    ranges: Map<PageID, KeyRange>,
    parent: Map<PageID, PageID>,
    roots: Seq<PageID>,
    obj: int,
    leaf: PageID,
    t: Seq<u8>,
    pages2: Map<PageID, Seq<u8>>,
    up: Seq<u8>,
)
    requires
        ordered(pages, ranges, parent, roots),
        forall|i: int| 0 <= i < roots.len() ==> pages.contains_key(#[trigger] roots[i]),
        pages.contains_key(leaf),
        is_leaf(pages[leaf]),
        page_view(pages[leaf]).tuples.len() >= 1,
        in_range(tuple_key(t), ranges[leaf]),
        forall|i: int|
            0 <= i < page_view(pages[leaf]).tuples.len() ==> tuple_key(#[trigger] page_view(pages[leaf]).tuples[i])
                != tuple_key(t),
        split_done(pages, pages2, leaf, t, up),
        parent_routes(pages, ranges, parent, roots, obj, leaf, tuple_key(t)),
    ensures
        ({
            let r = page_view(pages2[leaf]).right_sibling;
            let km = tuple_key(split_middle(page_view(pages[leaf]).tuples, t));
            let ranges2 = split_ranges(ranges, leaf, r, km);
            let x = if lex_lt(tuple_key(t), km) { leaf } else { r };
            &&& after_split(pages2, ranges2, parent, roots, obj, leaf, km, r)
            &&& page_view(pages2[x]).tuples.contains(t)
            &&& in_range(tuple_key(t), ranges2[x])
            &&& pages2.contains_key(x)
            &&& is_leaf(pages2[x])
        }),
{
    let v = page_view(pages[leaf]);
    let ts = v.tuples;
    let k = tuple_key(t);
    lemma_ordered_page(pages, ranges, parent, roots, leaf);
    let a = lemma_split_halves(ts, t, true);
    let p = partition_of(ts, k);
    let tu = ts.insert(p, t);
    let m = split_middle(ts, t);
    let km = tuple_key(m);
    let r = page_view(pages2[leaf]).right_sibling;
    let ranges2 = split_ranges(ranges, leaf, r, km);
    let old_range = ranges[leaf];
    let lt = tu.take(a);
    let rt = tu.skip(a);
    assert(page_view(pages2[leaf]).tuples == lt);
    assert(page_view(pages2[r]).tuples == rt);
    assert(!pages.contains_key(r));
    assert(!parent.contains_key(r));
    assert(r != leaf);
    // Every key of the grown tuples lies in the old range.
    assert(keys_in(tu, old_range)) by {
        assert forall|i: int| 0 <= i < tu.len() implies #[trigger] in_range(tuple_key(tu[i]), old_range) by {
            if i < p {
                assert(tu[i] == ts[i]);
            } else if i > p {
                assert(tu[i] == ts[i - 1]);
            }
        }
    }
    let left_range = KeyRange { lo: old_range.lo, hi: Some(km) };
    let right_range = KeyRange { lo: Some(km), hi: old_range.hi };
    assert(page_ordered(pages2, ranges2, parent, leaf)) by {
        assert(ranges2[leaf] == left_range);
        assert forall|i: int| 0 <= i < lt.len() implies #[trigger] in_range(tuple_key(lt[i]), left_range) by {
            assert(lt[i] == tu[i]);
            assert(in_range(tuple_key(tu[i]), old_range));
            assert(lex_lt(tuple_key(tu[i]), tuple_key(tu[a])));
        }
        assert forall|i: int, j: int| 0 <= i < j < lt.len() implies #[trigger] lex_lt(tuple_key(lt[i]), tuple_key(lt[j])) by {
            assert(lt[i] == tu[i] && lt[j] == tu[j]);
        }
    }
    assert(page_ordered(pages2, ranges2, parent, r)) by {
        assert(ranges2[r] == right_range);
        assert forall|i: int| 0 <= i < rt.len() implies #[trigger] in_range(tuple_key(rt[i]), right_range) by {
            assert(rt[i] == tu[a + i]);
            assert(in_range(tuple_key(tu[a + i]), old_range));
            if i > 0 {
                assert(lex_lt(tuple_key(tu[a]), tuple_key(tu[a + i])));
            }
            lemma_lex_order_basics(km, tuple_key(rt[i]));
        }
        assert forall|i: int, j: int| 0 <= i < j < rt.len() implies #[trigger] lex_lt(tuple_key(rt[i]), tuple_key(rt[j])) by {
            assert(rt[i] == tu[a + i] && rt[j] == tu[a + j]);
        }
    }
    // Where the new tuple went.
    assert(tu[p] == t);
    if lex_lt(k, km) {
        if p >= a {
            if p > a {
                assert(lex_lt(km, tuple_key(tu[p])));
            }
            lemma_lex_order_basics(k, km);
        }
        assert(lt[p] == t);
        assert(lt.contains(t));
        assert(in_range(k, left_range));
    } else {
        if p < a {
            assert(lex_lt(tuple_key(tu[p]), km));
        }
        assert(rt[p - a] == t);
        assert(rt.contains(t));
        lemma_lex_order_basics(k, km);
        assert(in_range(k, right_range));
    }
    // The key of the separator is strictly inside the old range.
    assert(in_range(km, old_range));
    assert(old_range.lo matches Some(l) ==> lex_lt(l, km)) by {
        if old_range.lo is Some {
            assert(in_range(tuple_key(tu[0]), old_range));
            assert(lex_lt(tuple_key(tu[0]), tuple_key(tu[a])));
            lemma_lex_le_transitive(old_range.lo->0, tuple_key(tu[0]), km);
        }
    }
    // Pages other than the two halves and the parent stay in order.
    assert forall|id: PageID|
        #[trigger] pages2.contains_key(id) && id != leaf && id != r && !(parent.contains_key(leaf) && id == parent[leaf])
        implies page_ordered(pages2, ranges2, parent, id) by {
        assert(pages.contains_key(id));
        lemma_ordered_page(pages, ranges, parent, roots, id);
        let vi = page_view(pages[id]);
        if is_node(pages[id]) {
            assert forall|i: int| -1 <= i < vi.tuples.len() implies #[trigger] slot_linked(pages2, ranges2, parent, id, i) by {
                assert(slot_linked(pages, ranges, parent, id, i));
            }
        }
    }
    if parent.contains_key(leaf) {
        let pp = parent[leaf];
        let pv = page_view(pages[pp]);
        lemma_ordered_page(pages, ranges, parent, roots, pp);
        lemma_child_in_range(pages, ranges, parent, pp, k);
        let jp = partition_of(pv.tuples, k) - 1;
        let sr = slot_range(pv.tuples, ranges[pp], jp);
        assert(sr == old_range);
        lemma_slot_of_key(pv.tuples, ranges[pp], jp, km);
        assert forall|i: int| -1 <= i < pv.tuples.len() && i != jp implies #[trigger] slot_linked(pages2, ranges2, parent, pp, i) by {
            assert(slot_linked(pages, ranges, parent, pp, i));
            let ci = slot_child(pv, i);
            if range_nonempty(slot_range(pv.tuples, ranges[pp], i)) && ci == leaf {
                if i < jp {
                    lemma_slot_ranges_differ(pv.tuples, ranges[pp], i, jp);
                } else {
                    lemma_slot_ranges_differ(pv.tuples, ranges[pp], jp, i);
                }
            }
        }
        reveal(ordered_except);
        assert(ordered_except(pages2, ranges2, parent, roots, pp)) by {
            assert forall|i: int| 0 <= i < roots.len() implies ranges2[#[trigger] roots[i]] == full_range() by {
                assert(roots[i] != leaf);
                assert(pages.contains_key(roots[i]));
            }
        }
    } else {
        reveal(all_ordered);
        assert(old_range == full_range());
        assert forall|i: int| 0 <= i < roots.len() && i != obj implies ranges2[#[trigger] roots[i]] == full_range() by {
            assert(roots[i] != leaf);
            assert(pages.contains_key(roots[i]));
        }
        assert forall|id: PageID| #[trigger] pages2.contains_key(id) implies page_ordered(pages2, ranges2, parent, id) by {
        }
    }
}

/// With the separator `u` awaited at `cur`, each slot of `cur` grown by `u`
/// that covers keys points at a page of the store with the slot's range:
/// the waiting page for `u`'s slot, else a page whose parent is `cur`.
pub proof fn lemma_grown_slots(
    pages: Map<PageID, Seq<u8>>,
    ranges: Map<PageID, KeyRange>,
    parent: Map<PageID, PageID>,
    cur: PageID,
    c: PageID,
    r: PageID,
    u: Seq<u8>,
    i: int,
)
    requires
        pending_at(pages, ranges, parent, cur, c, tuple_key(u), r),
        u32_at(tuple_value(u), 0) == r,
        -1 <= i <= page_view(pages[cur]).tuples.len(),
    ensures
        ({
            let v = page_view(pages[cur]);
            let p = partition_of(v.tuples, tuple_key(u));
            let tuv = PageView { tuples: v.tuples.insert(p, u), ..v };
            let sr = slot_range(tuv.tuples, ranges[cur], i);
            let x = slot_child(tuv, i);
            &&& i == p ==> x == r && ranges[r] == sr && range_nonempty(sr)
            &&& i == p - 1 ==> x == c && ranges[c] == sr && range_nonempty(sr)
            &&& range_nonempty(sr) ==> {
                &&& pages.contains_key(x)
                &&& ranges.contains_key(x)
                &&& ranges[x] == sr
                &&& (i == p) || (parent.contains_key(x) && parent[x] == cur)
            }
        }),
{
    let v = page_view(pages[cur]);
    let s = tuple_key(u);
    let p = partition_of(v.tuples, s);
    let j = p - 1;
    let sr0 = slot_range(v.tuples, ranges[cur], j);
    lemma_slots_after_insert(v, ranges[cur], j, u, i);
    if i == p - 1 {
        if let Some(l) = sr0.lo {
            assert(lex_lt(l, s));
        }
    } else if i == p {
        if let Some(h) = sr0.hi {
            assert(lex_lt(s, h));
            lemma_lex_order_basics(s, h);
        }
    } else if i < p - 1 {
        assert(slot_linked(pages, ranges, parent, cur, i));
    } else {
        assert(slot_linked(pages, ranges, parent, cur, i - 1));
    }
}

/// A key awaited as a separator differs from every key of the node.
pub proof fn lemma_pending_key_fresh(
    pages: Map<PageID, Seq<u8>>,
    ranges: Map<PageID, KeyRange>,
    parent: Map<PageID, PageID>,
    cur: PageID,
    c: PageID,
    s: Seq<u8>,
    r: PageID,
)
    requires
        pending_at(pages, ranges, parent, cur, c, s, r),
    ensures
        forall|i: int|
            0 <= i < page_view(pages[cur]).tuples.len() ==> tuple_key(#[trigger] page_view(pages[cur]).tuples[i]) != s,
{
    let ts = page_view(pages[cur]).tuples;
    let p = partition_of(ts, s);
    assert forall|i: int| 0 <= i < ts.len() implies tuple_key(#[trigger] ts[i]) != s by {
        if i < p - 1 {
            assert(lex_lt(tuple_key(ts[i]), tuple_key(ts[p - 1])));
            assert(lex_lt(tuple_key(ts[p - 1]), s));
            lemma_lex_le_transitive(tuple_key(ts[i]), tuple_key(ts[p - 1]), s);
            lemma_lex_order_basics(tuple_key(ts[i]), s);
        } else if i == p - 1 {
            assert(lex_lt(tuple_key(ts[p - 1]), s));
            lemma_lex_order_basics(tuple_key(ts[i]), s);
        } else {
            assert(lex_lt(s, tuple_key(ts[i])));
            lemma_lex_order_basics(tuple_key(ts[i]), s);
        }
    }
}

/// The node `cur`, grown by its awaited separator `u`, has strictly
/// increasing keys in its range, and different slots covering keys point at
/// different pages.
pub proof fn lemma_grown_node(
    pages: Map<PageID, Seq<u8>>,
    ranges: Map<PageID, KeyRange>,
    parent: Map<PageID, PageID>,
    cur: PageID,
    c: PageID,
    r: PageID,
    u: Seq<u8>,
)
    requires
        pending_at(pages, ranges, parent, cur, c, tuple_key(u), r),
        u32_at(tuple_value(u), 0) == r,
    ensures
        ({
            let v = page_view(pages[cur]);
            let tuv = PageView { tuples: v.tuples.insert(partition_of(v.tuples, tuple_key(u)), u), ..v };
            &&& keys_strict(tuv.tuples)
            &&& keys_in(tuv.tuples, ranges[cur])
            &&& forall|i: int, i2: int|
                -1 <= i < i2 < tuv.tuples.len() && range_nonempty(slot_range(tuv.tuples, ranges[cur], i))
                    && range_nonempty(slot_range(tuv.tuples, ranges[cur], i2)) ==> #[trigger] slot_child(tuv, i)
                    != #[trigger] slot_child(tuv, i2)
        }),
{
    let v = page_view(pages[cur]);
    let ts = v.tuples;
    let sk = tuple_key(u);
    let p = partition_of(ts, sk);
    let tu = ts.insert(p, u);
    let tuv = PageView { tuples: tu, ..v };
    let outer = ranges[cur];
    let sr0 = slot_range(ts, outer, p - 1);
    lemma_pending_key_fresh(pages, ranges, parent, cur, c, sk, r);
    assert(keys_strict(tu)) by {
        assert forall|x: int, z: int| 0 <= x < z < tu.len() implies #[trigger] lex_lt(tuple_key(tu[x]), tuple_key(tu[z])) by {
            if x < p && z < p {
                assert(tu[x] == ts[x] && tu[z] == ts[z]);
            } else if x > p && z > p {
                assert(tu[x] == ts[x - 1] && tu[z] == ts[z - 1]);
            } else if x == p {
                assert(tu[z] == ts[z - 1]);
            } else if z == p {
                assert(tu[x] == ts[x]);
                assert(lex_le(tuple_key(ts[x]), sk));
                lemma_lex_order_basics(tuple_key(ts[x]), sk);
            } else {
                assert(tu[x] == ts[x] && tu[z] == ts[z - 1]);
            }
        }
    }
    assert(keys_in(tu, outer)) by {
        assert forall|x: int| 0 <= x < tu.len() implies #[trigger] in_range(tuple_key(tu[x]), outer) by {
            if x < p {
                assert(tu[x] == ts[x]);
            } else if x > p {
                assert(tu[x] == ts[x - 1]);
            } else {
                if outer.lo is Some {
                    if p - 1 >= 0 {
                        assert(in_range(tuple_key(ts[p - 1]), outer));
                        lemma_lex_le_transitive(outer.lo->0, tuple_key(ts[p - 1]), sk);
                    }
                }
                if outer.hi is Some {
                    if p < ts.len() {
                        assert(in_range(tuple_key(ts[p]), outer));
                        lemma_lex_le_transitive(sk, tuple_key(ts[p]), outer.hi->0);
                    }
                }
            }
        }
    }
    assert forall|i: int, i2: int|
        -1 <= i < i2 < tu.len() && range_nonempty(slot_range(tu, outer, i)) && range_nonempty(slot_range(tu, outer, i2))
        implies #[trigger] slot_child(tuv, i) != #[trigger] slot_child(tuv, i2) by {
        lemma_grown_slots(pages, ranges, parent, cur, c, r, u, i);
        lemma_grown_slots(pages, ranges, parent, cur, c, r, u, i2);
        lemma_slot_ranges_differ(tu, outer, i, i2);
    }
}

/// When the root of object `obj` has split, a new empty root node whose left
/// child is the old root, covering all keys, awaits the separator.
pub proof fn lemma_new_root(
    pages: Map<PageID, Seq<u8>>,
    ranges: Map<PageID, KeyRange>,
    parent: Map<PageID, PageID>,
    roots: Seq<PageID>,
    obj: int,
    c: PageID,
    sk: Seq<u8>,
    r: PageID,
    nr: PageID,
    nb: Seq<u8>,
)
    requires
        after_split(pages, ranges, parent, roots, obj, c, sk, r),
        !parent.contains_key(c),
        forall|i: int| 0 <= i < roots.len() ==> pages.contains_key(#[trigger] roots[i]),
        !pages.contains_key(nr),
        is_node(nb),
        page_view(nb).tuples == Seq::<Seq<u8>>::empty(),
        page_view(nb).left_child == c,
    ensures
        ordered_except(
            pages.insert(nr, nb),
            ranges.insert(nr, full_range()),
            parent.insert(c, nr),
            roots.update(obj, nr),
            nr,
        ),
        pending_at(pages.insert(nr, nb), ranges.insert(nr, full_range()), parent.insert(c, nr), nr, c, sk, r),
{
    let pages3 = pages.insert(nr, nb);
    let ranges3 = ranges.insert(nr, full_range());
    let parent3 = parent.insert(c, nr);
    let roots3 = roots.update(obj, nr);
    let empty = Seq::<Seq<u8>>::empty();
    lemma_partition_of(empty, sk, 0);
    assert(r != c);
    assert(r != nr && c != nr);
    reveal(all_ordered);
    assert forall|id: PageID| #[trigger] pages3.contains_key(id) && id != nr implies page_ordered(pages3, ranges3, parent3, id) by {
        assert(page_ordered(pages, ranges, parent, id));
        let vi = page_view(pages[id]);
        if is_node(pages[id]) {
            assert forall|i: int| -1 <= i < vi.tuples.len() implies #[trigger] slot_linked(pages3, ranges3, parent3, id, i) by {
                assert(slot_linked(pages, ranges, parent, id, i));
            }
        }
    }
    assert(roots_ok(ranges3, parent3, roots3)) by {
        assert forall|i: int| 0 <= i < roots3.len() implies {
            &&& ranges3.contains_key(#[trigger] roots3[i])
            &&& ranges3[roots3[i]] == full_range()
            &&& !parent3.contains_key(roots3[i])
        } by {
            if i != obj {
                assert(roots[i] != c);
                assert(pages.contains_key(roots[i]));
            }
        }
        assert forall|i: int, z: int| 0 <= i < z < roots3.len() implies #[trigger] roots3[i] != #[trigger] roots3[z] by {
            if i != obj {
                assert(pages.contains_key(roots[i]));
            }
            if z != obj {
                assert(pages.contains_key(roots[z]));
            }
        }
    }
    reveal(ordered_except);
}

/// Inserting into an ordered leaf a tuple whose key lies in the leaf's range
/// and differs from its keys keeps the store ordered.
pub proof fn lemma_leaf_insert(
    pages: Map<PageID, Seq<u8>>,
    ranges: Map<PageID, KeyRange>,
    parent: Map<PageID, PageID>,
    roots: Seq<PageID>,
    leaf: PageID,
    t: Seq<u8>,
    b: Seq<u8>,
)
    requires
        ordered(pages, ranges, parent, roots),
        pages.contains_key(leaf),
        is_leaf(pages[leaf]),
        in_range(tuple_key(t), ranges[leaf]),
        forall|i: int|
            0 <= i < page_view(pages[leaf]).tuples.len() ==> tuple_key(#[trigger] page_view(pages[leaf]).tuples[i])
                != tuple_key(t),
        is_partition(
            page_view(pages[leaf]).tuples,
            tuple_key(t),
            partition_of(page_view(pages[leaf]).tuples, tuple_key(t)),
        ),
        is_leaf(b),
        page_view(b) == (PageView {
            tuples: page_view(pages[leaf]).tuples.insert(
                partition_of(page_view(pages[leaf]).tuples, tuple_key(t)),
                t,
            ),
            ..page_view(pages[leaf])
        }),
    ensures
        ordered(pages.insert(leaf, b), ranges, parent, roots),
{
    let v = page_view(pages[leaf]);
    let ts = v.tuples;
    let k = tuple_key(t);
    let p = partition_of(ts, k);
    let tu = ts.insert(p, t);
    let pages2 = pages.insert(leaf, b);
    reveal(all_ordered);
    assert(page_ordered(pages, ranges, parent, leaf));
    assert(keys_strict(tu)) by {
        assert forall|x: int, z: int| 0 <= x < z < tu.len() implies #[trigger] lex_lt(tuple_key(tu[x]), tuple_key(tu[z])) by {
            if x < p && z < p {
                assert(tu[x] == ts[x] && tu[z] == ts[z]);
            } else if x > p && z > p {
                assert(tu[x] == ts[x - 1] && tu[z] == ts[z - 1]);
            } else if x == p {
                assert(tu[z] == ts[z - 1]);
            } else if z == p {
                assert(tu[x] == ts[x]);
                assert(lex_le(tuple_key(ts[x]), k));
                lemma_lex_order_basics(tuple_key(ts[x]), k);
            } else {
                assert(tu[x] == ts[x] && tu[z] == ts[z - 1]);
            }
        }
    }
    assert(keys_in(tu, ranges[leaf])) by {
        assert forall|x: int| 0 <= x < tu.len() implies #[trigger] in_range(tuple_key(tu[x]), ranges[leaf]) by {
            if x < p {
                assert(tu[x] == ts[x]);
            } else if x > p {
                assert(tu[x] == ts[x - 1]);
            }
        }
    }
    assert forall|id: PageID| #[trigger] pages2.contains_key(id) implies page_ordered(pages2, ranges, parent, id) by {
        if id != leaf {
            assert(page_ordered(pages, ranges, parent, id));
            let vi = page_view(pages[id]);
            if is_node(pages[id]) {
                assert forall|i: int| -1 <= i < vi.tuples.len() implies #[trigger] slot_linked(pages2, ranges, parent, id, i) by {
                    assert(slot_linked(pages, ranges, parent, id, i));
                }
            }
        }
    }
}

/// Once the awaited separator `u` is in node `cur`, the search for a key `k`
/// of the waiting slot goes to the page that split when `k` sorts before
/// `u`'s key, and to the waiting page otherwise.
pub proof fn lemma_resolved_child(
    pages: Map<PageID, Seq<u8>>,
    ranges: Map<PageID, KeyRange>,
    parent: Map<PageID, PageID>,
    cur: PageID,
    c: PageID,
    r: PageID,
    u: Seq<u8>,
    k: Seq<u8>,
    b: Seq<u8>,
)
    requires
        pending_at(pages, ranges, parent, cur, c, tuple_key(u), r),
        u32_at(tuple_value(u), 0) == r,
        in_range(k, ranges[if lex_lt(k, tuple_key(u)) { c } else { r }]),
        page_view(b) == (PageView {
            tuples: page_view(pages[cur]).tuples.insert(partition_of(page_view(pages[cur]).tuples, tuple_key(u)), u),
            ..page_view(pages[cur])
        }),
    ensures
        node_child(b, k) == if lex_lt(k, tuple_key(u)) { c } else { r },
        is_partition(page_view(b).tuples, k, partition_of(page_view(b).tuples, k)),
{
    let v = page_view(pages[cur]);
    let ts = v.tuples;
    let s = tuple_key(u);
    let p = partition_of(ts, s);
    let j = p - 1;
    let outer = ranges[cur];
    let tu = ts.insert(p, u);
    let tuv = PageView { tuples: tu, ..v };
    lemma_grown_node(pages, ranges, parent, cur, c, r, u);
    let ik = if lex_lt(k, s) { j } else { j + 1 };
    lemma_slots_after_insert(v, outer, j, u, ik);
    lemma_slot_of_key(tu, outer, ik, k);
    assert(slot_child(tuv, ik) == if lex_lt(k, s) { c } else { r });
}

/// In an ordered store, the leaf the search for `k` reaches from the root of
/// object `obj` holds `k` in its range, and its parent, if any, is the last
/// node of the search, whose range holds `k` too.
pub proof fn lemma_leaf_routes(
    pages: Map<PageID, Seq<u8>>,
    ranges: Map<PageID, KeyRange>,
    parent: Map<PageID, PageID>,
    roots: Seq<PageID>,
    obj: int,
    k: Seq<u8>,
    path: Seq<PageID>,
    leaf: PageID,
)
    requires
        ordered(pages, ranges, parent, roots),
        0 <= obj < roots.len(),
        pages.contains_key(roots[obj]),
        is_descent(pages, roots[obj], k, path, leaf),
    ensures
        parent_routes(pages, ranges, parent, roots, obj, leaf, k),
        ranges.contains_key(leaf),
        in_range(k, ranges[leaf]),
        path.len() > 0 <==> parent.contains_key(leaf),
        path.len() > 0 ==> parent[leaf] == path[path.len() - 1],
{
    lemma_ordered_root(pages, ranges, parent, roots, obj);
    assert forall|i: int| 0 <= i < path.len() implies is_partition(
        page_view(pages[#[trigger] path[i]]).tuples,
        k,
        partition_of(page_view(pages[path[i]]).tuples, k),
    ) by {
        assert(descent_step(pages, k, path, leaf, i));
        lemma_ordered_page(pages, ranges, parent, roots, path[i]);
        lemma_strict_sorted(page_view(pages[path[i]]).tuples);
        lemma_partition_exists(page_view(pages[path[i]]).tuples, k);
    }
    lemma_descent_in_range(pages, ranges, parent, roots, roots[obj], k, path, leaf);
    if path.len() > 0 {
        let n = path.len() - 1;
        assert(descent_step(pages, k, path, leaf, n));
        assert(path[n] != leaf);
        assert(in_range(k, ranges[path[n]]));
        assert(is_partition(page_view(pages[path[n]]).tuples, k, partition_of(page_view(pages[path[n]]).tuples, k)));
        lemma_ordered_page(pages, ranges, parent, roots, path[n]);
    }
}

/// The parents after node `cur` splits off the node `n`, viewed as `nv`: the
/// pages of `nv`'s slots get `n` as their parent, the waiting page `r`
/// otherwise gets `cur`, and every other page keeps its parent.
#[verifier::opaque]
pub open spec fn split_parents(
    parent: Map<PageID, PageID>,
    nv: PageView,
    cur: PageID,
    n: PageID,
    r: PageID,
) -> Map<PageID, PageID> {
    Map::new(
        |x: PageID| parent.contains_key(x) || x == r,
        |x: PageID|
            if exists|j: int| -1 <= j < nv.tuples.len() && #[trigger] slot_child(nv, j) == x {
                n
            } else if x == r {
                cur
            } else {
                parent[x]
            },
    )
}

/// The slots of the halves of a node split at `a`: the left half keeps the
/// grown node's slots before `a` with their ranges, the right half, from the
/// separator's key on, takes the slots from `a` on.
pub proof fn lemma_split_slot_ranges(tuv: PageView, outer: KeyRange, a: int, lv: PageView, nv: PageView, j: int)
    requires
        0 <= a < tuv.tuples.len(),
        lv == (PageView { tuples: tuv.tuples.take(a), ..lv }),
        lv.left_child == tuv.left_child,
        nv.tuples == tuv.tuples.skip(a + 1),
        nv.left_child == child_at(tuv.tuples, a),
    ensures
        -1 <= j < a ==> slot_range(lv.tuples, KeyRange { lo: outer.lo, hi: Some(tuple_key(tuv.tuples[a])) }, j)
            == slot_range(tuv.tuples, outer, j) && slot_child(lv, j) == slot_child(tuv, j),
        -1 <= j < tuv.tuples.len() - a - 1 ==> slot_range(
            nv.tuples,
            KeyRange { lo: Some(tuple_key(tuv.tuples[a])), hi: outer.hi },
            j,
        ) == slot_range(tuv.tuples, outer, a + 1 + j) && slot_child(nv, j) == slot_child(tuv, a + 1 + j),
{
    let tu = tuv.tuples;
    if -1 <= j < a {
        if j >= 0 {
            assert(lv.tuples[j] == tu[j]);
        }
        if j + 1 < a {
            assert(lv.tuples[j + 1] == tu[j + 1]);
        }
    }
    if -1 <= j < tu.len() - a - 1 {
        if j >= 0 {
            assert(nv.tuples[j] == tu[a + 1 + j]);
        }
        if j + 1 < nv.tuples.len() {
            assert(nv.tuples[j + 1] == tu[a + 2 + j]);
        }
    }
}

/// Splitting node `cur`, which awaits the separator `u` but has no room for
/// it, leaves the store split at the middle key, which moves up out of both
/// halves: the pages of the new node's slots get it as parent, and the search
/// for a key `k` of the waiting slot goes, from the half whose range holds
/// `k`, to the page it went to through the grown node.
#[verifier::spinoff_prover]
#[verifier::rlimit(100)]
pub proof fn lemma_node_split(
    pages: Map<PageID, Seq<u8>>,
    ranges: Map<PageID, KeyRange>,
    parent: Map<PageID, PageID>,
    roots: Seq<PageID>,
    obj: int,
    cur: PageID,
    c: PageID,
    r: PageID,
    u: Seq<u8>,
    k: Seq<u8>,
    pages2: Map<PageID, Seq<u8>>,
    up: Seq<u8>,
)
    requires
        ordered_except(pages, ranges, parent, roots, cur),
        pending_at(pages, ranges, parent, cur, c, tuple_key(u), r),
        u32_at(tuple_value(u), 0) == r,
        page_view(pages[cur]).tuples.len() >= 1,
        split_done(pages, pages2, cur, u, up),
        forall|i: int| 0 <= i < roots.len() ==> pages.contains_key(#[trigger] roots[i]),
        parent_routes(pages, ranges, parent, roots, obj, cur, k),
        in_range(k, ranges[if lex_lt(k, tuple_key(u)) { c } else { r }]),
    ensures
        ({
            let n = page_view(pages2[cur]).right_sibling;
            let km = tuple_key(split_middle(page_view(pages[cur]).tuples, u));
            let ranges2 = split_ranges(ranges, cur, n, km);
            let parent2 = split_parents(parent, page_view(pages2[n]), cur, n, r);
            let h = if lex_lt(k, km) { cur } else { n };
            &&& after_split(pages2, ranges2, parent2, roots, obj, cur, km, n)
            &&& pages2.contains_key(h)
            &&& is_node(pages2[h])
            &&& ranges2.contains_key(h)
            &&& in_range(k, ranges2[h])
            &&& node_child(pages2[h], k) == if lex_lt(k, tuple_key(u)) { c } else { r }
            &&& forall|x: PageID|
                #[trigger] parent.contains_key(x) && parent[x] != cur ==> parent2.contains_key(x) && parent2[x]
                    == parent[x]
            &&& forall|j: int|
                -1 <= j < page_view(pages2[n]).tuples.len() ==> #[trigger] slot_child(page_view(pages2[n]), j) == r || (
                parent.contains_key(slot_child(page_view(pages2[n]), j)) && parent[slot_child(page_view(pages2[n]), j)]
                    == cur)
        }),
{
    reveal(split_parents);
    let v = page_view(pages[cur]);
    let ts = v.tuples;
    let s = tuple_key(u);
    let p = partition_of(ts, s);
    let outer = ranges[cur];
    lemma_pending_key_fresh(pages, ranges, parent, cur, c, s, r);
    let a = lemma_split_halves(ts, u, false);
    lemma_grown_node(pages, ranges, parent, cur, c, r, u);
    let tu = ts.insert(p, u);
    let tuv = PageView { tuples: tu, ..v };
    let m = split_middle(ts, u);
    let km = tuple_key(m);
    assert(m == tu[a]);
    let n = page_view(pages2[cur]).right_sibling;
    let lv = page_view(pages2[cur]);
    let nv = page_view(pages2[n]);
    assert(lv == (PageView { tuples: tu.take(a), right_sibling: n, ..v }));
    assert(nv == right_half(v, u, cur, n, false));
    assert(nv.tuples == tu.skip(a + 1));
    assert(nv.left_child == child_at(tu, a));
    let ranges2 = split_ranges(ranges, cur, n, km);
    let parent2 = split_parents(parent, nv, cur, n, r);
    let left = KeyRange { lo: outer.lo, hi: Some(km) };
    let right = KeyRange { lo: Some(km), hi: outer.hi };
    assert(ranges2[cur] == left);
    assert(ranges2[n] == right);
    assert(!pages.contains_key(n));
    reveal(ordered_except);
    assert(parents_in(pages, parent));
    assert(!parent.contains_key(n));
    assert(r != n && c != n && cur != n);
    assert(is_node(pages2[cur]) && is_node(pages2[n]));
    // Every slot of the grown node from the first tuple on covers keys.
    assert forall|i: int| 0 <= i < tu.len() implies #[trigger] range_nonempty(slot_range(tu, outer, i)) by {
        if i + 1 < tu.len() {
            assert(lex_lt(tuple_key(tu[i]), tuple_key(tu[i + 1])));
        } else if outer.hi is Some {
            assert(in_range(tuple_key(tu[i]), outer));
        }
    }
    // The separator's key lies strictly inside the node's range.
    assert(in_range(km, outer));
    assert(outer.lo matches Some(l) ==> lex_lt(l, km)) by {
        if outer.lo is Some {
            assert(in_range(tuple_key(tu[0]), outer));
            assert(lex_lt(tuple_key(tu[0]), tuple_key(tu[a])));
            lemma_lex_le_transitive(outer.lo->0, tuple_key(tu[0]), km);
        }
    }
    // The pages of the grown node's slots.
    assert forall|i: int| -1 <= i < tu.len() && range_nonempty(slot_range(tu, outer, i)) implies {
        let x = #[trigger] slot_child(tuv, i);
        &&& pages.contains_key(x)
        &&& ranges.contains_key(x)
        &&& ranges[x] == slot_range(tu, outer, i)
        &&& x != cur
        &&& x != n
        &&& parent2.contains_key(x)
        &&& (i == p || (parent.contains_key(x) && parent[x] == cur))
        &&& parent2[x] == if i >= a { n } else { cur }
    } by {
        let x = slot_child(tuv, i);
        lemma_grown_slots(pages, ranges, parent, cur, c, r, u, i);
        if x == cur {
            if i != p {
                assert(parent[cur] == cur);
            }
        }
        if i >= a {
            lemma_split_slot_ranges(tuv, outer, a, lv, nv, i - a - 1);
            assert(slot_child(nv, i - a - 1) == x);
        } else {
            if exists|j: int| -1 <= j < nv.tuples.len() && #[trigger] slot_child(nv, j) == x {
                let j = choose|j: int| -1 <= j < nv.tuples.len() && #[trigger] slot_child(nv, j) == x;
                lemma_split_slot_ranges(tuv, outer, a, lv, nv, j);
                assert(slot_child(tuv, a + 1 + j) == x);
                assert(range_nonempty(slot_range(tu, outer, a + 1 + j)));
                assert(false);
            }
        }
    }
    // A page with a parent other than `cur` keeps it.
    assert forall|x: PageID| #[trigger] parent.contains_key(x) && parent[x] != cur implies parent2.contains_key(x)
        && parent2[x] == parent[x] by {
        if exists|j: int| -1 <= j < nv.tuples.len() && #[trigger] slot_child(nv, j) == x {
            let j = choose|j: int| -1 <= j < nv.tuples.len() && #[trigger] slot_child(nv, j) == x;
            lemma_split_slot_ranges(tuv, outer, a, lv, nv, j);
            assert(slot_child(tuv, a + 1 + j) == x);
            assert(range_nonempty(slot_range(tu, outer, a + 1 + j)));
            assert(a + 1 + j != p);
        }
        assert(x != r);
    }
    // The two halves are in order.
    assert(page_ordered(pages2, ranges2, parent2, cur)) by {
        assert forall|i: int, j: int| 0 <= i < j < lv.tuples.len() implies #[trigger] lex_lt(
            tuple_key(lv.tuples[i]),
            tuple_key(lv.tuples[j]),
        ) by {
            assert(lv.tuples[i] == tu[i] && lv.tuples[j] == tu[j]);
        }
        assert forall|i: int| 0 <= i < lv.tuples.len() implies #[trigger] in_range(tuple_key(lv.tuples[i]), left) by {
            assert(lv.tuples[i] == tu[i]);
            assert(in_range(tuple_key(tu[i]), outer));
            assert(lex_lt(tuple_key(tu[i]), tuple_key(tu[a])));
        }
        assert forall|j: int| -1 <= j < lv.tuples.len() implies #[trigger] slot_linked(pages2, ranges2, parent2, cur, j) by {
            lemma_split_slot_ranges(tuv, outer, a, lv, nv, j);
        }
    }
    assert(page_ordered(pages2, ranges2, parent2, n)) by {
        assert forall|i: int, j: int| 0 <= i < j < nv.tuples.len() implies #[trigger] lex_lt(
            tuple_key(nv.tuples[i]),
            tuple_key(nv.tuples[j]),
        ) by {
            assert(nv.tuples[i] == tu[a + 1 + i] && nv.tuples[j] == tu[a + 1 + j]);
        }
        assert forall|i: int| 0 <= i < nv.tuples.len() implies #[trigger] in_range(tuple_key(nv.tuples[i]), right) by {
            assert(nv.tuples[i] == tu[a + 1 + i]);
            assert(in_range(tuple_key(tu[a + 1 + i]), outer));
            assert(lex_lt(tuple_key(tu[a]), tuple_key(tu[a + 1 + i])));
            lemma_lex_order_basics(km, tuple_key(tu[a + 1 + i]));
        }
        assert forall|j: int| -1 <= j < nv.tuples.len() implies #[trigger] slot_linked(pages2, ranges2, parent2, n, j) by {
            lemma_split_slot_ranges(tuv, outer, a, lv, nv, j);
            assert(range_nonempty(slot_range(tu, outer, a + 1 + j)));
        }
    }
    // Every other page but the parent stays in order.
    assert forall|id: PageID|
        #[trigger] pages2.contains_key(id) && id != cur && id != n && !(parent.contains_key(cur) && id == parent[cur])
        implies page_ordered(pages2, ranges2, parent2, id) by {
        assert(pages.contains_key(id));
        assert(page_ordered(pages, ranges, parent, id));
        let vi = page_view(pages[id]);
        if is_node(pages[id]) {
            assert forall|i: int| -1 <= i < vi.tuples.len() implies #[trigger] slot_linked(pages2, ranges2, parent2, id, i) by {
                assert(slot_linked(pages, ranges, parent, id, i));
            }
        }
    }
    assert(parents_in(pages2, parent2));
    // The pages of the new node's slots were `cur`'s children or are `r`.
    assert forall|j: int| -1 <= j < nv.tuples.len() implies #[trigger] slot_child(nv, j) == r || (parent.contains_key(
        slot_child(nv, j),
    ) && parent[slot_child(nv, j)] == cur) by {
        lemma_split_slot_ranges(tuv, outer, a, lv, nv, j);
        assert(slot_child(tuv, a + 1 + j) == slot_child(nv, j));
        assert(range_nonempty(slot_range(tu, outer, a + 1 + j)));
        lemma_grown_slots(pages, ranges, parent, cur, c, r, u, a + 1 + j);
    }
    // Where the search for `k` goes.
    let hk = if lex_lt(k, s) { c } else { r };
    let ik = if lex_lt(k, s) { p - 1 } else { p };
    lemma_grown_slots(pages, ranges, parent, cur, c, r, u, ik);
    assert(slot_child(tuv, ik) == hk);
    assert(in_range(k, slot_range(tu, outer, ik)));
    lemma_slot_of_key(tu, outer, ik, k);
    if ik < a {
        lemma_split_slot_ranges(tuv, outer, a, lv, nv, ik);
        assert(lex_lt(k, km)) by {
            assert(slot_range(tu, outer, ik).hi == Some(tuple_key(tu[ik + 1])));
            if ik + 1 < a {
                assert(lex_lt(tuple_key(tu[ik + 1]), km));
                lemma_lex_le_transitive(k, tuple_key(tu[ik + 1]), km);
            }
        }
        assert(keys_strict(lv.tuples)) by {
            assert forall|i: int, j: int| 0 <= i < j < lv.tuples.len() implies #[trigger] lex_lt(
                tuple_key(lv.tuples[i]),
                tuple_key(lv.tuples[j]),
            ) by {
                assert(lv.tuples[i] == tu[i] && lv.tuples[j] == tu[j]);
            }
        }
        lemma_slot_of_key(lv.tuples, left, ik, k);
        assert(in_range(k, left)) by {
            if ik >= 0 && outer.lo is Some {
                assert(in_range(tuple_key(tu[ik]), outer));
                lemma_lex_le_transitive(outer.lo->0, tuple_key(tu[ik]), k);
            }
        }
        assert(node_child(pages2[cur], k) == slot_child(lv, ik));
    } else {
        let j = ik - a - 1;
        lemma_split_slot_ranges(tuv, outer, a, lv, nv, j);
        assert(!lex_lt(k, km)) by {
            assert(slot_range(tu, outer, ik).lo == Some(tuple_key(tu[ik])));
            if ik > a {
                assert(lex_lt(km, tuple_key(tu[ik])));
                lemma_lex_le_transitive(km, tuple_key(tu[ik]), k);
            }
            lemma_lex_order_basics(k, km);
        }
        assert(keys_strict(nv.tuples)) by {
            assert forall|i: int, z: int| 0 <= i < z < nv.tuples.len() implies #[trigger] lex_lt(
                tuple_key(nv.tuples[i]),
                tuple_key(nv.tuples[z]),
            ) by {
                assert(nv.tuples[i] == tu[a + 1 + i] && nv.tuples[z] == tu[a + 1 + z]);
            }
        }
        lemma_slot_of_key(nv.tuples, right, j, k);
        assert(in_range(k, right)) by {
            lemma_lex_order_basics(k, km);
            if j + 1 < nv.tuples.len() && outer.hi is Some {
                assert(in_range(tuple_key(tu[ik + 1]), outer));
                lemma_lex_le_transitive(k, tuple_key(tu[ik + 1]), outer.hi->0);
            }
        }
        assert(node_child(pages2[n], k) == slot_child(nv, j));
    }
    if parent.contains_key(cur) {
        let pp = parent[cur];
        let pv = page_view(pages[pp]);
        assert(page_ordered(pages, ranges, parent, pp));
        lemma_child_in_range(pages, ranges, parent, pp, k);
        let jp = partition_of(pv.tuples, k) - 1;
        assert(slot_range(pv.tuples, ranges[pp], jp) == outer);
        lemma_slot_of_key(pv.tuples, ranges[pp], jp, km);
        assert forall|i: int| -1 <= i < pv.tuples.len() && i != jp implies #[trigger] slot_linked(pages2, ranges2, parent2, pp, i) by {
            assert(slot_linked(pages, ranges, parent, pp, i));
            let ci = slot_child(pv, i);
            if range_nonempty(slot_range(pv.tuples, ranges[pp], i)) && ci == cur {
                if i < jp {
                    lemma_slot_ranges_differ(pv.tuples, ranges[pp], i, jp);
                } else {
                    lemma_slot_ranges_differ(pv.tuples, ranges[pp], jp, i);
                }
            }
        }
        assert(parent2[cur] == pp);
        assert(ordered_except(pages2, ranges2, parent2, roots, pp)) by {
            assert forall|i: int| 0 <= i < roots.len() implies ranges2[#[trigger] roots[i]] == full_range()
                && !parent2.contains_key(roots[i]) by {
                assert(pages.contains_key(roots[i]));
                assert(roots[i] != cur);
                assert(roots[i] != r);
            }
        }
    } else {
        reveal(all_ordered);
        assert(outer == full_range());
        assert forall|i: int| 0 <= i < roots.len() && i != obj implies ranges2[#[trigger] roots[i]] == full_range()
            && !parent2.contains_key(roots[i]) by {
            assert(pages.contains_key(roots[i]));
            assert(roots[i] != cur);
            assert(roots[i] != r);
        }
        assert forall|id: PageID| #[trigger] pages2.contains_key(id) implies page_ordered(pages2, ranges2, parent2, id) by {
        }
    }
}

/// In a leaf with strictly increasing keys holding `t`, the first tuple whose
/// key does not sort before `t`'s is `t`.
pub proof fn lemma_scan_start(ts: Seq<Seq<u8>>, t: Seq<u8>, idx: int)
    requires
        keys_strict(ts),
        ts.contains(t),
        is_lower_partition(ts, tuple_key(t), idx),
    ensures
        idx < ts.len(),
        ts[idx] == t,
{
    let q = choose|q: int| 0 <= q < ts.len() && ts[q] == t;
    lemma_lex_order_basics(tuple_key(t), tuple_key(t));
    if idx > q {
        assert(lex_lt(tuple_key(ts[q]), tuple_key(t)));
    } else if idx < q {
        assert(lex_le(tuple_key(t), tuple_key(ts[idx])));
        assert(lex_lt(tuple_key(ts[idx]), tuple_key(ts[q])));
        lemma_lex_order_basics(tuple_key(ts[idx]), tuple_key(t));
    }
}

} // verus!
