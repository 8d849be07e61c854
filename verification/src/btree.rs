//! A B-tree index over the buffer pool.
//!
//! Inner nodes route lookups to child pages; leaves hold the tuples and are
//! chained left to right by their right-sibling links, so a range scan walks
//! the chain without climbing back to the root. A full page is split in two
//! and a separator is pushed up into its parent, which may split in turn, up
//! to a new root.
use vstd::prelude::*;

use crate::buffer_pool::{BufferPool, BufferPoolError, ObjectID, PageID, PAGE_SIZE};
use crate::codec::{lex_le, lex_lt, lex_order, u32_at, u32_be, u32_to_be, read_u32, compare_bytes};
use crate::data_storage::storage::DBReader;
use crate::representations::page::{
    child_for, header_at, is_lower_partition, is_partition, keys_sorted, lemma_link_update,
    lemma_partition_exists, lemma_partition_of, lemma_used_space_insert, lemma_used_space_nonneg,
    lemma_used_space_remove,
    lemma_used_space_subrange, node_values_wf, page_view, page_wf, partition_of, split_middle,
    split_point, used_space, HeaderElem, InnerNode, Leaf, PageType, PageView,
    SlottedPage, NULL_PTR, HEADER_SIZE,
};
use crate::codec::{lemma_lex_order_basics, lemma_u32_roundtrip};
use crate::representations::tuple::{
    lemma_tuple_encoding, slice_to_vec, tuple_encoding, tuple_key, tuple_value, tuple_wf, Tuple,
    TupleBuf,
};

pub mod key_ranges;
pub mod leaf_chains;

use leaf_chains::{
    chain_at, chained, scan_callable, scan_results, scan_step, leaf_chain, lemma_chained_leaf_grow, lemma_chained_leaf_split, lemma_chained_new_root,
    lemma_chained_node_split, lemma_chained_resolve, lemma_descent_owner, owned_leaf,
};

use crate::codec::lemma_lex_le_transitive;
use key_ranges::{
    after_split, full_range, in_range, lemma_descent_in_range, lemma_leaf_insert, lemma_leaf_routes,
    lemma_leaf_split, lemma_new_root, lemma_node_split, lemma_ordered_page, lemma_ordered_root, lemma_resolve,
    lemma_resolved_child, lemma_strict_sorted, ordered, ordered_except, page_ordered, parent_routes, pending_at,
    range_nonempty, slot_child, split_parents, split_ranges, KeyRange,
};

verus! {

/// Errors of B-tree operations.
#[derive(Debug, PartialEq)]
pub enum BTreeError {
    /// Key not found.
    KeyNotFound,
    /// A tuple does not fit in the page it has to go to, even after a split.
    TupleTooLarge,
    /// The page store has no page id left for a new page.
    StoreFull,
}

/// Page bytes `b` hold a leaf.
pub open spec fn is_leaf(b: Seq<u8>) -> bool {
    header_at(b, HeaderElem::PageType) == PageType::Leaf.spec_id()
}

/// Page bytes `b` hold an inner node.
pub open spec fn is_node(b: Seq<u8>) -> bool {
    header_at(b, HeaderElem::PageType) == PageType::Node.spec_id()
}

/// The child page id held by the `i`-th tuple of a node.
pub open spec fn child_at(ts: Seq<Seq<u8>>, i: int) -> PageID {
    u32_at(tuple_value(ts[i]), 0)
}

/// A node tuple `t` holds, as a four-byte value, the id of a page of the
/// store that sits below level `lvl`.
pub open spec fn child_ok(pages: Map<PageID, Seq<u8>>, levels: Map<PageID, nat>, t: Seq<u8>, lvl: nat) -> bool {
    let c = u32_at(tuple_value(t), 0);
    &&& tuple_value(t).len() == 4
    &&& pages.contains_key(c)
    &&& levels.contains_key(c)
    &&& levels[c] < lvl
}

/// Every tuple of `ts` holds a child below level `lvl`.
pub open spec fn children_ok(pages: Map<PageID, Seq<u8>>, levels: Map<PageID, nat>, ts: Seq<Seq<u8>>, lvl: nat) -> bool {
    forall|x: Seq<u8>| #[trigger] ts.contains(x) ==> child_ok(pages, levels, x, lvl)
}

/// A child stays valid when the store and the levels only grow.
proof fn lemma_child_ok_mono(
    pages: Map<PageID, Seq<u8>>,
    levels: Map<PageID, nat>,
    pages2: Map<PageID, Seq<u8>>,
    levels2: Map<PageID, nat>,
    t: Seq<u8>,
    lvl: nat,
)
    requires
        child_ok(pages, levels, t, lvl),
        forall|k: PageID| pages.contains_key(k) ==> #[trigger] pages2.contains_key(k),
        forall|k: PageID|
            pages.contains_key(k) && levels.contains_key(k) ==> #[trigger] levels2.contains_key(k)
                && levels2[k] == levels[k],
    ensures
        child_ok(pages2, levels2, t, lvl),
{
    let c = u32_at(tuple_value(t), 0);
    assert(pages2.contains_key(c));
    assert(levels2.contains_key(c));
}

/// Every element of a prefix, a suffix or an insertion comes from the
/// sequence or is the inserted value.
proof fn lemma_contains_parts(ts: Seq<Seq<u8>>, k: int, p: int, t: Seq<u8>)
    requires
        0 <= k <= ts.len(),
    ensures
        forall|x: Seq<u8>| #[trigger] ts.take(k).contains(x) ==> ts.contains(x),
        forall|x: Seq<u8>| #[trigger] ts.skip(k).contains(x) ==> ts.contains(x),
        0 <= p <= ts.take(k).len() ==> forall|x: Seq<u8>|
            #[trigger] ts.take(k).insert(p, t).contains(x) ==> x == t || ts.contains(x),
        0 <= p <= ts.skip(k).len() ==> forall|x: Seq<u8>|
            #[trigger] ts.skip(k).insert(p, t).contains(x) ==> x == t || ts.contains(x),
{
    assert forall|x: Seq<u8>| #[trigger] ts.take(k).contains(x) implies ts.contains(x) by {
        let i = choose|i: int| 0 <= i < ts.take(k).len() && ts.take(k)[i] == x;
        assert(ts[i] == x);
    }
    assert forall|x: Seq<u8>| #[trigger] ts.skip(k).contains(x) implies ts.contains(x) by {
        let i = choose|i: int| 0 <= i < ts.skip(k).len() && ts.skip(k)[i] == x;
        assert(ts[k + i] == x);
    }
    if 0 <= p <= ts.take(k).len() {
        let s = ts.take(k);
        assert forall|x: Seq<u8>| #[trigger] s.insert(p, t).contains(x) implies x == t || ts.contains(x) by {
            let i = choose|i: int| 0 <= i < s.insert(p, t).len() && s.insert(p, t)[i] == x;
            if i < p {
                assert(s[i] == x);
                assert(s.contains(x));
            } else if i > p {
                assert(s[i - 1] == x);
                assert(s.contains(x));
            }
        }
    }
    if 0 <= p <= ts.skip(k).len() {
        let s = ts.skip(k);
        assert forall|x: Seq<u8>| #[trigger] s.insert(p, t).contains(x) implies x == t || ts.contains(x) by {
            let i = choose|i: int| 0 <= i < s.insert(p, t).len() && s.insert(p, t)[i] == x;
            if i < p {
                assert(s[i] == x);
                assert(s.contains(x));
            } else if i > p {
                assert(s[i - 1] == x);
                assert(s.contains(x));
            }
        }
    }
}

/// Page `id` can be worked on: it is well formed, its right-sibling link is
/// missing or points at a page of the store, and if it is a node its left
/// child and the children its tuples hold are pages of the store on lower
/// levels.
pub open spec fn page_ok(pages: Map<PageID, Seq<u8>>, levels: Map<PageID, nat>, id: PageID) -> bool {
    let b = pages[id];
    let v = page_view(b);
    &&& page_wf(b)
    &&& levels.contains_key(id)
    &&& v.right_sibling == NULL_PTR || pages.contains_key(v.right_sibling)
    &&& is_node(b) ==> {
        &&& pages.contains_key(v.left_child)
        &&& levels.contains_key(v.left_child)
        &&& levels[v.left_child] < levels[id]
        &&& children_ok(pages, levels, v.tuples, levels[id])
    }
}

/// Every page of the store can be worked on under the levels `levels`, and
/// every object root is a page of the store.
#[verifier::opaque]
pub open spec fn store_ok(pages: Map<PageID, Seq<u8>>, levels: Map<PageID, nat>, roots: Seq<PageID>) -> bool {
    &&& forall|id: PageID| #[trigger] pages.contains_key(id) ==> page_ok(pages, levels, id)
    &&& forall|i: int| 0 <= i < roots.len() ==> pages.contains_key(#[trigger] roots[i])
}

/// Each page of a workable store is workable.
proof fn lemma_store_page(pages: Map<PageID, Seq<u8>>, levels: Map<PageID, nat>, roots: Seq<PageID>, id: PageID)
    requires
        store_ok(pages, levels, roots),
        pages.contains_key(id),
    ensures
        page_ok(pages, levels, id),
{
    reveal(store_ok);
}

/// Each object root of a workable store is a page of it.
proof fn lemma_store_root(pages: Map<PageID, Seq<u8>>, levels: Map<PageID, nat>, roots: Seq<PageID>, i: int)
    requires
        store_ok(pages, levels, roots),
        0 <= i < roots.len(),
    ensures
        pages.contains_key(roots[i]),
{
    reveal(store_ok);
}

/// The pages form trees: some assignment of levels makes every page workable.
pub open spec fn tree_shaped(pages: Map<PageID, Seq<u8>>, roots: Seq<PageID>) -> bool {
    exists|levels: Map<PageID, nat>| store_ok(pages, levels, roots)
}

/// Some ranges, parents, owners and leaf chains make the store ordered and
/// chained.
pub open spec fn orderable(pages: Map<PageID, Seq<u8>>, roots: Seq<PageID>) -> bool {
    exists|order: (Map<PageID, KeyRange>, Map<PageID, PageID>, Map<PageID, int>, Seq<Seq<PageID>>)|
        ordered(pages, order.0, order.1, roots) && chained(pages, order.0, order.1, order.2, order.3, roots)
}

/// The child a node's bytes `b` send the search for `key` to.
pub open spec fn node_child(b: Seq<u8>, key: Seq<u8>) -> PageID {
    child_for(page_view(b), key)
}

/// Step `i` of a descent through the nodes of `path` to `leaf`: the `i`-th
/// page is a node that sends the search for `key` to the next page.
pub open spec fn descent_step(
    pages: Map<PageID, Seq<u8>>,
    key: Seq<u8>,
    path: Seq<PageID>,
    leaf: PageID,
    i: int,
) -> bool {
    &&& pages.contains_key(path[i])
    &&& is_node(pages[path[i]])
    &&& node_child(pages[path[i]], key) == if i + 1 < path.len() {
        path[i + 1]
    } else {
        leaf
    }
}

/// Following, from page `start`, the child for `key` through the nodes of
/// `path` ends at the leaf `leaf`.
pub open spec fn is_descent(
    pages: Map<PageID, Seq<u8>>,
    start: PageID,
    key: Seq<u8>,
    path: Seq<PageID>,
    leaf: PageID,
) -> bool {
    &&& pages.contains_key(leaf)
    &&& is_leaf(pages[leaf])
    &&& path.len() == 0 ==> leaf == start
    &&& path.len() > 0 ==> path[0] == start
    &&& forall|i: int| 0 <= i < path.len() ==> #[trigger] descent_step(pages, key, path, leaf, i)
}

/// How the key of the new tuple `t` compares with the key of the tuple that
/// separates the halves when a page holding `ts` splits for it.
pub open spec fn split_order(ts: Seq<Seq<u8>>, t: Seq<u8>) -> int {
    lex_order(tuple_key(t), tuple_key(split_middle(ts, t)))
}

/// `t` goes to the right half of the split: its key sorts after the
/// separator's, or, in a leaf, equal to it.
pub open spec fn goes_right(ts: Seq<Seq<u8>>, t: Seq<u8>, leaf: bool) -> bool {
    split_order(ts, t) > 0 || (leaf && split_order(ts, t) == 0)
}

/// The index of the first tuple that leaves the page when it splits for `t`.
pub open spec fn split_at(ts: Seq<Seq<u8>>, t: Seq<u8>) -> int {
    split_point(ts.len() as int, partition_of(ts, tuple_key(t)))
}

/// The tuples left in a page holding `ts` after it splits for `t`.
pub open spec fn split_left(ts: Seq<Seq<u8>>, t: Seq<u8>) -> Seq<Seq<u8>> {
    let left = ts.take(split_at(ts, t));
    if split_order(ts, t) < 0 {
        left.insert(partition_of(left, tuple_key(t)), t)
    } else {
        left
    }
}

/// The index of the first tuple that moves to the new page when a page
/// holding `ts` splits for `t`: the first that leaves, except in a node whose
/// separator is one of its tuples, which goes up to the parent and to neither
/// half.
pub open spec fn right_start(ts: Seq<Seq<u8>>, t: Seq<u8>, leaf: bool) -> int {
    if !leaf && split_order(ts, t) != 0 {
        split_at(ts, t) + 1
    } else {
        split_at(ts, t)
    }
}

/// The tuples of the page that splits off a page holding `ts` for `t`.
pub open spec fn split_right(ts: Seq<Seq<u8>>, t: Seq<u8>, leaf: bool) -> Seq<Seq<u8>> {
    let right = ts.skip(right_start(ts, t, leaf));
    if goes_right(ts, t, leaf) {
        right.insert(partition_of(right, tuple_key(t)), t)
    } else {
        right
    }
}

/// The page that splits off page `page_id` (viewed as `v`) for `t`, under id
/// `new_id`: linked between the page and its old right sibling, with the
/// upper half of the tuples and, for a node, the separator's child as its
/// left child.
pub open spec fn right_half(v: PageView, t: Seq<u8>, page_id: PageID, new_id: PageID, leaf: bool) -> PageView {
    PageView {
        page_id: new_id,
        page_type: v.page_type,
        left_sibling: page_id,
        right_sibling: v.right_sibling,
        left_child: if leaf {
            NULL_PTR
        } else {
            u32_at(tuple_value(split_middle(v.tuples, t)), 0)
        },
        tuples: split_right(v.tuples, t, leaf),
    }
}

/// `t` does not fit in the half of the split it goes to.
pub open spec fn split_overflows(ts: Seq<Seq<u8>>, t: Seq<u8>, leaf: bool) -> bool {
    let cap = PAGE_SIZE - HEADER_SIZE;
    ||| split_order(ts, t) < 0 && used_space(ts.take(split_at(ts, t))) + t.len() + 2 > cap
    ||| goes_right(ts, t, leaf) && used_space(ts.skip(right_start(ts, t, leaf))) + t.len() + 2 > cap
}

/// Splitting a leaf loses no tuple: the left half followed by the right half
/// is the old tuples with the new one inserted in key order.
pub proof fn lemma_leaf_split_keeps_tuples(ts: Seq<Seq<u8>>, t: Seq<u8>)
    requires
        keys_sorted(ts),
    ensures
        split_left(ts, t) + split_right(ts, t, true) == ts.insert(partition_of(ts, tuple_key(t)), t),
{
    let k = tuple_key(t);
    lemma_partition_exists(ts, k);
    let kl = partition_of(ts, k);
    let n = ts.len() as int;
    let mid = (n + 1) / 2;
    let sp = split_at(ts, t);
    let m = split_middle(ts, t);
    let left = ts.take(sp);
    let right = ts.skip(sp);
    if kl < mid {
        assert(sp == mid - 1);
        assert(m == ts[mid - 1]);
        assert(lex_lt(k, tuple_key(m)));
        assert(is_partition(left, k, kl)) by {
            assert forall|i: int| 0 <= i < kl implies lex_le(#[trigger] tuple_key(left[i]), k) by {
                assert(left[i] == ts[i]);
            }
            assert forall|i: int| kl <= i < left.len() implies lex_lt(k, #[trigger] tuple_key(left[i])) by {
                assert(left[i] == ts[i]);
            }
        }
        lemma_partition_of(left, k, kl);
        lemma_lex_order_basics(k, tuple_key(m));
        assert(left.insert(kl, t) + right =~= ts.insert(kl, t));
    } else if kl == mid {
        assert(sp == mid);
        assert(m == t);
        lemma_lex_order_basics(k, k);
        assert(is_partition(right, k, 0)) by {
            assert forall|i: int| 0 <= i < right.len() implies lex_lt(k, #[trigger] tuple_key(right[i])) by {
                assert(right[i] == ts[sp + i]);
            }
        }
        lemma_partition_of(right, k, 0);
        assert(left + right.insert(0, t) =~= ts.insert(kl, t));
    } else {
        assert(sp == mid);
        assert(m == ts[mid]);
        assert(lex_le(tuple_key(m), k));
        lemma_lex_order_basics(k, tuple_key(m));
        assert(is_partition(right, k, kl - sp)) by {
            assert forall|i: int| 0 <= i < kl - sp implies lex_le(#[trigger] tuple_key(right[i]), k) by {
                assert(right[i] == ts[sp + i]);
            }
            assert forall|i: int| kl - sp <= i < right.len() implies lex_lt(k, #[trigger] tuple_key(right[i])) by {
                assert(right[i] == ts[sp + i]);
            }
        }
        lemma_partition_of(right, k, kl - sp);
        assert(left + right.insert(kl - sp, t) =~= ts.insert(kl, t));
    }
}

/// `after` is `before` with page `page_id` split for the new tuple `t` and
/// `up` the tuple handed to its parent, the separator's key with the fresh
/// page's id: the page keeps the left half and links to the fresh page,
/// which holds the right half.
pub open spec fn split_done(
    before: Map<PageID, Seq<u8>>,
    after: Map<PageID, Seq<u8>>,
    page_id: PageID,
    t: Seq<u8>,
    up: Seq<u8>,
) -> bool {
    let v = page_view(before[page_id]);
    let ts = v.tuples;
    let leaf = is_leaf(before[page_id]);
    let new_id = page_view(after[page_id]).right_sibling;
    &&& !before.contains_key(new_id)
    &&& new_id != NULL_PTR
    &&& after == before.insert(new_id, after[new_id]).insert(page_id, after[page_id])
    &&& page_view(after[page_id]) == (PageView { tuples: split_left(ts, t), right_sibling: new_id, ..v })
    &&& page_view(after[new_id]) == right_half(v, t, page_id, new_id, leaf)
    &&& up == tuple_encoding(tuple_key(split_middle(ts, t)), u32_be(new_id))
}

/// `after` keeps every page of `before`, changes no leaf of it, keeps its
/// nodes nodes, and every page it adds is a node.
pub open spec fn nodes_only_change(before: Map<PageID, Seq<u8>>, after: Map<PageID, Seq<u8>>) -> bool {
    &&& forall|id: PageID| before.contains_key(id) ==> #[trigger] after.contains_key(id)
    &&& forall|id: PageID| #[trigger] before.contains_key(id) && is_leaf(before[id]) ==> after[id] == before[id]
    &&& forall|id: PageID| #[trigger] before.contains_key(id) && is_node(before[id]) ==> is_node(after[id])
    &&& forall|id: PageID| #[trigger] after.contains_key(id) && !before.contains_key(id) ==> is_node(after[id])
}

/// `after` is `before` with tuple `t` inserted into the leaf `leaf`, which
/// may have split: the leaf's tuples, followed by those of the new leaf that
/// split off it, are its old tuples with `t` inserted in key order. Every
/// other leaf stays as it was and every other new page is a node.
#[verifier::opaque]
pub open spec fn leaf_insert_done(
    before: Map<PageID, Seq<u8>>,
    after: Map<PageID, Seq<u8>>,
    leaf: PageID,
    t: Seq<u8>,
) -> bool {
    let v = page_view(before[leaf]);
    let grown = v.tuples.insert(partition_of(v.tuples, tuple_key(t)), t);
    let w = page_view(after[leaf]);
    let r = w.right_sibling;
    &&& after.contains_key(leaf)
    &&& forall|id: PageID| before.contains_key(id) ==> #[trigger] after.contains_key(id)
    &&& forall|id: PageID|
        #[trigger] before.contains_key(id) && id != leaf && is_leaf(before[id]) ==> after[id] == before[id]
    &&& if r == v.right_sibling {
        &&& w == (PageView { tuples: grown, ..v })
        &&& forall|id: PageID| #[trigger] after.contains_key(id) && !before.contains_key(id) ==> is_node(after[id])
    } else {
        &&& !before.contains_key(r)
        &&& after.contains_key(r)
        &&& is_leaf(after[r])
        &&& w == (PageView { tuples: w.tuples, right_sibling: r, ..v })
        &&& page_view(after[r]).left_sibling == leaf
        &&& page_view(after[r]).right_sibling == v.right_sibling
        &&& w.tuples + page_view(after[r]).tuples == grown
        &&& forall|id: PageID|
            #[trigger] after.contains_key(id) && !before.contains_key(id) && id != r ==> is_node(after[id])
    }
}

/// A leaf insert stays done while only nodes change.
proof fn lemma_leaf_insert_done_stable(
    before: Map<PageID, Seq<u8>>,
    mid: Map<PageID, Seq<u8>>,
    after: Map<PageID, Seq<u8>>,
    leaf: PageID,
    t: Seq<u8>,
)
    requires
        before.contains_key(leaf),
        is_leaf(before[leaf]),
        leaf_insert_done(before, mid, leaf, t),
        page_view(mid[leaf]).right_sibling != page_view(before[leaf]).right_sibling,
        is_leaf(mid[leaf]),
        nodes_only_change(mid, after),
    ensures
        leaf_insert_done(before, after, leaf, t),
        page_view(after[leaf]).right_sibling != page_view(before[leaf]).right_sibling,
        is_leaf(after[leaf]),
{
    reveal(leaf_insert_done);
    let r = page_view(mid[leaf]).right_sibling;
    assert(mid.contains_key(leaf));
    assert(after[leaf] == mid[leaf]);
    assert(mid.contains_key(r));
    assert(after[r] == mid[r]);
    assert forall|id: PageID| #[trigger] before.contains_key(id) && id != leaf && is_leaf(before[id]) implies after[id] == before[id] by {
        assert(mid.contains_key(id));
        assert(mid[id] == before[id]);
    }
    assert forall|id: PageID| #[trigger] after.contains_key(id) && !before.contains_key(id) && id != r implies is_node(after[id]) by {
        if mid.contains_key(id) {
            assert(is_node(mid[id]));
            if is_leaf(mid[id]) {
                assert(false);
            }
        }
    }
}

/// Link `i` of a chain of pages from an ancestor down: the page is in the
/// store with a level, and unless it is the last, it is a node above the next.
pub open spec fn link_ok(pages: Map<PageID, Seq<u8>>, levels: Map<PageID, nat>, chain: Seq<PageID>, i: int) -> bool {
    &&& pages.contains_key(chain[i])
    &&& levels.contains_key(chain[i])
    &&& i + 1 < chain.len() ==> is_node(pages[chain[i]]) && levels[chain[i]] > levels[chain[i + 1]]
}

/// `chain` runs from an ancestor down through nodes, each above the next.
pub open spec fn chain_ok(pages: Map<PageID, Seq<u8>>, levels: Map<PageID, nat>, chain: Seq<PageID>) -> bool {
    forall|i: int| 0 <= i < chain.len() ==> #[trigger] link_ok(pages, levels, chain, i)
}

/// After the last page of a chain splits off a fresh page on its own level,
/// the chain without that page is still a chain.
#[verifier::spinoff_prover]
proof fn lemma_chain_after_split(
    pages: Map<PageID, Seq<u8>>,
    levels: Map<PageID, nat>,
    pages2: Map<PageID, Seq<u8>>,
    levels2: Map<PageID, nat>,
    chain: Seq<PageID>,
    new_id: PageID,
)
    requires
        chain.len() > 0,
        chain_ok(pages, levels, chain),
        !pages.contains_key(new_id),
        pages2 == pages.insert(new_id, pages2[new_id]).insert(chain.last(), pages2[chain.last()]),
        levels2 == levels.insert(new_id, levels[chain.last()]),
    ensures
        chain_ok(pages2, levels2, chain.drop_last()),
        chain.len() > 1 ==> is_node(pages2[chain[chain.len() - 2]]),
        chain.len() > 1 ==> levels2[chain[chain.len() - 2]] > levels[chain[chain.len() - 1]],
{
    let cur = chain.last();
    assert forall|i: int| 0 <= i < chain.len() - 1 implies #[trigger] pages2.contains_key(chain[i])
        && pages2[chain[i]] == pages[chain[i]] && levels2.contains_key(chain[i]) && levels2[chain[i]]
        == levels[chain[i]] by {
        assert(link_ok(pages, levels, chain, i));
        lemma_chain_decreasing(pages, levels, chain, i, chain.len() - 1);
        assert(chain[i] != cur);
        assert(chain[i] != new_id);
    }
    lemma_chain_drop_last(pages, levels, pages2, levels2, chain);
}

/// Dropping the last page of a chain leaves a chain, which stays one while
/// its pages and their levels do not change.
proof fn lemma_chain_drop_last(
    pages: Map<PageID, Seq<u8>>,
    levels: Map<PageID, nat>,
    pages2: Map<PageID, Seq<u8>>,
    levels2: Map<PageID, nat>,
    chain: Seq<PageID>,
)
    requires
        chain.len() > 0,
        chain_ok(pages, levels, chain),
        forall|i: int|
            0 <= i < chain.len() - 1 ==> #[trigger] pages2.contains_key(chain[i]) && pages2[chain[i]]
                == pages[chain[i]] && levels2.contains_key(chain[i]) && levels2[chain[i]] == levels[chain[i]],
    ensures
        chain_ok(pages2, levels2, chain.drop_last()),
        chain.len() > 1 ==> is_node(pages2[chain[chain.len() - 2]]),
        chain.len() > 1 ==> levels2[chain[chain.len() - 2]] > levels[chain[chain.len() - 1]],
{
    let c = chain.drop_last();
    assert forall|i: int| 0 <= i < c.len() implies #[trigger] link_ok(pages2, levels2, c, i) by {
        assert(link_ok(pages, levels, chain, i));
        assert(pages2.contains_key(chain[i]));
        if i + 1 < c.len() {
            assert(pages2.contains_key(chain[i + 1]));
        }
    }
    if chain.len() > 1 {
        assert(link_ok(pages, levels, chain, chain.len() - 2));
        assert(pages2.contains_key(chain[chain.len() - 2]));
    }
}

/// Along a chain, every page sits above every later one.
proof fn lemma_chain_decreasing(
    pages: Map<PageID, Seq<u8>>,
    levels: Map<PageID, nat>,
    chain: Seq<PageID>,
    i: int,
    j: int,
)
    requires
        chain_ok(pages, levels, chain),
        0 <= i < j < chain.len(),
    ensures
        levels[chain[i]] > levels[chain[j]],
    decreases j - i,
{
    assert(link_ok(pages, levels, chain, i));
    if i + 1 < j {
        lemma_chain_decreasing(pages, levels, chain, i + 1, j);
    }
}

/// The descent to a leaf runs through nodes, each above the next.
proof fn lemma_descent_chain(
    pages: Map<PageID, Seq<u8>>,
    levels: Map<PageID, nat>,
    roots: Seq<PageID>,
    start: PageID,
    key: Seq<u8>,
    path: Seq<PageID>,
    leaf: PageID,
)
    requires
        store_ok(pages, levels, roots),
        pages.contains_key(start),
        is_descent(pages, start, key, path, leaf),
    ensures
        chain_ok(pages, levels, path.push(leaf)),
{
    let c = path.push(leaf);
    assert forall|i: int| 0 <= i < c.len() implies #[trigger] link_ok(pages, levels, c, i) by {
        if i < path.len() {
            assert(descent_step(pages, key, path, leaf, i));
        }
        lemma_store_page(pages, levels, roots, c[i]);
        if i + 1 < c.len() {
            assert(descent_step(pages, key, path, leaf, i));
            let b = pages[path[i]];
            lemma_partition_exists(page_view(b).tuples, key);
            lemma_node_child(pages, levels, path[i], key);
        }
    }
}

/// Every element of `ts` with `t` inserted is `t` or an element of `ts`.
proof fn lemma_contains_insert(ts: Seq<Seq<u8>>, p: int, t: Seq<u8>)
    requires
        0 <= p <= ts.len(),
    ensures
        forall|x: Seq<u8>| #[trigger] ts.insert(p, t).contains(x) ==> x == t || ts.contains(x),
{
    assert(ts.take(ts.len() as int) =~= ts);
    lemma_contains_parts(ts, ts.len() as int, p, t);
}

/// Rewriting a workable page with one more tuple, whose child is fine if it
/// is a node, keeps the store workable.
proof fn lemma_insert_store_ok(
    pages: Map<PageID, Seq<u8>>,
    levels: Map<PageID, nat>,
    roots: Seq<PageID>,
    id: PageID,
    u: Seq<u8>,
    pb: Seq<u8>,
)
    requires
        store_ok(pages, levels, roots),
        pages.contains_key(id),
        page_wf(pb),
        page_view(pb) == (PageView {
            tuples: page_view(pages[id]).tuples.insert(partition_of(page_view(pages[id]).tuples, tuple_key(u)), u),
            ..page_view(pages[id])
        }),
        0 <= partition_of(page_view(pages[id]).tuples, tuple_key(u)) <= page_view(pages[id]).tuples.len(),
        is_node(pages[id]) ==> child_ok(pages, levels, u, levels[id]),
    ensures
        store_ok(pages.insert(id, pb), levels, roots),
{
    let pages_f = pages.insert(id, pb);
    let v = page_view(pages[id]);
    lemma_store_page(pages, levels, roots, id);
    lemma_contains_insert(v.tuples, partition_of(v.tuples, tuple_key(u)), u);
    assert(forall|k: PageID| pages.contains_key(k) ==> #[trigger] pages_f.contains_key(k));
    reveal(store_ok);
    assert forall|k: PageID| #[trigger] pages_f.contains_key(k) implies page_ok(pages_f, levels, k) by {
        if k == id {
            if is_node(pb) {
                assert forall|x: Seq<u8>| #[trigger] page_view(pb).tuples.contains(x) implies child_ok(pages_f, levels, x, levels[id]) by {
                    if x != u {
                        assert(v.tuples.contains(x));
                    }
                    lemma_child_ok_mono(pages, levels, pages_f, levels, x, levels[id]);
                }
            }
        } else {
            lemma_page_ok_mono(pages, levels, pages_f, levels, k);
        }
    }
}

/// Rewriting a node changes no leaf.
proof fn lemma_node_write_only_nodes(pages: Map<PageID, Seq<u8>>, id: PageID, b: Seq<u8>)
    requires
        pages.contains_key(id),
        is_node(pages[id]),
        is_node(b),
    ensures
        nodes_only_change(pages, pages.insert(id, b)),
{
}

/// Splitting a node changes no leaf and adds a node.
proof fn lemma_split_node_only_nodes(
    pages: Map<PageID, Seq<u8>>,
    after: Map<PageID, Seq<u8>>,
    id: PageID,
    t: Seq<u8>,
    up: Seq<u8>,
)
    requires
        pages.contains_key(id),
        is_node(pages[id]),
        split_done(pages, after, id, t, up),
    ensures
        nodes_only_change(pages, after),
{
    let new_id = page_view(after[id]).right_sibling;
    assert(is_node(after[new_id]));
}

/// Splitting a leaf for `t` inserts `t` into the leaves.
proof fn lemma_leaf_split_done(
    pages: Map<PageID, Seq<u8>>,
    after: Map<PageID, Seq<u8>>,
    leaf: PageID,
    t: Seq<u8>,
    up: Seq<u8>,
)
    requires
        pages.contains_key(leaf),
        page_wf(pages[leaf]),
        is_leaf(pages[leaf]),
        page_view(pages[leaf]).right_sibling == NULL_PTR || pages.contains_key(
            page_view(pages[leaf]).right_sibling,
        ),
        split_done(pages, after, leaf, t, up),
    ensures
        leaf_insert_done(pages, after, leaf, t),
        is_leaf(after[leaf]),
        page_view(after[leaf]).right_sibling != page_view(pages[leaf]).right_sibling,
{
    reveal(leaf_insert_done);
    let v = page_view(pages[leaf]);
    let new_id = page_view(after[leaf]).right_sibling;
    lemma_leaf_split_keeps_tuples(v.tuples, t);
    assert(is_leaf(after[new_id]));
}

/// The search for `key` from page `start` reaches the leaf `leaf`.
pub open spec fn reaches(pages: Map<PageID, Seq<u8>>, start: PageID, key: Seq<u8>, leaf: PageID) -> bool {
    exists|path: Seq<PageID>| #[trigger] is_descent(pages, start, key, path, leaf)
}

/// The leaf that the search for `key` reaches from page `start`.
pub open spec fn leaf_for(pages: Map<PageID, Seq<u8>>, start: PageID, key: Seq<u8>) -> PageID {
    choose|leaf: PageID| #[trigger] reaches(pages, start, key, leaf)
}

/// There is one descent from a page for a key: the one `leaf_for` names.
pub proof fn lemma_descent_unique(
    pages: Map<PageID, Seq<u8>>,
    start: PageID,
    key: Seq<u8>,
    path: Seq<PageID>,
    leaf: PageID,
    path2: Seq<PageID>,
    leaf2: PageID,
)
    requires
        is_descent(pages, start, key, path, leaf),
        is_descent(pages, start, key, path2, leaf2),
    ensures
        path == path2,
        leaf == leaf2,
    decreases path.len(),
{
    if path.len() == 0 {
        if path2.len() > 0 {
            assert(descent_step(pages, key, path2, leaf2, 0));
        }
    } else {
        assert(descent_step(pages, key, path, leaf, 0));
        if path2.len() == 0 {
            assert(false);
        } else {
            assert(descent_step(pages, key, path2, leaf2, 0));
            let next = node_child(pages[start], key);
            let tail = path.drop_first();
            let tail2 = path2.drop_first();
            assert forall|i: int| 0 <= i < tail.len() implies #[trigger] descent_step(pages, key, tail, leaf, i) by {
                assert(descent_step(pages, key, path, leaf, i + 1));
            }
            assert forall|i: int| 0 <= i < tail2.len() implies #[trigger] descent_step(pages, key, tail2, leaf2, i) by {
                assert(descent_step(pages, key, path2, leaf2, i + 1));
            }
            if tail.len() > 0 {
                assert(tail[0] == next);
            }
            if tail2.len() > 0 {
                assert(tail2[0] == next);
            }
            lemma_descent_unique(pages, next, key, tail, leaf, tail2, leaf2);
            assert(path =~= seq![start] + tail);
            assert(path2 =~= seq![start] + tail2);
        }
    }
}

/// A descent ends at the leaf `leaf_for` names.
pub proof fn lemma_leaf_for(pages: Map<PageID, Seq<u8>>, start: PageID, key: Seq<u8>, path: Seq<PageID>, leaf: PageID)
    requires
        is_descent(pages, start, key, path, leaf),
    ensures
        leaf_for(pages, start, key) == leaf,
{
    let l2 = leaf_for(pages, start, key);
    assert(reaches(pages, start, key, leaf));
    assert(reaches(pages, start, key, l2));
    let p2 = choose|p: Seq<PageID>| #[trigger] is_descent(pages, start, key, p, l2);
    lemma_descent_unique(pages, start, key, path, leaf, p2, l2);
}

/// No tuple of the page with bytes `b` has the key `k`.
pub open spec fn key_absent(b: Seq<u8>, k: Seq<u8>) -> bool {
    forall|i: int| 0 <= i < page_view(b).tuples.len() ==> tuple_key(#[trigger] page_view(b).tuples[i]) != k
}

/// The leaf the search for `t`'s key reaches from page `start` holds `t`.
pub open spec fn leaf_holds(pages: Map<PageID, Seq<u8>>, start: PageID, t: Seq<u8>) -> bool {
    let leaf = leaf_for(pages, start, tuple_key(t));
    &&& pages.contains_key(leaf)
    &&& page_view(pages[leaf]).tuples.contains(t)
}

/// A descent survives changes to pages off its path, as long as its end
/// stays a leaf.
proof fn lemma_descent_stable(
    pages: Map<PageID, Seq<u8>>,
    pages2: Map<PageID, Seq<u8>>,
    start: PageID,
    key: Seq<u8>,
    path: Seq<PageID>,
    leaf: PageID,
)
    requires
        is_descent(pages, start, key, path, leaf),
        forall|i: int| 0 <= i < path.len() ==> #[trigger] pages2.contains_key(path[i]) && pages2[path[i]] == pages[path[i]],
        pages2.contains_key(leaf),
        is_leaf(pages2[leaf]),
    ensures
        is_descent(pages2, start, key, path, leaf),
{
    assert forall|i: int| 0 <= i < path.len() implies #[trigger] descent_step(pages2, key, path, leaf, i) by {
        assert(descent_step(pages, key, path, leaf, i));
        assert(pages2.contains_key(path[i]));
    }
}

/// Each node of `stack` is a node of the store, in order, holding `k` in its
/// range, and sends the search for `k` to the next page of `line`, whose
/// parent it is.
pub open spec fn stack_routes(
    pages: Map<PageID, Seq<u8>>,
    ranges: Map<PageID, KeyRange>,
    parent: Map<PageID, PageID>,
    k: Seq<u8>,
    stack: Seq<PageID>,
    line: Seq<PageID>,
) -> bool {
    forall|j: int|
        0 <= j < stack.len() ==> {
            &&& #[trigger] pages.contains_key(stack[j])
            &&& is_node(pages[stack[j]])
            &&& node_child(pages[stack[j]], k) == line[j + 1]
            &&& ranges.contains_key(stack[j])
            &&& in_range(k, ranges[stack[j]])
            &&& parent.contains_key(line[j + 1])
            &&& parent[line[j + 1]] == stack[j]
        }
}

/// An insert of `t` that has split pages climbs to node `cur`, with `stack`
/// the nodes above it from the root down: the store is in order but for
/// `cur`, which awaits `u` for its child `c` that split; the search for `t`'s
/// key goes from the half of `c` whose range holds the key through `dpath`
/// to the leaf `x`, which holds `t`, below every page of the climb; and each
/// node of `stack` is in order, holds the key in its range and sends the
/// search for it to the next node of the climb, its child.
#[verifier::opaque]
spec fn climb_ok(
    pages: Map<PageID, Seq<u8>>,
    ranges: Map<PageID, KeyRange>,
    parent: Map<PageID, PageID>,
    roots: Seq<PageID>,
    obj: int,
    t: Seq<u8>,
    cur: PageID,
    u: Seq<u8>,
    stack: Seq<PageID>,
    c: PageID,
    x: PageID,
    dpath: Seq<PageID>,
) -> bool {
    let k = tuple_key(t);
    let s = tuple_key(u);
    let rid = u32_at(tuple_value(u), 0);
    let hk = if lex_lt(k, s) { c } else { rid };
    let line = stack.push(cur);
    &&& ordered_except(pages, ranges, parent, roots, cur)
    &&& pending_at(pages, ranges, parent, cur, c, s, rid)
    &&& u.len() == s.len() + 8
    &&& in_range(k, ranges[hk])
    &&& is_descent(pages, hk, k, dpath, x)
    &&& page_view(pages[x]).tuples.contains(t)
    &&& 0 <= obj < roots.len()
    &&& line.no_duplicates()
    &&& forall|i: int| 0 <= i < dpath.len() ==> !line.contains(#[trigger] dpath[i])
    &&& !line.contains(x)
    &&& roots[obj] == line[0]
    &&& stack_routes(pages, ranges, parent, k, stack, line)
}

/// Inserting `t` into its leaf, which has room, keeps an ordered store
/// ordered when no tuple of the leaf has `t`'s key, and the search for that
/// key then reaches `t`.
proof fn lemma_law_leaf_insert(
    pages: Map<PageID, Seq<u8>>,
    ranges: Map<PageID, KeyRange>,
    parent: Map<PageID, PageID>,
    roots: Seq<PageID>,
    obj: int,
    t: Seq<u8>,
    path: Seq<PageID>,
    leaf: PageID,
    b: Seq<u8>,
)
    requires
        ordered(pages, ranges, parent, roots),
        0 <= obj < roots.len(),
        pages.contains_key(roots[obj]),
        is_descent(pages, roots[obj], tuple_key(t), path, leaf),
        key_absent(pages[leaf], tuple_key(t)),
        page_view(b) == (PageView {
            tuples: page_view(pages[leaf]).tuples.insert(
                partition_of(page_view(pages[leaf]).tuples, tuple_key(t)),
                t,
            ),
            ..page_view(pages[leaf])
        }),
    ensures
        ordered(pages.insert(leaf, b), ranges, parent, roots),
        leaf_holds(pages.insert(leaf, b), roots[obj], t),
{
    let k = tuple_key(t);
    let ts = page_view(pages[leaf]).tuples;
    let p = partition_of(ts, k);
    let pages2 = pages.insert(leaf, b);
    lemma_leaf_routes(pages, ranges, parent, roots, obj, k, path, leaf);
    lemma_ordered_page(pages, ranges, parent, roots, leaf);
    lemma_strict_sorted(ts);
    lemma_partition_exists(ts, k);
    assert(is_leaf(b));
    lemma_leaf_insert(pages, ranges, parent, roots, leaf, t, b);
    assert forall|i: int| 0 <= i < path.len() implies #[trigger] pages2.contains_key(path[i]) && pages2[path[i]]
        == pages[path[i]] by {
        assert(descent_step(pages, k, path, leaf, i));
    }
    lemma_descent_stable(pages, pages2, roots[obj], k, path, leaf);
    lemma_leaf_for(pages2, roots[obj], k, path, leaf);
    assert(ts.insert(p, t)[p] == t);
}

/// Splitting the leaf of an ordered store for `t`, whose key no tuple of the
/// leaf has, leaves it split at the separator's key, with `t` in the half
/// whose range holds its key; the leaf has a parent exactly when the search
/// passed through nodes, the last of them.
proof fn lemma_law_leaf_split(
    pages: Map<PageID, Seq<u8>>,
    ranges: Map<PageID, KeyRange>,
    parent: Map<PageID, PageID>,
    roots: Seq<PageID>,
    obj: int,
    t: Seq<u8>,
    path: Seq<PageID>,
    leaf: PageID,
    pages2: Map<PageID, Seq<u8>>,
    up: Seq<u8>,
)
    requires
        ordered(pages, ranges, parent, roots),
        0 <= obj < roots.len(),
        forall|i: int| 0 <= i < roots.len() ==> pages.contains_key(#[trigger] roots[i]),
        is_descent(pages, roots[obj], tuple_key(t), path, leaf),
        key_absent(pages[leaf], tuple_key(t)),
        page_view(pages[leaf]).tuples.len() >= 1,
        split_done(pages, pages2, leaf, t, up),
    ensures
        ({
            let k = tuple_key(t);
            let r = page_view(pages2[leaf]).right_sibling;
            let km = tuple_key(split_middle(page_view(pages[leaf]).tuples, t));
            let ranges2 = split_ranges(ranges, leaf, r, km);
            let x = if lex_lt(k, km) { leaf } else { r };
            &&& after_split(pages2, ranges2, parent, roots, obj, leaf, km, r)
            &&& pages2.contains_key(x)
            &&& is_leaf(pages2[x])
            &&& page_view(pages2[x]).tuples.contains(t)
            &&& ranges2.contains_key(x)
            &&& in_range(k, ranges2[x])
            &&& path.len() > 0 <==> parent.contains_key(leaf)
            &&& path.len() > 0 ==> parent[leaf] == path[path.len() - 1]
        }),
{
    let k = tuple_key(t);
    lemma_leaf_routes(pages, ranges, parent, roots, obj, k, path, leaf);
    lemma_leaf_split(pages, ranges, parent, roots, obj, leaf, t, pages2, up);
}

/// Splitting the leaf of an ordered store for `t`, whose key no tuple of the
/// leaf has, and handing the separator to the leaf's parent, or to a new empty
/// root over the leaf, starts the climb: that node awaits the separator, and
/// the search for the key goes from the half that holds `t` straight to it.
#[verifier::spinoff_prover]
#[verifier::rlimit(100)]
proof fn lemma_law_split_start(
    pages: Map<PageID, Seq<u8>>,
    ranges: Map<PageID, KeyRange>,
    parent: Map<PageID, PageID>,
    roots: Seq<PageID>,
    levels: Map<PageID, nat>,
    obj: int,
    t: Seq<u8>,
    path: Seq<PageID>,
    leaf: PageID,
    pages2: Map<PageID, Seq<u8>>,
    up: Seq<u8>,
    pages3: Map<PageID, Seq<u8>>,
    ranges3: Map<PageID, KeyRange>,
    parent3: Map<PageID, PageID>,
    roots3: Seq<PageID>,
    cur: PageID,
    stack: Seq<PageID>,
)
    requires
        ordered(pages, ranges, parent, roots),
        0 <= obj < roots.len(),
        forall|i: int| 0 <= i < roots.len() ==> pages.contains_key(#[trigger] roots[i]),
        is_descent(pages, roots[obj], tuple_key(t), path, leaf),
        chain_ok(pages, levels, path.push(leaf)),
        key_absent(pages[leaf], tuple_key(t)),
        page_view(pages[leaf]).tuples.len() >= 1,
        split_done(pages, pages2, leaf, t, up),
        tuple_key(up) == tuple_key(split_middle(page_view(pages[leaf]).tuples, t)),
        u32_at(tuple_value(up), 0) == page_view(pages2[leaf]).right_sibling,
        up.len() == tuple_key(up).len() + 8,
        ({
            let ranges2 = split_ranges(
                ranges,
                leaf,
                page_view(pages2[leaf]).right_sibling,
                tuple_key(split_middle(page_view(pages[leaf]).tuples, t)),
            );
            &&& path.len() > 0 ==> {
                &&& cur == path[path.len() - 1]
                &&& stack == path.drop_last()
                &&& pages3 == pages2
                &&& ranges3 == ranges2
                &&& parent3 == parent
                &&& roots3 == roots
            }
            &&& path.len() == 0 ==> {
                &&& stack.len() == 0
                &&& !pages2.contains_key(cur)
                &&& pages3 == pages2.insert(cur, pages3[cur])
                &&& page_view(pages3[cur]) == (PageView {
                    page_id: cur,
                    page_type: PageType::Node.spec_id(),
                    left_sibling: NULL_PTR,
                    right_sibling: NULL_PTR,
                    left_child: leaf,
                    tuples: Seq::empty(),
                })
                &&& roots3 == roots.update(obj, cur)
                &&& ranges3 == ranges2.insert(cur, full_range())
                &&& parent3 == parent.insert(leaf, cur)
            }
        }),
    ensures
        ({
            let km = tuple_key(split_middle(page_view(pages[leaf]).tuples, t));
            let r = page_view(pages2[leaf]).right_sibling;
            let x = if lex_lt(tuple_key(t), km) { leaf } else { r };
            climb_ok(pages3, ranges3, parent3, roots3, obj, t, cur, up, stack, leaf, x, Seq::empty())
        }),
{
    reveal(climb_ok);
    let k = tuple_key(t);
    let r = page_view(pages2[leaf]).right_sibling;
    let km = tuple_key(split_middle(page_view(pages[leaf]).tuples, t));
    let ranges2 = split_ranges(ranges, leaf, r, km);
    let x = if lex_lt(k, km) { leaf } else { r };
    lemma_law_leaf_split(pages, ranges, parent, roots, obj, t, path, leaf, pages2, up);
    assert forall|i: int| 0 <= i < roots.len() implies pages2.contains_key(#[trigger] roots[i]) by {
        assert(pages.contains_key(roots[i]));
    }
    lemma_leaf_routes(pages, ranges, parent, roots, obj, k, path, leaf);
    lemma_ordered_root(pages, ranges, parent, roots, obj);
    assert forall|i: int| 0 <= i < path.len() implies is_partition(
        page_view(pages[#[trigger] path[i]]).tuples,
        k,
        partition_of(page_view(pages[path[i]]).tuples, k),
    ) by {
        assert(descent_step(pages, k, path, leaf, i));
        lemma_ordered_page(pages, ranges, parent, roots, path[i]);
        lemma_strict_sorted(page_view(pages[path[i]]).tuples);
        lemma_partition_exists(page_view(pages[path[i]]).tuples, k);
    }
    lemma_descent_in_range(pages, ranges, parent, roots, roots[obj], k, path, leaf);
    let line = stack.push(cur);
    if path.len() > 0 {
        assert(line =~= path);
        assert forall|i: int, j: int| 0 <= i < j < path.len() implies path[i] != path[j] by {
            lemma_chain_decreasing(pages, levels, path.push(leaf), i, j);
            assert(path.push(leaf)[i] == path[i] && path.push(leaf)[j] == path[j]);
        }
        assert forall|i: int| 0 <= i < line.len() implies line[i] != x by {
            assert(descent_step(pages, k, path, leaf, i));
        }
        assert forall|j: int| 0 <= j < stack.len() implies {
            &&& #[trigger] pages3.contains_key(stack[j])
            &&& is_node(pages3[stack[j]])
            &&& node_child(pages3[stack[j]], k) == line[j + 1]
            &&& ranges3.contains_key(stack[j])
            &&& in_range(k, ranges3[stack[j]])
            &&& parent3.contains_key(line[j + 1])
            &&& parent3[line[j + 1]] == stack[j]
        } by {
            assert(descent_step(pages, k, path, leaf, j));
            assert(stack[j] == path[j]);
            assert(line[j + 1] == path[j + 1]);
            assert(path[j] != leaf);
            assert(path[j] != r);
            assert(pages.contains_key(path[j]));
            lemma_ordered_page(pages, ranges, parent, roots, path[j]);
            assert(in_range(k, ranges[path[j]]));
            assert(parent.contains_key(path[j + 1]) && parent[path[j + 1]] == path[j]);
        }
        assert(stack_routes(pages3, ranges3, parent3, k, stack, line));
    } else {
        lemma_new_root(pages2, ranges2, parent, roots, obj, leaf, km, r, cur, pages3[cur]);
    }
    assert(is_descent(pages3, x, k, Seq::empty(), x));
}

/// Splitting node `cur`, which awaits `u` but has no room for it, and handing
/// the middle key to the node above it climbs one level: that node awaits the
/// middle key for `cur`, and the search for the key goes from the half of
/// `cur` that holds it on to `x`.
#[verifier::spinoff_prover]
#[verifier::rlimit(100)]
proof fn lemma_law_node_climb_up(
    pages: Map<PageID, Seq<u8>>,
    ranges: Map<PageID, KeyRange>,
    parent: Map<PageID, PageID>,
    roots: Seq<PageID>,
    obj: int,
    t: Seq<u8>,
    cur: PageID,
    u: Seq<u8>,
    stack: Seq<PageID>,
    c: PageID,
    x: PageID,
    dpath: Seq<PageID>,
    pages2: Map<PageID, Seq<u8>>,
    up: Seq<u8>,
    pages3: Map<PageID, Seq<u8>>,
    ranges3: Map<PageID, KeyRange>,
    parent3: Map<PageID, PageID>,
    roots3: Seq<PageID>,
    cur3: PageID,
    stack3: Seq<PageID>,
)
    requires
        climb_ok(pages, ranges, parent, roots, obj, t, cur, u, stack, c, x, dpath),
        stack.len() > 0,
        forall|i: int| 0 <= i < roots.len() ==> pages.contains_key(#[trigger] roots[i]),
        page_view(pages[cur]).tuples.len() >= 1,
        split_done(pages, pages2, cur, u, up),
        tuple_key(up) == tuple_key(split_middle(page_view(pages[cur]).tuples, u)),
        u32_at(tuple_value(up), 0) == page_view(pages2[cur]).right_sibling,
        up.len() == tuple_key(up).len() + 8,
        ({
            let n = page_view(pages2[cur]).right_sibling;
            let km = tuple_key(split_middle(page_view(pages[cur]).tuples, u));
            let ranges2 = split_ranges(ranges, cur, n, km);
            let parent2 = split_parents(parent, page_view(pages2[n]), cur, n, u32_at(tuple_value(u), 0));
            &&& cur3 == stack[stack.len() - 1]
            &&& stack3 == stack.drop_last()
            &&& pages3 == pages2
            &&& ranges3 == ranges2
            &&& parent3 == parent2
            &&& roots3 == roots
        }),
    ensures
        ({
            let n = page_view(pages2[cur]).right_sibling;
            let km = tuple_key(split_middle(page_view(pages[cur]).tuples, u));
            let h = if lex_lt(tuple_key(t), km) { cur } else { n };
            climb_ok(pages3, ranges3, parent3, roots3, obj, t, cur3, up, stack3, cur, x, seq![h] + dpath)
        }),
        ({
            let nv = page_view(pages2[page_view(pages2[cur]).right_sibling]);
            forall|j: int|
                -1 <= j < nv.tuples.len() ==> #[trigger] slot_child(nv, j) == u32_at(tuple_value(u), 0) || (
                parent.contains_key(slot_child(nv, j)) && parent[slot_child(nv, j)] == cur)
        }),
{
    let k = tuple_key(t);
    let s = tuple_key(u);
    let rid = u32_at(tuple_value(u), 0);
    let hk = if lex_lt(k, s) { c } else { rid };
    let n = page_view(pages2[cur]).right_sibling;
    let km = tuple_key(split_middle(page_view(pages[cur]).tuples, u));
    let ranges2 = split_ranges(ranges, cur, n, km);
    let parent2 = split_parents(parent, page_view(pages2[n]), cur, n, rid);
    let h = if lex_lt(k, km) { cur } else { n };
    let line = stack.push(cur);
    let pp = stack[stack.len() - 1];
    let dpath3 = seq![h] + dpath;
    assert(line[line.len() - 1] == cur);
    assert(line[stack.len() - 1] == pp);
    assert(pages.contains_key(pp) && parent.contains_key(cur) && parent[cur] == pp && line.no_duplicates()
        && is_descent(pages, hk, k, dpath, x) && in_range(k, ranges[hk]) && 0 <= obj < roots.len()
        && page_view(pages[x]).tuples.contains(t) && (forall|i: int| 0 <= i < dpath.len() ==> !line.contains(#[trigger] dpath[i]))
        && !line.contains(x) && roots[obj] == line[0]) by {
        reveal(climb_ok);
        assert(pages.contains_key(stack[stack.len() - 1]));
        assert(line[stack.len() - 1 + 1] == cur);
    }
    assert(stack_routes(pages, ranges, parent, k, stack, stack.push(cur))) by {
        reveal(climb_ok);
    }
    assert(pp != cur);
    // The node above `cur` routes the key to it.
    assert(parent_routes(pages, ranges, parent, roots, obj, cur, k)) by {
        reveal(climb_ok);
        reveal(ordered_except);
        assert(page_ordered(pages, ranges, parent, pp));
        lemma_strict_sorted(page_view(pages[pp]).tuples);
        lemma_partition_exists(page_view(pages[pp]).tuples, k);
    }
    assert(ordered_except(pages, ranges, parent, roots, cur) && pending_at(pages, ranges, parent, cur, c, s, rid)) by {
        reveal(climb_ok);
    }
    lemma_node_split(pages, ranges, parent, roots, obj, cur, c, rid, u, k, pages2, up);
    assert(!pages.contains_key(n));
    assert(parent2.contains_key(cur) && parent2[cur] == pp);
    // The search from `h` reaches `x` through the pages below `cur`.
    assert(is_descent(pages3, h, k, dpath3, x)) by {
        assert forall|i: int| 0 <= i < dpath.len() implies #[trigger] pages2.contains_key(dpath[i]) && pages2[dpath[i]]
            == pages[dpath[i]] by {
            assert(descent_step(pages, k, dpath, x, i));
            assert(dpath[i] != cur);
        }
        lemma_descent_stable(pages, pages2, hk, k, dpath, x);
        lemma_descent_extend(pages2, h, k, dpath, x);
    }
    assert(stack3.push(cur3) =~= stack);
    lemma_line_after_climb(stack, cur, dpath, x, h, pages);
    lemma_stack_after_split(pages, pages2, ranges, ranges2, parent, parent2, k, stack, cur, n);
    assert(pages3[x] == pages[x]);
    let line3 = stack3.push(cur3);
    assert(stack_routes(pages3, ranges3, parent3, k, stack3, line3)) by {
        assert(line3 =~= stack);
    }
    assert(forall|i: int| 0 <= i < dpath3.len() ==> !line3.contains(#[trigger] dpath3[i]));
    assert(!line3.contains(x));
    assert(line3.no_duplicates());
    assert(roots3[obj] == line3[0]) by {
        assert(stack[0] == line[0]);
    }
    assert(climb_ok(pages3, ranges3, parent3, roots3, obj, t, cur3, up, stack3, cur, x, dpath3)) by {
        reveal(climb_ok);
    }
}

/// Climbing from `cur` to the last node of `stack` keeps the nodes of the
/// climb apart from each other and from the pages the search goes through
/// below it, when the page `h` added below is not one of them.
proof fn lemma_line_after_climb(
    stack: Seq<PageID>,
    cur: PageID,
    dpath: Seq<PageID>,
    x: PageID,
    h: PageID,
    pages: Map<PageID, Seq<u8>>,
)
    requires
        stack.len() > 0,
        stack.push(cur).no_duplicates(),
        forall|i: int| 0 <= i < dpath.len() ==> !stack.push(cur).contains(#[trigger] dpath[i]),
        !stack.push(cur).contains(x),
        h == cur || !pages.contains_key(h),
        forall|j: int| 0 <= j < stack.len() ==> #[trigger] pages.contains_key(stack[j]),
    ensures
        stack.no_duplicates(),
        forall|i: int| 0 <= i < (seq![h] + dpath).len() ==> !stack.contains(#[trigger] (seq![h] + dpath)[i]),
        !stack.contains(x),
{
    let line = stack.push(cur);
    assert forall|i: int, j: int| 0 <= i < j < stack.len() implies stack[i] != stack[j] by {
        assert(line[i] == stack[i] && line[j] == stack[j]);
    }
    assert forall|i: int| 0 <= i < (seq![h] + dpath).len() implies !stack.contains(#[trigger] (seq![h] + dpath)[i]) by {
        let d = (seq![h] + dpath)[i];
        if stack.contains(d) {
            let z = choose|z: int| 0 <= z < stack.len() && stack[z] == d;
            assert(line[z] == d);
            if i == 0 {
                assert(d == h);
                assert(pages.contains_key(stack[z]));
                assert(line[line.len() - 1] == cur);
            } else {
                assert(d == dpath[i - 1]);
            }
        }
    }
    if stack.contains(x) {
        let z = choose|z: int| 0 <= z < stack.len() && stack[z] == x;
        assert(line[z] == x);
    }
}

/// The nodes above a node that split stay as they were: each keeps its page,
/// range and parent, and routes the key to the next.
proof fn lemma_stack_after_split(
    pages: Map<PageID, Seq<u8>>,
    pages2: Map<PageID, Seq<u8>>,
    ranges: Map<PageID, KeyRange>,
    ranges2: Map<PageID, KeyRange>,
    parent: Map<PageID, PageID>,
    parent2: Map<PageID, PageID>,
    k: Seq<u8>,
    stack: Seq<PageID>,
    cur: PageID,
    n: PageID,
)
    requires
        stack.len() > 0,
        stack.push(cur).no_duplicates(),
        !pages.contains_key(n),
        pages2 == pages.insert(n, pages2[n]).insert(cur, pages2[cur]),
        ranges2 == ranges.insert(cur, ranges2[cur]).insert(n, ranges2[n]),
        forall|x: PageID|
            #[trigger] parent.contains_key(x) && parent[x] != cur ==> parent2.contains_key(x) && parent2[x] == parent[x],
        stack_routes(pages, ranges, parent, k, stack, stack.push(cur)),
    ensures
        stack_routes(pages2, ranges2, parent2, k, stack.drop_last(), stack),
{
    let line = stack.push(cur);
    assert forall|j: int| 0 <= j < stack.len() - 1 implies {
        &&& #[trigger] pages2.contains_key(stack.drop_last()[j])
        &&& is_node(pages2[stack.drop_last()[j]])
        &&& node_child(pages2[stack.drop_last()[j]], k) == stack[j + 1]
        &&& ranges2.contains_key(stack.drop_last()[j])
        &&& in_range(k, ranges2[stack.drop_last()[j]])
        &&& parent2.contains_key(stack[j + 1])
        &&& parent2[stack[j + 1]] == stack.drop_last()[j]
    } by {
        assert(stack.drop_last()[j] == stack[j]);
        assert(line[j] == stack[j] && line[j + 1] == stack[j + 1]);
        assert(line[line.len() - 1] == cur);
        assert(stack[j] != cur);
        assert(pages.contains_key(stack[j]));
        assert(stack[j] != n);
        assert(parent.contains_key(stack[j + 1]));
        assert(parent[stack[j + 1]] == stack[j]);
        assert(stack[j + 1] == line[j + 1]);
        assert(pages2.contains_key(stack.drop_last()[j]));
        assert(is_node(pages2[stack.drop_last()[j]]));
        assert(node_child(pages2[stack.drop_last()[j]], k) == stack[j + 1]);
        assert(ranges2.contains_key(stack.drop_last()[j]));
        assert(in_range(k, ranges2[stack.drop_last()[j]]));
        assert(parent2.contains_key(stack[j + 1]));
        assert(parent2[stack[j + 1]] == stack.drop_last()[j]);
    }
}

/// Splitting the root `cur`, which awaits `u` but has no room for it, and
/// handing the middle key to a new empty root over it climbs one level: the
/// new root awaits the middle key for `cur`, and the search for the key goes
/// from the half of `cur` that holds it on to `x`.
#[verifier::spinoff_prover]
#[verifier::rlimit(100)]
proof fn lemma_law_node_climb_root(
    pages: Map<PageID, Seq<u8>>,
    ranges: Map<PageID, KeyRange>,
    parent: Map<PageID, PageID>,
    roots: Seq<PageID>,
    obj: int,
    t: Seq<u8>,
    cur: PageID,
    u: Seq<u8>,
    stack: Seq<PageID>,
    c: PageID,
    x: PageID,
    dpath: Seq<PageID>,
    pages2: Map<PageID, Seq<u8>>,
    up: Seq<u8>,
    pages3: Map<PageID, Seq<u8>>,
    ranges3: Map<PageID, KeyRange>,
    parent3: Map<PageID, PageID>,
    roots3: Seq<PageID>,
    cur3: PageID,
    stack3: Seq<PageID>,
)
    requires
        climb_ok(pages, ranges, parent, roots, obj, t, cur, u, stack, c, x, dpath),
        stack.len() == 0,
        forall|i: int| 0 <= i < roots.len() ==> pages.contains_key(#[trigger] roots[i]),
        page_view(pages[cur]).tuples.len() >= 1,
        split_done(pages, pages2, cur, u, up),
        tuple_key(up) == tuple_key(split_middle(page_view(pages[cur]).tuples, u)),
        u32_at(tuple_value(up), 0) == page_view(pages2[cur]).right_sibling,
        up.len() == tuple_key(up).len() + 8,
        ({
            let n = page_view(pages2[cur]).right_sibling;
            let km = tuple_key(split_middle(page_view(pages[cur]).tuples, u));
            let ranges2 = split_ranges(ranges, cur, n, km);
            let parent2 = split_parents(parent, page_view(pages2[n]), cur, n, u32_at(tuple_value(u), 0));
            &&& stack3.len() == 0
            &&& !pages2.contains_key(cur3)
            &&& pages3 == pages2.insert(cur3, pages3[cur3])
            &&& page_view(pages3[cur3]) == (PageView {
                page_id: cur3,
                page_type: PageType::Node.spec_id(),
                left_sibling: NULL_PTR,
                right_sibling: NULL_PTR,
                left_child: cur,
                tuples: Seq::empty(),
            })
            &&& roots3 == roots.update(obj, cur3)
            &&& ranges3 == ranges2.insert(cur3, full_range())
            &&& parent3 == parent2.insert(cur, cur3)
        }),
    ensures
        roots[obj] == cur,
        ({
            let n = page_view(pages2[cur]).right_sibling;
            let km = tuple_key(split_middle(page_view(pages[cur]).tuples, u));
            let h = if lex_lt(tuple_key(t), km) { cur } else { n };
            climb_ok(pages3, ranges3, parent3, roots3, obj, t, cur3, up, stack3, cur, x, seq![h] + dpath)
        }),
        ({
            let nv = page_view(pages2[page_view(pages2[cur]).right_sibling]);
            forall|j: int|
                -1 <= j < nv.tuples.len() ==> #[trigger] slot_child(nv, j) == u32_at(tuple_value(u), 0) || (
                parent.contains_key(slot_child(nv, j)) && parent[slot_child(nv, j)] == cur)
        }),
{
    reveal(climb_ok);
    let k = tuple_key(t);
    let s = tuple_key(u);
    let rid = u32_at(tuple_value(u), 0);
    let hk = if lex_lt(k, s) { c } else { rid };
    let n = page_view(pages2[cur]).right_sibling;
    let km = tuple_key(split_middle(page_view(pages[cur]).tuples, u));
    let ranges2 = split_ranges(ranges, cur, n, km);
    let parent2 = split_parents(parent, page_view(pages2[n]), cur, n, rid);
    let h = if lex_lt(k, km) { cur } else { n };
    let line = stack.push(cur);
    assert(line[line.len() - 1] == cur);
    // The node above `cur` routes the key to it.
    assert(parent_routes(pages, ranges, parent, roots, obj, cur, k)) by {
        reveal(ordered_except);
        if stack.len() > 0 {
            let pp = stack[stack.len() - 1];
            assert(line[stack.len() - 1] == pp);
            assert(pp != cur);
            assert(page_ordered(pages, ranges, parent, pp));
            lemma_strict_sorted(page_view(pages[pp]).tuples);
            lemma_partition_exists(page_view(pages[pp]).tuples, k);
        } else {
            assert(line[0] == cur);
        }
    }
    lemma_node_split(pages, ranges, parent, roots, obj, cur, c, rid, u, k, pages2, up);
    assert(!pages.contains_key(n));
    // The search from `h` reaches `x` through the pages below `cur`.
    assert forall|i: int| 0 <= i < dpath.len() implies #[trigger] pages2.contains_key(dpath[i]) && pages2[dpath[i]]
        == pages[dpath[i]] by {
        assert(descent_step(pages, k, dpath, x, i));
        assert(dpath[i] != cur);
    }
    assert(x != cur);
    lemma_descent_stable(pages, pages2, hk, k, dpath, x);
    lemma_descent_extend(pages2, h, k, dpath, x);
    let dpath3 = seq![h] + dpath;
    let line3 = stack3.push(cur3);
    {
        assert(line[0] == cur);
        assert(!parent.contains_key(cur) && ranges[cur] == full_range()) by {
            reveal(ordered_except);
        }
        assert(cur != rid);
        assert(!parent2.contains_key(cur)) by {
            reveal(split_parents);
        }
        lemma_new_root(pages2, ranges2, parent2, roots, obj, cur, km, n, cur3, pages3[cur3]);
        assert(line3 =~= seq![cur3]);
        assert(!line3.contains(x));
        assert forall|i: int| 0 <= i < dpath3.len() implies !line3.contains(#[trigger] dpath3[i]) by {
            assert(line3 =~= seq![cur3]);
            if i > 0 {
                assert(descent_step(pages, k, dpath, x, i - 1));
            }
        }
        assert(line3 =~= seq![cur3]);
    }
    assert(x != n && x != cur3);
    assert(pages3[x] == pages[x]);
    assert(is_descent(pages3, h, k, dpath3, x)) by {
        assert forall|i: int| 0 <= i < dpath3.len() implies #[trigger] pages3.contains_key(dpath3[i]) && pages3[dpath3[i]]
            == pages2[dpath3[i]] by {
            if i > 0 {
                assert(descent_step(pages, k, dpath, x, i - 1));
            }
        }
        lemma_descent_stable(pages2, pages3, h, k, dpath3, x);
    }
}

/// The nodes `stack` above `cur`, each sending the search for `k` to the
/// next and the last to `cur`, lead from the first of them to where the
/// search from `cur` leads.
proof fn lemma_descent_prefix(
    pages: Map<PageID, Seq<u8>>,
    k: Seq<u8>,
    stack: Seq<PageID>,
    cur: PageID,
    rest: Seq<PageID>,
    x: PageID,
)
    requires
        is_descent(pages, cur, k, rest, x),
        rest.len() > 0,
        forall|j: int|
            0 <= j < stack.len() ==> #[trigger] pages.contains_key(stack[j]) && is_node(pages[stack[j]])
                && node_child(pages[stack[j]], k) == stack.push(cur)[j + 1],
    ensures
        is_descent(pages, stack.push(cur)[0], k, stack + rest, x),
    decreases stack.len(),
{
    if stack.len() > 0 {
        let last = stack[stack.len() - 1];
        assert(stack.push(cur)[stack.len() - 1] == last);
        assert(stack.push(cur)[stack.len() as int] == cur);
        assert(pages.contains_key(stack[stack.len() - 1]));
        assert(node_child(pages[last], k) == cur);
        lemma_descent_extend(pages, last, k, rest, x);
        let init = stack.drop_last();
        assert forall|j: int| 0 <= j < init.len() implies #[trigger] pages.contains_key(init[j]) && is_node(pages[init[j]])
            && node_child(pages[init[j]], k) == init.push(last)[j + 1] by {
            assert(init[j] == stack[j]);
            assert(init.push(last)[j + 1] == stack.push(cur)[j + 1]);
        }
        lemma_descent_prefix(pages, k, init, last, seq![last] + rest, x);
        assert(init + (seq![last] + rest) =~= stack + rest);
        assert(init.push(last)[0] == stack.push(cur)[0]);
    }
}

/// Putting the awaited separator into node `cur` ends the insert: the store
/// is ordered again and the search for `t`'s key from the root reaches `x`,
/// which holds `t`.
proof fn lemma_law_resolve(
    pages: Map<PageID, Seq<u8>>,
    ranges: Map<PageID, KeyRange>,
    parent: Map<PageID, PageID>,
    roots: Seq<PageID>,
    obj: int,
    t: Seq<u8>,
    cur: PageID,
    u: Seq<u8>,
    stack: Seq<PageID>,
    c: PageID,
    x: PageID,
    dpath: Seq<PageID>,
    b: Seq<u8>,
)
    requires
        climb_ok(pages, ranges, parent, roots, obj, t, cur, u, stack, c, x, dpath),
        is_node(b),
        page_view(b) == (PageView {
            tuples: page_view(pages[cur]).tuples.insert(partition_of(page_view(pages[cur]).tuples, tuple_key(u)), u),
            ..page_view(pages[cur])
        }),
    ensures
        ordered(pages.insert(cur, b), ranges, parent.insert(u32_at(tuple_value(u), 0), cur), roots),
        leaf_holds(pages.insert(cur, b), roots[obj], t),
{
    reveal(climb_ok);
    let k = tuple_key(t);
    let s = tuple_key(u);
    let rid = u32_at(tuple_value(u), 0);
    let hk = if lex_lt(k, s) { c } else { rid };
    let pages2 = pages.insert(cur, b);
    let line = stack.push(cur);
    assert(line[line.len() - 1] == cur);
    lemma_resolve(pages, ranges, parent, roots, cur, c, rid, u, b);
    lemma_resolved_child(pages, ranges, parent, cur, c, rid, u, k, b);
    assert forall|i: int| 0 <= i < dpath.len() implies #[trigger] pages2.contains_key(dpath[i]) && pages2[dpath[i]]
        == pages[dpath[i]] by {
        assert(descent_step(pages, k, dpath, x, i));
        assert(dpath[i] != cur);
    }
    assert(x != cur);
    lemma_descent_stable(pages, pages2, hk, k, dpath, x);
    lemma_descent_extend(pages2, cur, k, dpath, x);
    assert forall|j: int| 0 <= j < stack.len() implies #[trigger] pages2.contains_key(stack[j]) && is_node(pages2[stack[j]])
        && node_child(pages2[stack[j]], k) == stack.push(cur)[j + 1] by {
        assert(line[j] == stack[j]);
        assert(stack[j] != cur);
    }
    lemma_descent_prefix(pages2, k, stack, cur, seq![cur] + dpath, x);
    lemma_leaf_for(pages2, roots[obj], k, stack + (seq![cur] + dpath), x);
}

/// The store is chained, and object `obj` owns node `cur` of an insert's
/// climb and the page that waits in it for the separator `u`.
#[verifier::opaque]
spec fn chain_climb(
    pages: Map<PageID, Seq<u8>>,
    ranges: Map<PageID, KeyRange>,
    parent: Map<PageID, PageID>,
    owner: Map<PageID, int>,
    chains: Seq<Seq<PageID>>,
    roots: Seq<PageID>,
    obj: int,
    cur: PageID,
    u: Seq<u8>,
) -> bool {
    &&& chained(pages, ranges, parent, owner, chains, roots)
    &&& owner.contains_key(cur)
    &&& owner[cur] == obj
    &&& owner.contains_key(u32_at(tuple_value(u), 0))
    &&& owner[u32_at(tuple_value(u), 0)] == obj
}

/// The leaves object `obj` owns in `pages` under `owner` are those it owned
/// in `before` under `owner0` and the right sibling of `leaf`, which split.
#[verifier::opaque]
spec fn leaves_grown(
    pages: Map<PageID, Seq<u8>>,
    owner: Map<PageID, int>,
    before: Map<PageID, Seq<u8>>,
    owner0: Map<PageID, int>,
    obj: int,
    leaf: PageID,
) -> bool {
    forall|x: PageID|
        #[trigger] owned_leaf(pages, owner, obj, x) <==> owned_leaf(before, owner0, obj, x) || x == page_view(
            pages[leaf],
        ).right_sibling
}

/// The leaves object `obj` owns in `after` under `owner` are those it owned
/// in `before` under `owner0`, and the right sibling of `leaf` when `leaf`
/// split.
#[verifier::opaque]
spec fn leaves_after_insert(
    after: Map<PageID, Seq<u8>>,
    owner: Map<PageID, int>,
    before: Map<PageID, Seq<u8>>,
    owner0: Map<PageID, int>,
    obj: int,
    leaf: PageID,
) -> bool {
    forall|x: PageID|
        #[trigger] owned_leaf(after, owner, obj, x) <==> owned_leaf(before, owner0, obj, x) || (x == page_view(
            after[leaf],
        ).right_sibling && page_view(after[leaf]).right_sibling != page_view(before[leaf]).right_sibling)
}

/// Inserting `u` into page `cur` where it has room keeps the store chained:
/// a leaf only grows, and a node of the climb takes the separator its
/// waiting page needs, which becomes the page's parent.
proof fn lemma_chain_write(
    pages: Map<PageID, Seq<u8>>,
    ranges: Map<PageID, KeyRange>,
    parent: Map<PageID, PageID>,
    owner: Map<PageID, int>,
    chains: Seq<Seq<PageID>>,
    roots: Seq<PageID>,
    obj: int,
    cur: PageID,
    u: Seq<u8>,
    b: Seq<u8>,
    climbing: bool,
    before: Map<PageID, Seq<u8>>,
    owner0: Map<PageID, int>,
    leaf: PageID,
)
    requires
        pages.contains_key(cur),
        climbing ==> {
            &&& pages.contains_key(leaf)
            &&& is_leaf(pages[leaf])
            &&& page_view(pages[leaf]).right_sibling != page_view(before[leaf]).right_sibling
            &&& leaves_grown(pages, owner, before, owner0, obj, leaf)
        },
        !climbing ==> pages == before && owner == owner0 && cur == leaf,
        is_partition(
            page_view(pages[cur]).tuples,
            tuple_key(u),
            partition_of(page_view(pages[cur]).tuples, tuple_key(u)),
        ),
        page_view(b) == (PageView {
            tuples: page_view(pages[cur]).tuples.insert(partition_of(page_view(pages[cur]).tuples, tuple_key(u)), u),
            ..page_view(pages[cur])
        }),
        !climbing ==> is_leaf(pages[cur]) && chained(pages, ranges, parent, owner, chains, roots),
        climbing ==> is_node(pages[cur]) && chain_climb(pages, ranges, parent, owner, chains, roots, obj, cur, u),
    ensures
        chained(
            pages.insert(cur, b),
            ranges,
            if climbing {
                parent.insert(u32_at(tuple_value(u), 0), cur)
            } else {
                parent
            },
            owner,
            chains,
            roots,
        ),
        leaves_after_insert(pages.insert(cur, b), owner, before, owner0, obj, leaf),
{
    reveal(leaves_after_insert);
    reveal(chain_climb);
    reveal(leaves_grown);
    assert(page_view(b).page_type == page_view(pages[cur]).page_type);
    let after = pages.insert(cur, b);
    if climbing {
        assert(cur != leaf);
    }
    assert(page_view(after[leaf]).right_sibling == page_view(pages[leaf]).right_sibling);
    assert forall|x: PageID| #[trigger] owned_leaf(after, owner, obj, x) == owned_leaf(pages, owner, obj, x) by {
    }
    if climbing {
        lemma_chained_resolve(pages, ranges, parent, owner, chains, roots, cur, b, u32_at(tuple_value(u), 0));
    } else {
        assert(page_view(b).tuples.len() > 0);
        lemma_chained_leaf_grow(pages, ranges, parent, owner, chains, roots, cur, b);
    }
}

/// Splitting the leaf an ordered, chained store's search for `t` reaches,
/// when the leaf lacks `t`'s key, keeps the store chained with the new leaf
/// owned by the object and put after the leaf in its chain.
#[verifier::spinoff_prover]
proof fn lemma_chain_leaf_split(
    pages: Map<PageID, Seq<u8>>,
    ranges: Map<PageID, KeyRange>,
    parent: Map<PageID, PageID>,
    owner: Map<PageID, int>,
    chains: Seq<Seq<PageID>>,
    roots: Seq<PageID>,
    obj: int,
    t: Seq<u8>,
    path: Seq<PageID>,
    leaf: PageID,
    pages2: Map<PageID, Seq<u8>>,
    up: Seq<u8>,
)
    requires
        ordered(pages, ranges, parent, roots),
        chained(pages, ranges, parent, owner, chains, roots),
        0 <= obj < roots.len(),
        forall|i: int| 0 <= i < roots.len() ==> pages.contains_key(#[trigger] roots[i]),
        is_descent(pages, roots[obj], tuple_key(t), path, leaf),
        key_absent(pages[leaf], tuple_key(t)),
        page_view(pages[leaf]).tuples.len() >= 1,
        split_done(pages, pages2, leaf, t, up),
    ensures
        ({
            let r = page_view(pages2[leaf]).right_sibling;
            let km = tuple_key(split_middle(page_view(pages[leaf]).tuples, t));
            let c = chains[obj];
            let owner2 = owner.insert(r, obj);
            &&& chained(
                pages2,
                split_ranges(ranges, leaf, r, km),
                parent,
                owner2,
                chains.update(obj, c.insert(c.index_of(leaf) + 1, r)),
                roots,
            )
            &&& owner2.contains_key(leaf)
            &&& owner2[leaf] == obj
            &&& owner2.contains_key(r)
            &&& owner2[r] == obj
        }),
{
    reveal(chained);
    let k = tuple_key(t);
    let r = page_view(pages2[leaf]).right_sibling;
    let km = tuple_key(split_middle(page_view(pages[leaf]).tuples, t));
    let ranges2 = split_ranges(ranges, leaf, r, km);
    lemma_law_leaf_split(pages, ranges, parent, roots, obj, t, path, leaf, pages2, up);
    lemma_descent_owner(pages, ranges, parent, owner, roots, obj, k, path, leaf);
    assert(range_nonempty(ranges2[leaf]) && range_nonempty(ranges2[r])) by {
        if parent.contains_key(leaf) {
            assert(pending_at(pages2, ranges2, parent, parent[leaf], leaf, km, r));
        }
    }
    lemma_chained_leaf_split(pages, ranges, parent, owner, chains, roots, obj, leaf, t, pages2, up, ranges2);
}

/// Splitting node `cur` of a climb keeps the store chained, with the new
/// node owned by the object.
#[verifier::spinoff_prover]
proof fn lemma_chain_node_split(
    pages: Map<PageID, Seq<u8>>,
    ranges: Map<PageID, KeyRange>,
    parent: Map<PageID, PageID>,
    owner: Map<PageID, int>,
    chains: Seq<Seq<PageID>>,
    roots: Seq<PageID>,
    obj: int,
    cur: PageID,
    u: Seq<u8>,
    pages2: Map<PageID, Seq<u8>>,
    up: Seq<u8>,
)
    requires
        chain_climb(pages, ranges, parent, owner, chains, roots, obj, cur, u),
        pages.contains_key(cur),
        is_node(pages[cur]),
        split_done(pages, pages2, cur, u, up),
        ({
            let nv = page_view(pages2[page_view(pages2[cur]).right_sibling]);
            forall|j: int|
                -1 <= j < nv.tuples.len() ==> #[trigger] slot_child(nv, j) == u32_at(tuple_value(u), 0) || (
                parent.contains_key(slot_child(nv, j)) && parent[slot_child(nv, j)] == cur)
        }),
    ensures
        ({
            let n = page_view(pages2[cur]).right_sibling;
            let km = tuple_key(split_middle(page_view(pages[cur]).tuples, u));
            let owner2 = owner.insert(n, obj);
            &&& chained(
                pages2,
                split_ranges(ranges, cur, n, km),
                split_parents(parent, page_view(pages2[n]), cur, n, u32_at(tuple_value(u), 0)),
                owner2,
                chains,
                roots,
            )
            &&& owner2.contains_key(cur)
            &&& owner2[cur] == obj
            &&& owner2.contains_key(n)
            &&& owner2[n] == obj
        }),
{
    reveal(chain_climb);
    let n = page_view(pages2[cur]).right_sibling;
    let km = tuple_key(split_middle(page_view(pages[cur]).tuples, u));
    let ranges2 = split_ranges(ranges, cur, n, km);
    assert(page_view(pages2[cur]).page_type == page_view(pages[cur]).page_type);
    assert(page_view(pages2[n]).page_type == page_view(pages[cur]).page_type);
    assert forall|x: PageID| x != cur && x != n implies ranges2.contains_key(x) == ranges.contains_key(x)
        && #[trigger] ranges2[x] == ranges[x] by {
    }
    lemma_chained_node_split(
        pages,
        ranges,
        parent,
        owner,
        chains,
        roots,
        obj,
        cur,
        u32_at(tuple_value(u), 0),
        n,
        pages2,
        ranges2,
        split_parents(parent, page_view(pages2[n]), cur, n, u32_at(tuple_value(u), 0)),
    );
}

/// After a split the climb goes on at `pid`, the node above `cur` or a new
/// root over it owned by the object: the store stays chained, and the object
/// owns `pid` and the page waiting in it.
#[verifier::spinoff_prover]
proof fn lemma_chain_climb_next(
    pages2: Map<PageID, Seq<u8>>,
    ranges2: Map<PageID, KeyRange>,
    parent2: Map<PageID, PageID>,
    owner2: Map<PageID, int>,
    chains: Seq<Seq<PageID>>,
    roots2: Seq<PageID>,
    obj: int,
    cur: PageID,
    up: Seq<u8>,
    new_root: bool,
    pages3: Map<PageID, Seq<u8>>,
    ranges3: Map<PageID, KeyRange>,
    parent3: Map<PageID, PageID>,
    owner3: Map<PageID, int>,
    roots3: Seq<PageID>,
    pid: PageID,
    t: Seq<u8>,
    stack: Seq<PageID>,
    x: PageID,
    dpath: Seq<PageID>,
)
    requires
        chained(pages2, ranges2, parent2, owner2, chains, roots2),
        owner2.contains_key(cur),
        owner2[cur] == obj,
        owner2.contains_key(u32_at(tuple_value(up), 0)),
        owner2[u32_at(tuple_value(up), 0)] == obj,
        new_root ==> {
            &&& 0 <= obj < roots2.len()
            &&& roots2[obj] == cur
            &&& !pages2.contains_key(pid)
            &&& pages3 == pages2.insert(pid, pages3[pid])
            &&& is_node(pages3[pid])
            &&& ranges3 == ranges2.insert(pid, full_range())
            &&& parent3 == parent2.insert(cur, pid)
            &&& roots3 == roots2.update(obj, pid)
            &&& owner3 == owner2.insert(pid, obj)
        },
        !new_root ==> pages3 == pages2 && ranges3 == ranges2 && parent3 == parent2 && roots3 == roots2 && owner3
            == owner2,
        climb_ok(pages3, ranges3, parent3, roots3, obj, t, pid, up, stack, cur, x, dpath),
    ensures
        chain_climb(pages3, ranges3, parent3, owner3, chains, roots3, obj, pid, up),
{
    reveal(chained);
    reveal(chain_climb);
    reveal(climb_ok);
    if new_root {
        assert forall|y: PageID| y != pid implies ranges3.contains_key(y) == ranges2.contains_key(y)
            && #[trigger] ranges3[y] == ranges2[y] by {
        }
        lemma_chained_new_root(pages2, ranges2, parent2, owner2, chains, roots2, obj, cur, pid, pages3[pid], ranges3);
    }
    assert(parent3.contains_key(cur) && parent3[cur] == pid);
    assert(owner3.contains_key(cur) && owner3[cur] == obj);
}

/// One split of an insert's climb, with the law in force: page `cur`, the
/// leaf the search for `t` reached or the node of the climb that awaits `u`,
/// splits, and the climb goes on at the node above it or at a new root over
/// it. The store stays as `climb_ok` and `chain_climb` say for that node.
#[verifier::spinoff_prover]
#[verifier::rlimit(100)]
proof fn lemma_climb_step(
    pages: Map<PageID, Seq<u8>>,
    ranges: Map<PageID, KeyRange>,
    parent: Map<PageID, PageID>,
    owner: Map<PageID, int>,
    chains: Seq<Seq<PageID>>,
    roots: Seq<PageID>,
    levels: Map<PageID, nat>,
    obj: int,
    t: Seq<u8>,
    climbing: bool,
    cur: PageID,
    u: Seq<u8>,
    stack: Seq<PageID>,
    below: PageID,
    x: PageID,
    dpath: Seq<PageID>,
    pages2: Map<PageID, Seq<u8>>,
    up: Seq<u8>,
    pages3: Map<PageID, Seq<u8>>,
    ranges3: Map<PageID, KeyRange>,
    parent3: Map<PageID, PageID>,
    owner3: Map<PageID, int>,
    chains3: Seq<Seq<PageID>>,
    roots3: Seq<PageID>,
    cur3: PageID,
    stack3: Seq<PageID>,
    before: Map<PageID, Seq<u8>>,
    owner0: Map<PageID, int>,
    leaf: PageID,
)
    requires
        0 <= obj < roots.len(),
        forall|i: int| 0 <= i < roots.len() ==> pages.contains_key(#[trigger] roots[i]),
        page_view(pages[cur]).tuples.len() >= 1,
        climbing ==> {
            &&& pages.contains_key(leaf)
            &&& is_leaf(pages[leaf])
            &&& leaves_grown(pages, owner, before, owner0, obj, leaf)
        },
        !climbing ==> pages == before && owner == owner0 && cur == leaf,
        split_done(pages, pages2, cur, u, up),
        tuple_key(up) == tuple_key(split_middle(page_view(pages[cur]).tuples, u)),
        u32_at(tuple_value(up), 0) == page_view(pages2[cur]).right_sibling,
        up.len() == tuple_key(up).len() + 8,
        climbing ==> {
            &&& climb_ok(pages, ranges, parent, roots, obj, t, cur, u, stack, below, x, dpath)
            &&& chain_climb(pages, ranges, parent, owner, chains, roots, obj, cur, u)
            &&& pages.contains_key(cur)
            &&& is_node(pages[cur])
        },
        !climbing ==> {
            &&& ordered(pages, ranges, parent, roots)
            &&& chained(pages, ranges, parent, owner, chains, roots)
            &&& u == t
            &&& is_descent(pages, roots[obj], tuple_key(t), stack, cur)
            &&& chain_ok(pages, levels, stack.push(cur))
            &&& key_absent(pages[cur], tuple_key(t))
        },
        ({
            let n = page_view(pages2[cur]).right_sibling;
            let ranges2 = split_ranges(ranges, cur, n, tuple_key(up));
            let parent2 = if climbing {
                split_parents(parent, page_view(pages2[n]), cur, n, u32_at(tuple_value(u), 0))
            } else {
                parent
            };
            let owner2 = owner.insert(n, obj);
            &&& chains3 == if climbing {
                chains
            } else {
                chains.update(obj, chains[obj].insert(chains[obj].index_of(cur) + 1, n))
            }
            &&& stack.len() > 0 ==> {
                &&& cur3 == stack[stack.len() - 1]
                &&& stack3 == stack.drop_last()
                &&& pages3 == pages2
                &&& ranges3 == ranges2
                &&& parent3 == parent2
                &&& owner3 == owner2
                &&& roots3 == roots
            }
            &&& stack.len() == 0 ==> {
                &&& stack3.len() == 0
                &&& !pages2.contains_key(cur3)
                &&& pages3 == pages2.insert(cur3, pages3[cur3])
                &&& page_view(pages3[cur3]) == (PageView {
                    page_id: cur3,
                    page_type: PageType::Node.spec_id(),
                    left_sibling: NULL_PTR,
                    right_sibling: NULL_PTR,
                    left_child: cur,
                    tuples: Seq::empty(),
                })
                &&& roots3 == roots.update(obj, cur3)
                &&& ranges3 == ranges2.insert(cur3, full_range())
                &&& parent3 == parent2.insert(cur, cur3)
                &&& owner3 == owner2.insert(cur3, obj)
            }
        }),
    ensures
        ({
            let n = page_view(pages2[cur]).right_sibling;
            let h = if lex_lt(tuple_key(t), tuple_key(up)) { cur } else { n };
            &&& climb_ok(
                pages3,
                ranges3,
                parent3,
                roots3,
                obj,
                t,
                cur3,
                up,
                stack3,
                cur,
                if climbing { x } else { h },
                if climbing { seq![h] + dpath } else { Seq::empty() },
            )
            &&& chain_climb(pages3, ranges3, parent3, owner3, chains3, roots3, obj, cur3, up)
            &&& pages3.contains_key(leaf)
            &&& climbing ==> pages3[leaf] == pages[leaf]
            &&& leaves_grown(pages3, owner3, before, owner0, obj, leaf)
        }),
{
    let n = page_view(pages2[cur]).right_sibling;
    let ranges2 = split_ranges(ranges, cur, n, tuple_key(up));
    let owner2 = owner.insert(n, obj);
    let new_root = stack.len() == 0;
    reveal(leaves_grown);
    assert(pages3.contains_key(leaf) && (climbing ==> pages3[leaf] == pages[leaf]) && (!climbing ==> pages3[leaf]
        == pages2[cur]) && forall|y: PageID|
        #[trigger] owned_leaf(pages3, owner3, obj, y) <==> owned_leaf(pages, owner, obj, y) || (!climbing && y == n))
        by {
        assert(!pages.contains_key(n));
        assert(page_view(pages2[cur]).page_type == page_view(pages[cur]).page_type);
        assert(page_view(pages2[n]).page_type == page_view(pages[cur]).page_type);
        if climbing {
            assert(leaf != cur);
        }
        assert(leaf != n);
        if new_root {
            assert(leaf != cur3 && n != cur3 && cur != cur3);
            assert(page_view(pages3[cur3]).page_type == PageType::Node.spec_id());
        }
        assert forall|y: PageID| #[trigger] owned_leaf(pages3, owner3, obj, y) <==> owned_leaf(pages, owner, obj, y) || (
        !climbing && y == n) by {
            if new_root && y == cur3 {
            } else if y == n {
            } else if y == cur {
            } else {
                assert(pages3.contains_key(y) == pages.contains_key(y));
                assert(pages3[y] == pages[y]);
                assert(owner3.contains_key(y) == owner.contains_key(y));
                assert(owner3[y] == owner[y]);
            }
        }
    }
    if climbing {
        let parent2 = split_parents(parent, page_view(pages2[n]), cur, n, u32_at(tuple_value(u), 0));
        if stack.len() > 0 {
            lemma_law_node_climb_up(
                pages, ranges, parent, roots, obj, t, cur, u, stack, below, x, dpath, pages2, up, pages3, ranges3,
                parent3, roots3, cur3, stack3,
            );
        } else {
            lemma_law_node_climb_root(
                pages, ranges, parent, roots, obj, t, cur, u, stack, below, x, dpath, pages2, up, pages3, ranges3,
                parent3, roots3, cur3, stack3,
            );
        }
        lemma_chain_node_split(pages, ranges, parent, owner, chains, roots, obj, cur, u, pages2, up);
        assert(page_view(pages3[cur3]).page_type == PageType::Node.spec_id() || !new_root);
        lemma_chain_climb_next(
            pages2, ranges2, parent2, owner2, chains, roots, obj, cur, up, new_root, pages3, ranges3, parent3,
            owner3, roots3, cur3, t, stack3, x, seq![if lex_lt(tuple_key(t), tuple_key(up)) { cur } else { n }] + dpath,
        );
    } else {
        lemma_law_split_start(
            pages, ranges, parent, roots, levels, obj, t, stack, cur, pages2, up, pages3, ranges3, parent3, roots3,
            cur3, stack3,
        );
        lemma_chain_leaf_split(pages, ranges, parent, owner, chains, roots, obj, t, stack, cur, pages2, up);
        assert(page_view(pages3[cur3]).page_type == PageType::Node.spec_id() || !new_root);
        lemma_chain_climb_next(
            pages2, ranges2, parent, owner2, chains3, roots, obj, cur, up, new_root, pages3, ranges3, parent3, owner3,
            roots3, cur3, t, stack3, if lex_lt(tuple_key(t), tuple_key(up)) { cur } else { n }, Seq::empty(),
        );
    }
}

/// A tuple of a sequence with `t` inserted is `t` or a tuple of the sequence,
/// and each of those is in it.
proof fn lemma_insert_has(ts: Seq<Seq<u8>>, p: int, t: Seq<u8>, x: Seq<u8>)
    requires
        0 <= p <= ts.len(),
    ensures
        ts.insert(p, t).contains(x) <==> x == t || ts.contains(x),
{
    lemma_contains_insert(ts, p, t);
    let g = ts.insert(p, t);
    if x == t {
        assert(g[p] == t);
    } else if ts.contains(x) {
        let i = choose|i: int| 0 <= i < ts.len() && ts[i] == x;
        if i < p {
            assert(g[i] == x);
        } else {
            assert(g[i + 1] == x);
        }
    }
}

/// A tuple of two sequences one after the other is a tuple of one of them.
proof fn lemma_concat_has(a: Seq<Seq<u8>>, b: Seq<Seq<u8>>, x: Seq<u8>)
    ensures
        (a + b).contains(x) <==> a.contains(x) || b.contains(x),
{
    let s = a + b;
    if s.contains(x) {
        let i = choose|i: int| 0 <= i < s.len() && s[i] == x;
        if i < a.len() {
            assert(a[i] == x);
        } else {
            assert(b[i - a.len()] == x);
        }
    }
    if a.contains(x) {
        let i = choose|i: int| 0 <= i < a.len() && a[i] == x;
        assert(s[i] == x);
    }
    if b.contains(x) {
        let i = choose|i: int| 0 <= i < b.len() && b[i] == x;
        assert(s[i + a.len()] == x);
    }
}

/// Inserting `t` into its leaf of an ordered, chained tree, which lacks
/// `t`'s key, leaves the tree finding exactly what it found before and `t`:
/// the search from the object's root finds a tuple afterwards exactly when
/// it found it before or the tuple is `t`.
#[verifier::spinoff_prover]
#[verifier::rlimit(100)]
proof fn lemma_insert_holds(
    before: Map<PageID, Seq<u8>>,
    ranges0: Map<PageID, KeyRange>,
    parents0: Map<PageID, PageID>,
    owners0: Map<PageID, int>,
    chains0: Seq<Seq<PageID>>,
    roots0: Seq<PageID>,
    levels0: Map<PageID, nat>,
    after: Map<PageID, Seq<u8>>,
    ranges1: Map<PageID, KeyRange>,
    parents1: Map<PageID, PageID>,
    owners1: Map<PageID, int>,
    chains1: Seq<Seq<PageID>>,
    roots1: Seq<PageID>,
    levels1: Map<PageID, nat>,
    obj: int,
    t: Seq<u8>,
    path: Seq<PageID>,
    leaf: PageID,
)
    requires
        store_ok(before, levels0, roots0),
        store_ok(after, levels1, roots1),
        ordered(before, ranges0, parents0, roots0),
        chained(before, ranges0, parents0, owners0, chains0, roots0),
        ordered(after, ranges1, parents1, roots1),
        chained(after, ranges1, parents1, owners1, chains1, roots1),
        0 <= obj < roots0.len(),
        roots1.len() == roots0.len(),
        is_descent(before, roots0[obj], tuple_key(t), path, leaf),
        key_absent(before[leaf], tuple_key(t)),
        leaf_insert_done(before, after, leaf, t),
        leaves_after_insert(after, owners1, before, owners0, obj, leaf),
    ensures
        forall|t2: Seq<u8>|
            #[trigger] leaf_holds(after, roots1[obj], t2) <==> leaf_holds(before, roots0[obj], t2) || t2 == t,
{
    reveal(leaf_insert_done);
    reveal(leaves_after_insert);
    let k = tuple_key(t);
    let v = page_view(before[leaf]);
    let w = page_view(after[leaf]);
    let r = w.right_sibling;
    let split = r != v.right_sibling;
    lemma_store_root(before, levels0, roots0, obj);
    lemma_store_root(after, levels1, roots1, obj);
    assert(owned_leaf(before, owners0, obj, leaf)) by {
        reveal(chained);
        lemma_descent_owner(before, ranges0, parents0, owners0, roots0, obj, k, path, leaf);
    }
    lemma_ordered_page(before, ranges0, parents0, roots0, leaf);
    lemma_strict_sorted(v.tuples);
    lemma_partition_exists(v.tuples, k);
    let p = partition_of(v.tuples, k);
    let grown = v.tuples.insert(p, t);
    assert(owned_leaf(after, owners1, obj, leaf));
    assert(split ==> owned_leaf(after, owners1, obj, r));
    assert forall|t2: Seq<u8>| #[trigger] leaf_holds(after, roots1[obj], t2) <==> leaf_holds(before, roots0[obj], t2)
        || t2 == t by {
        let k2 = tuple_key(t2);
        let (p0, l0) = lemma_descent_exists(before, levels0, roots0, roots0[obj], k2);
        leaf_chains::lemma_holds_iff_owned(before, ranges0, parents0, owners0, chains0, roots0, obj, t2, p0, l0);
        let (p1, l1) = lemma_descent_exists(after, levels1, roots1, roots1[obj], k2);
        leaf_chains::lemma_holds_iff_owned(after, ranges1, parents1, owners1, chains1, roots1, obj, t2, p1, l1);
        lemma_insert_has(v.tuples, p, t, t2);
        // What the split leaf and its new sibling hold is what the grown leaf holds.
        let in_halves = w.tuples.contains(t2) || (split && page_view(after[r]).tuples.contains(t2));
        assert(in_halves <==> grown.contains(t2)) by {
            if split {
                lemma_concat_has(w.tuples, page_view(after[r]).tuples, t2);
            }
        }
        if leaf_holds(after, roots1[obj], t2) {
            let x = choose|x: PageID| #[trigger] owned_leaf(after, owners1, obj, x) && page_view(after[x]).tuples.contains(t2);
            if x != leaf && !(split && x == r) {
                assert(owned_leaf(before, owners0, obj, x));
                assert(after[x] == before[x]);
                assert(owned_leaf(before, owners0, obj, x) && page_view(before[x]).tuples.contains(t2));
            } else if t2 != t {
                assert(owned_leaf(before, owners0, obj, leaf) && page_view(before[leaf]).tuples.contains(t2));
            }
        }
        if leaf_holds(before, roots0[obj], t2) || t2 == t {
            if t2 == t || v.tuples.contains(t2) {
                if w.tuples.contains(t2) {
                    assert(owned_leaf(after, owners1, obj, leaf) && page_view(after[leaf]).tuples.contains(t2));
                } else {
                    assert(owned_leaf(after, owners1, obj, r) && page_view(after[r]).tuples.contains(t2));
                }
            } else {
                let x = choose|x: PageID| #[trigger] owned_leaf(before, owners0, obj, x) && page_view(before[x]).tuples.contains(t2);
                assert(x != leaf);
                assert(after[x] == before[x]);
                assert(owned_leaf(after, owners1, obj, x) && page_view(after[x]).tuples.contains(t2));
            }
        }
    }
}

/// Writing back page `cur` of an insert with `u` inserted in it, where it had
/// room, ends the insert of `t` into leaf `leaf`: the store stays workable,
/// the leaf insert is done, and with the law in force the tree is ordered
/// and chained, its search for `t`'s key finds `t`, and the object owns the
/// leaves it owned and the one its leaf split off.
#[verifier::spinoff_prover]
#[verifier::rlimit(100)]
proof fn lemma_write_step(
    pages: Map<PageID, Seq<u8>>,
    levels: Map<PageID, nat>,
    roots: Seq<PageID>,
    ranges: Map<PageID, KeyRange>,
    parent: Map<PageID, PageID>,
    owner: Map<PageID, int>,
    chains: Seq<Seq<PageID>>,
    before: Map<PageID, Seq<u8>>,
    owner0: Map<PageID, int>,
    obj: int,
    t: Seq<u8>,
    leaf: PageID,
    path: Seq<PageID>,
    climbing: bool,
    law: bool,
    cur: PageID,
    u: Seq<u8>,
    pb: Seq<u8>,
    stack: Seq<PageID>,
    below: PageID,
    x: PageID,
    dpath: Seq<PageID>,
)
    requires
        store_ok(pages, levels, roots),
        0 <= obj < roots.len(),
        pages.contains_key(cur),
        page_wf(pb),
        page_view(pb) == (PageView {
            tuples: page_view(pages[cur]).tuples.insert(partition_of(page_view(pages[cur]).tuples, tuple_key(u)), u),
            ..page_view(pages[cur])
        }),
        is_node(pages[cur]) ==> child_ok(pages, levels, u, levels[cur]),
        before.contains_key(leaf),
        is_leaf(before[leaf]),
        !climbing ==> cur == leaf && pages == before && u == t && owner == owner0,
        climbing ==> {
            &&& is_node(pages[cur])
            &&& leaf_insert_done(before, pages, leaf, t)
            &&& pages.contains_key(leaf)
            &&& is_leaf(pages[leaf])
            &&& page_view(pages[leaf]).right_sibling != page_view(before[leaf]).right_sibling
        },
        law && !climbing ==> {
            &&& ordered(pages, ranges, parent, roots)
            &&& chained(pages, ranges, parent, owner, chains, roots)
            &&& key_absent(pages[leaf], tuple_key(t))
            &&& is_descent(pages, roots[obj], tuple_key(t), path, leaf)
        },
        law && climbing ==> {
            &&& climb_ok(pages, ranges, parent, roots, obj, t, cur, u, stack, below, x, dpath)
            &&& chain_climb(pages, ranges, parent, owner, chains, roots, obj, cur, u)
            &&& leaves_grown(pages, owner, before, owner0, obj, leaf)
        },
    ensures
        ({
            let after = pages.insert(cur, pb);
            let parent2 = if climbing {
                parent.insert(u32_at(tuple_value(u), 0), cur)
            } else {
                parent
            };
            &&& store_ok(after, levels, roots)
            &&& leaf_insert_done(before, after, leaf, t)
            &&& law ==> {
                &&& ordered(after, ranges, parent2, roots)
                &&& chained(after, ranges, parent2, owner, chains, roots)
                &&& leaf_holds(after, roots[obj], t)
                &&& leaves_after_insert(after, owner, before, owner0, obj, leaf)
            }
        }),
{
    lemma_store_page(pages, levels, roots, cur);
    lemma_partition_exists(page_view(pages[cur]).tuples, tuple_key(u));
    lemma_insert_store_ok(pages, levels, roots, cur, u, pb);
    let after = pages.insert(cur, pb);
    if climbing {
        lemma_node_write_only_nodes(pages, cur, pb);
        lemma_leaf_insert_done_stable(before, pages, after, leaf, t);
    } else {
        assert(leaf_insert_done(before, after, leaf, t)) by {
            reveal(leaf_insert_done);
        }
    }
    if law {
        lemma_chain_write(pages, ranges, parent, owner, chains, roots, obj, cur, u, pb, climbing, before, owner0, leaf);
        if climbing {
            lemma_law_resolve(pages, ranges, parent, roots, obj, t, cur, u, stack, below, x, dpath, pb);
        } else {
            lemma_store_root(pages, levels, roots, obj);
            lemma_law_leaf_insert(pages, ranges, parent, roots, obj, t, path, leaf, pb);
        }
    }
}

/// A page stays workable when the store and the levels only grow around it.
#[verifier::spinoff_prover]
proof fn lemma_page_ok_mono(
    pages: Map<PageID, Seq<u8>>,
    levels: Map<PageID, nat>,
    pages2: Map<PageID, Seq<u8>>,
    levels2: Map<PageID, nat>,
    id: PageID,
)
    requires
        page_ok(pages, levels, id),
        pages.contains_key(id),
        pages2.contains_key(id),
        pages2[id] == pages[id],
        forall|k: PageID| pages.contains_key(k) ==> #[trigger] pages2.contains_key(k),
        forall|k: PageID|
            pages.contains_key(k) && levels.contains_key(k) ==> #[trigger] levels2.contains_key(k)
                && levels2[k] == levels[k],
    ensures
        page_ok(pages2, levels2, id),
{
    let v = page_view(pages[id]);
    assert(levels2.contains_key(id));
    if v.right_sibling != NULL_PTR {
        assert(pages2.contains_key(v.right_sibling));
    }
    if is_node(pages[id]) {
        assert(pages2.contains_key(v.left_child));
        assert(levels2.contains_key(v.left_child));
        assert forall|x: Seq<u8>| #[trigger] v.tuples.contains(x) implies child_ok(pages2, levels2, x, levels2[id]) by {
            assert(forall|k: PageID|
                pages.contains_key(k) && levels.contains_key(k) ==> #[trigger] levels2.contains_key(k)
                    && levels2[k] == levels[k]);
            lemma_child_ok_mono(pages, levels, pages2, levels2, x, levels[id]);
        }
    }
}

/// The child a workable node sends a search to is a page of the store on a
/// lower level.
proof fn lemma_node_child(pages: Map<PageID, Seq<u8>>, levels: Map<PageID, nat>, id: PageID, key: Seq<u8>)
    requires
        page_ok(pages, levels, id),
        is_node(pages[id]),
        is_partition(
            page_view(pages[id]).tuples,
            key,
            partition_of(page_view(pages[id]).tuples, key),
        ),
    ensures
        pages.contains_key(node_child(pages[id], key)),
        levels.contains_key(node_child(pages[id], key)),
        levels[node_child(pages[id], key)] < levels[id],
{
    let v = page_view(pages[id]);
    let p = partition_of(v.tuples, key);
    if p > 0 {
        assert(v.tuples.contains(v.tuples[p - 1]));
    }
}

/// The tuples of a workable node hold four-byte values.
proof fn lemma_node_values(pages: Map<PageID, Seq<u8>>, levels: Map<PageID, nat>, id: PageID)
    requires
        page_ok(pages, levels, id),
        is_node(pages[id]),
    ensures
        node_values_wf(page_view(pages[id]).tuples),
{
    let v = page_view(pages[id]);
    assert forall|i: int| 0 <= i < v.tuples.len() implies (#[trigger] tuple_value(v.tuples[i])).len() == 4 by {
        assert(v.tuples.contains(v.tuples[i]));
    }
}

/// A descent from a node's child extends to a descent from the node.
proof fn lemma_descent_extend(
    pages: Map<PageID, Seq<u8>>,
    id: PageID,
    key: Seq<u8>,
    path: Seq<PageID>,
    leaf: PageID,
)
    requires
        pages.contains_key(id),
        is_node(pages[id]),
        is_descent(pages, node_child(pages[id], key), key, path, leaf),
    ensures
        is_descent(pages, id, key, seq![id] + path, leaf),
{
    let full = seq![id] + path;
    assert forall|i: int| 0 <= i < full.len() implies #[trigger] descent_step(pages, key, full, leaf, i) by {
        if i > 0 {
            assert(descent_step(pages, key, path, leaf, i - 1));
            assert(full[i] == path[i - 1]);
            if i + 1 < full.len() {
                assert(full[i + 1] == path[i]);
            }
        } else if path.len() > 0 {
            assert(full[1] == path[0]);
        }
    }
}

/// Replacing a workable page by two halves of a split, the left one linked
/// to the right one, keeps the store workable when both halves hold only the
/// old page's tuples and the new tuple, and the right half's left child is
/// the child of one of those.
proof fn lemma_split_store_ok(
    pages: Map<PageID, Seq<u8>>,
    levels: Map<PageID, nat>,
    roots: Seq<PageID>,
    page_id: PageID,
    new_id: PageID,
    t: Seq<u8>,
    m: Seq<u8>,
    lb: Seq<u8>,
    rb: Seq<u8>,
)
    requires
        store_ok(pages, levels, roots),
        pages.contains_key(page_id),
        !pages.contains_key(new_id),
        page_wf(lb),
        page_wf(rb),
        ({
            let v = page_view(pages[page_id]);
            let lv = page_view(lb);
            let rv = page_view(rb);
            &&& lv.page_type == v.page_type
            &&& rv.page_type == v.page_type
            &&& lv.left_child == v.left_child
            &&& lv.right_sibling == new_id
            &&& rv.right_sibling == v.right_sibling
            &&& forall|x: Seq<u8>| #[trigger] lv.tuples.contains(x) ==> x == t || v.tuples.contains(x)
            &&& forall|x: Seq<u8>| #[trigger] rv.tuples.contains(x) ==> x == t || v.tuples.contains(x)
            &&& m == t || v.tuples.contains(m)
            &&& is_node(pages[page_id]) ==> {
                &&& child_ok(pages, levels, t, levels[page_id])
                &&& rv.left_child == u32_at(tuple_value(m), 0)
            }
        }),
    ensures
        store_ok(
            pages.insert(new_id, rb).insert(page_id, lb),
            levels.insert(new_id, levels[page_id]),
            roots,
        ),
{
    let pages_f = pages.insert(new_id, rb).insert(page_id, lb);
    let levels_f = levels.insert(new_id, levels[page_id]);
    let v = page_view(pages[page_id]);
    lemma_store_page(pages, levels, roots, page_id);
    assert(forall|k: PageID| pages.contains_key(k) ==> #[trigger] pages_f.contains_key(k));
    assert(forall|k: PageID|
        pages.contains_key(k) && levels.contains_key(k) ==> #[trigger] levels_f.contains_key(k)
            && levels_f[k] == levels[k]);
    reveal(store_ok);
    assert forall|id: PageID| #[trigger] pages_f.contains_key(id) implies page_ok(pages_f, levels_f, id) by {
        if id == page_id {
            let lv = page_view(lb);
            if is_node(lb) {
                assert forall|x: Seq<u8>| #[trigger] lv.tuples.contains(x) implies child_ok(pages_f, levels_f, x, levels_f[id]) by {
                    if x != t {
                        assert(v.tuples.contains(x));
                    }
                    lemma_child_ok_mono(pages, levels, pages_f, levels_f, x, levels[page_id]);
                }
            }
        } else if id == new_id {
            let rv = page_view(rb);
            if is_node(rb) {
                if m != t {
                    assert(v.tuples.contains(m));
                }
                assert(child_ok(pages, levels, m, levels[page_id]));
                lemma_child_ok_mono(pages, levels, pages_f, levels_f, m, levels[page_id]);
                assert forall|x: Seq<u8>| #[trigger] rv.tuples.contains(x) implies child_ok(pages_f, levels_f, x, levels_f[id]) by {
                    if x != t {
                        assert(v.tuples.contains(x));
                    }
                    lemma_child_ok_mono(pages, levels, pages_f, levels_f, x, levels[page_id]);
                }
            }
        } else {
            lemma_page_ok_mono(pages, levels, pages_f, levels_f, id);
        }
    }
}

/// Inserts `tuples`, sorted by key and fitting together in a page, into the
/// empty page `page`, which then holds exactly them.
fn fill_page(page: &mut SlottedPage, tuples: &Vec<TupleBuf>, Ghost(ts): Ghost<Seq<Seq<u8>>>)
    requires
        old(page).wf(),
        old(page)@.tuples == Seq::<Seq<u8>>::empty(),
        tuples@.len() == ts.len(),
        forall|j: int| 0 <= j < tuples@.len() ==> #[trigger] tuples@[j].tuple.0@ == ts[j],
        forall|j: int| 0 <= j < ts.len() ==> tuple_wf(#[trigger] ts[j]),
        keys_sorted(ts),
        used_space(ts) <= PAGE_SIZE - HEADER_SIZE,
    ensures
        final(page).wf(),
        final(page)@ == (PageView { tuples: ts, ..old(page)@ }),
{
    let mut i: usize = 0;
    proof {
        assert(ts.take(0) =~= Seq::<Seq<u8>>::empty());
    }
    while i < tuples.len()
        invariant
            tuples@.len() == ts.len(),
            forall|j: int| 0 <= j < tuples@.len() ==> #[trigger] tuples@[j].tuple.0@ == ts[j],
            forall|j: int| 0 <= j < ts.len() ==> tuple_wf(#[trigger] ts[j]),
            keys_sorted(ts),
            used_space(ts) <= PAGE_SIZE - HEADER_SIZE,
            0 <= i <= ts.len(),
            page.wf(),
            page@ == (PageView { tuples: ts.take(i as int), ..old(page)@ }),
        decreases ts.len() - i,
    {
        proof {
            let sub = ts.take(i as int);
            let next = ts[i as int];
            assert(tuples@[i as int].tuple.0@ == next);
            assert(is_partition(sub, tuple_key(next), i as int)) by {
                assert forall|j: int| 0 <= j < i implies lex_le(#[trigger] tuple_key(sub[j]), tuple_key(next)) by {
                    assert(sub[j] == ts[j]);
                    assert(lex_le(tuple_key(ts[j]), tuple_key(ts[i as int])));
                }
            }
            lemma_partition_of(sub, tuple_key(next), i as int);
            lemma_used_space_insert(sub, i as int, next);
            assert(sub.insert(i as int, next) =~= ts.take(i + 1));
            lemma_used_space_subrange(ts, 0, i + 1);
            assert(ts.subrange(0, i + 1) =~= ts.take(i + 1));
        }
        let _ = page.insert(&tuples[i].tuple);
        i = i + 1;
    }
    proof {
        assert(ts.take(ts.len() as int) =~= ts);
    }
}

/// The halves of a split hold only the old tuples and the new one, and the
/// separator is one of them.
proof fn lemma_split_parts(ts: Seq<Seq<u8>>, t: Seq<u8>, leaf: bool)
    requires
        keys_sorted(ts),
    ensures
        0 <= split_at(ts, t) <= right_start(ts, t, leaf) <= ts.len(),
        right_start(ts, t, leaf) == split_at(ts, t) + 1 ==> ts[split_at(ts, t)] == split_middle(ts, t),
        split_middle(ts, t) == t || ts.contains(split_middle(ts, t)),
        forall|x: Seq<u8>| #[trigger] split_left(ts, t).contains(x) ==> x == t || ts.contains(x),
        forall|x: Seq<u8>| #[trigger] split_right(ts, t, leaf).contains(x) ==> x == t || ts.contains(x),
{
    let k = tuple_key(t);
    lemma_partition_exists(ts, k);
    let kl = partition_of(ts, k);
    let mid = (ts.len() + 1) as int / 2;
    let sp = split_at(ts, t);
    if kl < mid {
        assert(ts.contains(ts[mid - 1]));
    } else if kl > mid {
        assert(ts.contains(ts[mid]));
    }
    lemma_lex_order_basics(k, k);
    let rs = right_start(ts, t, leaf);
    let left = ts.take(sp);
    let right = ts.skip(rs);
    assert forall|a: int, b: int| 0 <= a <= b < left.len() implies #[trigger] lex_le(
        tuple_key(left[a]),
        tuple_key(left[b]),
    ) by {
        assert(lex_le(tuple_key(ts[a]), tuple_key(ts[b])));
    }
    lemma_partition_exists(left, k);
    assert forall|a: int, b: int| 0 <= a <= b < right.len() implies #[trigger] lex_le(
        tuple_key(right[a]),
        tuple_key(right[b]),
    ) by {
        assert(lex_le(tuple_key(ts[rs + a]), tuple_key(ts[rs + b])));
    }
    lemma_partition_exists(right, k);
    lemma_contains_parts(ts, sp, partition_of(left, k), t);
    lemma_contains_parts(ts, rs, partition_of(right, k), t);
}

/// Splits the page `left` (page `page_id`) for `tuple`: `left` keeps the
/// lower half and the returned page, whose id field is still zero, takes the
/// upper half; `tuple` is inserted in the half it goes to. Also returns the
/// separator. Returns `None` when `tuple` does not fit in its half.
#[verifier::spinoff_prover]
fn split_page(left: &mut SlottedPage, page_id: PageID, tuple: &Tuple) -> (r: Option<(SlottedPage, TupleBuf)>)
    requires
        old(left).wf(),
        tuple_wf(tuple.0@),
        is_node(old(left).spec_bytes()) ==> tuple_value(tuple.0@).len() == 4 && node_values_wf(old(left)@.tuples),
    ensures
        r is None <==> split_overflows(old(left)@.tuples, tuple.0@, is_leaf(old(left).spec_bytes())),
        r matches Some((right, middle)) ==> final(left).wf() && right.wf(),
        r matches Some((right, middle)) ==> final(left)@ == (PageView {
            tuples: split_left(old(left)@.tuples, tuple.0@),
            ..old(left)@
        }),
        r matches Some((right, middle)) ==> right@ == right_half(
            old(left)@,
            tuple.0@,
            page_id,
            0,
            is_leaf(old(left).spec_bytes()),
        ),
        r matches Some((right, middle)) ==> middle.tuple.0@ == split_middle(old(left)@.tuples, tuple.0@),
        r matches Some((right, middle)) ==> tuple_wf(middle.tuple.0@),
        r matches Some((right, middle)) ==> tuple_key(middle.tuple.0@).len() + 8 <= 0xffff,
{
    let ghost ts = left@.tuples;
    let ghost t = tuple.0@;
    let ghost k = tuple_key(t);
    let ghost leaf = is_leaf(left.spec_bytes());
    proof {
        lemma_partition_exists(ts, k);
        lemma_used_space_nonneg(ts);
        lemma_split_parts(ts, t, is_leaf(left.spec_bytes()));
    }
    let page_type = match PageType::new(left.get_header(&HeaderElem::PageType)) {
        Ok(page_type) => page_type,
        Err(_) => PageType::Leaf,
    };
    let old_right = left.get_header(&HeaderElem::RightSiblingPtr);
    let (middle, moved) = left.split_half(tuple);
    let ghost sp = split_at(ts, t);
    let ghost m = split_middle(ts, t);
    proof {
        if ts.contains(m) {
            let j = choose|j: int| 0 <= j < ts.len() && ts[j] == m;
            assert(tuple_wf(m));
            lemma_used_space_remove(ts, j);
            lemma_used_space_nonneg(ts.remove(j));
        }
    }
    let left_child = match page_type {
        PageType::Leaf => NULL_PTR,
        PageType::Node => {
            proof {
                if ts.contains(m) {
                    let j = choose|j: int| 0 <= j < ts.len() && ts[j] == m;
                    assert(tuple_value(ts[j]).len() == 4);
                }
            }
            read_u32(middle.tuple.value(), 0)
        },
    };
    let mut right = SlottedPage::from_bytes(vec![0u8; PAGE_SIZE]);
    right.init(0, page_type, page_id, old_right, left_child);
    let c = compare_bytes(tuple.key_bytes(), middle.tuple.key_bytes());
    // A node's separator goes up to the parent, not into the new page.
    let drop_middle = match page_type {
        PageType::Node => c != 0,
        PageType::Leaf => false,
    };
    let ghost rs = right_start(ts, t, leaf);
    let mut moved = moved;
    proof {
        assert(forall|j: int| 0 <= j < moved@.len() ==> #[trigger] moved@[j].tuple.0@ == ts.skip(sp)[j]);
        assert(rs == if drop_middle { sp + 1 } else { sp });
    }
    if drop_middle {
        moved.remove(0);
    }
    proof {
        assert(ts.subrange(rs, ts.len() as int) =~= ts.skip(rs));
        lemma_used_space_subrange(ts, rs, ts.len() as int);
        assert forall|j: int| 0 <= j < moved@.len() implies #[trigger] moved@[j].tuple.0@ == ts.skip(rs)[j] by {
            assert(ts.skip(rs)[j] == ts[rs + j]);
        }
        assert(moved@.len() == ts.skip(rs).len());
        assert forall|a: int, b: int| 0 <= a <= b < ts.skip(rs).len() implies #[trigger] lex_le(
            tuple_key(ts.skip(rs)[a]),
            tuple_key(ts.skip(rs)[b]),
        ) by {
            assert(lex_le(tuple_key(ts[rs + a]), tuple_key(ts[rs + b])));
        }
        assert forall|j: int| 0 <= j < ts.skip(rs).len() implies tuple_wf(#[trigger] ts.skip(rs)[j]) by {
            assert(ts.skip(rs)[j] == ts[rs + j]);
        }
    }
    fill_page(&mut right, &moved, Ghost(ts.skip(rs)));
    let placed = match page_type {
        PageType::Leaf => {
            if c < 0 {
                left.insert(tuple)
            } else {
                right.insert(tuple)
            }
        },
        PageType::Node => {
            if c < 0 {
                left.insert(tuple)
            } else if c > 0 {
                right.insert(tuple)
            } else {
                Ok(())
            }
        },
    };
    proof {
        lemma_used_space_nonneg(ts.skip(rs));
        lemma_used_space_nonneg(ts.take(sp));
        lemma_lex_order_basics(k, k);
    }
    if placed.is_err() {
        None
    } else {
        Some((right, middle))
    }
}

/// In an ordered tree whose search for the key of `t` from the root of object
/// `obj` reaches a leaf holding `t`, a scan started at that key begins at
/// `t`: the first position of that leaf whose key does not sort before `t`'s
/// (where `iter_scan` starts) holds `t`.
pub proof fn lemma_scan_starts_at<R: DBReader>(tree: &BTree<R>, obj: int, t: Seq<u8>, idx: int)
    requires
        tree.is_ordered(),
        0 <= obj < tree.roots().len(),
        leaf_holds(tree.pages(), tree.roots()[obj], t),
        is_lower_partition(
            page_view(tree.pages()[leaf_for(tree.pages(), tree.roots()[obj], tuple_key(t))]).tuples,
            tuple_key(t),
            idx,
        ),
    ensures
        ({
            let ts = page_view(tree.pages()[leaf_for(tree.pages(), tree.roots()[obj], tuple_key(t))]).tuples;
            &&& idx < ts.len()
            &&& ts[idx] == t
        }),
{
    let leaf = leaf_for(tree.pages(), tree.roots()[obj], tuple_key(t));
    lemma_ordered_page(tree.pages(), tree.ranges@, tree.parents@, tree.roots(), leaf);
    key_ranges::lemma_scan_start(page_view(tree.pages()[leaf]).tuples, t, idx);
}

/// A store whose pages are all empty leaves without right siblings, with a
/// different root for each object, none of them the missing-page id, is
/// ordered and chained: each page covers all keys, none has a parent, and
/// each object's chain is its root.
pub proof fn lemma_empty_leaves_orderable(pages: Map<PageID, Seq<u8>>, roots: Seq<PageID>)
    requires
        forall|id: PageID|
            #[trigger] pages.contains_key(id) ==> is_leaf(pages[id]) && page_view(pages[id]).tuples.len() == 0
                && page_view(pages[id]).right_sibling == NULL_PTR,
        forall|i: int| 0 <= i < roots.len() ==> pages.contains_key(#[trigger] roots[i]),
        forall|i: int, j: int| 0 <= i < j < roots.len() ==> #[trigger] roots[i] != #[trigger] roots[j],
        forall|i: int| 0 <= i < roots.len() ==> #[trigger] roots[i] != NULL_PTR,
    ensures
        orderable(pages, roots),
{
    reveal(chained);
    let ranges = Map::new(|id: PageID| pages.contains_key(id), |id: PageID| full_range());
    let parent = Map::<PageID, PageID>::empty();
    assert(key_ranges::all_ordered(pages, ranges, parent)) by {
        reveal(key_ranges::all_ordered);
        assert forall|id: PageID| #[trigger] pages.contains_key(id) implies key_ranges::page_ordered(pages, ranges, parent, id) by {
            assert(!is_node(pages[id]));
        }
    }
    let owner = Map::new(
        |id: PageID| roots.contains(id),
        |id: PageID| choose|i: int| 0 <= i < roots.len() && roots[i] == id,
    );
    let chains = Seq::new(roots.len(), |i: int| seq![roots[i]]);
    assert forall|i: int| 0 <= i < roots.len() implies owner.contains_key(#[trigger] roots[i]) && owner[roots[i]] == i by {
        assert(roots.contains(roots[i]));
        let w = choose|w: int| 0 <= w < roots.len() && roots[w] == roots[i];
        if w != i {
            if w < i {
                assert(roots[w] != roots[i]);
            } else {
                assert(roots[i] != roots[w]);
            }
        }
    }
    assert forall|i: int| 0 <= i < roots.len() implies leaf_chain(pages, ranges, owner, #[trigger] chains[i], i) by {
        let c = chains[i];
        assert(c == seq![roots[i]]);
        assert(chain_at(pages, ranges, owner, c, i, 0));
        assert forall|z: int| 0 <= z < c.len() implies #[trigger] chain_at(pages, ranges, owner, c, i, z) by {
        }
        assert forall|x: PageID| #[trigger] owned_leaf(pages, owner, i, x) implies c.contains(x) by {
            let w = choose|w: int| 0 <= w < roots.len() && roots[w] == x;
            assert(owner[roots[w]] == w);
            assert(c[0] == x);
        }
    }
    assert(ordered(pages, ranges, parent, roots) && chained(pages, ranges, parent, owner, chains, roots));
    assert(ordered(pages, (ranges, parent, owner, chains).0, (ranges, parent, owner, chains).1, roots) && chained(
        pages,
        (ranges, parent, owner, chains).0,
        (ranges, parent, owner, chains).1,
        (ranges, parent, owner, chains).2,
        (ranges, parent, owner, chains).3,
        roots,
    ));
}

/// In a workable store, the search for any key from any page reaches a leaf.
proof fn lemma_descent_exists(
    pages: Map<PageID, Seq<u8>>,
    levels: Map<PageID, nat>,
    roots: Seq<PageID>,
    start: PageID,
    key: Seq<u8>,
) -> (r: (Seq<PageID>, PageID))
    requires
        store_ok(pages, levels, roots),
        pages.contains_key(start),
    ensures
        is_descent(pages, start, key, r.0, r.1),
    decreases levels[start],
{
    lemma_store_page(pages, levels, roots, start);
    if is_node(pages[start]) {
        lemma_partition_exists(page_view(pages[start]).tuples, key);
        lemma_node_child(pages, levels, start, key);
        let c = node_child(pages[start], key);
        let (p, l) = lemma_descent_exists(pages, levels, roots, c, key);
        lemma_descent_extend(pages, start, key, p, l);
        (seq![start] + p, l)
    } else {
        assert(is_leaf(pages[start]));
        (Seq::empty(), start)
    }
}

/// A scan reads keys in increasing order in an ordered tree: after reading
/// the tuple before position `pos` of leaf `page`, the tuple the scan reads
/// next, at `pos` or first in the right sibling once the leaf is used up,
/// sorts after it.
pub proof fn lemma_scan_ascends<R: DBReader>(tree: &BTree<R>, page: PageID, pos: int)
    requires
        tree.is_ordered(),
        tree.pages().contains_key(page),
        is_leaf(tree.pages()[page]),
        1 <= pos <= page_view(tree.pages()[page]).tuples.len(),
    ensures
        ({
            let pages = tree.pages();
            let v = page_view(pages[page]);
            let moves = pos >= v.tuples.len();
            let next = if moves { v.right_sibling } else { page };
            let i = if moves { 0 } else { pos };
            !(moves && v.right_sibling == NULL_PTR) && i < page_view(pages[next]).tuples.len() ==> lex_lt(
                tuple_key(v.tuples[pos - 1]),
                tuple_key(page_view(pages[next]).tuples[i]),
            )
        }),
{
    let pages = tree.pages();
    let ranges = tree.ranges@;
    let parent = tree.parents@;
    let v = page_view(pages[page]);
    lemma_ordered_page(pages, ranges, parent, tree.roots(), page);
    if pos >= v.tuples.len() && v.right_sibling != NULL_PTR {
        let rs = v.right_sibling;
        lemma_ordered_page(pages, ranges, parent, tree.roots(), rs);
        let us = page_view(pages[rs]).tuples;
        if 0 < us.len() {
            let k = tuple_key(v.tuples[pos - 1]);
            let h = ranges[page].hi->0;
            assert(in_range(k, ranges[page]));
            assert(in_range(tuple_key(us[0]), ranges[rs]));
            lemma_lex_le_transitive(k, h, tuple_key(us[0]));
        }
    }
}

/// A scan starts at its start key: in an ordered tree, the first tuple the
/// scan reads, at the position `iter_scan` picks in the leaf the search for
/// `start` reaches or first in that leaf's right sibling, does not sort
/// before `start`.
pub proof fn lemma_scan_starts_after<R: DBReader>(tree: &BTree<R>, obj: int, start: Seq<u8>, pos: int)
    requires
        tree.wf(),
        tree.is_ordered(),
        0 <= obj < tree.roots().len(),
        is_lower_partition(
            page_view(tree.pages()[leaf_for(tree.pages(), tree.roots()[obj], start)]).tuples,
            start,
            pos,
        ),
    ensures
        ({
            let pages = tree.pages();
            let leaf = leaf_for(pages, tree.roots()[obj], start);
            let v = page_view(pages[leaf]);
            let moves = pos >= v.tuples.len();
            let next = if moves { v.right_sibling } else { leaf };
            let i = if moves { 0 } else { pos };
            &&& pages.contains_key(leaf)
            &&& is_leaf(pages[leaf])
            &&& !(moves && v.right_sibling == NULL_PTR) && i < page_view(pages[next]).tuples.len() ==> lex_le(
                start,
                tuple_key(page_view(pages[next]).tuples[i]),
            )
        }),
{
    let pages = tree.pages();
    let ranges = tree.ranges@;
    let parent = tree.parents@;
    let roots = tree.roots();
    let root = roots[obj];
    lemma_store_root(pages, tree.levels@, roots, obj);
    let (p, l) = lemma_descent_exists(pages, tree.levels@, roots, root, start);
    lemma_leaf_for(pages, root, start, p, l);
    lemma_leaf_routes(pages, ranges, parent, roots, obj, start, p, l);
    lemma_ordered_page(pages, ranges, parent, roots, l);
    let v = page_view(pages[l]);
    if pos >= v.tuples.len() && v.right_sibling != NULL_PTR {
        let rs = v.right_sibling;
        lemma_ordered_page(pages, ranges, parent, roots, rs);
        let us = page_view(pages[rs]).tuples;
        if 0 < us.len() {
            let h = ranges[l].hi->0;
            assert(in_range(tuple_key(us[0]), ranges[rs]));
            lemma_lex_le_transitive(start, h, tuple_key(us[0]));
        }
    }
}

/// What a scan from leaf `leaf`, tuple `pos`, up to `end` does in a store
/// whose tuples with keys from `start` to `end` that the search from `root`
/// finds are `ts`: their keys strictly increase, and `next` can be called
/// once per tuple and once more, yielding each tuple's value in turn and
/// then `None`.
pub open spec fn scan_covers(
    pages: Map<PageID, Seq<u8>>,
    root: PageID,
    leaf: PageID,
    pos: nat,
    start: Seq<u8>,
    end: Seq<u8>,
    ts: Seq<Seq<u8>>,
) -> bool {
    &&& forall|a: int, b: int| 0 <= a < b < ts.len() ==> #[trigger] lex_lt(tuple_key(ts[a]), tuple_key(ts[b]))
    &&& forall|t: Seq<u8>|
        #[trigger] ts.contains(t) <==> leaf_holds(pages, root, t) && lex_le(start, tuple_key(t)) && lex_le(
            tuple_key(t),
            end,
        )
    &&& scan_callable(pages, leaf, pos, end, ts.len() + 1)
    &&& scan_results(pages, leaf, pos, end, ts.len() + 1) == ts.map_values(|t: Seq<u8>| Some(tuple_value(t))).push(
        None,
    )
}

/// A range scan of an ordered tree yields every stored tuple with a key from
/// `start` to `end`, both included, once each in increasing key order, and
/// then ends: from where `iter_scan` starts it (the leaf the search for
/// `start` reaches, at the first tuple whose key does not sort before
/// `start`), the calls of `next` yield the values of exactly the tuples
/// whose search from the object's root finds them in their leaf and whose
/// keys lie in the range, sorted by key, and then `None`.
pub proof fn lemma_scan_yields_range<R: DBReader>(tree: &BTree<R>, obj: int, start: Seq<u8>, end: Seq<u8>, pos: int)
    requires
        tree.wf(),
        tree.is_ordered(),
        0 <= obj < tree.roots().len(),
        is_lower_partition(
            page_view(tree.pages()[leaf_for(tree.pages(), tree.roots()[obj], start)]).tuples,
            start,
            pos,
        ),
    ensures
        exists|ts: Seq<Seq<u8>>|
            #[trigger] scan_covers(
                tree.pages(),
                tree.roots()[obj],
                leaf_for(tree.pages(), tree.roots()[obj], start),
                pos as nat,
                start,
                end,
                ts,
            ),
{
    let pages = tree.pages();
    let roots = tree.roots();
    let root = roots[obj];
    lemma_store_root(pages, tree.levels@, roots, obj);
    assert forall|k: Seq<u8>| #[trigger] reaches(pages, root, k, leaf_for(pages, root, k)) by {
        let (p, l) = lemma_descent_exists(pages, tree.levels@, roots, root, k);
        lemma_leaf_for(pages, root, k, p, l);
    }
    leaf_chains::lemma_scan_range(
        pages,
        tree.ranges@,
        tree.parents@,
        tree.owners@,
        tree.chains@,
        roots,
        obj,
        start,
        end,
        pos,
    );
    let l0 = leaf_for(pages, root, start);
    let c = tree.chains@[obj];
    let s = leaf_chains::chain_tuples(pages, c, c.index_of(l0), pos);
    let ts = s.take(leaf_chains::count_upto(s, end) as int);
    let m = leaf_chains::count_upto(s, end);
    assert(ts.len() == m);
    assert(scan_callable(pages, l0, pos as nat, end, ts.len() + 1));
    assert(scan_results(pages, l0, pos as nat, end, ts.len() + 1) == ts.map_values(|t: Seq<u8>| Some(tuple_value(t))).push(
        None,
    ));
    assert(scan_covers(pages, root, l0, pos as nat, start, end, ts));
}

/// A range scan over a tree's leaves, from a position in a leaf up to an
/// inclusive end key.
///
/// Tuples are read one at a time as the scan advances; when a leaf is used
/// up the scan moves on to its right sibling, without climbing back to the
/// inner nodes. It ends at a key past the end key or at the end of the
/// leaf chain.
#[derive(Debug)]
pub struct ScanIterator {
    page: PageID,
    end_key: Vec<u8>,
    idx: usize,
}

impl ScanIterator {
    /// The leaf the scan is in.
    pub closed spec fn page(&self) -> PageID {
        self.page
    }

    /// The inclusive upper bound on keys.
    pub closed spec fn end(&self) -> Seq<u8> {
        self.end_key@
    }

    /// The index, in the leaf, of the next tuple to read.
    pub closed spec fn position(&self) -> nat {
        self.idx as nat
    }

    /// A scan of the leaf `page` from tuple `idx` up to keys `end_key`.
    fn new(page: PageID, end_key: &[u8], idx: usize) -> (r: Self)
        ensures
            r.page() == page,
            r.end() == end_key@,
            r.position() == idx,
    {
        ScanIterator { page, end_key: slice_to_vec(end_key), idx }
    }

    /// Yields the value of the next tuple of the scan, or `None` when the scan
    /// is over.
    ///
    /// When the current leaf is used up the scan moves to the first tuple of
    /// its right sibling, which must hold one; with no right sibling, it is
    /// over and stays where it was. A tuple whose key sorts after the end key
    /// ends the scan (the scan still moves past it). Each call takes the step
    /// `scan_step` describes, which `lemma_scan_yields_range` follows from
    /// where `iter_scan` starts to the end of the scan.
    pub fn next<R: DBReader>(&mut self, tree: &mut BTree<R>) -> (r: Option<Vec<u8>>)
        requires
            old(tree).wf(),
            old(tree).pages().contains_key(old(self).page()),
            ({
                let pages = old(tree).pages();
                let v = page_view(pages[old(self).page()]);
                old(self).position() >= v.tuples.len() && v.right_sibling != NULL_PTR ==> page_view(
                    pages[v.right_sibling],
                ).tuples.len() > 0
            }),
        ensures
            final(tree).wf(),
            final(tree).pages() == old(tree).pages(),
            final(tree).roots() == old(tree).roots(),
            final(self).end() == old(self).end(),
            ({
                let pages = old(tree).pages();
                let v = page_view(pages[old(self).page()]);
                let moves = old(self).position() >= v.tuples.len();
                let page = if moves { v.right_sibling } else { old(self).page() };
                let i: int = if moves { 0 } else { old(self).position() as int };
                let us = page_view(pages[page]).tuples;
                if moves && v.right_sibling == NULL_PTR {
                    &&& r is None
                    &&& final(self).page() == old(self).page()
                    &&& final(self).position() == old(self).position()
                } else {
                    &&& final(self).page() == page
                    &&& pages.contains_key(page)
                    &&& final(self).position() == i + 1
                    &&& lex_lt(old(self).end(), tuple_key(us[i])) ==> r is None
                    &&& !lex_lt(old(self).end(), tuple_key(us[i])) ==> (r matches Some(val) && val@ == tuple_value(us[i]))
                }
            }),
            ({
                let st = scan_step(old(tree).pages(), old(self).page(), old(self).position(), old(self).end());
                &&& final(self).page() == st.1
                &&& final(self).position() == st.2
                &&& r matches Some(val) ==> st.0 == Some(val@)
                &&& r is None ==> st.0 is None
            }),
    {
        let ghost pages = tree.pages();
        let ghost levels = tree.levels@;
        proof {
            lemma_store_page(pages, levels, tree.roots(), self.page);
        }
        let bytes = tree.read(self.page);
        let leaf = Leaf::from_bytes(bytes);
        let item_count = leaf.0.get_header(&HeaderElem::ItemCount) as usize;
        let ptr = leaf.0.get_header(&HeaderElem::RightSiblingPtr);
        if self.idx >= item_count {
            if ptr == NULL_PTR {
                return None;
            }
            self.page = ptr;
            self.idx = 0;
        }
        proof {
            lemma_store_page(pages, levels, tree.roots(), self.page);
        }
        let bytes = tree.read(self.page);
        let leaf = Leaf::from_bytes(bytes);
        let t = leaf.0.tuple(self.idx).unwrap();
        self.idx = self.idx + 1;
        proof {
            lemma_lex_order_basics(t.0@.subrange(4, 4 + crate::codec::u16_at(t.0@, 2) as int), self.end_key@);
        }
        if compare_bytes(t.key_bytes(), self.end_key.as_slice()) > 0 {
            None
        } else {
            Some(slice_to_vec(t.value()))
        }
    }
}

/// A B-tree index over a buffer pool.
///
/// Pages are inner nodes, which route lookups, or leaves, which store the
/// tuples and are linked by right-sibling pointers for range scans. The tree
/// owns the pool; between operations no page is pinned.
pub struct BTree<R: DBReader> {
    pool: BufferPool<R>,
    /// The level of every page: a node sits above all its children.
    levels: Ghost<Map<PageID, nat>>,
    /// The keys each page is responsible for.
    ranges: Ghost<Map<PageID, KeyRange>>,
    /// The node each page hangs from.
    parents: Ghost<Map<PageID, PageID>>,
    /// The object whose tree each page is in.
    owners: Ghost<Map<PageID, int>>,
    /// The leaves of each object's tree, from left to right.
    chains: Ghost<Seq<Seq<PageID>>>,
}

impl<R: DBReader> BTree<R> {
    /// The bytes of every page of the tree's store.
    pub closed spec fn pages(&self) -> Map<PageID, Seq<u8>> {
        self.pool.contents()
    }

    /// The root page of every object.
    pub closed spec fn roots(&self) -> Seq<PageID> {
        self.pool.roots()
    }

    /// The pool is usable: well formed, with a frame and no page pinned.
    closed spec fn pool_ok(&self) -> bool {
        &&& self.pool.wf()
        &&& self.pool.frames().len() > 0
        &&& forall|id: PageID| #[trigger] self.pool.is_cached(id) ==> self.pool.pins_of(id) == 0
    }

    /// The tree is ordered: the search for a key only visits pages whose
    /// range holds it (see `key_ranges`).
    pub closed spec fn is_ordered(&self) -> bool {
        &&& ordered(self.pages(), self.ranges@, self.parents@, self.roots())
        &&& chained(self.pages(), self.ranges@, self.parents@, self.owners@, self.chains@, self.roots())
    }

    /// The tree's invariant.
    pub closed spec fn wf(&self) -> bool {
        &&& self.pool_ok()
        &&& store_ok(self.pages(), self.levels@, self.roots())
    }

    /// A tree over `pool`, whose pages form trees, with at least one frame
    /// and no page pinned.
    pub fn new(pool: BufferPool<R>) -> (r: Self)
        requires
            pool.wf(),
            pool.frames().len() > 0,
            forall|id: PageID| #[trigger] pool.is_cached(id) ==> pool.pins_of(id) == 0,
            tree_shaped(pool.contents(), pool.roots()),
        ensures
            r.wf(),
            r.pages() == pool.contents(),
            r.roots() == pool.roots(),
            orderable(pool.contents(), pool.roots()) ==> r.is_ordered(),
    {
        let ghost levels = choose|levels: Map<PageID, nat>| store_ok(pool.contents(), levels, pool.roots());
        let ghost order = choose|order: (Map<PageID, KeyRange>, Map<PageID, PageID>, Map<PageID, int>, Seq<Seq<PageID>>)|
            ordered(pool.contents(), order.0, order.1, pool.roots()) && chained(
                pool.contents(),
                order.0,
                order.1,
                order.2,
                order.3,
                pool.roots(),
            );
        BTree {
            pool,
            levels: Ghost(levels),
            ranges: Ghost(order.0),
            parents: Ghost(order.1),
            owners: Ghost(order.2),
            chains: Ghost(order.3),
        }
    }

    /// A copy of the bytes of page `id`.
    fn read(&mut self, id: PageID) -> (r: Vec<u8>)
        requires
            old(self).pool_ok(),
            old(self).pages().contains_key(id),
        ensures
            final(self).pool_ok(),
            final(self).pages() == old(self).pages(),
            final(self).roots() == old(self).roots(),
            final(self).levels == old(self).levels,
            final(self).ranges == old(self).ranges,
            final(self).parents == old(self).parents,
            final(self).owners == old(self).owners,
            final(self).chains == old(self).chains,
            r@ == old(self).pages()[id],
    {
        proof {
            self.pool.lemma_unpinned_can_take_frame();
        }
        let page_ref = self.pool.get_page_ref(id).unwrap();
        let bytes = slice_to_vec(self.pool.page_content(&page_ref));
        let ghost mid = self.pool;
        self.pool.release(page_ref);
        proof {
            assert forall|j: PageID| #[trigger] self.pool.is_cached(j) implies self.pool.pins_of(j) == 0 by {
                assert(mid.is_cached(j));
                if j != id {
                    assert(old(self).pool.is_cached(j));
                }
            }
        }
        bytes
    }

    /// Replaces the bytes of page `id`.
    fn write(&mut self, id: PageID, bytes: Vec<u8>)
        requires
            old(self).pool_ok(),
            old(self).pages().contains_key(id),
            bytes@.len() == PAGE_SIZE,
        ensures
            final(self).pool_ok(),
            final(self).pages() == old(self).pages().insert(id, bytes@),
            final(self).roots() == old(self).roots(),
            final(self).levels == old(self).levels,
            final(self).ranges == old(self).ranges,
            final(self).parents == old(self).parents,
            final(self).owners == old(self).owners,
            final(self).chains == old(self).chains,
    {
        proof {
            self.pool.lemma_unpinned_can_take_frame();
        }
        let page_ref = self.pool.get_page_ref(id).unwrap();
        let ghost got = self.pool;
        self.pool.set_page_content(&page_ref, bytes);
        let ghost mid = self.pool;
        self.pool.release(page_ref);
        proof {
            assert forall|j: PageID| #[trigger] self.pool.is_cached(j) implies self.pool.pins_of(j) == 0 by {
                assert(mid.is_cached(j));
                assert(got.is_cached(j));
                if j != id {
                    assert(old(self).pool.is_cached(j));
                }
            }
        }
    }

    /// Traverses the tree from page `page_id` down, following in each node
    /// the child for `key`, to the leaf whose range covers `key`.
    ///
    /// Returns the leaf with `parents` followed by every node visited on the
    /// way, nearest ancestor last; callers use that stack to propagate splits
    /// upward.
    #[verifier::spinoff_prover]
    #[verifier::rlimit(50)]
    fn traverse_to_leaf(&mut self, page_id: PageID, key: &[u8], parents: Vec<PageID>) -> (r: (
        PageID,
        Vec<PageID>,
    ))
        requires
            old(self).wf(),
            old(self).pages().contains_key(page_id),
        ensures
            final(self).wf(),
            final(self).pages() == old(self).pages(),
            final(self).roots() == old(self).roots(),
            final(self).levels == old(self).levels,
            final(self).ranges == old(self).ranges,
            final(self).parents == old(self).parents,
            final(self).owners == old(self).owners,
            final(self).chains == old(self).chains,
            r.1@.len() >= parents@.len(),
            r.1@.take(parents@.len() as int) == parents@,
            is_descent(old(self).pages(), page_id, key@, r.1@.skip(parents@.len() as int), r.0),
        decreases old(self).levels@[page_id],
    {
        proof {
            assert(self.pages().contains_key(page_id));
        }
        let ghost pages = self.pages();
        let ghost parents0 = parents@;
        proof {
            lemma_store_page(pages, self.levels@, self.roots(), page_id);
        }
        let bytes = self.read(page_id);
        let page = SlottedPage::from_bytes(bytes);
        match PageType::new(page.get_header(&HeaderElem::PageType)) {
            Ok(PageType::Leaf) => {
                proof {
                    assert(is_descent(pages, page_id, key@, Seq::empty(), page_id));
                    assert(parents@.skip(parents@.len() as int) =~= Seq::<PageID>::empty());
                    assert(parents@.take(parents@.len() as int) =~= parents@);
                }
                (page_id, parents)
            },
            Ok(PageType::Node) => {
                let node = InnerNode(page);
                proof {
                    lemma_node_values(pages, self.levels@, page_id);
                }
                let child_id = node.child(key);
                proof {
                    lemma_node_child(pages, self.levels@, page_id, key@);
                }
                let mut parents = parents;
                parents.push(page_id);
                let (leaf, stack) = self.traverse_to_leaf(child_id, key, parents);
                proof {
                    let n = parents0.len() as int;
                    let path0 = stack@.skip(n + 1);
                    lemma_descent_extend(pages, page_id, key@, path0, leaf);
                    assert(stack@.take(n + 1) =~= parents0.push(page_id));
                    assert(stack@.take(n) =~= parents0) by {
                        assert forall|i: int| 0 <= i < n implies stack@.take(n)[i] == parents0[i] by {
                            assert(stack@.take(n + 1)[i] == parents0.push(page_id)[i]);
                        }
                    }
                    assert(stack@[n] == parents0.push(page_id)[n]);
                    assert(stack@.skip(n) =~= seq![page_id] + path0);
                }
                (leaf, stack)
            },
            Err(_) => {
                proof {
                    assert(page_wf(pages[page_id]));
                    assert(false);
                }
                (page_id, parents)
            },
        }
    }

    /// Splits page `page_id` to make room for `tuple`, inserts it, and returns
    /// the tuple to insert into the parent.
    ///
    /// The page keeps the lower half of its tuples and a new page, linked in as
    /// its right sibling, takes the upper half. `tuple` goes to the left half
    /// when its key sorts before the separator's and to the right half when it
    /// sorts after (in a leaf, also when equal); a node whose separator has the
    /// key of `tuple` keeps it in neither half, since the separator goes up.
    /// Either way the parent gets the separator's key with the new page's id;
    /// in a node the separator's own child becomes the new page's left child,
    /// and the separator leaves both halves.
    ///
    /// Fails with `TupleTooLarge` when `tuple` does not fit in its half, and
    /// with `StoreFull` when the store has no id for the new page; the tree is
    /// then left as it was.
    #[verifier::spinoff_prover]
    #[verifier::rlimit(40)]
    fn split_and_insert(&mut self, page_id: PageID, tuple: &Tuple) -> (r: Result<TupleBuf, BTreeError>)
        requires
            old(self).wf(),
            old(self).pages().contains_key(page_id),
            tuple_wf(tuple.0@),
            is_node(old(self).pages()[page_id]) ==> child_ok(
                old(self).pages(),
                old(self).levels@,
                tuple.0@,
                old(self).levels@[page_id],
            ),
        ensures
            final(self).wf(),
            final(self).roots() == old(self).roots(),
            final(self).ranges == old(self).ranges,
            final(self).parents == old(self).parents,
            final(self).owners == old(self).owners,
            final(self).chains == old(self).chains,
            (r == Err::<TupleBuf, BTreeError>(BTreeError::TupleTooLarge)) == split_overflows(
                page_view(old(self).pages()[page_id]).tuples,
                tuple.0@,
                is_leaf(old(self).pages()[page_id]),
            ),
            r is Err ==> r == Err::<TupleBuf, BTreeError>(BTreeError::TupleTooLarge) || r == Err::<
                TupleBuf,
                BTreeError,
            >(BTreeError::StoreFull),
            r is Err ==> final(self).pages() == old(self).pages() && final(self).levels
                == old(self).levels,
            r matches Ok(up) ==> split_done(
                old(self).pages(),
                final(self).pages(),
                page_id,
                tuple.0@,
                up.tuple.0@,
            ),
            r matches Ok(up) ==> final(self).levels@ == old(self).levels@.insert(
                page_view(final(self).pages()[page_id]).right_sibling,
                old(self).levels@[page_id],
            ),
            r matches Ok(up) ==> tuple_wf(up.tuple.0@) && child_ok(
                final(self).pages(),
                final(self).levels@,
                up.tuple.0@,
                old(self).levels@[page_id] + 1,
            ),
            r matches Ok(up) ==> {
                &&& tuple_key(up.tuple.0@) == tuple_key(split_middle(page_view(old(self).pages()[page_id]).tuples, tuple.0@))
                &&& u32_at(tuple_value(up.tuple.0@), 0) == page_view(final(self).pages()[page_id]).right_sibling
                &&& up.tuple.0@.len() == tuple_key(up.tuple.0@).len() + 8
            },
    {
        let ghost pages = self.pages();
        let ghost levels = self.levels@;
        let ghost roots = self.roots();
        let ghost v = page_view(pages[page_id]);
        let ghost ts = v.tuples;
        let ghost t = tuple.0@;
        proof {
            lemma_store_page(pages, levels, roots, page_id);
            if is_node(pages[page_id]) {
                lemma_node_values(pages, levels, page_id);
            }
            lemma_split_parts(ts, t, is_leaf(pages[page_id]));
        }
        let bytes = self.read(page_id);
        let mut left = SlottedPage::from_bytes(bytes);
        let (mut right, middle) = match split_page(&mut left, page_id, tuple) {
            Some(halves) => halves,
            None => return Err(BTreeError::TupleTooLarge),
        };
        proof {
            self.pool.lemma_unpinned_can_take_frame();
        }
        let ghost pre = self.pool;
        let new_ref = match self.pool.new_page() {
            Ok(page_ref) => page_ref,
            Err(e) => {
                proof {
                    assert(e == BufferPoolError::StoreFull);
                    assert(self.pool.unchanged_from(pre));
                    assert(self.pages() =~= pages);
                    assert forall|j: PageID| #[trigger] self.pool.is_cached(j) implies self.pool.pins_of(j) == 0 by {
                        assert(pre.is_cached(j));
                    }
                }
                return Err(BTreeError::StoreFull);
            },
        };
        let new_id = new_ref.id();
        let ghost allocated = self.pool;
        self.pool.release(new_ref);
        proof {
            assert forall|j: PageID| #[trigger] self.pool.is_cached(j) implies self.pool.pins_of(j) == 0 by {
                assert(allocated.is_cached(j));
                if j != new_id {
                    assert(pre.is_cached(j));
                }
            }
        }
        let ghost right_before = right.spec_bytes();
        right.set_header(&HeaderElem::PageID, new_id);
        proof {
            lemma_link_update(right_before, right.spec_bytes(), HeaderElem::PageID);
        }
        let right_id = right.get_header(&HeaderElem::PageID);
        let ghost left_before = left.spec_bytes();
        left.set_header(&HeaderElem::RightSiblingPtr, right_id);
        proof {
            lemma_link_update(left_before, left.spec_bytes(), HeaderElem::RightSiblingPtr);
        }
        let ghost lb = left.spec_bytes();
        let ghost rb = right.spec_bytes();
        let is_node_page = right.get_header(&HeaderElem::PageType) == PageType::Node.id();
        self.write(new_id, right.into_bytes());
        self.write(page_id, left.into_bytes());
        self.levels = Ghost(levels.insert(new_id, levels[page_id]));
        proof {
            let m = split_middle(ts, t);
            assert(self.pages() =~= pages.insert(new_id, rb).insert(page_id, lb));
            lemma_split_store_ok(pages, levels, roots, page_id, new_id, t, m, lb, rb);
            assert forall|i: int| 0 <= i < roots.len() implies self.pages().contains_key(#[trigger] roots[i]) by {
                lemma_store_root(pages, levels, roots, i);
            }
        }
        let id_bytes = u32_to_be(new_id);
        proof {
            lemma_tuple_encoding(tuple_key(middle.tuple.0@), u32_be(new_id));
            lemma_u32_roundtrip(new_id);
        }
        Ok(TupleBuf::new(middle.tuple.key_bytes(), id_bytes.as_slice()))
    }

    /// The parent of page `page_id` for propagating a split: the nearest
    /// ancestor popped from `parents`, or, when there is none, a new empty
    /// root node whose left child is `page_id`, recorded as the root of object
    /// `object_id`. Fails with `StoreFull`, changing nothing, when the store
    /// has no id for a new root.
    fn get_parent(&mut self, page_id: PageID, parents: &mut Vec<PageID>, object_id: ObjectID) -> (r: Result<PageID, BTreeError>)
        requires
            old(self).wf(),
            old(self).pages().contains_key(page_id),
            object_id < old(self).roots().len(),
        ensures
            final(self).wf(),
            final(self).ranges == old(self).ranges,
            final(self).parents == old(self).parents,
            final(self).owners == old(self).owners,
            final(self).chains == old(self).chains,
            old(parents)@.len() > 0 ==> {
                &&& r == Ok::<PageID, BTreeError>(old(parents)@.last())
                &&& final(parents)@ == old(parents)@.drop_last()
                &&& final(self).pages() == old(self).pages()
                &&& final(self).roots() == old(self).roots()
                &&& final(self).levels == old(self).levels
            },
            old(parents)@.len() == 0 ==> final(parents)@ == old(parents)@,
            old(parents)@.len() == 0 && r is Err ==> {
                &&& r == Err::<PageID, BTreeError>(BTreeError::StoreFull)
                &&& final(self).pages() == old(self).pages()
                &&& final(self).roots() == old(self).roots()
                &&& final(self).levels == old(self).levels
            },
            old(parents)@.len() == 0 ==> (r matches Ok(root) ==> {
                &&& !old(self).pages().contains_key(root)
                &&& root != NULL_PTR
                &&& final(self).pages() == old(self).pages().insert(root, final(self).pages()[root])
                &&& page_view(final(self).pages()[root]) == (PageView {
                    page_id: root,
                    page_type: PageType::Node.spec_id(),
                    left_sibling: NULL_PTR,
                    right_sibling: NULL_PTR,
                    left_child: page_id,
                    tuples: Seq::empty(),
                })
                &&& final(self).roots() == old(self).roots().update(object_id as int, root)
                &&& final(self).levels@ == old(self).levels@.insert(root, old(self).levels@[page_id] + 1)
            }),
    {
        match parents.pop() {
            Some(parent_id) => Ok(parent_id),
            None => {
                let ghost pages = self.pages();
                let ghost levels = self.levels@;
                let ghost roots = self.roots();
                proof {
                    self.pool.lemma_unpinned_can_take_frame();
                    lemma_store_page(pages, levels, roots, page_id);
                }
                let ghost pre = self.pool;
                let new_ref = match self.pool.new_page() {
                    Ok(page_ref) => page_ref,
                    Err(e) => {
                        proof {
                            assert(e == BufferPoolError::StoreFull);
                            assert(self.pool.unchanged_from(pre));
                            assert(self.pages() =~= pages);
                            assert forall|j: PageID| #[trigger] self.pool.is_cached(j) implies self.pool.pins_of(j) == 0 by {
                                assert(pre.is_cached(j));
                            }
                        }
                        return Err(BTreeError::StoreFull);
                    },
                };
                let new_id = new_ref.id();
                let ghost allocated = self.pool;
                self.pool.release(new_ref);
                proof {
                    assert forall|j: PageID| #[trigger] self.pool.is_cached(j) implies self.pool.pins_of(j) == 0 by {
                        assert(allocated.is_cached(j));
                        if j != new_id {
                            assert(pre.is_cached(j));
                        }
                    }
                }
                let ghost released = self.pool;
                self.pool.update_object_root(object_id, new_id);
                proof {
                    assert forall|j: PageID| #[trigger] self.pool.is_cached(j) implies self.pool.pins_of(j) == 0 by {
                        assert(released.is_cached(j));
                    }
                }
                let bytes = self.read(new_id);
                let mut new_root = InnerNode::from_bytes(bytes);
                new_root.init(new_id, NULL_PTR, NULL_PTR, page_id);
                let ghost rb = new_root.0.spec_bytes();
                self.write(new_id, new_root.0.into_bytes());
                self.levels = Ghost(levels.insert(new_id, levels[page_id] + 1));
                proof {
                    let pages_f = self.pages();
                    let levels_f = self.levels@;
                    assert(pages_f =~= pages.insert(new_id, rb));
                    assert(forall|k: PageID| pages.contains_key(k) ==> #[trigger] pages_f.contains_key(k));
                    assert(forall|k: PageID|
                        pages.contains_key(k) && levels.contains_key(k) ==> #[trigger] levels_f.contains_key(k)
                            && levels_f[k] == levels[k]);
                    reveal(store_ok);
                    assert forall|id: PageID| #[trigger] pages_f.contains_key(id) implies page_ok(pages_f, levels_f, id) by {
                        if id != new_id {
                            lemma_page_ok_mono(pages, levels, pages_f, levels_f, id);
                        }
                    }
                    assert forall|i: int| 0 <= i < self.roots().len() implies pages_f.contains_key(#[trigger] self.roots()[i]) by {
                        if i != object_id {
                            assert(pages.contains_key(roots[i]));
                        }
                    }
                }
                Ok(new_id)
            },
        }
    }

    /// Inserts `tuple` into leaf `page_id`, splitting full pages upward.
    ///
    /// `parents` holds the nodes from the root down to the leaf's parent, as
    /// `traverse_to_leaf` returns them. When the leaf is full it is split and
    /// the separator goes into its parent, which may split in turn; a split of
    /// the root makes a new root for object `object_id`.
    ///
    /// When the tuple fits in the leaf it is inserted there and nothing else
    /// changes. Fails with `TupleTooLarge` when a tuple does not fit in the
    /// page it has to go to even after a split (or in an empty page), and with
    /// `StoreFull` when a new page cannot be had; the leaves then hold either
    /// what they held or the tuple inserted.
    #[verifier::spinoff_prover]
    #[verifier::rlimit(100)]
    fn insert_recurs(&mut self, page_id: PageID, object_id: ObjectID, tuple: &Tuple, parents: Vec<PageID>) -> (r: Result<(), BTreeError>)
        requires
            old(self).wf(),
            object_id < old(self).roots().len(),
            old(self).pages().contains_key(page_id),
            is_leaf(old(self).pages()[page_id]),
            tuple_wf(tuple.0@),
            chain_ok(old(self).pages(), old(self).levels@, parents@.push(page_id)),
            is_descent(old(self).pages(), old(self).roots()[object_id as int], tuple_key(tuple.0@), parents@, page_id),
        ensures
            final(self).wf(),
            final(self).roots().len() == old(self).roots().len(),
            forall|i: int|
                0 <= i < old(self).roots().len() && i != object_id ==> #[trigger] final(self).roots()[i]
                    == old(self).roots()[i],
            r is Ok ==> leaf_insert_done(old(self).pages(), final(self).pages(), page_id, tuple.0@),
            tuple.0@.len() + 2 <= header_at(old(self).pages()[page_id], HeaderElem::TotalFreeSpace)
                ==> r is Ok && final(self).pages() == old(self).pages().insert(page_id, final(self).pages()[page_id]),
            r is Err ==> r == Err::<(), BTreeError>(BTreeError::TupleTooLarge) || r == Err::<(), BTreeError>(BTreeError::StoreFull),
            r is Err ==> final(self).pages() == old(self).pages() || leaf_insert_done(
                old(self).pages(),
                final(self).pages(),
                page_id,
                tuple.0@,
            ),
            (r == Err::<(), BTreeError>(BTreeError::TupleTooLarge) && final(self).pages() == old(self).pages()) == (
            tuple.0@.len() + 2 > header_at(old(self).pages()[page_id], HeaderElem::TotalFreeSpace) && (page_view(
                old(self).pages()[page_id],
            ).tuples.len() == 0 || split_overflows(page_view(old(self).pages()[page_id]).tuples, tuple.0@, true))),
            r == Err::<(), BTreeError>(BTreeError::StoreFull) ==> tuple.0@.len() + 2 > header_at(
                old(self).pages()[page_id],
                HeaderElem::TotalFreeSpace,
            ),
            old(self).is_ordered() && key_absent(old(self).pages()[page_id], tuple_key(tuple.0@)) && r is Ok
                ==> final(self).is_ordered() && leaf_holds(
                final(self).pages(),
                final(self).roots()[object_id as int],
                tuple.0@,
            ),
            old(self).is_ordered() && key_absent(old(self).pages()[page_id], tuple_key(tuple.0@)) && r is Ok
                ==> leaves_after_insert(
                final(self).pages(),
                final(self).owners@,
                old(self).pages(),
                old(self).owners@,
                object_id as int,
                page_id,
            ),
    {
        let ghost before = self.pages();
        let ghost t = tuple.0@;
        let ghost k = tuple_key(t);
        let ghost fits = t.len() + 2 <= header_at(before[page_id], HeaderElem::TotalFreeSpace);
        let ghost roots0 = self.roots();
        let ghost ranges0 = self.ranges@;
        let ghost parents0 = self.parents@;
        let ghost levels0 = self.levels@;
        let ghost path0 = parents@;
        let ghost owners0 = self.owners@;
        let ghost chains0 = self.chains@;
        let ghost law = ordered(before, ranges0, parents0, roots0) && chained(
            before,
            ranges0,
            parents0,
            owners0,
            chains0,
            roots0,
        ) && key_absent(before[page_id], k);
        let mut cur = page_id;
        let mut cur_tuple = tuple.to_owned();
        let mut parents = parents;
        let ghost mut climbing = false;
        let ghost mut below: PageID = page_id;
        let ghost mut holder: PageID = page_id;
        let ghost mut dpath: Seq<PageID> = Seq::empty();
        loop
            invariant
                self.wf(),
                self.roots().len() == old(self).roots().len(),
                forall|i: int|
                    0 <= i < old(self).roots().len() && i != object_id ==> #[trigger] self.roots()[i]
                        == old(self).roots()[i],
                object_id < self.roots().len(),
                before == old(self).pages(),
                t == tuple.0@,
                k == tuple_key(t),
                fits == (t.len() + 2 <= header_at(before[page_id], HeaderElem::TotalFreeSpace)),
                before.contains_key(page_id),
                is_leaf(before[page_id]),
                self.pages().contains_key(cur),
                tuple_wf(cur_tuple.tuple.0@),
                is_node(self.pages()[cur]) ==> child_ok(
                    self.pages(),
                    self.levels@,
                    cur_tuple.tuple.0@,
                    self.levels@[cur],
                ),
                chain_ok(self.pages(), self.levels@, parents@.push(cur)),
                !climbing ==> {
                    &&& cur == page_id
                    &&& self.pages() == before
                    &&& cur_tuple.tuple.0@ == t
                    &&& self.roots() == roots0
                    &&& parents@ == path0
                    &&& self.ranges@ == ranges0
                    &&& self.parents@ == parents0
                    &&& self.owners@ == owners0
                    &&& self.chains@ == chains0
                },
                climbing ==> {
                    &&& !fits
                    &&& page_view(before[page_id]).tuples.len() > 0
                    &&& !split_overflows(page_view(before[page_id]).tuples, t, true)
                    &&& self.pages() != before
                    &&& is_node(self.pages()[cur])
                    &&& leaf_insert_done(before, self.pages(), page_id, t)
                    &&& self.pages().contains_key(page_id)
                    &&& is_leaf(self.pages()[page_id])
                    &&& page_view(self.pages()[page_id]).right_sibling != page_view(before[page_id]).right_sibling
                },
                roots0 == old(self).roots(),
                levels0 == old(self).levels@,
                is_descent(before, roots0[object_id as int], k, path0, page_id),
                chain_ok(before, levels0, path0.push(page_id)),
                ranges0 == old(self).ranges@,
                parents0 == old(self).parents@,
                owners0 == old(self).owners@,
                chains0 == old(self).chains@,
                law == (ordered(before, ranges0, parents0, roots0) && chained(
                    before,
                    ranges0,
                    parents0,
                    owners0,
                    chains0,
                    roots0,
                ) && key_absent(before[page_id], k)),
                law && climbing ==> leaves_grown(self.pages(), self.owners@, before, owners0, object_id as int, page_id),
                law && climbing ==> chain_climb(
                    self.pages(),
                    self.ranges@,
                    self.parents@,
                    self.owners@,
                    self.chains@,
                    self.roots(),
                    object_id as int,
                    cur,
                    cur_tuple.tuple.0@,
                ),
                law && climbing ==> climb_ok(
                    self.pages(),
                    self.ranges@,
                    self.parents@,
                    self.roots(),
                    object_id as int,
                    t,
                    cur,
                    cur_tuple.tuple.0@,
                    parents@,
                    below,
                    holder,
                    dpath,
                ),
            decreases 2 * parents@.len() + if page_view(self.pages()[cur]).tuples.len() > 0 {
                1int
            } else {
                0int
            },
        {
            let ghost pages = self.pages();
            let ghost levels = self.levels@;
            let ghost roots = self.roots();
            let ghost ranges = self.ranges@;
            let ghost par = self.parents@;
            let ghost own = self.owners@;
            let ghost chs = self.chains@;
            let ghost u = cur_tuple.tuple.0@;
            proof {
                lemma_store_page(pages, levels, roots, cur);
            }
            let bytes = self.read(cur);
            let mut page = SlottedPage::from_bytes(bytes);
            let empty = page.get_header(&HeaderElem::ItemCount) == 0;
            match page.insert(&cur_tuple.tuple) {
                Ok(()) => {
                    let ghost pb = page.spec_bytes();
                    self.write(cur, page.into_bytes());
                    self.parents = Ghost(
                        if climbing {
                            par.insert(u32_at(tuple_value(u), 0), cur)
                        } else {
                            par
                        },
                    );
                    proof {
                        lemma_write_step(
                            pages,
                            levels,
                            roots,
                            ranges,
                            par,
                            own,
                            chs,
                            before,
                            owners0,
                            object_id as int,
                            t,
                            page_id,
                            path0,
                            climbing,
                            law,
                            cur,
                            u,
                            pb,
                            parents@,
                            below,
                            holder,
                            dpath,
                        );
                        assert(self.pages() =~= pages.insert(cur, pb));
                    }
                    return Ok(());
                },
                Err(_) => {
                    if empty {
                        return Err(BTreeError::TupleTooLarge);
                    }
                    let upstream = match self.split_and_insert(cur, &cur_tuple.tuple) {
                        Ok(up) => up,
                        Err(e) => return Err(e),
                    };
                    let ghost split_pages = self.pages();
                    let ghost split_levels = self.levels@;
                    let ghost parents_before = parents@;
                    let ghost chain = parents_before.push(cur);
                    let ghost rid = page_view(split_pages[cur]).right_sibling;
                    let ghost ranges2 = split_ranges(ranges, cur, rid, tuple_key(upstream.tuple.0@));
                    let ghost h = if lex_lt(k, tuple_key(upstream.tuple.0@)) { cur } else { rid };
                    proof {
                        assert(leaf_insert_done(before, split_pages, page_id, t) && is_leaf(split_pages[page_id])
                            && page_view(split_pages[page_id]).right_sibling != page_view(before[page_id]).right_sibling) by {
                            if climbing {
                                lemma_split_node_only_nodes(pages, split_pages, cur, u, upstream.tuple.0@);
                                lemma_leaf_insert_done_stable(before, pages, split_pages, page_id, t);
                            } else {
                                lemma_leaf_split_done(before, split_pages, page_id, t, upstream.tuple.0@);
                            }
                        }
                        assert(chain_ok(split_pages, split_levels, parents_before)
                            && (chain.len() > 1 ==> is_node(split_pages[chain[chain.len() - 2]]))
                            && (chain.len() > 1 ==> split_levels[chain[chain.len() - 2]] > levels[chain[chain.len() - 1]])) by {
                            let new_id = page_view(split_pages[cur]).right_sibling;
                            assert(split_pages == pages.insert(new_id, split_pages[new_id]).insert(cur, split_pages[cur]));
                            assert(split_levels == levels.insert(new_id, levels[cur]));
                            assert(chain.last() == cur);
                            lemma_chain_after_split(pages, levels, split_pages, split_levels, chain, new_id);
                            assert(chain.drop_last() =~= parents_before);
                        }
                    }
                    self.ranges = Ghost(if law { ranges2 } else { ranges });
                    self.owners = Ghost(if law { own.insert(rid, object_id as int) } else { own });
                    self.chains = Ghost(
                        if law && !climbing {
                            chs.update(
                                object_id as int,
                                chs[object_id as int].insert(chs[object_id as int].index_of(cur) + 1, rid),
                            )
                        } else {
                            chs
                        },
                    );
                    self.parents = Ghost(
                        if law && climbing {
                            split_parents(par, page_view(split_pages[rid]), cur, rid, u32_at(tuple_value(u), 0))
                        } else {
                            par
                        },
                    );
                    let parent_id = match self.get_parent(cur, &mut parents, object_id) {
                        Ok(id) => id,
                        Err(e) => return Err(e),
                    };
                    let ghost new_root = parents_before.len() == 0;
                    self.ranges = Ghost(
                        if law && new_root {
                            self.ranges@.insert(parent_id, full_range())
                        } else {
                            self.ranges@
                        },
                    );
                    self.parents = Ghost(
                        if law && new_root {
                            self.parents@.insert(cur, parent_id)
                        } else {
                            self.parents@
                        },
                    );
                    self.owners = Ghost(
                        if law && new_root {
                            self.owners@.insert(parent_id, object_id as int)
                        } else {
                            self.owners@
                        },
                    );
                    proof {
                        let pages2 = self.pages();
                        let levels2 = self.levels@;
                        assert(chain_ok(pages2, levels2, parents@.push(parent_id)) && pages2.contains_key(parent_id) && is_node(pages2[parent_id])
                            && child_ok(pages2, levels2, upstream.tuple.0@, levels2[parent_id])
                            && leaf_insert_done(before, pages2, page_id, t) && is_leaf(pages2[page_id])
                            && page_view(pages2[page_id]).right_sibling != page_view(before[page_id]).right_sibling) by {
                            if parents_before.len() > 0 {
                                assert(parents@.push(parent_id) =~= parents_before);
                                assert(chain[chain.len() - 2] == parent_id);
                                assert(link_ok(pages2, levels2, parents_before, parents_before.len() - 1));
                            } else {
                                assert(nodes_only_change(split_pages, pages2));
                                lemma_leaf_insert_done_stable(before, split_pages, pages2, page_id, t);
                                lemma_child_ok_mono(split_pages, split_levels, pages2, levels2, upstream.tuple.0@, levels[cur] + 1);
                                assert(parents@.push(parent_id) =~= seq![parent_id]);
                                assert(link_ok(pages2, levels2, seq![parent_id], 0));
                            }
                        }
                        if law {
                            assert forall|i: int| 0 <= i < roots.len() implies pages.contains_key(#[trigger] roots[i]) by {
                                lemma_store_root(pages, levels, roots, i);
                            }
                            lemma_climb_step(
                                pages,
                                ranges,
                                par,
                                own,
                                chs,
                                roots,
                                levels0,
                                object_id as int,
                                t,
                                climbing,
                                cur,
                                u,
                                parents_before,
                                below,
                                holder,
                                dpath,
                                split_pages,
                                upstream.tuple.0@,
                                self.pages(),
                                self.ranges@,
                                self.parents@,
                                self.owners@,
                                self.chains@,
                                self.roots(),
                                parent_id,
                                parents@,
                                before,
                                owners0,
                                page_id,
                            );
                        }
                    }
                    proof {
                        assert(!fits);
                        assert(page_view(pages[cur]).tuples.len() > 0);
                        assert(parents_before.len() == 0 ==> page_view(self.pages()[parent_id]).tuples.len() == 0);
                        assert(parents_before.len() > 0 ==> parents@.len() + 1 == parents_before.len());
                    }
                    proof {
                        if climbing {
                            dpath = seq![h] + dpath;
                        } else {
                            holder = h;
                            dpath = Seq::empty();
                        }
                        below = cur;
                        climbing = true;
                    }
                    cur = parent_id;
                    cur_tuple = upstream;
                },
            }
        }
    }

    /// Inserts `tuple` into the tree of object `object_id`: descends from the
    /// root to the leaf the tuple's key leads to and inserts it there,
    /// splitting full pages upward.
    ///
    /// When the tuple fits in that leaf nothing else changes. Fails with
    /// `TupleTooLarge` when a tuple does not fit in the page it has to go to
    /// even after a split, and with `StoreFull` when a new page cannot be had;
    /// the leaves then hold either what they held or the tuple inserted. The
    /// tree is left untouched with `TupleTooLarge` exactly when the tuple does
    /// not fit in its leaf and the leaf is empty or its split leaves no room
    /// for the tuple in the half it goes to; `StoreFull` comes only when the
    /// leaf has to split.
    ///
    /// An ordered tree whose leaf lacks the tuple's key stays ordered after a
    /// successful insert, however many pages split, and the search for the
    /// key then reaches a leaf that holds the tuple. The search from the
    /// object's root then finds exactly the tuples it found before and the
    /// new one, so a scan (see `lemma_scan_yields_range`) yields the new
    /// tuple's value in its place among the old ones.
    pub fn insert_tuple(&mut self, object_id: ObjectID, tuple: &Tuple) -> (r: Result<(), BTreeError>)
        requires
            old(self).wf(),
            object_id < old(self).roots().len(),
            tuple_wf(tuple.0@),
        ensures
            final(self).wf(),
            final(self).roots().len() == old(self).roots().len(),
            forall|i: int|
                0 <= i < old(self).roots().len() && i != object_id ==> #[trigger] final(self).roots()[i]
                    == old(self).roots()[i],
            ({
                let leaf = leaf_for(old(self).pages(), old(self).roots()[object_id as int], tuple_key(tuple.0@));
                &&& old(self).pages().contains_key(leaf)
                &&& is_leaf(old(self).pages()[leaf])
                &&& r is Ok ==> leaf_insert_done(old(self).pages(), final(self).pages(), leaf, tuple.0@)
                &&& tuple.0@.len() + 2 <= header_at(old(self).pages()[leaf], HeaderElem::TotalFreeSpace)
                    ==> r is Ok && final(self).pages() == old(self).pages().insert(leaf, final(self).pages()[leaf])
                &&& r is Err ==> final(self).pages() == old(self).pages() || leaf_insert_done(
                    old(self).pages(),
                    final(self).pages(),
                    leaf,
                    tuple.0@,
                )
                &&& (r == Err::<(), BTreeError>(BTreeError::TupleTooLarge) && final(self).pages() == old(self).pages())
                    == (tuple.0@.len() + 2 > header_at(old(self).pages()[leaf], HeaderElem::TotalFreeSpace) && (
                    page_view(old(self).pages()[leaf]).tuples.len() == 0 || split_overflows(
                        page_view(old(self).pages()[leaf]).tuples,
                        tuple.0@,
                        true,
                    )))
                &&& r == Err::<(), BTreeError>(BTreeError::StoreFull) ==> tuple.0@.len() + 2 > header_at(
                    old(self).pages()[leaf],
                    HeaderElem::TotalFreeSpace,
                )
                &&& old(self).is_ordered() && key_absent(old(self).pages()[leaf], tuple_key(tuple.0@)) && r is Ok
                    ==> final(self).is_ordered() && leaf_holds(
                    final(self).pages(),
                    final(self).roots()[object_id as int],
                    tuple.0@,
                )
                &&& old(self).is_ordered() && key_absent(old(self).pages()[leaf], tuple_key(tuple.0@)) && r is Ok
                    ==> forall|t2: Seq<u8>|
                    #[trigger] leaf_holds(final(self).pages(), final(self).roots()[object_id as int], t2)
                        <==> leaf_holds(old(self).pages(), old(self).roots()[object_id as int], t2) || t2
                        == tuple.0@
            }),
            r is Err ==> r == Err::<(), BTreeError>(BTreeError::TupleTooLarge) || r == Err::<(), BTreeError>(BTreeError::StoreFull),
    {
        let ghost pages = self.pages();
        let ghost levels = self.levels@;
        let root_id = self.pool.get_object_root(object_id);
        proof {
            lemma_store_root(pages, levels, self.roots(), object_id as int);
        }
        let (leaf, parents) = self.traverse_to_leaf(root_id, tuple.key_bytes(), Vec::new());
        proof {
            assert(parents@.skip(0) =~= parents@);
            lemma_leaf_for(pages, root_id, tuple_key(tuple.0@), parents@, leaf);
            lemma_descent_chain(pages, levels, self.roots(), root_id, tuple_key(tuple.0@), parents@, leaf);
        }
        let ghost pre = *self;
        let ghost path = parents@;
        let r = self.insert_recurs(leaf, object_id, tuple, parents);
        proof {
            if pre.is_ordered() && key_absent(pages[leaf], tuple_key(tuple.0@)) && r is Ok {
                lemma_insert_holds(
                    pages,
                    pre.ranges@,
                    pre.parents@,
                    pre.owners@,
                    pre.chains@,
                    pre.roots(),
                    levels,
                    self.pages(),
                    self.ranges@,
                    self.parents@,
                    self.owners@,
                    self.chains@,
                    self.roots(),
                    self.levels@,
                    object_id as int,
                    tuple.0@,
                    path,
                    leaf,
                );
            }
        }
        r
    }

    /// A scan of the tree of object `object_id` over keys from `start` to
    /// `end`, both included: it starts in the leaf `start` leads to, at the
    /// first tuple whose key does not sort before `start`.
    pub fn iter_scan(&mut self, object_id: ObjectID, start: &[u8], end: &[u8]) -> (r: ScanIterator)
        requires
            old(self).wf(),
            object_id < old(self).roots().len(),
        ensures
            final(self).wf(),
            final(self).pages() == old(self).pages(),
            final(self).roots() == old(self).roots(),
            ({
                let leaf = leaf_for(old(self).pages(), old(self).roots()[object_id as int], start@);
                &&& old(self).pages().contains_key(leaf)
                &&& r.page() == leaf
                &&& r.end() == end@
                &&& is_lower_partition(page_view(old(self).pages()[leaf]).tuples, start@, r.position() as int)
            }),
    {
        let ghost pages = self.pages();
        let ghost levels = self.levels@;
        let root_id = self.pool.get_object_root(object_id);
        proof {
            lemma_store_root(pages, levels, self.roots(), object_id as int);
        }
        let (leaf, stack) = self.traverse_to_leaf(root_id, start, Vec::new());
        proof {
            lemma_leaf_for(pages, root_id, start@, stack@.skip(0), leaf);
        }
        let bytes = self.read(leaf);
        proof {
            lemma_store_page(pages, levels, self.roots(), leaf);
        }
        let start_idx = Leaf::from_bytes(bytes).0.find_partition_lower(start);
        ScanIterator::new(leaf, end, start_idx)
    }
}

} // verus!
