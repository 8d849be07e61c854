//! The leaf chain of each object: its leaves from left to right, each the
//! right sibling of the one before, with ranges that follow each other from
//! the smallest key to past the largest. Every page of an object's tree is
//! owned by the object, so the search for a key in it ends at a leaf of the
//! chain, and a scan that walks the chain meets every key of the tree.
use vstd::prelude::*;

use super::{
    is_descent, is_leaf, is_node, descent_step, split_done, right_half, split_left, split_right, leaf_for, leaf_holds,
    lemma_leaf_for, reaches,
};
use super::key_ranges::{
    in_range, keys_strict, lemma_descent_in_range, lemma_ordered_page, lemma_ordered_root, lemma_split_halves,
    lemma_strict_sorted, ordered, page_ordered, range_nonempty, split_ranges, KeyRange, keys_in, slot_child,
    split_parents,
};
use crate::buffer_pool::PageID;
use crate::codec::{lemma_lex_le_transitive, lemma_lex_order_basics, lex_le, lex_lt};
use crate::representations::page::{lemma_partition_exists, page_view, partition_of, is_partition, split_middle, PageView, NULL_PTR};
use crate::representations::tuple::{tuple_key, tuple_value};
use crate::representations::page::is_lower_partition;

verus! {

/// `c` is the leaf chain of object `obj`: leaves of the store owned by the
/// object, each linked to the next as its right sibling and the last to no
/// page, whose ranges cover keys, the first from the smallest key and the
/// last up to no bound, all holding tuples when there are several; and
/// every leaf the object owns is in it.
pub open spec fn leaf_chain(
    pages: Map<PageID, Seq<u8>>,
    ranges: Map<PageID, KeyRange>,
    owner: Map<PageID, int>,
    c: Seq<PageID>,
    obj: int,
) -> bool {
    &&& c.len() > 0
    &&& c.no_duplicates()
    &&& forall|j: int| 0 <= j < c.len() ==> #[trigger] chain_at(pages, ranges, owner, c, obj, j)
    &&& ranges[c[0]].lo is None
    &&& ranges[c[c.len() - 1]].hi is None
    &&& forall|x: PageID| #[trigger] owned_leaf(pages, owner, obj, x) ==> c.contains(x)
}

/// Entry `j` of the chain `c` of object `obj` is a leaf of the store owned
/// by the object, covering keys, linked to the next entry or, for the last,
/// to no page, and holding tuples when the chain has several leaves.
pub open spec fn chain_at(
    pages: Map<PageID, Seq<u8>>,
    ranges: Map<PageID, KeyRange>,
    owner: Map<PageID, int>,
    c: Seq<PageID>,
    obj: int,
    j: int,
) -> bool {
    &&& pages.contains_key(c[j])
    &&& is_leaf(pages[c[j]])
    &&& c[j] != NULL_PTR
    &&& ranges.contains_key(c[j])
    &&& range_nonempty(ranges[c[j]])
    &&& owner.contains_key(c[j])
    &&& owner[c[j]] == obj
    &&& (c.len() > 1 ==> page_view(pages[c[j]]).tuples.len() > 0)
    &&& page_view(pages[c[j]]).right_sibling == if j + 1 < c.len() {
        c[j + 1]
    } else {
        NULL_PTR
    }
}

/// Page `x` is a leaf of the store owned by object `obj`.
pub open spec fn owned_leaf(pages: Map<PageID, Seq<u8>>, owner: Map<PageID, int>, obj: int, x: PageID) -> bool {
    &&& pages.contains_key(x)
    &&& is_leaf(pages[x])
    &&& owner.contains_key(x)
    &&& owner[x] == obj
}

/// Owners follow parents: a page and its parent have the same owner, each
/// object owns its root, and only pages of the store have owners.
pub open spec fn owners_ok(
    pages: Map<PageID, Seq<u8>>,
    parent: Map<PageID, PageID>,
    owner: Map<PageID, int>,
    roots: Seq<PageID>,
) -> bool {
    &&& forall|x: PageID|
        #[trigger] parent.contains_key(x) ==> owner.contains_key(x) && owner.contains_key(parent[x])
            && owner[x] == owner[parent[x]]
    &&& forall|i: int| 0 <= i < roots.len() ==> owner.contains_key(#[trigger] roots[i]) && owner[roots[i]] == i
    &&& forall|x: PageID| #[trigger] owner.contains_key(x) ==> pages.contains_key(x)
}

/// Every object has its leaf chain, and owners follow parents.
#[verifier::opaque]
pub open spec fn chained(
    pages: Map<PageID, Seq<u8>>,
    ranges: Map<PageID, KeyRange>,
    parent: Map<PageID, PageID>,
    owner: Map<PageID, int>,
    chains: Seq<Seq<PageID>>,
    roots: Seq<PageID>,
) -> bool {
    &&& chains.len() == roots.len()
    &&& owners_ok(pages, parent, owner, roots)
    &&& forall|i: int| 0 <= i < roots.len() ==> leaf_chain(pages, ranges, owner, #[trigger] chains[i], i)
}

/// In an ordered store whose owners follow parents, the search for `k` from
/// the root of object `obj` ends at a leaf the object owns, whose range
/// holds `k`.
pub proof fn lemma_descent_owner(
    pages: Map<PageID, Seq<u8>>,
    ranges: Map<PageID, KeyRange>,
    parent: Map<PageID, PageID>,
    owner: Map<PageID, int>,
    roots: Seq<PageID>,
    obj: int,
    k: Seq<u8>,
    path: Seq<PageID>,
    leaf: PageID,
)
    requires
        ordered(pages, ranges, parent, roots),
        owners_ok(pages, parent, owner, roots),
        0 <= obj < roots.len(),
        pages.contains_key(roots[obj]),
        is_descent(pages, roots[obj], k, path, leaf),
    ensures
        owner.contains_key(leaf),
        owner[leaf] == obj,
        ranges.contains_key(leaf),
        in_range(k, ranges[leaf]),
{
    lemma_ordered_root(pages, ranges, parent, roots, obj);
    assert forall|i: int| 0 <= i < path.len() implies is_partition(
        page_view(pages[#[trigger] path[i]]).tuples,
        k,
        partition_of(page_view(pages[path[i]]).tuples, k),
    ) by {
        assert(descent_step(pages, k, path, leaf, i));
        lemma_ordered_page(pages, ranges, parent, roots, path[i]);
        lemma_strict_sorted(page_view(pages[path[i]]).tuples);
        lemma_partition_exists(page_view(pages[path[i]]).tuples, k);
    }
    lemma_descent_in_range(pages, ranges, parent, roots, roots[obj], k, path, leaf);
    lemma_owner_down(parent, owner, path, obj, path.len() as int);
    if path.len() > 0 {
        assert(owner[path[path.len() - 1]] == obj);
    }
}

/// Down a chain of pages each the parent of the next, from a page that object
/// `obj` owns, the object owns every page.
proof fn lemma_owner_down(parent: Map<PageID, PageID>, owner: Map<PageID, int>, path: Seq<PageID>, obj: int, n: int)
    requires
        0 <= n <= path.len(),
        forall|x: PageID|
            #[trigger] parent.contains_key(x) ==> owner.contains_key(x) && owner.contains_key(parent[x])
                && owner[x] == owner[parent[x]],
        path.len() > 0 ==> owner.contains_key(path[0]) && owner[path[0]] == obj,
        forall|i: int| 0 < i < path.len() ==> parent.contains_key(#[trigger] path[i]) && parent[path[i]] == path[i - 1],
    ensures
        forall|i: int| 0 <= i < n ==> owner.contains_key(#[trigger] path[i]) && owner[path[i]] == obj,
    decreases n,
{
    if n > 0 {
        lemma_owner_down(parent, owner, path, obj, n - 1);
        if n - 1 > 0 {
            assert(parent.contains_key(path[n - 1]));
            assert(owner[path[n - 2]] == obj);
        }
    }
}

/// The chains survive a change of the store that keeps every leaf as it was,
/// with its range and owner, and adds only nodes.
pub proof fn lemma_chains_frame(
    pages: Map<PageID, Seq<u8>>,
    ranges: Map<PageID, KeyRange>,
    owner: Map<PageID, int>,
    chains: Seq<Seq<PageID>>,
    n: int,
    pages2: Map<PageID, Seq<u8>>,
    ranges2: Map<PageID, KeyRange>,
    owner2: Map<PageID, int>,
)
    requires
        forall|i: int| 0 <= i < n ==> leaf_chain(pages, ranges, owner, #[trigger] chains[i], i),
        forall|x: PageID| #[trigger] pages.contains_key(x) ==> pages2.contains_key(x),
        forall|x: PageID| #[trigger] pages.contains_key(x) && is_leaf(pages[x]) ==> pages2[x] == pages[x],
        forall|x: PageID|
            #[trigger] pages2.contains_key(x) && is_leaf(pages2[x]) ==> pages.contains_key(x) && pages2[x] == pages[x],
        forall|x: PageID|
            #[trigger] pages.contains_key(x) && is_leaf(pages[x]) ==> ranges2.contains_key(x) == ranges.contains_key(x)
                && ranges2[x] == ranges[x] && owner2.contains_key(x) == owner.contains_key(x) && owner2[x]
                == owner[x],
    ensures
        forall|i: int| 0 <= i < n ==> leaf_chain(pages2, ranges2, owner2, #[trigger] chains[i], i),
{
    assert forall|i: int| 0 <= i < n implies leaf_chain(pages2, ranges2, owner2, #[trigger] chains[i], i) by {
        let c = chains[i];
        assert(leaf_chain(pages, ranges, owner, c, i));
        assert forall|z: int| 0 <= z < c.len() implies #[trigger] chain_at(pages2, ranges2, owner2, c, i, z) by {
            assert(chain_at(pages, ranges, owner, c, i, z));
        }
        assert(chain_at(pages, ranges, owner, c, i, 0));
        assert(chain_at(pages, ranges, owner, c, i, c.len() - 1));
        assert forall|x: PageID| #[trigger] owned_leaf(pages2, owner2, i, x) implies c.contains(x) by {
            assert(pages.contains_key(x));
            assert(owned_leaf(pages, owner, i, x));
        }
    }
}

/// The chains survive a leaf of one of them growing by a tuple.
pub proof fn lemma_chains_leaf_grow(
    pages: Map<PageID, Seq<u8>>,
    ranges: Map<PageID, KeyRange>,
    owner: Map<PageID, int>,
    chains: Seq<Seq<PageID>>,
    n: int,
    leaf: PageID,
    b: Seq<u8>,
)
    requires
        forall|i: int| 0 <= i < n ==> leaf_chain(pages, ranges, owner, #[trigger] chains[i], i),
        pages.contains_key(leaf),
        is_leaf(pages[leaf]),
        is_leaf(b),
        page_view(b).right_sibling == page_view(pages[leaf]).right_sibling,
        page_view(b).tuples.len() > 0,
    ensures
        forall|i: int| 0 <= i < n ==> leaf_chain(pages.insert(leaf, b), ranges, owner, #[trigger] chains[i], i),
{
    let pages2 = pages.insert(leaf, b);
    assert forall|i: int| 0 <= i < n implies leaf_chain(pages2, ranges, owner, #[trigger] chains[i], i) by {
        let c = chains[i];
        assert(leaf_chain(pages, ranges, owner, c, i));
        assert forall|z: int| 0 <= z < c.len() implies #[trigger] chain_at(pages2, ranges, owner, c, i, z) by {
            assert(chain_at(pages, ranges, owner, c, i, z));
        }
        assert(chain_at(pages, ranges, owner, c, i, 0));
        assert(chain_at(pages, ranges, owner, c, i, c.len() - 1));
        assert forall|x: PageID| #[trigger] owned_leaf(pages2, owner, i, x) implies c.contains(x) by {
            assert(owned_leaf(pages, owner, i, x));
        }
    }
}

/// Splitting leaf `leaf` of object `obj`'s chain puts the new leaf right after
/// it in the chain, owned by the object, when both halves cover keys.
#[verifier::spinoff_prover]
#[verifier::rlimit(100)]
pub proof fn lemma_chains_leaf_split(
    pages: Map<PageID, Seq<u8>>,
    ranges: Map<PageID, KeyRange>,
    owner: Map<PageID, int>,
    chains: Seq<Seq<PageID>>,
    n: int,
    obj: int,
    leaf: PageID,
    t: Seq<u8>,
    pages2: Map<PageID, Seq<u8>>,
    up: Seq<u8>,
    ranges2: Map<PageID, KeyRange>,
)
    requires
        0 <= obj < n,
        chains.len() == n,
        forall|i: int| 0 <= i < n ==> leaf_chain(pages, ranges, owner, #[trigger] chains[i], i),
        forall|x: PageID| #[trigger] owner.contains_key(x) ==> pages.contains_key(x),
        pages.contains_key(leaf),
        is_leaf(pages[leaf]),
        owner.contains_key(leaf),
        owner[leaf] == obj,
        page_view(pages[leaf]).tuples.len() >= 1,
        keys_strict(page_view(pages[leaf]).tuples),
        forall|i: int|
            0 <= i < page_view(pages[leaf]).tuples.len() ==> tuple_key(#[trigger] page_view(pages[leaf]).tuples[i])
                != tuple_key(t),
        split_done(pages, pages2, leaf, t, up),
        ranges2 == split_ranges(
            ranges,
            leaf,
            page_view(pages2[leaf]).right_sibling,
            tuple_key(split_middle(page_view(pages[leaf]).tuples, t)),
        ),
        range_nonempty(ranges2[leaf]),
        range_nonempty(ranges2[page_view(pages2[leaf]).right_sibling]),
    ensures
        ({
            let r = page_view(pages2[leaf]).right_sibling;
            let c = chains[obj];
            let i = c.index_of(leaf);
            let chains2 = chains.update(obj, c.insert(i + 1, r));
            let owner2 = owner.insert(r, obj);
            &&& !owner.contains_key(r)
            &&& forall|x: PageID| #[trigger] owner2.contains_key(x) ==> pages2.contains_key(x)
            &&& forall|j: int| 0 <= j < n ==> leaf_chain(pages2, ranges2, owner2, #[trigger] chains2[j], j)
        }),
{
    let v = page_view(pages[leaf]);
    let ts = v.tuples;
    let r = page_view(pages2[leaf]).right_sibling;
    let c = chains[obj];
    assert(leaf_chain(pages, ranges, owner, c, obj));
    assert(owned_leaf(pages, owner, obj, leaf));
    assert(c.contains(leaf));
    let i = c.index_of(leaf);
    assert(0 <= i < c.len() && c[i] == leaf);
    let c2 = c.insert(i + 1, r);
    let chains2 = chains.update(obj, c2);
    let owner2 = owner.insert(r, obj);
    let a = lemma_split_halves(ts, t, true);
    assert(!pages.contains_key(r));
    assert(!owner.contains_key(r));
    assert(page_view(pages2[leaf]).tuples == split_left(ts, t));
    assert(page_view(pages2[r]) == right_half(v, t, leaf, r, true));
    assert(page_view(pages2[r]).tuples == split_right(ts, t, true));
    assert(page_view(pages2[leaf]).tuples.len() > 0 && page_view(pages2[r]).tuples.len() > 0);
    assert(ranges2[leaf].lo == ranges[leaf].lo);
    assert(ranges2[r].hi == ranges[leaf].hi);
    assert forall|j: int| 0 <= j < n implies leaf_chain(pages2, ranges2, owner2, #[trigger] chains2[j], j) by {
        if j == obj {
            assert(chains2[j] == c2);
            assert(c2.no_duplicates()) by {
                assert forall|p: int, q: int| 0 <= p < q < c2.len() implies c2[p] != c2[q] by {
                    let p0 = if p <= i { p } else { p - 1 };
                    let q0 = if q <= i { q } else { q - 1 };
                    if p == i + 1 {
                        assert(chain_at(pages, ranges, owner, c, obj, q0));
                    } else if q == i + 1 {
                        assert(chain_at(pages, ranges, owner, c, obj, p0));
                    } else {
                        assert(c2[p] == c[p0] && c2[q] == c[q0]);
                    }
                }
            }
            assert forall|z: int| 0 <= z < c2.len() implies #[trigger] chain_at(pages2, ranges2, owner2, c2, j, z) by {
                if z < i {
                    assert(c2[z] == c[z]);
                    assert(chain_at(pages, ranges, owner, c, obj, z));
                    assert(c[z] != leaf);
                    assert(c2[z + 1] == c[z + 1]);
                } else if z == i {
                    assert(c2[z] == leaf);
                    assert(c2[z + 1] == r);
                    assert(chain_at(pages, ranges, owner, c, obj, i));
                } else if z == i + 1 {
                    assert(c2[z] == r);
                    assert(chain_at(pages, ranges, owner, c, obj, i));
                    if i + 1 < c.len() {
                        assert(c2[z + 1] == c[i + 1]);
                    }
                } else {
                    assert(c2[z] == c[z - 1]);
                    assert(chain_at(pages, ranges, owner, c, obj, z - 1));
                    assert(c[z - 1] != leaf);
                    if z + 1 < c2.len() {
                        assert(c2[z + 1] == c[z]);
                    }
                }
            }
            assert(chain_at(pages, ranges, owner, c, obj, 0));
            assert(chain_at(pages, ranges, owner, c, obj, c.len() - 1));
            if i == 0 {
                assert(c2[0] == leaf);
            } else {
                assert(c2[0] == c[0]);
            }
            if i == c.len() - 1 {
                assert(c2[c2.len() - 1] == r);
            } else {
                assert(c2[c2.len() - 1] == c[c.len() - 1]);
            }
            assert forall|x: PageID| #[trigger] owned_leaf(pages2, owner2, j, x) implies c2.contains(x) by {
                if x == r {
                    assert(c2[i + 1] == r);
                } else if x == leaf {
                    assert(c2[i] == leaf);
                } else {
                    assert(owned_leaf(pages, owner, obj, x));
                    let z = choose|z: int| 0 <= z < c.len() && c[z] == x;
                    if z <= i {
                        assert(c2[z] == x);
                    } else {
                        assert(c2[z + 1] == x);
                    }
                }
            }
        } else {
            let d = chains[j];
            assert(chains2[j] == d);
            assert(leaf_chain(pages, ranges, owner, d, j));
            assert forall|z: int| 0 <= z < d.len() implies #[trigger] chain_at(pages2, ranges2, owner2, d, j, z) by {
                assert(chain_at(pages, ranges, owner, d, j, z));
            }
            assert(chain_at(pages, ranges, owner, d, j, 0));
            assert(chain_at(pages, ranges, owner, d, j, d.len() - 1));
            assert forall|x: PageID| #[trigger] owned_leaf(pages2, owner2, j, x) implies d.contains(x) by {
                assert(x != r);
                assert(owned_leaf(pages, owner, j, x));
            }
        }
    }
}


/* Scans. */

/// What one call of `next` does on a scan of `pages` at leaf `page`, tuple
/// `pos`, up to keys `end`: the value it yields, if any, and the leaf and
/// position the scan goes on from.
pub open spec fn scan_step(pages: Map<PageID, Seq<u8>>, page: PageID, pos: nat, end: Seq<u8>) -> (
    Option<Seq<u8>>,
    PageID,
    nat,
) {
    let v = page_view(pages[page]);
    let moves = pos >= v.tuples.len();
    if moves && v.right_sibling == NULL_PTR {
        (None, page, pos)
    } else {
        let p = if moves { v.right_sibling } else { page };
        let i: int = if moves { 0 } else { pos as int };
        let t = page_view(pages[p]).tuples[i];
        (if lex_lt(end, tuple_key(t)) { None } else { Some(tuple_value(t)) }, p, (i + 1) as nat)
    }
}

/// `next` can be called on a scan at leaf `page`, tuple `pos`: the leaf is a
/// page of the store and, when the scan moves on, its right sibling is one
/// that holds tuples.
pub open spec fn scan_can_step(pages: Map<PageID, Seq<u8>>, page: PageID, pos: nat) -> bool {
    let v = page_view(pages[page]);
    &&& pages.contains_key(page)
    &&& pos >= v.tuples.len() && v.right_sibling != NULL_PTR ==> pages.contains_key(v.right_sibling) && page_view(
        pages[v.right_sibling],
    ).tuples.len() > 0
}

/// What `n` calls of `next` yield, one after the other, from leaf `page`,
/// tuple `pos`.
pub open spec fn scan_results(pages: Map<PageID, Seq<u8>>, page: PageID, pos: nat, end: Seq<u8>, n: nat) -> Seq<
    Option<Seq<u8>>,
>
    decreases n,
{
    if n == 0 {
        Seq::empty()
    } else {
        let st = scan_step(pages, page, pos, end);
        seq![st.0] + scan_results(pages, st.1, st.2, end, (n - 1) as nat)
    }
}

/// Each of `n` calls of `next` from leaf `page`, tuple `pos`, can be made.
pub open spec fn scan_callable(pages: Map<PageID, Seq<u8>>, page: PageID, pos: nat, end: Seq<u8>, n: nat) -> bool
    decreases n,
{
    n == 0 || {
        let st = scan_step(pages, page, pos, end);
        scan_can_step(pages, page, pos) && scan_callable(pages, st.1, st.2, end, (n - 1) as nat)
    }
}

/// The tuples of chain `c` from tuple `p` of its leaf `j` on, leaf after leaf.
pub open spec fn chain_tuples(pages: Map<PageID, Seq<u8>>, c: Seq<PageID>, j: int, p: int) -> Seq<Seq<u8>>
    decreases c.len() - j,
{
    if 0 <= j < c.len() {
        page_view(pages[c[j]]).tuples.skip(p) + chain_tuples(pages, c, j + 1, 0)
    } else {
        Seq::empty()
    }
}

/// How many tuples of `s`, from the first on, have keys that do not sort
/// after `end`.
pub open spec fn count_upto(s: Seq<Seq<u8>>, end: Seq<u8>) -> nat
    decreases s.len(),
{
    if s.len() == 0 || lex_lt(end, tuple_key(s[0])) {
        0
    } else {
        1 + count_upto(s.drop_first(), end)
    }
}

/// The value `next` yields for tuple `t` of a scan up to `end`.
pub open spec fn yielded(t: Seq<u8>, end: Seq<u8>) -> Option<Seq<u8>> {
    if lex_lt(end, tuple_key(t)) { None } else { Some(tuple_value(t)) }
}

/// Along the chain of an ordered store, a leaf's range ends where a later
/// leaf's range starts, or before.
pub proof fn lemma_chain_bounds(
    pages: Map<PageID, Seq<u8>>,
    ranges: Map<PageID, KeyRange>,
    parent: Map<PageID, PageID>,
    roots: Seq<PageID>,
    owner: Map<PageID, int>,
    c: Seq<PageID>,
    obj: int,
    j1: int,
    j2: int,
)
    requires
        ordered(pages, ranges, parent, roots),
        leaf_chain(pages, ranges, owner, c, obj),
        0 <= j1 < j2 < c.len(),
    ensures
        ranges[c[j1]].hi is Some,
        ranges[c[j2]].lo is Some,
        lex_le(ranges[c[j1]].hi->0, ranges[c[j2]].lo->0),
    decreases j2 - j1,
{
    assert(chain_at(pages, ranges, owner, c, obj, j1));
    assert(chain_at(pages, ranges, owner, c, obj, j2 - 1));
    assert(chain_at(pages, ranges, owner, c, obj, j2));
    lemma_ordered_page(pages, ranges, parent, roots, c[j2 - 1]);
    assert(ranges[c[j2]].lo == ranges[c[j2 - 1]].hi);
    if j2 - 1 > j1 {
        lemma_chain_bounds(pages, ranges, parent, roots, owner, c, obj, j1, j2 - 1);
        let r = ranges[c[j2 - 1]];
        assert(r.lo is Some);
        assert(lex_lt(r.lo->0, r.hi->0));
        lemma_lex_le_transitive(ranges[c[j1]].hi->0, r.lo->0, r.hi->0);
    } else {
        lemma_lex_order_basics(ranges[c[j1]].hi->0, ranges[c[j1]].hi->0);
    }
}

/// A key lies in the range of at most one leaf of a chain of an ordered store.
pub proof fn lemma_chain_unique(
    pages: Map<PageID, Seq<u8>>,
    ranges: Map<PageID, KeyRange>,
    parent: Map<PageID, PageID>,
    roots: Seq<PageID>,
    owner: Map<PageID, int>,
    c: Seq<PageID>,
    obj: int,
    j1: int,
    j2: int,
    k: Seq<u8>,
)
    requires
        ordered(pages, ranges, parent, roots),
        leaf_chain(pages, ranges, owner, c, obj),
        0 <= j1 < c.len(),
        0 <= j2 < c.len(),
        in_range(k, ranges[c[j1]]),
        in_range(k, ranges[c[j2]]),
    ensures
        j1 == j2,
{
    if j1 < j2 {
        lemma_chain_bounds(pages, ranges, parent, roots, owner, c, obj, j1, j2);
        lemma_lex_le_transitive(ranges[c[j2]].lo->0, k, ranges[c[j1]].hi->0);
        lemma_lex_le_transitive(ranges[c[j1]].hi->0, ranges[c[j2]].lo->0, k);
        lemma_lex_order_basics(k, ranges[c[j1]].hi->0);
    } else if j2 < j1 {
        lemma_chain_bounds(pages, ranges, parent, roots, owner, c, obj, j2, j1);
        lemma_lex_le_transitive(ranges[c[j1]].lo->0, k, ranges[c[j2]].hi->0);
        lemma_lex_le_transitive(ranges[c[j2]].hi->0, ranges[c[j1]].lo->0, k);
        lemma_lex_order_basics(k, ranges[c[j2]].hi->0);
    }
}

/// Tuple `t` is in a leaf of chain `c` from leaf `j` on, past tuple `p` in
/// leaf `j`.
pub open spec fn in_chain_from(pages: Map<PageID, Seq<u8>>, c: Seq<PageID>, j: int, p: int, t: Seq<u8>) -> bool {
    exists|z: int, q: int|
        j <= z < c.len() && 0 <= q < page_view(pages[c[z]]).tuples.len() && (z > j || q >= p)
            && #[trigger] page_view(pages[c[z]]).tuples[q] == t
}

/// The tuples of a chain of an ordered store from tuple `p` of leaf `j` on:
/// their keys strictly increase; each lies in a leaf of the chain from `j`
/// on (past `p` in leaf `j`) whose range holds its key; and every tuple of
/// such a leaf is among them.
#[verifier::spinoff_prover]
#[verifier::rlimit(100)]
pub proof fn lemma_chain_tuples(
    pages: Map<PageID, Seq<u8>>,
    ranges: Map<PageID, KeyRange>,
    parent: Map<PageID, PageID>,
    roots: Seq<PageID>,
    owner: Map<PageID, int>,
    c: Seq<PageID>,
    obj: int,
    j: int,
    p: int,
)
    requires
        ordered(pages, ranges, parent, roots),
        leaf_chain(pages, ranges, owner, c, obj),
        0 <= j < c.len(),
        0 <= p <= page_view(pages[c[j]]).tuples.len(),
    ensures
        ({
            let s = chain_tuples(pages, c, j, p);
            &&& forall|a: int, b: int| 0 <= a < b < s.len() ==> #[trigger] lex_lt(tuple_key(s[a]), tuple_key(s[b]))
            &&& forall|a: int| 0 <= a < s.len() ==> in_chain_from(pages, c, j, p, #[trigger] s[a])
            &&& forall|z: int, q: int|
                j <= z < c.len() && 0 <= q < page_view(pages[c[z]]).tuples.len() && (z > j || q >= p)
                    ==> s.contains(#[trigger] page_view(pages[c[z]]).tuples[q])
        }),
    decreases c.len() - j,
{
    let ts = page_view(pages[c[j]]).tuples;
    let head = ts.skip(p);
    let s = chain_tuples(pages, c, j, p);
    assert(chain_at(pages, ranges, owner, c, obj, j));
    lemma_ordered_page(pages, ranges, parent, roots, c[j]);
    if j + 1 < c.len() {
        lemma_chain_tuples(pages, ranges, parent, roots, owner, c, obj, j + 1, 0);
        assert(chain_at(pages, ranges, owner, c, obj, j + 1));
        lemma_ordered_page(pages, ranges, parent, roots, c[j + 1]);
    }
    let tail = chain_tuples(pages, c, j + 1, 0);
    assert(s == head + tail);
    assert forall|a: int, b: int| 0 <= a < b < s.len() implies #[trigger] lex_lt(tuple_key(s[a]), tuple_key(s[b])) by {
        if b < head.len() {
            assert(s[a] == ts[p + a] && s[b] == ts[p + b]);
        } else if a >= head.len() {
            assert(s[a] == tail[a - head.len()] && s[b] == tail[b - head.len()]);
        } else {
            // `s[a]` is in leaf `j`, `s[b]` in a later leaf.
            assert(s[a] == ts[p + a]);
            assert(s[b] == tail[b - head.len()]);
            assert(in_chain_from(pages, c, j + 1, 0, tail[b - head.len()]));
            let (z, q) = choose|z: int, q: int|
                j + 1 <= z < c.len() && 0 <= q < page_view(pages[c[z]]).tuples.len() && (z > j + 1 || q >= 0)
                    && #[trigger] page_view(pages[c[z]]).tuples[q] == tail[b - head.len()];
            assert(chain_at(pages, ranges, owner, c, obj, z));
            lemma_ordered_page(pages, ranges, parent, roots, c[z]);
            lemma_chain_bounds(pages, ranges, parent, roots, owner, c, obj, j, z);
            let ka = tuple_key(s[a]);
            let kb = tuple_key(s[b]);
            assert(in_range(ka, ranges[c[j]]));
            assert(in_range(kb, ranges[c[z]]));
            lemma_lex_le_transitive(ranges[c[j]].hi->0, ranges[c[z]].lo->0, kb);
            lemma_lex_order_basics(ka, ranges[c[j]].hi->0);
            lemma_lex_le_transitive(ka, ranges[c[j]].hi->0, kb);
        }
    }
    assert forall|a: int| 0 <= a < s.len() implies in_chain_from(pages, c, j, p, #[trigger] s[a]) by {
        if a < head.len() {
            assert(page_view(pages[c[j]]).tuples[p + a] == s[a]);
        } else {
            assert(s[a] == tail[a - head.len()]);
            assert(in_chain_from(pages, c, j + 1, 0, tail[a - head.len()]));
            let (z, q) = choose|z: int, q: int|
                j + 1 <= z < c.len() && 0 <= q < page_view(pages[c[z]]).tuples.len() && (z > j + 1 || q >= 0)
                    && #[trigger] page_view(pages[c[z]]).tuples[q] == tail[a - head.len()];
            assert(page_view(pages[c[z]]).tuples[q] == s[a]);
        }
    }
    assert forall|z: int, q: int|
        j <= z < c.len() && 0 <= q < page_view(pages[c[z]]).tuples.len() && (z > j || q >= p)
        implies s.contains(#[trigger] page_view(pages[c[z]]).tuples[q]) by {
        let t = page_view(pages[c[z]]).tuples[q];
        if z == j {
            assert(s[q - p] == t);
        } else {
            assert(tail.contains(t));
            let w = choose|w: int| 0 <= w < tail.len() && tail[w] == t;
            assert(s[head.len() + w] == t);
        }
    }
}

/// The first `count_upto` tuples of `s` have keys that do not sort after
/// `end`, and, with increasing keys, any tuple whose key does not sort after
/// `end` is among them, while the next one, if any, sorts after it.
pub proof fn lemma_count_upto(s: Seq<Seq<u8>>, end: Seq<u8>)
    requires
        forall|a: int, b: int| 0 <= a < b < s.len() ==> #[trigger] lex_lt(tuple_key(s[a]), tuple_key(s[b])),
    ensures
        count_upto(s, end) <= s.len(),
        forall|a: int| 0 <= a < count_upto(s, end) ==> !lex_lt(end, #[trigger] tuple_key(s[a])),
        forall|a: int| count_upto(s, end) <= a < s.len() ==> lex_lt(end, #[trigger] tuple_key(s[a])),
    decreases s.len(),
{
    if s.len() > 0 {
        let d = s.drop_first();
        assert forall|a: int, b: int| 0 <= a < b < d.len() implies #[trigger] lex_lt(tuple_key(d[a]), tuple_key(d[b])) by {
            assert(d[a] == s[a + 1] && d[b] == s[b + 1]);
        }
        lemma_count_upto(d, end);
        if lex_lt(end, tuple_key(s[0])) {
            assert forall|a: int| 0 <= a < s.len() implies lex_lt(end, #[trigger] tuple_key(s[a])) by {
                if a > 0 {
                    assert(lex_lt(tuple_key(s[0]), tuple_key(s[a])));
                    lemma_lex_le_transitive(end, tuple_key(s[0]), tuple_key(s[a]));
                }
            }
        } else {
            assert forall|a: int| 0 <= a < count_upto(s, end) implies !lex_lt(end, #[trigger] tuple_key(s[a])) by {
                if a > 0 {
                    assert(s[a] == d[a - 1]);
                }
            }
            assert forall|a: int| count_upto(s, end) <= a < s.len() implies lex_lt(end, #[trigger] tuple_key(s[a])) by {
                assert(s[a] == d[a - 1]);
            }
        }
    }
}

/// Walking a chain of an ordered store with `next` from tuple `p` of leaf
/// `j`: every call can be made, and the calls yield the chain's tuples from
/// there in turn, then, once they are used up, nothing.
#[verifier::spinoff_prover]
pub proof fn lemma_scan_walk(
    pages: Map<PageID, Seq<u8>>,
    ranges: Map<PageID, KeyRange>,
    parent: Map<PageID, PageID>,
    roots: Seq<PageID>,
    owner: Map<PageID, int>,
    c: Seq<PageID>,
    obj: int,
    j: int,
    p: int,
    end: Seq<u8>,
    n: nat,
)
    requires
        ordered(pages, ranges, parent, roots),
        leaf_chain(pages, ranges, owner, c, obj),
        0 <= j < c.len(),
        0 <= p <= page_view(pages[c[j]]).tuples.len(),
        n <= chain_tuples(pages, c, j, p).len() + 1,
    ensures
        ({
            let s = chain_tuples(pages, c, j, p);
            let rs = scan_results(pages, c[j], p as nat, end, n);
            &&& scan_callable(pages, c[j], p as nat, end, n)
            &&& rs.len() == n
            &&& forall|i: int| 0 <= i < n && i < s.len() ==> #[trigger] rs[i] == yielded(s[i], end)
            &&& n == s.len() + 1 ==> rs[s.len() as int] is None
        }),
    decreases n, c.len() - j,
{
    let ts = page_view(pages[c[j]]).tuples;
    let s = chain_tuples(pages, c, j, p);
    assert(chain_at(pages, ranges, owner, c, obj, j));
    assert(s == ts.skip(p) + chain_tuples(pages, c, j + 1, 0));
    if n > 0 {
        let st = scan_step(pages, c[j], p as nat, end);
        if p < ts.len() {
            assert(s[0] == ts[p]);
            assert(st == (yielded(ts[p], end), c[j], (p + 1) as nat));
            assert(chain_tuples(pages, c, j, p + 1) =~= s.drop_first()) by {
                assert(ts.skip(p + 1) =~= ts.skip(p).drop_first());
            }
            lemma_scan_walk(pages, ranges, parent, roots, owner, c, obj, j, p + 1, end, (n - 1) as nat);
            let rs1 = scan_results(pages, c[j], (p + 1) as nat, end, (n - 1) as nat);
            assert forall|i: int| 0 <= i < n && i < s.len() implies #[trigger] scan_results(pages, c[j], p as nat, end, n)[i]
                == yielded(s[i], end) by {
                if i > 0 {
                    assert(scan_results(pages, c[j], p as nat, end, n)[i] == rs1[i - 1]);
                    assert(s[i] == s.drop_first()[i - 1]);
                }
            }
            if n == s.len() + 1 {
                assert(scan_results(pages, c[j], p as nat, end, n)[s.len() as int] == rs1[s.len() - 1]);
            }
        } else if j + 1 < c.len() {
            assert(chain_at(pages, ranges, owner, c, obj, j + 1));
            let us = page_view(pages[c[j + 1]]).tuples;
            assert(ts.skip(p) =~= Seq::<Seq<u8>>::empty());
            assert(s =~= chain_tuples(pages, c, j + 1, 0));
            assert(us.skip(0) =~= us);
            assert(chain_tuples(pages, c, j + 1, 0) == us + chain_tuples(pages, c, j + 2, 0));
            assert(s[0] == us[0]);
            assert(st == (yielded(us[0], end), c[j + 1], 1nat));
            assert(chain_tuples(pages, c, j + 1, 1) =~= s.drop_first()) by {
                assert(us.skip(1) =~= us.drop_first());
            }
            lemma_scan_walk(pages, ranges, parent, roots, owner, c, obj, j + 1, 1, end, (n - 1) as nat);
            let rs1 = scan_results(pages, c[j + 1], 1nat, end, (n - 1) as nat);
            assert forall|i: int| 0 <= i < n && i < s.len() implies #[trigger] scan_results(pages, c[j], p as nat, end, n)[i]
                == yielded(s[i], end) by {
                if i > 0 {
                    assert(scan_results(pages, c[j], p as nat, end, n)[i] == rs1[i - 1]);
                    assert(s[i] == s.drop_first()[i - 1]);
                }
            }
            if n == s.len() + 1 {
                assert(scan_results(pages, c[j], p as nat, end, n)[s.len() as int] == rs1[s.len() - 1]);
            }
        } else {
            assert(ts.skip(p) =~= Seq::<Seq<u8>>::empty());
            assert(s =~= Seq::<Seq<u8>>::empty());
            assert(n == 1);
            assert(st == (None::<Seq<u8>>, c[j], p as nat));
            assert(scan_results(pages, c[j], p as nat, end, 0) =~= Seq::<Option<Seq<u8>>>::empty());
            assert(scan_results(pages, c[j], p as nat, end, 1) =~= seq![None::<Seq<u8>>]);
            assert(scan_callable(pages, c[j], p as nat, end, 0));
        }
    }
}


/// A scan of an ordered, chained store for object `obj` over keys from
/// `start` to `end`, started as `iter_scan` starts it: at the leaf the search
/// for `start` reaches, at its first tuple whose key does not sort before
/// `start`. Its calls of `next` can all be made and yield, in turn, the values
/// of exactly the tuples of the tree (those the search for their key finds)
/// whose keys lie between `start` and `end`, in increasing key order, each
/// once, and then nothing.
#[verifier::spinoff_prover]
#[verifier::rlimit(100)]
pub proof fn lemma_scan_range(
    pages: Map<PageID, Seq<u8>>,
    ranges: Map<PageID, KeyRange>,
    parent: Map<PageID, PageID>,
    owner: Map<PageID, int>,
    chains: Seq<Seq<PageID>>,
    roots: Seq<PageID>,
    obj: int,
    start: Seq<u8>,
    end: Seq<u8>,
    pos: int,
)
    requires
        ordered(pages, ranges, parent, roots),
        chained(pages, ranges, parent, owner, chains, roots),
        0 <= obj < roots.len(),
        pages.contains_key(roots[obj]),
        forall|k: Seq<u8>| #[trigger] reaches(pages, roots[obj], k, leaf_for(pages, roots[obj], k)),
        is_lower_partition(page_view(pages[leaf_for(pages, roots[obj], start)]).tuples, start, pos),
    ensures
        ({
            let l0 = leaf_for(pages, roots[obj], start);
            let c = chains[obj];
            let s = chain_tuples(pages, c, c.index_of(l0), pos);
            let m = count_upto(s, end);
            let ts = s.take(m as int);
            &&& m <= s.len()
            &&& forall|a: int, b: int| 0 <= a < b < ts.len() ==> #[trigger] lex_lt(tuple_key(ts[a]), tuple_key(ts[b]))
            &&& forall|t: Seq<u8>|
                #[trigger] ts.contains(t) <==> leaf_holds(pages, roots[obj], t) && lex_le(start, tuple_key(t))
                    && lex_le(tuple_key(t), end)
            &&& scan_callable(pages, l0, pos as nat, end, (m + 1) as nat)
            &&& scan_results(pages, l0, pos as nat, end, (m + 1) as nat) == ts.map_values(
                |t: Seq<u8>| Some(tuple_value(t)),
            ).push(None)
        }),
{
    reveal(chained);
    let root = roots[obj];
    let l0 = leaf_for(pages, root, start);
    let c = chains[obj];
    assert(leaf_chain(pages, ranges, owner, c, obj));
    assert(reaches(pages, root, start, l0));
    let path0 = choose|path: Seq<PageID>| #[trigger] is_descent(pages, root, start, path, l0);
    lemma_descent_owner(pages, ranges, parent, owner, roots, obj, start, path0, l0);
    assert(owned_leaf(pages, owner, obj, l0));
    assert(c.contains(l0));
    let i0 = c.index_of(l0);
    assert(0 <= i0 < c.len() && c[i0] == l0);
    let s = chain_tuples(pages, c, i0, pos);
    lemma_chain_tuples(pages, ranges, parent, roots, owner, c, obj, i0, pos);
    lemma_count_upto(s, end);
    let m = count_upto(s, end);
    let ts = s.take(m as int);
    lemma_scan_walk(pages, ranges, parent, roots, owner, c, obj, i0, pos, end, (m + 1) as nat);
    let rs = scan_results(pages, l0, pos as nat, end, (m + 1) as nat);
    let want = ts.map_values(|t: Seq<u8>| Some(tuple_value(t))).push(None);
    assert(rs =~= want) by {
        assert forall|i: int| 0 <= i < rs.len() implies rs[i] == want[i] by {
            if i < m {
                assert(rs[i] == yielded(s[i], end));
                assert(!lex_lt(end, tuple_key(s[i])));
            } else if m < s.len() {
                assert(rs[i] == yielded(s[m as int], end));
            }
        }
    }
    assert forall|t: Seq<u8>|
        #[trigger] ts.contains(t) implies leaf_holds(pages, root, t) && lex_le(start, tuple_key(t))
            && lex_le(tuple_key(t), end) by {
        let a = choose|a: int| 0 <= a < ts.len() && ts[a] == t;
        assert(s[a] == t);
        let k = tuple_key(t);
        assert(!lex_lt(end, k));
        lemma_lex_order_basics(k, end);
        assert(in_chain_from(pages, c, i0, pos, s[a]));
        let (z, q) = choose|z: int, q: int|
            i0 <= z < c.len() && 0 <= q < page_view(pages[c[z]]).tuples.len() && (z > i0 || q >= pos)
                && #[trigger] page_view(pages[c[z]]).tuples[q] == s[a];
        assert(chain_at(pages, ranges, owner, c, obj, z));
        lemma_ordered_page(pages, ranges, parent, roots, c[z]);
        assert(in_range(k, ranges[c[z]]));
        if z == i0 {
            assert(lex_le(start, k));
        } else {
            lemma_chain_bounds(pages, ranges, parent, roots, owner, c, obj, i0, z);
            assert(in_range(start, ranges[c[i0]]));
            lemma_lex_le_transitive(ranges[c[i0]].hi->0, ranges[c[z]].lo->0, k);
            lemma_lex_order_basics(start, ranges[c[i0]].hi->0);
            lemma_lex_le_transitive(start, ranges[c[i0]].hi->0, k);
        }
        let lk = leaf_for(pages, root, k);
        assert(reaches(pages, root, k, lk));
        let pk = choose|path: Seq<PageID>| #[trigger] is_descent(pages, root, k, path, lk);
        lemma_descent_owner(pages, ranges, parent, owner, roots, obj, k, pk, lk);
        assert(owned_leaf(pages, owner, obj, lk));
        assert(c.contains(lk));
        let w = c.index_of(lk);
        assert(0 <= w < c.len() && c[w] == lk);
        lemma_chain_unique(pages, ranges, parent, roots, owner, c, obj, w, z, k);
        assert(page_view(pages[lk]).tuples[q] == t);
    }
    assert forall|t: Seq<u8>|
        leaf_holds(pages, root, t) && lex_le(start, tuple_key(t)) && lex_le(tuple_key(t), end) implies #[trigger] ts.contains(t) by {
        let k = tuple_key(t);
        let lk = leaf_for(pages, root, k);
        assert(reaches(pages, root, k, lk));
        let pk = choose|path: Seq<PageID>| #[trigger] is_descent(pages, root, k, path, lk);
        lemma_descent_owner(pages, ranges, parent, owner, roots, obj, k, pk, lk);
        assert(owned_leaf(pages, owner, obj, lk));
        assert(c.contains(lk));
        let w = c.index_of(lk);
        assert(0 <= w < c.len() && c[w] == lk);
        if w < i0 {
            lemma_chain_bounds(pages, ranges, parent, roots, owner, c, obj, w, i0);
            assert(in_range(start, ranges[c[i0]]));
            lemma_lex_le_transitive(ranges[c[w]].hi->0, ranges[c[i0]].lo->0, start);
            lemma_lex_le_transitive(ranges[c[w]].hi->0, start, k);
            lemma_lex_order_basics(k, ranges[c[w]].hi->0);
        }
        let tw = page_view(pages[lk]).tuples;
        let q = choose|q: int| 0 <= q < tw.len() && tw[q] == t;
        if w == i0 && q < pos {
            assert(lex_lt(tuple_key(tw[q]), start));
            lemma_lex_order_basics(k, start);
        }
        assert(s.contains(page_view(pages[c[w]]).tuples[q]));
        let a = choose|a: int| 0 <= a < s.len() && s[a] == t;
        if a >= m {
            assert(lex_lt(end, tuple_key(s[a])));
            lemma_lex_order_basics(k, end);
        }
        assert(ts[a] == t);
    }
    assert forall|a: int, b: int| 0 <= a < b < ts.len() implies #[trigger] lex_lt(tuple_key(ts[a]), tuple_key(ts[b])) by {
        assert(ts[a] == s[a] && ts[b] == s[b]);
    }
}


/// In an ordered, chained store, the search for a tuple's key from the root
/// of object `obj` finds the tuple exactly when some leaf the object owns
/// holds it.
pub proof fn lemma_holds_iff_owned(
    pages: Map<PageID, Seq<u8>>,
    ranges: Map<PageID, KeyRange>,
    parent: Map<PageID, PageID>,
    owner: Map<PageID, int>,
    chains: Seq<Seq<PageID>>,
    roots: Seq<PageID>,
    obj: int,
    t: Seq<u8>,
    path: Seq<PageID>,
    l: PageID,
)
    requires
        ordered(pages, ranges, parent, roots),
        chained(pages, ranges, parent, owner, chains, roots),
        0 <= obj < roots.len(),
        pages.contains_key(roots[obj]),
        is_descent(pages, roots[obj], tuple_key(t), path, l),
    ensures
        leaf_holds(pages, roots[obj], t) <==> exists|x: PageID|
            #[trigger] owned_leaf(pages, owner, obj, x) && page_view(pages[x]).tuples.contains(t),
{
    reveal(chained);
    let k = tuple_key(t);
    lemma_leaf_for(pages, roots[obj], k, path, l);
    lemma_descent_owner(pages, ranges, parent, owner, roots, obj, k, path, l);
    assert(owned_leaf(pages, owner, obj, l));
    if exists|x: PageID| #[trigger] owned_leaf(pages, owner, obj, x) && page_view(pages[x]).tuples.contains(t) {
        let x = choose|x: PageID| #[trigger] owned_leaf(pages, owner, obj, x) && page_view(pages[x]).tuples.contains(t);
        let c = chains[obj];
        assert(leaf_chain(pages, ranges, owner, c, obj));
        assert(c.contains(x) && c.contains(l));
        let j1 = c.index_of(x);
        let j2 = c.index_of(l);
        lemma_ordered_page(pages, ranges, parent, roots, x);
        let i = choose|i: int| 0 <= i < page_view(pages[x]).tuples.len() && page_view(pages[x]).tuples[i] == t;
        assert(in_range(tuple_key(page_view(pages[x]).tuples[i]), ranges[x]));
        lemma_chain_unique(pages, ranges, parent, roots, owner, c, obj, j1, j2, k);
    }
}

/* Keeping the chains through an insert. */

/// A leaf growing by a tuple keeps the store chained.
pub proof fn lemma_chained_leaf_grow(
    pages: Map<PageID, Seq<u8>>,
    ranges: Map<PageID, KeyRange>,
    parent: Map<PageID, PageID>,
    owner: Map<PageID, int>,
    chains: Seq<Seq<PageID>>,
    roots: Seq<PageID>,
    leaf: PageID,
    b: Seq<u8>,
)
    requires
        chained(pages, ranges, parent, owner, chains, roots),
        pages.contains_key(leaf),
        is_leaf(pages[leaf]),
        is_leaf(b),
        page_view(b).right_sibling == page_view(pages[leaf]).right_sibling,
        page_view(b).tuples.len() > 0,
    ensures
        chained(pages.insert(leaf, b), ranges, parent, owner, chains, roots),
{
    reveal(chained);
    lemma_chains_leaf_grow(pages, ranges, owner, chains, roots.len() as int, leaf, b);
}

/// Putting the awaited separator into node `cur`, which its waiting page
/// `r` shares an owner with, keeps the store chained, with `cur` as `r`'s
/// parent.
pub proof fn lemma_chained_resolve(
    pages: Map<PageID, Seq<u8>>,
    ranges: Map<PageID, KeyRange>,
    parent: Map<PageID, PageID>,
    owner: Map<PageID, int>,
    chains: Seq<Seq<PageID>>,
    roots: Seq<PageID>,
    cur: PageID,
    b: Seq<u8>,
    r: PageID,
)
    requires
        chained(pages, ranges, parent, owner, chains, roots),
        pages.contains_key(cur),
        is_node(pages[cur]),
        is_node(b),
        owner.contains_key(cur),
        owner.contains_key(r),
        owner[cur] == owner[r],
    ensures
        chained(pages.insert(cur, b), ranges, parent.insert(r, cur), owner, chains, roots),
{
    reveal(chained);
    let pages2 = pages.insert(cur, b);
    assert(!is_leaf(pages[cur]) && !is_leaf(b));
    lemma_chains_frame(pages, ranges, owner, chains, roots.len() as int, pages2, ranges, owner);
}

/// Splitting leaf `leaf` of object `obj` into itself and a new leaf, owned by
/// the object and put after it in the chain, keeps the store chained.
pub proof fn lemma_chained_leaf_split(
    pages: Map<PageID, Seq<u8>>,
    ranges: Map<PageID, KeyRange>,
    parent: Map<PageID, PageID>,
    owner: Map<PageID, int>,
    chains: Seq<Seq<PageID>>,
    roots: Seq<PageID>,
    obj: int,
    leaf: PageID,
    t: Seq<u8>,
    pages2: Map<PageID, Seq<u8>>,
    up: Seq<u8>,
    ranges2: Map<PageID, KeyRange>,
)
    requires
        chained(pages, ranges, parent, owner, chains, roots),
        ordered(pages, ranges, parent, roots),
        0 <= obj < roots.len(),
        pages.contains_key(leaf),
        is_leaf(pages[leaf]),
        owner.contains_key(leaf),
        owner[leaf] == obj,
        page_view(pages[leaf]).tuples.len() >= 1,
        forall|i: int|
            0 <= i < page_view(pages[leaf]).tuples.len() ==> tuple_key(#[trigger] page_view(pages[leaf]).tuples[i])
                != tuple_key(t),
        split_done(pages, pages2, leaf, t, up),
        ranges2 == split_ranges(
            ranges,
            leaf,
            page_view(pages2[leaf]).right_sibling,
            tuple_key(split_middle(page_view(pages[leaf]).tuples, t)),
        ),
        range_nonempty(ranges2[leaf]),
        range_nonempty(ranges2[page_view(pages2[leaf]).right_sibling]),
    ensures
        ({
            let r = page_view(pages2[leaf]).right_sibling;
            let c = chains[obj];
            chained(
                pages2,
                ranges2,
                parent,
                owner.insert(r, obj),
                chains.update(obj, c.insert(c.index_of(leaf) + 1, r)),
                roots,
            )
        }),
{
    reveal(chained);
    let r = page_view(pages2[leaf]).right_sibling;
    lemma_ordered_page(pages, ranges, parent, roots, leaf);
    lemma_chains_leaf_split(pages, ranges, owner, chains, roots.len() as int, obj, leaf, t, pages2, up, ranges2);
    let owner2 = owner.insert(r, obj);
    assert(!pages.contains_key(r));
    assert forall|i: int| 0 <= i < roots.len() implies owner2.contains_key(#[trigger] roots[i]) && owner2[roots[i]] == i by {
        assert(owner.contains_key(roots[i]));
    }
    assert forall|x: PageID| #[trigger] parent.contains_key(x) implies owner2.contains_key(x) && owner2.contains_key(parent[x])
        && owner2[x] == owner2[parent[x]] by {
        assert(owner.contains_key(x) && owner.contains_key(parent[x]));
    }
}

/// Splitting node `cur` of object `obj`, whose waiting page `r` the object
/// owns, into itself and the new node `n`, which the object then owns too,
/// keeps the store chained: no leaf changes, and the pages that move to `n`
/// were `cur`'s or are `r`.
pub proof fn lemma_chained_node_split(
    pages: Map<PageID, Seq<u8>>,
    ranges: Map<PageID, KeyRange>,
    parent: Map<PageID, PageID>,
    owner: Map<PageID, int>,
    chains: Seq<Seq<PageID>>,
    roots: Seq<PageID>,
    obj: int,
    cur: PageID,
    r: PageID,
    n: PageID,
    pages2: Map<PageID, Seq<u8>>,
    ranges2: Map<PageID, KeyRange>,
    parent2: Map<PageID, PageID>,
)
    requires
        chained(pages, ranges, parent, owner, chains, roots),
        pages.contains_key(cur),
        is_node(pages[cur]),
        owner.contains_key(cur),
        owner[cur] == obj,
        owner.contains_key(r),
        owner[r] == obj,
        !pages.contains_key(n),
        pages2 == pages.insert(n, pages2[n]).insert(cur, pages2[cur]),
        is_node(pages2[n]),
        is_node(pages2[cur]),
        forall|x: PageID| x != cur && x != n ==> ranges2.contains_key(x) == ranges.contains_key(x) && #[trigger] ranges2[x] == ranges[x],
        parent2 == split_parents(parent, page_view(pages2[n]), cur, n, r),
        forall|j: int|
            -1 <= j < page_view(pages2[n]).tuples.len() ==> #[trigger] slot_child(page_view(pages2[n]), j) == r || (
            parent.contains_key(slot_child(page_view(pages2[n]), j)) && parent[slot_child(page_view(pages2[n]), j)]
                == cur),
    ensures
        chained(pages2, ranges2, parent2, owner.insert(n, obj), chains, roots),
{
    reveal(chained);
    let owner2 = owner.insert(n, obj);
    assert(!owner.contains_key(n));
    assert(!is_leaf(pages[cur]) && !is_leaf(pages2[cur]) && !is_leaf(pages2[n]));
    assert forall|x: PageID| #[trigger] pages.contains_key(x) && is_leaf(pages[x]) implies ranges2.contains_key(x)
        == ranges.contains_key(x) && ranges2[x] == ranges[x] && owner2.contains_key(x) == owner.contains_key(x)
        && owner2[x] == owner[x] by {
        assert(x != cur);
        assert(x != n);
        assert(ranges2[x] == ranges[x]);
        assert(ranges2.contains_key(x) == ranges.contains_key(x));
        assert(owner2.contains_key(x) == owner.contains_key(x));
        assert(owner2[x] == owner[x]);
    }
    lemma_chains_frame(pages, ranges, owner, chains, roots.len() as int, pages2, ranges2, owner2);
    assert forall|i: int| 0 <= i < roots.len() implies owner2.contains_key(#[trigger] roots[i]) && owner2[roots[i]] == i by {
        assert(owner.contains_key(roots[i]));
    }
    let nv = page_view(pages2[n]);
    assert forall|x: PageID| #[trigger] parent2.contains_key(x) implies owner2.contains_key(x) && owner2.contains_key(parent2[x])
        && owner2[x] == owner2[parent2[x]] by {
        reveal(split_parents);
        if exists|j: int| -1 <= j < nv.tuples.len() && #[trigger] slot_child(nv, j) == x {
            let j = choose|j: int| -1 <= j < nv.tuples.len() && #[trigger] slot_child(nv, j) == x;
            assert(parent2[x] == n);
            if x != r {
                assert(parent.contains_key(x) && parent[x] == cur);
                assert(owner.contains_key(x) && owner[x] == owner[cur]);
            }
        } else if x == r {
            assert(parent2[x] == cur);
        } else {
            assert(parent.contains_key(x));
            assert(parent2[x] == parent[x]);
            assert(owner.contains_key(x) && owner.contains_key(parent[x]));
            assert(parent[x] != n);
        }
    }
}

/// A new root `nr` over the root `c` of object `obj`, owned by the object,
/// keeps the store chained.
pub proof fn lemma_chained_new_root(
    pages: Map<PageID, Seq<u8>>,
    ranges: Map<PageID, KeyRange>,
    parent: Map<PageID, PageID>,
    owner: Map<PageID, int>,
    chains: Seq<Seq<PageID>>,
    roots: Seq<PageID>,
    obj: int,
    c: PageID,
    nr: PageID,
    nb: Seq<u8>,
    ranges3: Map<PageID, KeyRange>,
)
    requires
        chained(pages, ranges, parent, owner, chains, roots),
        0 <= obj < roots.len(),
        roots[obj] == c,
        !pages.contains_key(nr),
        is_node(nb),
        forall|x: PageID| x != nr ==> ranges3.contains_key(x) == ranges.contains_key(x) && #[trigger] ranges3[x] == ranges[x],
    ensures
        chained(
            pages.insert(nr, nb),
            ranges3,
            parent.insert(c, nr),
            owner.insert(nr, obj),
            chains,
            roots.update(obj, nr),
        ),
{
    reveal(chained);
    let pages3 = pages.insert(nr, nb);
    let owner3 = owner.insert(nr, obj);
    let roots3 = roots.update(obj, nr);
    assert(!owner.contains_key(nr));
    assert(!is_leaf(nb));
    assert forall|x: PageID| #[trigger] pages.contains_key(x) && is_leaf(pages[x]) implies ranges3.contains_key(x)
        == ranges.contains_key(x) && ranges3[x] == ranges[x] && owner3.contains_key(x) == owner.contains_key(x)
        && owner3[x] == owner[x] by {
        assert(x != nr);
        assert(ranges3[x] == ranges[x]);
        assert(ranges3.contains_key(x) == ranges.contains_key(x));
        assert(owner3.contains_key(x) == owner.contains_key(x));
        assert(owner3[x] == owner[x]);
    }
    lemma_chains_frame(pages, ranges, owner, chains, roots.len() as int, pages3, ranges3, owner3);
    assert forall|i: int| 0 <= i < roots3.len() implies owner3.contains_key(#[trigger] roots3[i]) && owner3[roots3[i]] == i by {
        if i != obj {
            assert(owner.contains_key(roots[i]));
        }
    }
    assert(owner[c] == obj);
    assert forall|x: PageID| #[trigger] parent.insert(c, nr).contains_key(x) implies owner3.contains_key(x)
        && owner3.contains_key(parent.insert(c, nr)[x]) && owner3[x] == owner3[parent.insert(c, nr)[x]] by {
        if x != c {
            assert(owner.contains_key(x) && owner.contains_key(parent[x]));
        }
    }
}

} // verus!
