//! Binary searches over an index range, parameterized by a strategy that
//! decides how each comparison narrows the range and what a converged range
//! answers: an exact match, or a lower or upper partition point.
use vstd::prelude::*;

use std::cmp::Ordering;

use vstd::std_specs::cmp::OrdSpec;


verus! {

/// The outcome of comparing the key at an index with the searched key.
#[derive(Debug, Clone, Copy, PartialEq, Eq, Structural)]
pub enum KeyOrder {
    /// The key at the index sorts before the searched key.
    Less,
    /// The key at the index equals the searched key.
    Equal,
    /// The key at the index sorts after the searched key.
    Greater,
}

/// The `KeyOrder` of a comparison result.
pub fn key_order(order: Ordering) -> (r: KeyOrder)
    ensures
        order == Ordering::Less ==> r == KeyOrder::Less,
        order == Ordering::Equal ==> r == KeyOrder::Equal,
        order == Ordering::Greater ==> r == KeyOrder::Greater,
{
    match order {
        Ordering::Less => KeyOrder::Less,
        Ordering::Equal => KeyOrder::Equal,
        Ordering::Greater => KeyOrder::Greater,
    }
}

/// What a search step decides.
#[derive(Debug, PartialEq, Eq, Structural)]
pub enum SearchStatus {
    /// Go on searching the inclusive index range.
    Bounds(usize, usize),
    /// The answer is this index.
    Found(usize),
    /// There is no answer.
    NotFound,
}

/// The range kept when the key at `idx` sorts after the searched key: the
/// part before `idx` (or, at the low end, all but the last index).
pub open spec fn narrow_below(idx: usize, low: usize, high: usize) -> SearchStatus {
    if idx == low {
        SearchStatus::Bounds(low, (high - 1) as usize)
    } else {
        SearchStatus::Bounds(low, (idx - 1) as usize)
    }
}

/// The rank of a comparison outcome: 0, 1 and 2 for less, equal and
/// greater.
pub open spec fn rank(o: KeyOrder) -> int {
    match o {
        KeyOrder::Less => 0,
        KeyOrder::Equal => 1,
        KeyOrder::Greater => 2,
    }
}

/// The outcomes `ords` of comparing the keys at the indices `lo..=hi` with
/// the searched key never go down: the keys are sorted around it.
pub open spec fn monotone(ords: spec_fn(int) -> KeyOrder, lo: int, hi: int) -> bool {
    forall|i: int, j: int| #![trigger ords(i), ords(j)] lo <= i <= j <= hi ==> rank(ords(i)) <= rank(ords(j))
}

/// The outcome of comparing `v` with `key` by `T`'s order.
pub open spec fn order_of<T: Ord>(v: T, key: T) -> KeyOrder {
    match v.cmp_spec(&key) {
        Ordering::Less => KeyOrder::Less,
        Ordering::Equal => KeyOrder::Equal,
        Ordering::Greater => KeyOrder::Greater,
    }
}

/// `ords` gives, at each index of `lo..=hi`, the outcome of comparing with
/// `key` every key that `get_key` may return for that index.
pub open spec fn agrees<T: Ord, F: Fn(usize) -> T>(
    ords: spec_fn(int) -> KeyOrder,
    get_key: F,
    key: T,
    lo: int,
    hi: int,
) -> bool {
    forall|i: usize, v: T| lo <= i <= hi && #[trigger] get_key.ensures((i,), v) ==> ords(i as int) == order_of(v, key)
}

/// A strategy for a binary search over the indices `start..=end` of a
/// sequence of keys sorted around the searched key.
pub trait SearchStrategy {
    /// `r` is what the strategy answers over the indices `lo..=hi`, whose
    /// keys compare with the searched key as `ords` says.
    spec fn answers(&self, ords: spec_fn(int) -> KeyOrder, lo: int, hi: int, r: Option<usize>) -> bool;

    /// Narrows the range `[low, high]` after the key at `idx` compared as
    /// `order` with the searched key, or ends the search.
    fn step(&self, idx: usize, low: usize, high: usize, order: KeyOrder) -> (r: SearchStatus)
        requires
            low <= idx < high,
        ensures
            r matches SearchStatus::Bounds(l, h) ==> low <= l <= h <= high && h - l < high - low,
            r matches SearchStatus::Found(x) ==> low <= x <= high,
            forall|ords: spec_fn(int) -> KeyOrder|
                #[trigger] monotone(ords, low as int, high as int) && ords(idx as int) == order ==> {
                    &&& (r matches SearchStatus::Bounds(l, h) ==> forall|a: Option<usize>|
                        #[trigger] self.answers(ords, l as int, h as int, a) ==> self.answers(
                            ords,
                            low as int,
                            high as int,
                            a,
                        ))
                    &&& (r matches SearchStatus::Found(x) ==> self.answers(ords, low as int, high as int, Some(x)))
                    &&& (r is NotFound ==> self.answers(ords, low as int, high as int, None))
                },
    ;

    /// The answer once the range is the single index `idx`, whose key
    /// compared as `order`.
    fn on_convergence(&self, idx: usize, order: KeyOrder) -> (r: Option<usize>)
        requires
            idx < usize::MAX,
        ensures
            r matches Some(x) ==> idx <= x <= idx + 1,
            forall|ords: spec_fn(int) -> KeyOrder|
                ords(idx as int) == order ==> #[trigger] self.answers(ords, idx as int, idx as int, r),
    ;

    /// Searches the indices `start..=end` for `key`, reading the key at an
    /// index with `get_key`: halves the range at each comparison as `step`
    /// decides, until `step` ends the search or the range is one index,
    /// which `on_convergence` answers for. When `T`'s order follows its
    /// specification, the result is the strategy's answer over the whole
    /// range for every reading of the keys that is sorted around `key`.
    fn search<T: Ord, F>(&self, get_key: F, key: T, start: usize, end: usize) -> (r: Option<usize>) where
        F: Fn(usize) -> T,

        requires
            start <= end < usize::MAX,
            forall|i: usize| start <= i <= end ==> #[trigger] get_key.requires((i,)),
        ensures
            r matches Some(x) ==> start <= x <= end + 1,
            order_follows_spec::<T>() ==> forall|ords: spec_fn(int) -> KeyOrder|
                #[trigger] monotone(ords, start as int, end as int) && agrees(ords, get_key, key, start as int, end as int)
                    ==> self.answers(ords, start as int, end as int, r),
    {
        let mut low = start;
        let mut high = end;
        loop
            invariant
                start <= low <= high <= end < usize::MAX,
                forall|i: usize| start <= i <= end ==> #[trigger] get_key.requires((i,)),
                order_follows_spec::<T>() ==> forall|ords: spec_fn(int) -> KeyOrder|
                    #[trigger] monotone(ords, start as int, end as int) && agrees(ords, get_key, key, start as int, end as int)
                        ==> forall|a: Option<usize>|
                        #[trigger] self.answers(ords, low as int, high as int, a) ==> self.answers(
                            ords,
                            start as int,
                            end as int,
                            a,
                        ),
            decreases high - low,
        {
            let idx = (high - low) / 2 + low;
            let this_key = get_key(idx);
            let order = compare_keys(&this_key, &key);
            if low == high {
                let r = self.on_convergence(idx, order);
                proof {
                    if order_follows_spec::<T>() {
                        assert forall|ords: spec_fn(int) -> KeyOrder|
                            #[trigger] monotone(ords, start as int, end as int) && agrees(
                                ords,
                                get_key,
                                key,
                                start as int,
                                end as int,
                            ) implies self.answers(ords, start as int, end as int, r) by {
                            assert(get_key.ensures((idx,), this_key));
                            assert(ords(idx as int) == order);
                            assert(self.answers(ords, idx as int, idx as int, r));
                        }
                    }
                }
                return r;
            }
            let st = self.step(idx, low, high, order);
            proof {
                if order_follows_spec::<T>() {
                    assert forall|ords: spec_fn(int) -> KeyOrder|
                        #[trigger] monotone(ords, start as int, end as int) && agrees(
                            ords,
                            get_key,
                            key,
                            start as int,
                            end as int,
                        ) implies monotone(ords, low as int, high as int) && ords(idx as int) == order by {
                        assert(get_key.ensures((idx,), this_key));
                    }
                }
            }
            match st {
                SearchStatus::Bounds(l, h) => {
                    low = l;
                    high = h;
                },
                SearchStatus::NotFound => return None,
                SearchStatus::Found(x) => return Some(x),
            }
        }
    }
}

/// `T`'s order follows its specification.
pub open spec fn order_follows_spec<T: Ord>() -> bool {
    T::obeys_cmp_spec()
}

/// Compares `a` with `b` by `T`'s order.
fn compare_keys<T: Ord>(a: &T, b: &T) -> (r: KeyOrder)
    ensures
        order_follows_spec::<T>() ==> r == order_of(*a, *b),
{
    key_order(a.cmp(b))
}

/// Finds an index whose key equals the searched key.
pub struct BinarySearch;

impl Default for BinarySearch {
    fn default() -> (r: Self)
        ensures
            r == (BinarySearch {}),
    {
        BinarySearch {}
    }
}

impl SearchStrategy for BinarySearch {
    /// An index of `lo..=hi` whose key is equal, or `None` when no key is.
    open spec fn answers(&self, ords: spec_fn(int) -> KeyOrder, lo: int, hi: int, r: Option<usize>) -> bool {
        match r {
            Some(x) => lo <= x <= hi && ords(x as int) == KeyOrder::Equal,
            None => forall|i: int| lo <= i <= hi ==> #[trigger] ords(i) != KeyOrder::Equal,
        }
    }

    /// An equal key is the answer; otherwise the half that can hold the key is kept.
    fn step(&self, idx: usize, low: usize, high: usize, order: KeyOrder) -> (r: SearchStatus)
        ensures
            order == KeyOrder::Equal ==> r == SearchStatus::Found(idx),
            order == KeyOrder::Less ==> r == SearchStatus::Bounds((idx + 1) as usize, high),
            order == KeyOrder::Greater ==> r == narrow_below(idx, low, high),
    {
        match order {
            KeyOrder::Equal => SearchStatus::Found(idx),
            KeyOrder::Less => SearchStatus::Bounds(idx + 1, high),
            KeyOrder::Greater => {
                if idx == low {
                    SearchStatus::Bounds(low, high - 1)
                } else {
                    SearchStatus::Bounds(low, idx - 1)
                }
            },
        }
    }

    /// The last index is the answer if its key is equal.
    fn on_convergence(&self, idx: usize, order: KeyOrder) -> (r: Option<usize>)
        ensures
            r == if order == KeyOrder::Equal {
                Some(idx)
            } else {
                None
            },
    {
        match order {
            KeyOrder::Equal => Some(idx),
            _ => None,
        }
    }
}

/// Finds the first index whose key does not sort before the searched key.
pub struct LowerPartitionSearch;

impl Default for LowerPartitionSearch {
    fn default() -> (r: Self)
        ensures
            r == (LowerPartitionSearch {}),
    {
        LowerPartitionSearch {}
    }
}

impl SearchStrategy for LowerPartitionSearch {
    /// The first index of `lo..=hi` whose key is not less, or `hi + 1`.
    open spec fn answers(&self, ords: spec_fn(int) -> KeyOrder, lo: int, hi: int, r: Option<usize>) -> bool {
        &&& r matches Some(x)
        &&& lo <= r->0 <= hi + 1
        &&& forall|i: int| lo <= i < r->0 ==> #[trigger] ords(i) == KeyOrder::Less
        &&& r->0 <= hi ==> ords(r->0 as int) != KeyOrder::Less
    }

    /// An equal key keeps the range up to it; otherwise the half that can
    /// hold the partition point is kept.
    fn step(&self, idx: usize, low: usize, high: usize, order: KeyOrder) -> (r: SearchStatus)
        ensures
            order == KeyOrder::Equal ==> r == SearchStatus::Bounds(low, idx),
            order == KeyOrder::Less ==> r == SearchStatus::Bounds((idx + 1) as usize, high),
            order == KeyOrder::Greater ==> r == narrow_below(idx, low, high),
    {
        match order {
            KeyOrder::Equal => SearchStatus::Bounds(low, idx),
            KeyOrder::Less => SearchStatus::Bounds(idx + 1, high),
            KeyOrder::Greater => {
                if idx == low {
                    SearchStatus::Bounds(low, high - 1)
                } else {
                    SearchStatus::Bounds(low, idx - 1)
                }
            },
        }
    }

    /// The partition point is after the last index if its key sorts before
    /// the searched key, else at it.
    fn on_convergence(&self, idx: usize, order: KeyOrder) -> (r: Option<usize>)
        ensures
            r == if order == KeyOrder::Less {
                Some((idx + 1) as usize)
            } else {
                Some(idx)
            },
    {
        match order {
            KeyOrder::Less => Some(idx + 1),
            _ => Some(idx),
        }
    }
}

/// Finds the first index whose key sorts after the searched key.
pub struct UpperPartitionSearch;

impl Default for UpperPartitionSearch {
    fn default() -> (r: Self)
        ensures
            r == (UpperPartitionSearch {}),
    {
        UpperPartitionSearch {}
    }
}

impl SearchStrategy for UpperPartitionSearch {
    /// The first index of `lo..=hi` whose key is greater, or `hi + 1`.
    open spec fn answers(&self, ords: spec_fn(int) -> KeyOrder, lo: int, hi: int, r: Option<usize>) -> bool {
        &&& r matches Some(x)
        &&& lo <= r->0 <= hi + 1
        &&& forall|i: int| lo <= i < r->0 ==> #[trigger] ords(i) != KeyOrder::Greater
        &&& r->0 <= hi ==> ords(r->0 as int) == KeyOrder::Greater
    }

    /// The partition point is at the last index if its key sorts after the
    /// searched key, else after it.
    fn on_convergence(&self, idx: usize, order: KeyOrder) -> (r: Option<usize>)
        ensures
            r == if order == KeyOrder::Greater {
                Some(idx)
            } else {
                Some((idx + 1) as usize)
            },
    {
        match order {
            KeyOrder::Greater => Some(idx),
            _ => Some(idx + 1),
        }
    }

    /// A key that sorts before or equal to the searched key keeps the range
    /// after it; a greater one, the range before it.
    fn step(&self, idx: usize, low: usize, high: usize, order: KeyOrder) -> (r: SearchStatus)
        ensures
            order == KeyOrder::Equal ==> r == SearchStatus::Bounds((idx + 1) as usize, high),
            order == KeyOrder::Less ==> r == SearchStatus::Bounds((idx + 1) as usize, high),
            order == KeyOrder::Greater ==> r == narrow_below(idx, low, high),
    {
        match order {
            KeyOrder::Equal => SearchStatus::Bounds(idx + 1, high),
            KeyOrder::Less => SearchStatus::Bounds(idx + 1, high),
            KeyOrder::Greater => {
                if idx == low {
                    SearchStatus::Bounds(low, high - 1)
                } else {
                    SearchStatus::Bounds(low, idx - 1)
                }
            },
        }
    }
}

} // verus!
