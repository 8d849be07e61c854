use matt_db::representations::search::{
    key_order, BinarySearch, KeyOrder, LowerPartitionSearch, SearchStatus, SearchStrategy,
    UpperPartitionSearch,
};
use std::cmp::Ordering;

#[test]
fn test_binary() {
    let vec = vec![2, 5, 5, 5, 7];

    let strat = BinarySearch::default();

    assert_eq!(None, strat.search(|i| vec.get(i).unwrap(), &0, 0, 4));
    assert_eq!(Some(0), strat.search(|i| vec.get(i).unwrap(), &2, 0, 4))
}

#[test]
fn test_lower_partition() {
    let vec = vec![2, 5, 5, 5, 7];
    let strat = LowerPartitionSearch::default();

    assert_eq!(Some(0), strat.search(|i| vec.get(i).unwrap(), &0, 0, 4));
    assert_eq!(Some(0), strat.search(|i| vec.get(i).unwrap(), &2, 0, 4));
    assert_eq!(Some(1), strat.search(|i| vec.get(i).unwrap(), &3, 0, 4));
    assert_eq!(Some(1), strat.search(|i| vec.get(i).unwrap(), &5, 0, 4));
    assert_eq!(Some(4), strat.search(|i| vec.get(i).unwrap(), &6, 0, 4));
    assert_eq!(Some(4), strat.search(|i| vec.get(i).unwrap(), &7, 0, 4));
    assert_eq!(Some(5), strat.search(|i| vec.get(i).unwrap(), &9, 0, 4));
}

#[test]
fn test_upper_partition() {
    let vec: Vec<i32> = vec![2, 5, 5, 5, 7];
    let strat = UpperPartitionSearch::default();

    assert_eq!(Some(0), strat.search(|i| *vec.get(i).unwrap(), 0, 0, 4));
    assert_eq!(Some(1), strat.search(|i| *vec.get(i).unwrap(), 2, 0, 4));
    assert_eq!(Some(1), strat.search(|i| *vec.get(i).unwrap(), 3, 0, 4));
    assert_eq!(Some(4), strat.search(|i| *vec.get(i).unwrap(), 5, 0, 4));
    assert_eq!(Some(4), strat.search(|i| *vec.get(i).unwrap(), 6, 0, 4));
    assert_eq!(Some(5), strat.search(|i| *vec.get(i).unwrap(), 7, 0, 4));
    assert_eq!(Some(5), strat.search(|i| *vec.get(i).unwrap(), 9, 0, 4));
}

#[test]
fn binary_search_finds_every_present_key() {
    let vec: Vec<u32> = vec![1, 3, 4, 8, 10, 11, 20];
    let strat = BinarySearch::default();
    for (i, k) in vec.iter().enumerate() {
        assert_eq!(Some(i), strat.search(|j| vec[j], *k, 0, vec.len() - 1));
    }
    assert_eq!(None, strat.search(|j| vec[j], 9, 0, vec.len() - 1));
    assert_eq!(None, strat.search(|j| vec[j], 21, 0, vec.len() - 1));
}

#[test]
fn steps_narrow_the_range() {
    let strat = LowerPartitionSearch::default();
    assert_eq!(strat.step(3, 0, 8, KeyOrder::Equal), SearchStatus::Bounds(0, 3));
    assert_eq!(strat.step(3, 0, 8, KeyOrder::Less), SearchStatus::Bounds(4, 8));
    assert_eq!(strat.step(0, 0, 8, KeyOrder::Greater), SearchStatus::Bounds(0, 7));
    assert_eq!(strat.step(3, 0, 8, KeyOrder::Greater), SearchStatus::Bounds(0, 2));
    assert_eq!(BinarySearch.step(3, 0, 8, KeyOrder::Equal), SearchStatus::Found(3));
    assert_eq!(UpperPartitionSearch.step(3, 0, 8, KeyOrder::Equal), SearchStatus::Bounds(4, 8));
    assert_eq!(UpperPartitionSearch.on_convergence(3, KeyOrder::Greater), Some(3));
    assert_eq!(UpperPartitionSearch.on_convergence(3, KeyOrder::Equal), Some(4));
    assert_eq!(key_order(Ordering::Less), KeyOrder::Less);
    assert_eq!(key_order(Ordering::Greater), KeyOrder::Greater);
}
