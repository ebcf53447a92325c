use cqels_core::operator::ranking::{SortDirection, TopKOperator};

#[test]
fn test_top_k_descending() {
    let mut topk = TopKOperator::new(3, |x: &i32| *x as i64, SortDirection::Descending);
    for i in 0..10 {
        topk.add(i);
    }
    let results = topk.get_top_k();
    assert_eq!(results.len(), 3);
    assert_eq!(*results[0], 9);
    assert_eq!(*results[1], 8);
    assert_eq!(*results[2], 7);
}

#[test]
fn test_top_k_ascending() {
    let mut topk = TopKOperator::new(3, |x: &i32| *x as i64, SortDirection::Ascending);
    for i in 0..10 {
        topk.add(i);
    }
    let results = topk.get_top_k();
    assert_eq!(results.len(), 3);
    assert_eq!(*results[0], 0);
    assert_eq!(*results[1], 1);
    assert_eq!(*results[2], 2);
}

#[test]
fn test_top_k_ranked() {
    let mut topk = TopKOperator::new(3, |x: &i32| *x as i64, SortDirection::Descending);
    topk.add(5);
    topk.add(10);
    topk.add(3);
    topk.add(8);

    let ranked = topk.get_top_k_ranked();
    assert_eq!(ranked.len(), 3);
    assert_eq!(ranked[0].rank, 1);
    assert_eq!(*ranked[0].element, 10);
    assert_eq!(ranked[1].rank, 2);
    assert_eq!(*ranked[1].element, 8);
}

#[test]
fn test_top_k_size_and_full() {
    let mut topk = TopKOperator::new(3, |x: &i32| *x as i64, SortDirection::Descending);
    assert_eq!(topk.size(), 0);
    assert!(!topk.is_full());

    topk.add(1);
    topk.add(2);
    topk.add(3);
    assert!(topk.is_full());

    topk.reset();
    assert_eq!(topk.size(), 0);
}
