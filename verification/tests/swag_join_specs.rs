use cqels_core::operator::swag_join_specs::{CountSpec, JoinUpdate, Side, WindowedJoinAggregator};
use cqels_core::operator::swag_join_state::{IntervalBounds, WindowJoinState};

#[test]
fn count_spec_counts_pairs_in_pairwise_join() {
    let mut s = WindowJoinState::new(CountSpec::<i32, i32>::new(), IntervalBounds::new(0, 10));
    s.insert_left(0, 1);
    s.insert_right(5, 2);
    s.insert_right(8, 3);
    assert_eq!(s.aggregate(), 2);
}

#[test]
fn windowed_aggregator_emits_one_event_per_update() {
    let agg = WindowedJoinAggregator::cross_product(
            CountSpec::<i32, i32>::new(),
            IntervalBounds::new(0, 10),
        );

    let updates = vec![
        JoinUpdate::<i32, i32>::InsertLeft {
            timestamp: 0,
            element: 1,
        },
        JoinUpdate::<i32, i32>::InsertRight {
            timestamp: 5,
            element: 2,
        },
        JoinUpdate::<i32, i32>::InsertRight {
            timestamp: 8,
            element: 3,
        },
    ];
    let events: Vec<_> = agg.process(updates);
    assert_eq!(events.len(), 3);

    assert_eq!(events[0].aggregate, 0);
    assert_eq!(events[0].side, Side::Left);
    assert_eq!(events[1].aggregate, 1);
    assert_eq!(events[1].side, Side::Right);
    assert_eq!(events[2].aggregate, 2);
    assert_eq!(events[2].side, Side::Right);
}

#[test]
fn windowed_aggregator_evictions_decrement_aggregate() {
    let agg = WindowedJoinAggregator::cross_product(
            CountSpec::<i32, i32>::new(),
            IntervalBounds::new(0, 10),
        );
    let updates = vec![
        JoinUpdate::<i32, i32>::InsertLeft {
            timestamp: 0,
            element: 1,
        },
        JoinUpdate::<i32, i32>::InsertRight {
            timestamp: 5,
            element: 2,
        },
        JoinUpdate::<i32, i32>::EvictLeft {
            timestamp: 0,
            element: 1,
        },
    ];
    let events: Vec<_> = agg.process(updates);
    assert_eq!(events.len(), 3);
    assert_eq!(events[2].aggregate, 0, "evict left zeros the count");
    assert_eq!(events[2].delta, -1);
}

#[test]
fn windowed_aggregator_keyed_equi_join() {
    let agg = WindowedJoinAggregator::from_keyed(
            CountSpec::<i32, i32>::new(),
            IntervalBounds::new(0, 100),
            |l: &i32| *l,
            |r: &i32| *r,
        );
    let updates = vec![
        JoinUpdate::<i32, i32>::InsertLeft {
            timestamp: 0,
            element: 1,
        },
        JoinUpdate::<i32, i32>::InsertLeft {
            timestamp: 1,
            element: 2,
        },
        JoinUpdate::<i32, i32>::InsertRight {
            timestamp: 10,
            element: 1,
        },
        JoinUpdate::<i32, i32>::InsertRight {
            timestamp: 11,
            element: 3,
        },
    ];
    let events: Vec<_> = agg.process(updates);
    assert_eq!(events.last().unwrap().aggregate, 1);
}
