use cqels_core::operator::payload_counts::PayloadCounts;
use cqels_core::operator::swag_triangle::{TriangleCount, TriangleJoinAggregateSpec};

#[derive(Clone, Copy, Debug, Eq, Hash, PartialEq)]
struct User(i32);
#[derive(Clone, Copy, Debug, Eq, Hash, PartialEq)]
struct Post(i32);
#[derive(Clone, Copy, Debug, Eq, Hash, PartialEq)]
struct Like(i32);

#[test]
fn triangle_count_unit_payloads() {
    let spec: TriangleCount<User, Post, Like> = TriangleCount::new();
    assert_eq!(spec.payload_a(&User(7)), 1);
    assert_eq!(spec.payload_b(&Post(8)), 1);
    assert_eq!(spec.payload_c(&Like(9)), 1);
}

#[test]
fn triangle_count_multiplies_three_payloads() {
    let spec: TriangleCount<User, Post, Like> = TriangleCount::new();
    assert_eq!(spec.multiply_triple(&3, &4, &5), 60);
}

#[test]
fn triangle_count_ring_axioms() {
    let spec: TriangleCount<User, Post, Like> = TriangleCount::new();
    assert_eq!(spec.zero(), 0);
    assert_eq!(spec.add(&3, &7), 10);
    assert_eq!(spec.add(&spec.zero(), &7), 7, "zero is left identity");
    assert_eq!(spec.add(&7, &spec.zero()), 7, "zero is right identity");
    assert_eq!(spec.add(&7, &spec.negate(&7)), 0, "additive inverse");
}

#[test]
fn triangle_count_range_aggregation_respects_bag_counts() {
    let spec: TriangleCount<User, Post, Like> = TriangleCount::new();
    let mut counts: PayloadCounts<i64> = PayloadCounts::new();
    counts.add_many(1, 3);
    counts.add_many(5, 2);
    assert_eq!(spec.aggregate_range_a(&counts), 13);
    assert_eq!(spec.aggregate_range_b(&counts), 13);
    assert_eq!(spec.aggregate_range_c(&counts), 13);
}

#[test]
fn triangle_count_empty_range_returns_zero() {
    let spec: TriangleCount<User, Post, Like> = TriangleCount::new();
    let empty: PayloadCounts<i64> = PayloadCounts::new();
    assert_eq!(spec.aggregate_range_a(&empty), spec.zero_a());
}

#[test]
fn triangle_count_name() {
    let spec: TriangleCount<User, Post, Like> = TriangleCount::new();
    assert_eq!(spec.name(), "TRIANGLE_COUNT");
}
