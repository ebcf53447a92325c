use cqels_core::operator::parallel::ParallelExecutionConfig;
use cqels_core::operator::parallel_hash_join::ParallelHashJoinOperator;

#[test]
fn joins_matching_keys() {
    let op = ParallelHashJoinOperator::<(i32, &str), (i32, &str), i32, (String, String), _, _, _>::new(
        |l| l.0,
        |r| r.0,
        |l, r| (l.1.to_string(), r.1.to_string()),
    );
    let left = vec![
        (1, "alice"),
        (2, "bob"),
        (3, "carol"),
    ];
    let right = vec![(1, "x"), (2, "y"), (4, "z")];
    let mut out: Vec<(String, String)> = op.join(left, &right).into_iter().flatten().collect();
    out.sort();
    assert_eq!(
        out,
        vec![("alice".into(), "x".into()), ("bob".into(), "y".into()),]
    );
}

#[test]
fn empty_left_yields_no_results() {
    let op = ParallelHashJoinOperator::<i32, i32, i32, (i32, i32), _, _, _>::new(
        |&l| l,
        |&r| r,
        |&l, &r| (l, r),
    );
    let left = Vec::<i32>::new();
    let right = vec![1, 2, 3];
    let out: Vec<_> = op.join(left, &right).into_iter().flatten().collect();
    assert!(out.is_empty());
}

#[test]
fn empty_right_yields_no_results() {
    let op = ParallelHashJoinOperator::<i32, i32, i32, (i32, i32), _, _, _>::new(
        |&l| l,
        |&r| r,
        |&l, &r| (l, r),
    );
    let left = vec![1, 2, 3];
    let right = Vec::<i32>::new();
    let out: Vec<_> = op.join(left, &right).into_iter().flatten().collect();
    assert!(out.is_empty());
}

#[test]
fn one_to_many_relationship_emits_all_pairs() {
    let op = ParallelHashJoinOperator::<(i32, &str), (i32, &str), i32, (String, String), _, _, _>::new(
        |l| l.0,
        |r| r.0,
        |l, r| (l.1.to_string(), r.1.to_string()),
    );
    let left = vec![
        (1, "alice"),
        (1, "andy"),
        (2, "bob"),
    ];
    let right = vec![(1, "ride")];
    let mut out: Vec<_> = op.join(left, &right).into_iter().flatten().collect();
    out.sort();
    assert_eq!(
        out,
        vec![
            ("alice".into(), "ride".into()),
            ("andy".into(), "ride".into()),
        ]
    );
}

#[test]
fn parallelism_setting_does_not_change_results() {
    for &p in &[1usize, 2, 4, 8] {
        let config = ParallelExecutionConfig::builder().parallelism(p).build();
        let op = ParallelHashJoinOperator::<i32, i32, i32, (i32, i32), _, _, _>::with_config(
            |&l| l,
            |&r| r,
            |&l, &r| (l, r),
            &config,
        );
        let left: Vec<i32> = (0..100).collect();
        let right: Vec<i32> = (50..150).collect();
        let mut out: Vec<_> = op.join(left, &right).into_iter().flatten().collect();
        out.sort();
        let expected: Vec<_> = (50..100).map(|n| (n, n)).collect();
        assert_eq!(out, expected, "parallelism={p}");
    }
}

#[test]
fn against_nested_loop_baseline() {
    let left_data: Vec<(i32, i32)> = (0..50).map(|i| (i % 10, i)).collect();
    let right_data: Vec<(i32, i32)> = (0..30).map(|i| (i % 10, 100 + i)).collect();

    let op = ParallelHashJoinOperator::<(i32, i32), (i32, i32), i32, (i32, i32), _, _, _>::new(
        |l| l.0,
        |r| r.0,
        |l, r| (l.1, r.1),
    );
    let left = left_data.clone();
    let right = right_data.clone();
    let mut indexed: Vec<_> = op.join(left, &right).into_iter().flatten().collect();
    indexed.sort();

    let mut baseline: Vec<(i32, i32)> = Vec::new();
    for l in &left_data {
        for r in &right_data {
            if l.0 == r.0 {
                baseline.push((l.1, r.1));
            }
        }
    }
    baseline.sort();

    assert_eq!(indexed, baseline);
}
