use cqels_core::model::{BindingSet, Value};
use cqels_core::operator::minus::{compatible, MinusOperator};

fn binding(ts: i64, var: &str, val: Value) -> BindingSet {
    let mut bs = BindingSet::new(ts);
    bs.insert(var, val);
    bs
}

#[test]
fn simple_minus_removes_compatible_row() {
    let alice = Value::String("alice".into());
    let bob = Value::String("bob".into());

    let exclusion = binding(0, "person", alice.clone());
    let minus = MinusOperator::excluding(vec![exclusion]);

    let alice_row = binding(100, "person", alice);
    let bob_row = binding(200, "person", bob);

    assert!(minus.is_excluded(&alice_row));
    assert!(!minus.is_excluded(&bob_row));
}

#[test]
fn empty_exclusion_passes_all_rows() {
    let minus = MinusOperator::excluding(vec![]);
    let bs = binding(1, "x", Value::Integer(1));
    assert!(!minus.is_excluded(&bs));
}

#[test]
fn disjoint_variables_row_not_excluded() {
    let main = binding(100, "person", Value::String("alice".into()));
    let exclusion = binding(0, "city", Value::String("Berlin".into()));
    let minus = MinusOperator::excluding(vec![exclusion]);
    assert!(!minus.is_excluded(&main));
}

#[test]
fn partial_overlap_value_mismatch_not_excluded() {
    let mut main = BindingSet::new(100);
    main.insert("person", Value::String("alice".into()));
    main.insert("age", Value::Integer(30));

    let exclusion = binding(0, "person", Value::String("bob".into()));
    let minus = MinusOperator::excluding(vec![exclusion]);
    assert!(!minus.is_excluded(&main));
}

#[test]
fn partial_overlap_value_match_excluded() {
    let mut main = BindingSet::new(100);
    main.insert("person", Value::String("alice".into()));
    main.insert("age", Value::Integer(30));

    let exclusion = binding(0, "person", Value::String("alice".into()));
    let minus = MinusOperator::excluding(vec![exclusion]);
    assert!(minus.is_excluded(&main));
}

#[test]
fn multiple_exclusions_excludes_each_match() {
    let alice = Value::String("alice".into());
    let bob = Value::String("bob".into());
    let carol = Value::String("carol".into());

    let exclusions = vec![
        binding(0, "person", alice.clone()),
        binding(0, "person", bob.clone()),
    ];
    let minus = MinusOperator::excluding(exclusions);

    assert!(minus.is_excluded(&binding(1, "person", alice)));
    assert!(minus.is_excluded(&binding(2, "person", bob)));
    assert!(!minus.is_excluded(&binding(3, "person", carol)));
}

#[test]
fn compatible_shared_var_equal_value() {
    let v = Value::String("same".into());
    assert!(compatible(&binding(0, "x", v.clone()), &binding(0, "x", v),));
}

#[test]
fn compatible_shared_var_different_value() {
    assert!(!compatible(
        &binding(0, "x", Value::String("a".into())),
        &binding(0, "x", Value::String("b".into())),
    ));
}

#[test]
fn compatible_disjoint_domains_returns_false() {
    assert!(!compatible(
        &binding(0, "x", Value::Integer(1)),
        &binding(0, "y", Value::Integer(1)),
    ));
}

#[test]
fn compatible_multiple_shared_all_match() {
    let mut r1 = BindingSet::new(0);
    r1.insert("a", Value::Integer(1));
    r1.insert("b", Value::Integer(2));
    let mut r2 = BindingSet::new(0);
    r2.insert("a", Value::Integer(1));
    r2.insert("b", Value::Integer(2));
    r2.insert("c", Value::Integer(3));
    assert!(compatible(&r1, &r2));
}

#[test]
fn compatible_multiple_shared_one_mismatch() {
    let mut r1 = BindingSet::new(0);
    r1.insert("a", Value::Integer(1));
    r1.insert("b", Value::Integer(99));
    let mut r2 = BindingSet::new(0);
    r2.insert("a", Value::Integer(1));
    r2.insert("b", Value::Integer(2));
    assert!(!compatible(&r1, &r2));
}

#[test]
fn apply_filters_stream() {
    let alice = Value::String("alice".into());
    let bob = Value::String("bob".into());

    let exclusions = vec![binding(0, "person", alice.clone())];
    let minus = MinusOperator::excluding(exclusions);

    let bindings = vec![
        binding(100, "person", alice),
        binding(200, "person", bob.clone()),
    ];
    let stream = bindings;
    let results: Vec<_> = minus.apply(stream);

    assert_eq!(results.len(), 1);
    assert_eq!(results[0].get("person"), Some(&bob));
}

#[test]
fn apply_empty_main_yields_empty() {
    let exclusions = vec![binding(0, "x", Value::Integer(1))];
    let minus = MinusOperator::excluding(exclusions);
    let stream = Vec::<BindingSet>::new();
    let results: Vec<_> = minus.apply(stream);
    assert!(results.is_empty());
}

#[test]
fn apply_preserves_timestamp_and_extra_bindings() {
    let mut main = BindingSet::new(42);
    main.insert("person", Value::String("bob".into()));
    main.insert("age", Value::Integer(25));
    main.insert("city", Value::String("Munich".into()));

    let exclusion = binding(0, "person", Value::String("alice".into()));
    let minus = MinusOperator::excluding(vec![exclusion]);

    let stream = vec![main];
    let results: Vec<_> = minus.apply(stream);

    assert_eq!(results.len(), 1);
    let out = &results[0];
    assert_eq!(out.timestamp(), 42);
    assert_eq!(out.get("age"), Some(&Value::Integer(25)));
    assert_eq!(out.get("city"), Some(&Value::String("Munich".into())));
}
