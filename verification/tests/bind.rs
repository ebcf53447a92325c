use cqels_core::model::{BindingSet, Value};
use cqels_core::operator::bind::BindOperator;

#[test]
fn test_bind_evaluate() {
    let bind = BindOperator::new("doubled", |bs: &BindingSet| {
        bs.get("x")
            .and_then(|v| v.as_integer())
            .map(|i| Value::Integer(i * 2))
    });

    let mut bs = BindingSet::new(0);
    bs.insert("x", Value::Integer(5));
    bind.evaluate(&mut bs);
    assert_eq!(bs.get("doubled"), Some(&Value::Integer(10)));
}

#[test]
fn test_bind_stream() {

    let bind = BindOperator::new("label", |bs: &BindingSet| {
        bs.get("id")
            .and_then(|v| v.as_integer())
            .map(|i| Value::String(format!("item-{i}")))
    });

    let bindings: Vec<BindingSet> = (0..3)
        .map(|i| {
            let mut bs = BindingSet::new(i);
            bs.insert("id", Value::Integer(i));
            bs
        })
        .collect();

    let stream = bindings;
    let results: Vec<_> = bind.apply(stream);
    assert_eq!(results.len(), 3);
    assert_eq!(
        results[0].get("label"),
        Some(&Value::String("item-0".into()))
    );
    assert_eq!(
        results[2].get("label"),
        Some(&Value::String("item-2".into()))
    );
}
