use cqels_core::operator::swag::{SwagCountOp, SwagOp, TwoStacksLiteWindow};

struct SwagSumOp<F> {
    extractor: F,
}

impl<F> SwagSumOp<F> {
    fn new(extractor: F) -> Self {
        SwagSumOp { extractor }
    }
}

impl<T, F: Fn(&T) -> f64> SwagOp<T, f64, f64> for SwagSumOp<F> {
    fn identity(&self) -> f64 {
        0.0
    }

    fn lift(&self, value: &T) -> f64 {
        (self.extractor)(value)
    }

    fn combine(&self, a: &f64, b: &f64) -> f64 {
        a + b
    }

    fn lower(&self, aggregate: &f64) -> f64 {
        *aggregate
    }

    fn invert(&self, value: &f64) -> Option<f64> {
        Some(-value)
    }

    fn is_invertible(&self) -> bool {
        true
    }

    fn name(&self) -> &str {
        "SUM"
    }
}

#[test]
fn test_swag_count() {
    let op = SwagCountOp::<i32>::new();
    assert_eq!(op.identity(), 0);
    assert_eq!(op.lift(&42), 1);
    assert_eq!(op.combine(&3, &5), 8);
    assert_eq!(op.lower(&10), 10);
    assert!(op.is_invertible());
}

#[test]
fn test_two_stacks_lite_basic() {
    let op = SwagSumOp::new(|x: &f64| *x);
    let mut window = TwoStacksLiteWindow::new(op);

    window.push(&1.0);
    window.push(&2.0);
    window.push(&3.0);
    assert_eq!(window.len(), 3);
    assert!((window.query() - 6.0).abs() < f64::EPSILON);

    window.pop();
    assert_eq!(window.len(), 2);
    assert!((window.query() - 5.0).abs() < f64::EPSILON);

    window.pop();
    assert!((window.query() - 3.0).abs() < f64::EPSILON);
}

#[test]
fn test_two_stacks_lite_sliding() {
    let op = SwagCountOp::<i32>::new();
    let mut window = TwoStacksLiteWindow::new(op);

    for i in 0..5 {
        window.push(&i);
        if window.len() > 3 {
            window.pop();
        }
    }
    assert_eq!(window.len(), 3);
    assert_eq!(window.query(), 3);
}

#[test]
fn test_two_stacks_lite_empty() {
    let op = SwagSumOp::new(|x: &f64| *x);
    let window = TwoStacksLiteWindow::new(op);
    assert!(window.is_empty());
    assert!((window.query() - 0.0).abs() < f64::EPSILON);
}
