use training::expr::{HasName, MathOperation};

fn value(i: i32) -> Box<MathOperation> {
    Box::new(MathOperation::Value(i))
}

#[test]
fn solve_of_a_sum_and_a_product() {
    let op = MathOperation::Sum(
        value(10),
        Box::new(MathOperation::Mul(value(20), value(2))),
    );
    assert_eq!(op.name(), "Sum");
    assert_eq!(op.solve(), 50);
}

#[test]
fn names_of_the_operations() {
    assert_eq!(MathOperation::Value(1).name(), "Value");
    assert_eq!(MathOperation::Sum(value(1), value(2)).name(), "Sum");
    assert_eq!(MathOperation::Mul(value(1), value(2)).name(), "Mul");
}

#[test]
fn solve_of_nested_operations() {
    assert_eq!(MathOperation::Value(-7).solve(), -7);
    assert_eq!(MathOperation::Mul(value(-3), value(5)).solve(), -15);
    let deep = MathOperation::Mul(
        Box::new(MathOperation::Sum(value(1), value(2))),
        Box::new(MathOperation::Sum(
            Box::new(MathOperation::Mul(value(4), value(-1))),
            value(1004),
        )),
    );
    assert_eq!(deep.solve(), 3000);
    let edge = MathOperation::Sum(value(i32::MAX), value(i32::MIN));
    assert_eq!(edge.solve(), -1);
}
