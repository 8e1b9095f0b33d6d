use training::closure::make_sum;

#[test]
fn make_sum_adds() {
    assert_eq!(make_sum(2, 5), 7);
    assert_eq!(make_sum(-7, 5), -2);
    assert_eq!(make_sum(i32::MAX, i32::MIN), -1);
    assert_eq!(make_sum(i32::MAX - 1, 1), i32::MAX);
    assert_eq!(make_sum(0, 0), 0);
}
