#[test]
fn test_float() {
    let expected = 1f64;
    let mut actual = 1f64;
    let precision = 0.1f64;
    actual = actual + precision / 2f64;
    assert!((expected - actual).abs() < precision);
}

#[test]
fn test_success() {
    assert!(1 == 1);
    assert_eq!(1, 1);
}
