use rust_examples::find_max::find_max1;
use rust_examples::find_max::find_max2;
use rust_examples::find_max::find_max3;
use rust_examples::find_max::find_maxstd;

#[test]
fn test_find_max1() {
    let v = vec![0i32, 1, 2, 3, 4, 5, 6, 7, 8, 9];
    let nine = 9i32;
    assert_eq!(Some(&nine), find_max1(&v));
}

#[test]
fn test_find_max2() {
    let v = vec![0i32, 1, 2, 3, 4, 5, 6, 7, 8, 9];
    let nine = 9i32;
    assert_eq!(Some(&nine), find_max2(&v));
}

#[test]
fn test_find_max3() {
    let v = vec![0i32, 1, 2, 3, 4, 5, 6, 7, 8, 9];
    let nine = 9i32;
    assert_eq!(Some(&nine), find_max3(&v));
}

#[test]
fn test_find_maxstd() {
    let v = vec![0i32, 1, 2, 3, 4, 5, 6, 7, 8, 9];
    let nine = 9i32;
    assert_eq!(Some(&nine), find_maxstd(&v));
}

#[test]
fn test_find_max_empty_and_ties() {
    let empty: Vec<i32> = Vec::new();
    assert_eq!(find_max1(&empty), None);
    assert_eq!(find_max2(&empty), None);
    assert_eq!(find_max3(&empty), None);
    let v = vec![5i32, 2, 0, 8, 2, 8];
    assert_eq!(find_max1(&v), Some(&8));
    assert_eq!(find_max3(&v), Some(&8));
}
