use rust_examples::fibonacci::fibonacci;
use rust_examples::fibonacci::fibonacci_reccursive;
use rust_examples::fibonacci::iterative_fibonacci;

fn rg_024_x(n: i32, expected: u64) {
    let mut found = fibonacci_reccursive(n);
    assert!(
        expected == found,
        "fibibonacci_reccursive({}): expected ({}) != found ({})",
        n,
        expected,
        found
    );
    found = fibonacci(n);
    assert!(
        expected == found,
        "fibibonacci({}): expected ({}) != found ({})",
        n,
        expected,
        found
    );
}

#[test]
fn rg_024_1() {
    rg_024_x(1, 1);
}

#[test]
fn rg_024_2() {
    rg_024_x(2, 1);
}

#[test]
fn rg_024_3_a() {
    rg_024_x(3, 2);
}

#[test]
#[should_panic]
fn rg_024_4_a() {
    fibonacci(-1);
    fibonacci(0);
}

#[test]
fn rg_024_5() {
    rg_024_x(30, 832040);
}

#[test]
fn stepping_generator() {
    let mut gen = iterative_fibonacci();
    let mut last = 0;
    for _ in 0..10 {
        last = gen.next().unwrap();
    }
    assert_eq!(last, 89);
}
