use rust_examples::libfibonacci::fibonacci;

fn rg024_x(n: isize, expected: usize) {
    let found = fibonacci(n);
    assert!(expected == found);
}

#[test]
fn RG024_1() {
    rg024_x(1, 1);
}

#[test]
fn RG024_2() {
    rg024_x(2, 1);
}

#[test]
fn RG024_3_a() {
    rg024_x(3, 2);
}

#[test]
fn RG024_5() {
    rg024_x(30, 832040);
}
