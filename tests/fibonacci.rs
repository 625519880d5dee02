use rust_examples::fibonacci::fibonacci;

#[test]
fn fibonacci_first_values() {
    let expected: [usize; 11] = [0, 1, 1, 2, 3, 5, 8, 13, 21, 34, 55];
    for (n, &value) in expected.iter().enumerate() {
        assert_eq!(fibonacci(n), value);
    }
}

#[test]
fn fibonacci_recurrence() {
    for n in 2..80 {
        assert_eq!(fibonacci(n), fibonacci(n - 1) + fibonacci(n - 2));
    }
}

#[test]
fn fibonacci_largest_in_u64() {
    assert_eq!(fibonacci(93), 12200160415121876738);
}
