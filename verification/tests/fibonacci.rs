use algorithms::fibonacci::{
    fibonacci_iterative, fibonacci_memoized, fibonacci_recursive, MAX_INDEX,
};

#[test]
fn first_fibonacci_numbers() {
    let expected: [u64; 13] = [0, 1, 1, 2, 3, 5, 8, 13, 21, 34, 55, 89, 144];
    for (n, value) in expected.iter().enumerate() {
        assert_eq!(fibonacci_recursive(n as u32), *value);
        assert_eq!(fibonacci_iterative(n as u32), *value);
        assert_eq!(fibonacci_memoized(n as u32), *value);
    }
}

#[test]
fn three_ways_agree() {
    for n in 0..=25 {
        let value = fibonacci_iterative(n);
        assert_eq!(fibonacci_recursive(n), value);
        assert_eq!(fibonacci_memoized(n), value);
    }
}

#[test]
fn each_number_is_the_sum_of_the_two_before() {
    for n in 2..=MAX_INDEX {
        assert_eq!(
            fibonacci_memoized(n),
            fibonacci_memoized(n - 1) + fibonacci_memoized(n - 2)
        );
    }
}

#[test]
fn largest_fibonacci_number_of_64_bits() {
    assert_eq!(MAX_INDEX, 93);
    assert_eq!(fibonacci_iterative(MAX_INDEX), 12200160415121876738);
    assert_eq!(fibonacci_memoized(MAX_INDEX), 12200160415121876738);
    assert!(fibonacci_iterative(92).checked_add(fibonacci_iterative(93)).is_none());
}
