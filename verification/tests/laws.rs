use prime_summer::{checked_sum_primes_squared, is_addressable, sum_primes_squared};
use rug::Integer;

fn is_prime(n: u64) -> bool {
    if n < 2 {
        return false;
    }
    let mut d = 2;
    while d * d <= n {
        if n % d == 0 {
            return false;
        }
        d += 1;
    }
    true
}

#[test]
fn zero_and_one_have_no_primes() {
    assert_eq!(sum_primes_squared(0), 0);
    assert_eq!(sum_primes_squared(1), 0);
}

#[test]
fn golden_values() {
    assert_eq!(sum_primes_squared(2), 4);
    assert_eq!(sum_primes_squared(3), 13);
    assert_eq!(sum_primes_squared(4), 13);
    assert_eq!(sum_primes_squared(10), 87);
    assert_eq!(sum_primes_squared(29), 2397);
    assert_eq!(sum_primes_squared(100), 65796);
    assert_eq!(sum_primes_squared(541), 8384727);
    assert_eq!(sum_primes_squared(1000), 49345379);
    assert_eq!(sum_primes_squared(7919), 19053119163u64);
    assert_eq!(sum_primes_squared(104729), 34099597499091u64);
    assert_eq!(
        sum_primes_squared(2038074743),
        "133759354162117403400944283".parse::<Integer>().unwrap()
    );
}

#[test]
fn cubes_and_squares_as_bounds() {
    // bounds at which the rounded roots change
    let mut expected = Integer::new();
    let mut results = Vec::new();
    for n in 0..=130u64 {
        if is_prime(n) {
            expected += n * n;
        }
        results.push((n, expected.clone()));
    }
    for (n, sum) in results {
        if [7, 8, 9, 15, 16, 24, 25, 26, 27, 28, 63, 64, 65, 124, 125, 126].contains(&n) {
            assert_eq!(sum_primes_squared(n), sum, "bound {}", n);
        }
    }
}

#[test]
fn grows_exactly_at_primes() {
    let mut before = sum_primes_squared(0);
    for n in 0..3000u64 {
        let after = sum_primes_squared(n + 1);
        assert!(before <= after);
        assert_eq!(before < after, is_prime(n + 1), "step to {}", n + 1);
        if is_prime(n + 1) {
            assert_eq!(Integer::from(&after - &before), (n + 1) * (n + 1));
        }
        before = after;
    }
}

#[test]
fn never_shrinks_over_longer_steps() {
    let bounds = [0u64, 5, 6, 100, 101, 1000, 4999, 5000, 99991, 100000];
    for pair in bounds.windows(2) {
        assert!(sum_primes_squared(pair[0]) <= sum_primes_squared(pair[1]));
    }
}

#[test]
fn repeated_calls_agree() {
    for n in [0u64, 1, 2, 97, 1000, 65537, 1000003] {
        let first = sum_primes_squared(n);
        let second = sum_primes_squared(n);
        let third = sum_primes_squared(n);
        assert_eq!(first, second);
        assert_eq!(second, third);
    }
}

#[test]
fn matches_trial_division_beyond_ten_thousand() {
    let mut expected = Integer::new();
    for n in 0..=20000u64 {
        if is_prime(n) {
            expected += n * n;
        }
        if n >= 19900 {
            assert_eq!(sum_primes_squared(n), expected, "bound {}", n);
        }
    }
}

#[test]
fn checked_sum_agrees_where_it_answers() {
    for n in [0u64, 1, 29, 541, 7919] {
        assert!(is_addressable(n));
        assert_eq!(checked_sum_primes_squared(n), Some(sum_primes_squared(n)));
    }
    assert_eq!(checked_sum_primes_squared(29), Some(Integer::from(2397)));
    assert_eq!(is_addressable(u64::MAX), usize::BITS >= 64);
    assert_eq!(is_addressable(1 << 40), usize::BITS >= 64);
}
