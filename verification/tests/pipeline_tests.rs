use progressive_squares::{
    integer_sqrt, prime_factorization, progressive_square_sum, proposed_values,
    small_square_divisors, smallest_prime_factors,
};
use std::collections::HashSet;

/// Runs the four steps one after the other, as a caller would who wanted to
/// see what happens in between.
fn total_step_by_step(n: usize) -> u128 {
    let root = integer_sqrt(n);
    let spf = smallest_prime_factors(root);
    let mut relevant_squares: HashSet<u128> = HashSet::new();
    for i in 1..=root {
        relevant_squares.insert((i * i) as u128);
    }
    let mut total: u128 = 0;
    for i in 1..=root {
        for divisor in small_square_divisors(i, &spf) {
            let (first, second) = proposed_values(i, divisor);
            for candidate in [first, second] {
                if relevant_squares.remove(&candidate) {
                    total += candidate;
                }
            }
        }
    }
    total
}

#[test]
fn steps_compose_to_the_total() {
    for n in [0, 1, 9, 100, 10_404, 123_456, 1_000_000] {
        assert_eq!(progressive_square_sum(n), total_step_by_step(n), "for {}", n);
    }
}

#[test]
fn steps_agree_on_one_base() {
    let spf = smallest_prime_factors(100);
    let factors = prime_factorization(84, &spf);
    assert_eq!(factors.len(), 3);
    assert_eq!(factors[&2], 2);
    assert_eq!(factors[&3], 1);
    assert_eq!(factors[&7], 1);
    let mut divisors = small_square_divisors(84, &spf);
    divisors.sort();
    assert_eq!(
        divisors,
        vec![1, 2, 3, 4, 6, 7, 8, 9, 12, 14, 16, 18, 21, 24, 28, 36, 42, 48, 49, 56, 63, 72]
    );
    for divisor in divisors {
        let (first, second) = proposed_values(84, divisor);
        assert_eq!(first, (divisor + 84 * (84 * 84 / divisor)) as u128);
        assert_eq!(second, (84 + 84 * 84) as u128);
    }
}
