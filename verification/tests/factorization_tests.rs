use progressive_squares::factorization::prime_factorization;
use progressive_squares::sieve::smallest_prime_factors;
use std::collections::HashMap;

fn map_of(entries: &[(usize, usize)]) -> HashMap<usize, usize> {
    let mut map = HashMap::new();
    for (prime, exponent) in entries {
        map.insert(*prime, *exponent);
    }
    map
}

#[test]
fn factorization_of_one_is_empty() {
    let spf = smallest_prime_factors(10);
    assert!(prime_factorization(1, &spf).is_empty());
}

#[test]
fn factorization_of_zero_is_empty() {
    let spf = smallest_prime_factors(10);
    assert!(prime_factorization(0, &spf).is_empty());
}

#[test]
fn factorization_of_chosen_numbers() {
    let spf = smallest_prime_factors(2000);
    assert_eq!(prime_factorization(2, &spf), map_of(&[(2, 1)]));
    assert_eq!(prime_factorization(12, &spf), map_of(&[(2, 2), (3, 1)]));
    assert_eq!(prime_factorization(97, &spf), map_of(&[(97, 1)]));
    assert_eq!(prime_factorization(360, &spf), map_of(&[(2, 3), (3, 2), (5, 1)]));
    assert_eq!(prime_factorization(1024, &spf), map_of(&[(2, 10)]));
    assert_eq!(prime_factorization(1001, &spf), map_of(&[(7, 1), (11, 1), (13, 1)]));
    assert_eq!(prime_factorization(1849, &spf), map_of(&[(43, 2)]));
    assert_eq!(prime_factorization(2000, &spf), map_of(&[(2, 4), (5, 3)]));
}

#[test]
fn factorization_multiplies_back() {
    let bound = 20_000;
    let spf = smallest_prime_factors(bound);
    for k in 2..=bound {
        let factors = prime_factorization(k, &spf);
        let mut product: usize = 1;
        for (prime, exponent) in factors.iter() {
            assert!(*exponent >= 1);
            assert_eq!(spf[*prime], *prime, "{} is a key for {} but no prime", prime, k);
            for _ in 0..*exponent {
                product *= *prime;
            }
            let mut rest = k;
            let mut count = 0;
            while rest % *prime == 0 {
                rest /= *prime;
                count += 1;
            }
            assert_eq!(count, *exponent);
        }
        assert_eq!(product, k);
    }
}

#[test]
fn factorization_reaches_the_end_of_the_table() {
    let spf = smallest_prime_factors(210);
    assert_eq!(
        prime_factorization(210, &spf),
        map_of(&[(2, 1), (3, 1), (5, 1), (7, 1)])
    );
}
