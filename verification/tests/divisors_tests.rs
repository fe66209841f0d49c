use progressive_squares::divisors::small_square_divisors;
use progressive_squares::sieve::smallest_prime_factors;

fn sorted(mut values: Vec<usize>) -> Vec<usize> {
    values.sort();
    values
}

fn divisors_by_trial(k: usize) -> Vec<usize> {
    let mut found = Vec::new();
    for d in 1..k {
        if (k * k) % d == 0 {
            found.push(d);
        }
    }
    found
}

#[test]
fn square_divisors_of_one_are_none() {
    let spf = smallest_prime_factors(10);
    assert_eq!(small_square_divisors(1, &spf), Vec::<usize>::new());
}

#[test]
fn square_divisors_of_zero_are_none() {
    let spf = smallest_prime_factors(10);
    assert_eq!(small_square_divisors(0, &spf), Vec::<usize>::new());
}

#[test]
fn square_divisors_of_chosen_numbers() {
    let spf = smallest_prime_factors(30);
    assert_eq!(sorted(small_square_divisors(2, &spf)), vec![1]);
    assert_eq!(sorted(small_square_divisors(6, &spf)), vec![1, 2, 3, 4]);
    assert_eq!(sorted(small_square_divisors(7, &spf)), vec![1]);
    assert_eq!(sorted(small_square_divisors(12, &spf)), vec![1, 2, 3, 4, 6, 8, 9]);
    assert_eq!(sorted(small_square_divisors(16, &spf)), vec![1, 2, 4, 8]);
    assert_eq!(
        sorted(small_square_divisors(30, &spf)),
        vec![1, 2, 3, 4, 5, 6, 9, 10, 12, 15, 18, 20, 25]
    );
}

#[test]
fn square_divisors_match_trial_division() {
    let bound = 10_000;
    let spf = smallest_prime_factors(bound);
    for k in 1..=bound {
        let listed = small_square_divisors(k, &spf);
        for d in listed.iter() {
            assert_eq!((k * k) % *d, 0);
            assert!(*d < k);
        }
        assert_eq!(sorted(listed), divisors_by_trial(k), "for {}", k);
    }
}

#[test]
fn square_divisors_are_half_of_all() {
    let bound = 300;
    let spf = smallest_prime_factors(bound);
    for k in 1..=bound {
        let mut all = 0;
        for d in 1..=(k * k) {
            if (k * k) % d == 0 {
                all += 1;
            }
        }
        assert_eq!(2 * small_square_divisors(k, &spf).len() + 1, all, "for {}", k);
    }
}

#[test]
fn square_divisors_of_the_largest_base() {
    let bound = 1_000;
    let spf = smallest_prime_factors(bound);
    assert_eq!(
        sorted(small_square_divisors(bound, &spf)),
        divisors_by_trial(bound)
    );
    assert_eq!(small_square_divisors(bound, &spf).len(), 24);
}
