use progressive_squares::roots::integer_sqrt;
use progressive_squares::sieve::smallest_prime_factors;

fn is_prime(p: usize) -> bool {
    if p < 2 {
        return false;
    }
    let mut d = 2;
    while d * d <= p {
        if p % d == 0 {
            return false;
        }
        d += 1;
    }
    true
}

#[test]
fn sieve_of_thirty_is_exact() {
    let table = smallest_prime_factors(30);
    let expected: Vec<usize> = vec![
        0, 1, 2, 3, 2, 5, 2, 7, 2, 3, 2, 11, 2, 13, 2, 3, 2, 17, 2, 19, 2, 3, 2, 23, 2, 5, 2, 3, 2,
        29, 2,
    ];
    assert_eq!(table, expected);
}

#[test]
fn sieve_entries_are_smallest_prime_factors() {
    for n in [2usize, 3, 4, 10, 97, 100, 1000, 5000] {
        let table = smallest_prime_factors(n);
        assert_eq!(table.len(), n + 1);
        for i in 2..=n {
            let p = table[i];
            assert!(is_prime(p), "entry {} of the table for {} is {}", i, n, p);
            assert_eq!(i % p, 0);
            for q in 2..p {
                assert_ne!(i % q, 0);
            }
            assert_eq!(p == i, is_prime(i));
        }
    }
}

#[test]
fn sieve_of_tiny_bounds() {
    assert_eq!(smallest_prime_factors(0), vec![0]);
    assert_eq!(smallest_prime_factors(1), vec![0, 1]);
    assert_eq!(smallest_prime_factors(2), vec![0, 1, 2]);
    assert_eq!(smallest_prime_factors(4), vec![0, 1, 2, 3, 2]);
}

#[test]
fn integer_sqrt_is_the_floor() {
    assert_eq!(integer_sqrt(0), 0);
    assert_eq!(integer_sqrt(1), 1);
    assert_eq!(integer_sqrt(3), 1);
    assert_eq!(integer_sqrt(4), 2);
    assert_eq!(integer_sqrt(99), 9);
    assert_eq!(integer_sqrt(100), 10);
    assert_eq!(integer_sqrt(1_000_000), 1000);
    assert_eq!(integer_sqrt(999_999), 999);
    assert_eq!(integer_sqrt(1_000_000_000_000), 1_000_000);
    assert_eq!(integer_sqrt(999_999_999_999), 999_999);
    assert_eq!(integer_sqrt(usize::MAX - 1), 4_294_967_295);
    assert_eq!(integer_sqrt(usize::MAX), 4_294_967_295);
    for n in 0usize..2000 {
        let r = integer_sqrt(n);
        assert!(r * r <= n && n < (r + 1) * (r + 1));
    }
}
