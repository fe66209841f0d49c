use progressive_squares::roots::integer_sqrt;
use progressive_squares::search::{progressive_square_sum, proposed_values};

/// Sums the squares up to `n` that some base proposes, by three nested loops
/// over bases, divisors and roots.
fn total_by_three_loops(n: usize) -> u128 {
    let mut root = 0;
    while (root + 1) * (root + 1) <= n {
        root += 1;
    }
    let mut hit = vec![false; root + 1];
    for base in 1..=root {
        for divisor in 1..base {
            if (base * base) % divisor != 0 {
                continue;
            }
            let quotient = (base * base / divisor) as u128;
            let first = divisor as u128 + base as u128 * quotient;
            let second = base as u128 + divisor as u128 * quotient;
            for j in 1..=root {
                let square = (j * j) as u128;
                if square == first || square == second {
                    hit[j] = true;
                }
            }
        }
    }
    let mut total: u128 = 0;
    for j in 1..=root {
        if hit[j] {
            total += (j * j) as u128;
        }
    }
    total
}

/// The same sum with the innermost loop replaced by a square root.
fn total_by_two_loops(n: usize) -> u128 {
    let root = (n as f64).sqrt() as usize;
    let mut hit = vec![false; root + 1];
    for base in 1..=root {
        for divisor in 1..base {
            if (base * base) % divisor != 0 {
                continue;
            }
            let quotient = base * base / divisor;
            for candidate in [divisor + base * quotient, base + divisor * quotient] {
                let j = (candidate as f64).sqrt().round() as usize;
                if j >= 1 && j <= root && j * j == candidate {
                    hit[j] = true;
                }
            }
        }
    }
    let mut total: u128 = 0;
    for j in 1..=root {
        if hit[j] {
            total += (j * j) as u128;
        }
    }
    total
}

/// Sums the squares up to `n` that leave, on division by some number, a
/// quotient and a remainder which form a geometric progression with the
/// divisor.
fn total_by_division(n: usize) -> u128 {
    let mut total: u128 = 0;
    let mut j = 1;
    while j * j <= n {
        let square = j * j;
        let mut progressive = false;
        for divisor in 1..square {
            let quotient = square / divisor;
            let remainder = square % divisor;
            if remainder == 0 || quotient == 0 {
                continue;
            }
            let mut terms = [remainder, divisor, quotient];
            terms.sort();
            let rising = terms[0] < terms[1] && terms[1] < terms[2];
            if rising && terms[1] * terms[1] == terms[0] * terms[2] {
                progressive = true;
            }
        }
        if progressive {
            total += square as u128;
        }
        j += 1;
    }
    total
}

#[test]
fn total_for_one_hundred_matches_three_loops() {
    assert_eq!(progressive_square_sum(100), total_by_three_loops(100));
    assert_eq!(progressive_square_sum(100), 9);
}

#[test]
fn total_for_ten_thousand_matches_three_loops() {
    assert_eq!(progressive_square_sum(10_000), total_by_three_loops(10_000));
    assert_eq!(progressive_square_sum(10_000), 9);
}

#[test]
fn total_for_one_million_matches_two_loops() {
    assert_eq!(progressive_square_sum(1_000_000), total_by_two_loops(1_000_000));
    assert_eq!(progressive_square_sum(1_000_000), 9 + 10404 + 16900 + 97344 + 576081);
}

#[test]
fn total_matches_division_with_remainder() {
    for n in [100, 10_000, 20_000] {
        assert_eq!(progressive_square_sum(n), total_by_division(n), "for {}", n);
    }
}

#[test]
fn total_for_one_hundred_thousand() {
    assert_eq!(progressive_square_sum(100_000), 124657);
}

#[test]
fn total_for_one_trillion() {
    assert_eq!(progressive_square_sum(1_000_000_000_000), 878454337159);
}

#[test]
fn total_is_the_same_on_every_run() {
    for n in [0, 1, 9, 100, 12345, 1_000_000] {
        let first = progressive_square_sum(n);
        let second = progressive_square_sum(n);
        assert_eq!(first, second);
    }
}

#[test]
fn total_for_the_smallest_bounds() {
    assert_eq!(progressive_square_sum(0), 0);
    assert_eq!(progressive_square_sum(1), 0);
    assert_eq!(progressive_square_sum(3), 0);
    assert_eq!(progressive_square_sum(4), 0);
    assert_eq!(progressive_square_sum(8), 0);
    assert_eq!(progressive_square_sum(9), 9);
    assert_eq!(progressive_square_sum(10), 9);
}

#[test]
fn total_counts_a_square_from_the_bound_on() {
    assert_eq!(progressive_square_sum(10_403), 9);
    assert_eq!(progressive_square_sum(10_404), 9 + 10404);
    assert_eq!(progressive_square_sum(16_899), 9 + 10404);
    assert_eq!(progressive_square_sum(16_900), 9 + 10404 + 16900);
}

#[test]
fn total_grows_with_the_bound() {
    let mut last = 0;
    for n in (0..3000).step_by(7) {
        let total = progressive_square_sum(n);
        assert!(total >= last);
        assert_eq!(total, total_by_three_loops(n), "for {}", n);
        last = total;
    }
}

#[test]
fn proposed_values_of_small_bases() {
    assert_eq!(proposed_values(2, 1), (9, 6));
    assert_eq!(proposed_values(6, 4), (4 + 6 * 9, 6 + 36));
    assert_eq!(proposed_values(12, 8), (8 + 12 * 18, 12 + 144));
    assert_eq!(proposed_values(1, 1), (2, 2));
    assert_eq!(proposed_values(0, 1), (1, 0));
}

#[test]
fn proposed_values_do_not_wrap_at_the_largest_base() {
    let base: usize = 4_294_967_295;
    assert_eq!(integer_sqrt(usize::MAX), base);
    assert_eq!(
        proposed_values(base, 1),
        (79_228_162_458_924_105_385_300_197_376, 18_446_744_069_414_584_320)
    );
    assert_eq!(
        proposed_values(base, 3),
        (26_409_387_486_308_035_128_433_399_128, 18_446_744_069_414_584_320)
    );
    assert_eq!(
        proposed_values(base, 65_535),
        (1_208_944_265_795_744_341_032_960, 18_446_744_069_414_584_320)
    );
    assert!(proposed_values(base, 1).0 > u64::MAX as u128);
}
