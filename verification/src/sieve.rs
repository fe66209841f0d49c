//! The table of smallest prime factors, built by a sieve.

use crate::divisibility::{
    divides, is_prime, is_smallest_prime_factor, lemma_divides_quotient, lemma_divides_transitive,
    lemma_multiple_divides, lemma_quotient_decreases,
};
use crate::roots::{integer_sqrt, is_floor_sqrt};
use vstd::arithmetic::div_mod::lemma_fundamental_div_mod_converse;
use vstd::prelude::*;

verus! {

/// `table` holds at every index from two on the smallest prime factor of
/// that index.
pub open spec fn is_sieve_table(table: Seq<usize>) -> bool {
    forall|i: int| 2 <= i < table.len() ==> is_smallest_prime_factor(i, #[trigger] table[i] as int)
}

/// The least divisor of `n` that is at least `d`, searched upwards from `d`.
spec fn least_factor_from(n: int, d: int) -> int
    decreases n - d,
{
    if d >= n {
        n
    } else if n % d == 0 {
        d
    } else {
        least_factor_from(n, d + 1)
    }
}

/// The least divisor of `n` other than one.
spec fn least_factor(n: int) -> int {
    least_factor_from(n, 2)
}

/// What the sieve holds for `m` once every prime below `bound` has been
/// sieved with: the least factor of `m` if that lies below `bound`, else `m`
/// itself.
spec fn sieved_entry(m: int, bound: int) -> int {
    if least_factor(m) < bound {
        least_factor(m)
    } else {
        m
    }
}

/// Where no number from two on below `d` divides `n`, the search from `d`
/// finds a divisor of `n` below which, from two on, there is none.
proof fn lemma_least_factor_from(n: int, d: int)
    requires
        2 <= d <= n,
        forall|c: int| 2 <= c < d ==> !#[trigger] divides(c, n),
    ensures
        d <= least_factor_from(n, d) <= n,
        divides(least_factor_from(n, d), n),
        forall|c: int| 2 <= c < least_factor_from(n, d) ==> !#[trigger] divides(c, n),
    decreases n - d,
{
    if d >= n {
        lemma_multiple_divides(n, 1);
    } else if n % d != 0 {
        lemma_least_factor_from(n, d + 1);
    }
}

/// The least factor of a number from two on is its smallest prime factor,
/// and no number from two on below it divides the number. Its square does
/// not exceed the number, unless the number is prime.
proof fn lemma_least_factor(n: int)
    requires
        2 <= n,
    ensures
        2 <= least_factor(n) <= n,
        is_smallest_prime_factor(n, least_factor(n)),
        forall|c: int| 2 <= c < least_factor(n) ==> !#[trigger] divides(c, n),
        least_factor(n) < n ==> least_factor(n) * least_factor(n) <= n,
{
    lemma_least_factor_from(n, 2);
    let r = least_factor(n);
    assert forall|c: int| 1 < c < r implies !#[trigger] divides(c, r) by {
        if divides(c, r) {
            lemma_divides_transitive(c, r, n);
        }
    }
    if r < n {
        lemma_quotient_decreases(r, n);
        let m = n / r;
        assert(n == m * r) by (nonlinear_arith)
            requires
                n == r * m,
        ;
        lemma_multiple_divides(m, r);
        assert(2 <= m) by (nonlinear_arith)
            requires
                n == r * m,
                r < n,
                1 <= m,
        ;
        assert(divides(m, n));
        assert(r * r <= n) by (nonlinear_arith)
            requires
                n == r * m,
                r <= m,
                2 <= r,
        ;
    }
}

/// The numbers that are their own least factor are the primes, and the least
/// factor of any number is one of them.
proof fn lemma_least_factor_fixed(n: int)
    requires
        2 <= n,
    ensures
        least_factor(n) == n <==> is_prime(n),
        least_factor(least_factor(n)) == least_factor(n),
{
    lemma_least_factor(n);
    let r = least_factor(n);
    lemma_least_factor(r);
    if is_prime(n) && r < n {
        assert(divides(r, n));
    }
    if least_factor(r) < r {
        assert(divides(least_factor(r), r));
    }
}

/// Between two consecutive multiples of `i` lies no multiple of `i`.
proof fn lemma_no_multiple_between(i: int, j: int, m: int)
    requires
        0 < i,
        divides(i, j),
        j < m < j + i,
    ensures
        !divides(i, m),
{
    lemma_divides_quotient(i, j);
    let q = j / i;
    assert(m == q * i + (m - j)) by (nonlinear_arith)
        requires
            j == i * q,
    ;
    lemma_fundamental_div_mod_converse(m, i, q, m - j);
}

/// Builds the table of smallest prime factors for the numbers up to `n`:
/// entry `i` is the smallest prime that divides `i`, which is `i` itself
/// exactly where `i` is prime. The first two entries, which have no prime
/// factor, hold their own index.
pub fn smallest_prime_factors(n: usize) -> (table: Vec<usize>)
    requires
        n < usize::MAX,
    ensures
        table@.len() == n + 1,
        is_sieve_table(table@),
        forall|i: int| 0 <= i < 2 && i <= n ==> #[trigger] table@[i] == i,
{
    let mut result: Vec<usize> = Vec::new();
    let mut next: usize = 0;
    while next <= n
        invariant
            n < usize::MAX,
            next <= n + 1,
            result@.len() == next,
            forall|m: int| 0 <= m < next ==> #[trigger] result@[m] == m,
        decreases n + 1 - next,
    {
        result.push(next);
        next += 1;
    }
    let root = integer_sqrt(n);
    proof {
        assert(root <= n) by (nonlinear_arith)
            requires
                root * root <= n,
        ;
        assert forall|m: int| 2 <= m <= n implies #[trigger] result@[m] == sieved_entry(m, 2) by {
            lemma_least_factor(m);
        }
    }
    let mut i: usize = 2;
    while i <= root
        invariant
            2 <= i <= root + 2,
            root <= n,
            is_floor_sqrt(n as int, root as int),
            n < usize::MAX,
            result@.len() == n + 1,
            forall|m: int| 0 <= m < 2 && m <= n ==> #[trigger] result@[m] == m,
            forall|m: int| 2 <= m <= n ==> #[trigger] result@[m] == sieved_entry(m, i as int),
        decreases root + 1 - i,
    {
        proof {
            lemma_least_factor(i as int);
            lemma_least_factor_fixed(i as int);
            assert(i * i <= n) by (nonlinear_arith)
                requires
                    i <= root,
                    root * root <= n,
            ;
        }
        if result[i] == i {
            let mut j: usize = i * i;
            proof {
                lemma_multiple_divides(i as int, i as int);
                assert forall|m: int| 2 <= m <= n implies #[trigger] result@[m] == (if m < j {
                    sieved_entry(m, i + 1)
                } else {
                    sieved_entry(m, i as int)
                }) by {
                    lemma_least_factor(m);
                }
            }
            loop
                invariant_except_break
                    i * i <= j <= n,
                    divides(i as int, j as int),
                    forall|m: int|
                        2 <= m <= n ==> #[trigger] result@[m] == (if m < j {
                            sieved_entry(m, i + 1)
                        } else {
                            sieved_entry(m, i as int)
                        }),
                invariant
                    2 <= i,
                    n < usize::MAX,
                    is_prime(i as int),
                    result@.len() == n + 1,
                    forall|m: int| 0 <= m < 2 && m <= n ==> #[trigger] result@[m] == m,
                ensures
                    forall|m: int| 2 <= m <= n ==> #[trigger] result@[m] == sieved_entry(m, i + 1),
                decreases n - j,
            {
                proof {
                    assert(i <= j) by (nonlinear_arith)
                        requires
                            i * i <= j,
                            2 <= i,
                    ;
                    lemma_least_factor(j as int);
                }
                if result[j] == j {
                    result[j] = i;
                }
                proof {
                    assert(result@[j as int] == sieved_entry(j as int, i + 1));
                    assert forall|m: int| j < m <= n && m < j + i implies sieved_entry(m, i + 1)
                        == sieved_entry(m, i as int) by {
                        lemma_no_multiple_between(i as int, j as int, m);
                        lemma_least_factor(m);
                    }
                }
                if n - j < i {
                    break;
                }
                proof {
                    lemma_divides_quotient(i as int, j as int);
                    assert(j + i == i * (j as int / i as int + 1)) by (nonlinear_arith)
                        requires
                            j == i * (j as int / i as int),
                    ;
                    lemma_multiple_divides(i as int, j as int / i as int + 1);
                }
                j += i;
            }
        } else {
            proof {
                assert forall|m: int| 2 <= m <= n implies sieved_entry(m, i + 1) == sieved_entry(
                    m,
                    i as int,
                ) by {
                    lemma_least_factor_fixed(m);
                }
            }
        }
        i += 1;
    }
    proof {
        assert forall|m: int| 2 <= m < result@.len() implies is_smallest_prime_factor(
            m,
            #[trigger] result@[m] as int,
        ) by {
            lemma_least_factor(m);
            let r = least_factor(m);
            if r < m {
                assert(r < i) by (nonlinear_arith)
                    requires
                        r * r <= m,
                        m <= n,
                        n < (root + 1) * (root + 1),
                        0 <= r,
                        root + 1 <= i,
                ;
            }
        }
    }
    result
}

} // verus!
