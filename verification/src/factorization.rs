//! Prime factorization of a single number by lookups in a table of smallest
//! prime factors.

use crate::divisibility::{divides, is_prime, lemma_quotient_decreases, lemma_small_not_divisible};
use crate::multiplicity::{
    lemma_multiplicity_times_base, lemma_multiplicity_times_other_prime, multiplicity,
};
use crate::sieve::is_sieve_table;
use std::collections::HashMap;
use vstd::arithmetic::power::{lemma_pow1, pow};
use vstd::prelude::*;
use vstd::set::fold::{is_fun_commutative, lemma_fold_empty, lemma_fold_insert};
use vstd::std_specs::hash::*;

verus! {

/// The exponent that `factors` records for `p`: zero where `p` is no key.
pub open spec fn recorded_exponent(factors: Map<usize, usize>, p: usize) -> nat {
    if factors.contains_key(p) {
        factors[p] as nat
    } else {
        0
    }
}

/// The step of `factors_product`: multiplies a running product by the power
/// of `p` that `factors` records.
pub open spec fn times_prime_power(factors: Map<usize, usize>) -> spec_fn(int, usize) -> int {
    |product: int, p: usize| product * pow(p as int, factors[p] as nat)
}

/// The number that `factors` stands for: the product, over every key, of the
/// key raised to its value.
pub open spec fn factors_product(factors: Map<usize, usize>) -> int {
    factors.dom().fold(1int, times_prime_power(factors))
}

/// The order in which the powers are multiplied does not matter.
proof fn lemma_times_commutes(factors: Map<usize, usize>)
    ensures
        is_fun_commutative(times_prime_power(factors)),
{
    let f = times_prime_power(factors);
    assert forall|a1: usize, a2: usize, b: int| #[trigger] f(f(b, a2), a1) == f(f(b, a1), a2) by {
        let x1 = pow(a1 as int, factors[a1] as nat);
        let x2 = pow(a2 as int, factors[a2] as nat);
        assert((b * x2) * x1 == (b * x1) * x2) by (nonlinear_arith);
    }
}

/// Two maps that agree on `keys` give the same product over `keys`.
proof fn lemma_product_over_agreeing(
    keys: Set<usize>,
    first: Map<usize, usize>,
    second: Map<usize, usize>,
)
    requires
        keys.finite(),
        forall|p: usize| keys.contains(p) ==> first[p] == second[p],
    ensures
        keys.fold(1int, times_prime_power(first)) == keys.fold(1int, times_prime_power(second)),
    decreases keys.len(),
{
    lemma_times_commutes(first);
    lemma_times_commutes(second);
    if keys.is_empty() {
        assert(keys =~= Set::empty());
        lemma_fold_empty(1int, times_prime_power(first));
        lemma_fold_empty(1int, times_prime_power(second));
    } else {
        let p = keys.choose();
        let others = keys.remove(p);
        lemma_product_over_agreeing(others, first, second);
        lemma_fold_insert(others, 1int, times_prime_power(first), p);
        lemma_fold_insert(others, 1int, times_prime_power(second), p);
        assert(others.insert(p) =~= keys);
    }
}

/// The map without any key stands for one.
pub proof fn lemma_product_of_nothing()
    ensures
        factors_product(Map::empty()) == 1,
{
    let nothing = Map::<usize, usize>::empty();
    assert(nothing.dom() =~= Set::empty());
    lemma_fold_empty(1int, times_prime_power(nothing));
}

/// Recording one more factor `p` multiplies the product by `p`.
pub proof fn lemma_product_with_one_more(factors: Map<usize, usize>, p: usize)
    requires
        factors.dom().finite(),
        recorded_exponent(factors, p) < usize::MAX,
    ensures
        factors_product(factors.insert(p, (recorded_exponent(factors, p) + 1) as usize))
            == factors_product(factors) * p,
{
    let e = recorded_exponent(factors, p);
    let after = factors.insert(p, (e + 1) as usize);
    let others = factors.dom().remove(p);
    let rest = others.fold(1int, times_prime_power(factors));
    lemma_times_commutes(factors);
    lemma_times_commutes(after);
    lemma_product_over_agreeing(others, factors, after);
    lemma_fold_insert(others, 1int, times_prime_power(after), p);
    assert(after.dom() =~= others.insert(p));
    assert(pow(p as int, e + 1) == p * pow(p as int, e)) by {
        reveal(pow);
    }
    if factors.contains_key(p) {
        lemma_fold_insert(others, 1int, times_prime_power(factors), p);
        assert(factors.dom() =~= others.insert(p));
        assert(rest * pow(p as int, e + 1) == (rest * pow(p as int, e)) * p) by (nonlinear_arith)
            requires
                pow(p as int, e + 1) == p * pow(p as int, e),
        ;
    } else {
        assert(factors.dom() =~= others);
        lemma_pow1(p as int);
    }
}

/// The exponent of `p` in a positive `n` is less than `n`.
proof fn lemma_multiplicity_below(n: int, p: int)
    requires
        1 <= n,
    ensures
        multiplicity(n, p) < n,
    decreases n,
{
    if 2 <= p && n % p == 0 {
        lemma_quotient_decreases(p, n);
        lemma_multiplicity_below(n / p, p);
    }
}

/// Factors `k` with the help of `spf`, a table of smallest prime factors that
/// reaches `k`. The keys of the result are the primes that divide `k`, each
/// with its exponent in `k`; for zero and one there is none.
pub fn prime_factorization(k: usize, spf: &Vec<usize>) -> (factors: HashMap<usize, usize>)
    requires
        is_sieve_table(spf@),
        k < spf.len(),
    ensures
        forall|p: usize|
            #[trigger] factors@.contains_key(p) <==> 1 <= k && is_prime(p as int) && divides(
                p as int,
                k as int,
            ),
        forall|p: usize|
            #[trigger] factors@.contains_key(p) ==> factors@[p] == multiplicity(
                k as int,
                p as int,
            ),
        1 <= k ==> factors_product(factors@) == k,
{
    broadcast use group_hash_axioms;

    let mut result: HashMap<usize, usize> = HashMap::new();
    let mut rest = k;
    proof {
        lemma_product_of_nothing();
        assert(result@ =~= Map::empty());
    }
    while rest > 1
        invariant
            rest <= k < spf.len(),
            is_sieve_table(spf@),
            1 <= k ==> 1 <= rest,
            forall|p: usize|
                #[trigger] result@.contains_key(p) ==> is_prime(p as int) && result@[p] >= 1,
            forall|p: usize|
                is_prime(p as int) ==> multiplicity(k as int, p as int) == multiplicity(
                    rest as int,
                    p as int,
                ) + #[trigger] recorded_exponent(result@, p),
            1 <= k ==> k == rest * factors_product(result@),
        decreases rest,
    {
        let p = spf[rest];
        let ghost before = result@;
        let ghost next = rest as int / p as int;
        proof {
            lemma_quotient_decreases(p as int, rest as int);
            assert(rest == next * p) by (nonlinear_arith)
                requires
                    rest == p * next,
            ;
            lemma_multiplicity_times_base(next, p as int);
            lemma_multiplicity_below(k as int, p as int);
            assert(recorded_exponent(before, p) + 1 <= usize::MAX);
        }
        *result.entry(p).or_insert(0) += 1;
        rest /= p;
        proof {
            assert(result@ == before.insert(p, (recorded_exponent(before, p) + 1) as usize));
            lemma_product_with_one_more(before, p);
            assert(k == rest * factors_product(result@)) by (nonlinear_arith)
                requires
                    k == (rest * p) * factors_product(before),
                    factors_product(result@) == factors_product(before) * p,
            ;
            assert forall|q: usize| is_prime(q as int) implies multiplicity(k as int, q as int)
                == multiplicity(rest as int, q as int) + #[trigger] recorded_exponent(
                result@,
                q,
            ) by {
                assert(multiplicity(k as int, q as int) == multiplicity(next * p, q as int)
                    + recorded_exponent(before, q));
                if q != p {
                    lemma_multiplicity_times_other_prime(next, p as int, q as int);
                }
            }
        }
    }
    proof {
        // What is left is zero or one, in which no prime occurs.
        assert forall|p: usize|
            result@.contains_key(p) <==> 1 <= k && is_prime(p as int) && divides(
                p as int,
                k as int,
            ) by {
            let _ = recorded_exponent(result@, p);
            if 2 <= p {
                lemma_small_not_divisible(p as int, 1);
            }
        }
        assert forall|p: usize| result@.contains_key(p) implies result@[p] == multiplicity(
            k as int,
            p as int,
        ) by {
            let _ = recorded_exponent(result@, p);
            if 2 <= p {
                lemma_small_not_divisible(p as int, 1);
            }
        }
    }
    result
}

} // verus!
