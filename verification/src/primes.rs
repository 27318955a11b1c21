use vstd::arithmetic::div_mod::{
    lemma_mod_multiples_basic, lemma_mod_multiples_vanish, lemma_mul_mod_noop_general,
    lemma_small_mod,
};
use crate::arith::{gcd_nat, lemma_gcd_divides};
use vstd::prelude::*;

verus! {

/// `n` is a prime number.
pub open spec fn is_prime(n: int) -> bool {
    n >= 2 && forall|d: int| 2 <= d < n ==> #[trigger] (n % d) != 0
}

/// `alpha` is the least odd prime that does not divide `q`.
pub open spec fn is_first_coprime_prime(alpha: int, q: int) -> bool {
    &&& alpha >= 3
    &&& is_prime(alpha)
    &&& q % alpha != 0
    &&& forall|r: int| 3 <= r < alpha && is_prime(r) ==> #[trigger] (q % r) == 0
}

/// The product of the numbers from 1 to `n`.
pub open spec fn factorial(n: nat) -> nat
    decreases n,
{
    if n == 0 {
        1
    } else {
        n * factorial((n - 1) as nat)
    }
}

/// There is only one least odd prime that does not divide `q`.
pub proof fn lemma_first_coprime_prime_unique(a: int, b: int, q: int)
    requires
        is_first_coprime_prime(a, q),
        is_first_coprime_prime(b, q),
    ensures
        a == b,
{
    if a < b {
        assert(q % a == 0);
    }
    if b < a {
        assert(q % b == 0);
    }
}

/// A divisor of a divisor is a divisor.
pub proof fn lemma_divides_transitive(n: int, d: int, p: int)
    requires
        d > 0,
        p > 0,
        n % d == 0,
        d % p == 0,
    ensures
        n % p == 0,
{
    vstd::arithmetic::div_mod::lemma_fundamental_div_mod(n, d);
    vstd::arithmetic::div_mod::lemma_fundamental_div_mod(d, p);
    let k = n / d;
    let j = d / p;
    assert(n == (j * k) * p) by (nonlinear_arith)
        requires
            n == d * k,
            d == p * j,
    ;
    lemma_mod_multiples_basic(j * k, p);
}

/// Every number from two on has a prime divisor.
pub proof fn lemma_has_prime_divisor(n: int) -> (p: int)
    requires
        n >= 2,
    ensures
        is_prime(p),
        p <= n,
        n % p == 0,
    decreases n,
{
    if is_prime(n) {
        lemma_mod_multiples_basic(1, n);
        n
    } else {
        let d = choose|d: int| 2 <= d < n && #[trigger] (n % d) == 0;
        let p = lemma_has_prime_divisor(d);
        lemma_divides_transitive(n, d, p);
        p
    }
}

/// Every number from 1 to `n` divides the factorial of `n`.
pub proof fn lemma_factorial_divisible(n: nat, k: int)
    requires
        1 <= k <= n,
    ensures
        factorial(n) % (k as nat) == 0,
        factorial(n) >= 1,
    decreases n,
{
    let rest = factorial((n - 1) as nat);
    if n == 1 {
        assert(factorial(0) == 1);
        assert(factorial(1) == 1);
    } else if k == n {
        lemma_factorial_divisible((n - 1) as nat, 1);
        assert(n * rest == rest * n) by (nonlinear_arith);
        lemma_mod_multiples_basic(rest as int, n as int);
        assert(n * rest >= 1) by (nonlinear_arith)
            requires
                n >= 1,
                rest >= 1,
        ;
    } else {
        lemma_factorial_divisible((n - 1) as nat, k);
        lemma_mul_mod_noop_general(n as int, rest as int, k);
        assert((n as int) * 0 == 0);
        lemma_small_mod(0, k as nat);
        assert(n * rest >= 1) by (nonlinear_arith)
            requires
                n >= 1,
                rest >= 1,
        ;
    }
}

/// Euclid's theorem: above every number there is a prime.
pub proof fn lemma_prime_above(n: nat) -> (p: int)
    ensures
        is_prime(p),
        p > n,
{
    if n == 0 {
        assert(factorial(0) == 1);
    } else {
        lemma_factorial_divisible(n, 1);
    }
    let f = factorial(n) as int;
    let p = lemma_has_prime_divisor(f + 1);
    if p <= n {
        lemma_factorial_divisible(n, p);
        vstd::arithmetic::div_mod::lemma_fundamental_div_mod(f, p);
        lemma_mod_multiples_vanish(f / p, 1, p);
        lemma_small_mod(1, p as nat);
        assert(p * (f / p) + 1 == f + 1);
    }
    p
}

/// A prime is coprime to every number that it does not divide.
pub proof fn lemma_prime_is_coprime(p: nat, q: nat)
    requires
        is_prime(p as int),
        q % p != 0,
    ensures
        gcd_nat(p, q) == 1,
{
    lemma_gcd_divides(p, q);
    let g = gcd_nat(p, q);
    if g != 1 {
        if g < p {
            assert((p as int) % (g as int) != 0);
        } else if g > p {
            lemma_small_mod(p, g);
        }
    }
}

} // verus!
