use crate::arith::{bezout, gcd_nat, lemma_bezout_identity, lemma_gcd_divides, pow_mod};
use crate::primes::is_prime;
use vstd::arithmetic::div_mod::{
    lemma_fundamental_div_mod, lemma_mod_multiples_basic, lemma_mod_multiples_vanish,
    lemma_mul_mod_noop_general, lemma_small_mod,
};
use vstd::arithmetic::power::{
    lemma0_pow, lemma_pow0, lemma_pow1, lemma_pow_adds, lemma_pow_mod_noop, lemma_pow_multiplies,
    pow,
};
use vstd::prelude::*;

verus! {

/// The binomial coefficient: the number of ways to choose `k` of `n` things,
/// by Pascal's rule.
pub open spec fn binomial(n: nat, k: nat) -> nat
    decreases n,
{
    if k == 0 {
        1
    } else if n == 0 {
        0
    } else {
        binomial((n - 1) as nat, (k - 1) as nat) + binomial((n - 1) as nat, k)
    }
}

/// The first terms of the binomial expansion of `(x + 1)^n`, up to the power
/// `x^j`.
pub open spec fn binomial_sum(n: nat, x: int, j: nat) -> int
    decreases j,
{
    if j == 0 {
        1
    } else {
        binomial_sum(n, x, (j - 1) as nat) + binomial(n, j) * pow(x, j)
    }
}

/// The terms of the expansion before the power `x^j`; none for `j == 0`.
spec fn binomial_sum_before(n: nat, x: int, j: nat) -> int {
    if j == 0 {
        0
    } else {
        binomial_sum(n, x, (j - 1) as nat)
    }
}

proof fn lemma_binomial_above(n: nat, k: nat)
    requires
        k > n,
    ensures
        binomial(n, k) == 0,
    decreases n,
{
    if n > 0 {
        lemma_binomial_above((n - 1) as nat, (k - 1) as nat);
        lemma_binomial_above((n - 1) as nat, k);
    }
}

proof fn lemma_binomial_full(n: nat)
    ensures
        binomial(n, n) == 1,
    decreases n,
{
    if n > 0 {
        lemma_binomial_full((n - 1) as nat);
        lemma_binomial_above((n - 1) as nat, n);
    }
}

proof fn lemma_pow_unfold(x: int, j: nat)
    requires
        j > 0,
    ensures
        pow(x, j) == x * pow(x, (j - 1) as nat),
{
    lemma_pow_adds(x, 1, (j - 1) as nat);
    lemma_pow1(x);
}

/// Pascal's rule, summed: the expansion for `n + 1` is the one for `n` plus
/// `x` times the one for `n` a term earlier.
proof fn lemma_binomial_sum_step(n: nat, x: int, j: nat)
    ensures
        binomial_sum(n + 1, x, j) == binomial_sum(n, x, j) + x * binomial_sum_before(n, x, j),
    decreases j,
{
    if j == 0 {
    } else {
        let i = (j - 1) as nat;
        lemma_binomial_sum_step(n, x, i);
        lemma_pow_unfold(x, j);
        let c0 = binomial(n, i) as int;
        let c1 = binomial(n, j) as int;
        assert(binomial(n + 1, j) == c0 + c1);
        let xi = pow(x, i);
        let xj = pow(x, j);
        let s = binomial_sum(n, x, i);
        let t = binomial_sum_before(n, x, i);
        assert(binomial_sum(n + 1, x, j) == (s + x * t) + (c0 + c1) * xj);
        assert(binomial_sum(n, x, j) == s + c1 * xj);
        if i == 0 {
            lemma_pow0(x);
            assert(s == 1);
            assert(c0 == 1);
            assert((s + x * t) + (c0 + c1) * xj == (s + c1 * xj) + x * s) by (nonlinear_arith)
                requires
                    t == 0,
                    s == 1,
                    c0 == 1,
                    xj == x * xi,
                    xi == 1,
            ;
        } else {
            assert(s == t + c0 * xi);
            assert((s + x * t) + (c0 + c1) * xj == (s + c1 * xj) + x * s) by (nonlinear_arith)
                requires
                    s == t + c0 * xi,
                    xj == x * xi,
            ;
        }
    }
}

/// The binomial theorem for `(x + 1)^n`.
pub proof fn lemma_binomial_theorem(n: nat, x: int)
    ensures
        pow(x + 1, n) == binomial_sum(n, x, n),
    decreases n,
{
    if n == 0 {
        lemma_pow0(x + 1);
    } else {
        let m = (n - 1) as nat;
        lemma_binomial_theorem(m, x);
        lemma_pow_unfold(x + 1, n);
        lemma_binomial_sum_step(m, x, n);
        lemma_binomial_above(m, n);
        let s = binomial_sum(m, x, m);
        assert(binomial_sum(m, x, n) == s + binomial(m, n) * pow(x, n));
        assert(binomial(m, n) * pow(x, n) == 0) by (nonlinear_arith)
            requires
                binomial(m, n) == 0,
        ;
        assert((x + 1) * s == s + x * s) by (nonlinear_arith);
    }
}

/// The absorption identity: `k * C(n, k) == n * C(n - 1, k - 1)`.
proof fn lemma_binomial_absorption(n: nat, k: nat)
    requires
        n >= 1,
        k >= 1,
    ensures
        k * binomial(n, k) == n * binomial((n - 1) as nat, (k - 1) as nat),
    decreases n,
{
    let m = (n - 1) as nat;
    let j = (k - 1) as nat;
    if n == 1 {
        assert(binomial(0, 0) == 1);
        lemma_binomial_above(0, k);
        assert(binomial(1, k) == binomial(0, j) + binomial(0, k));
        if k > 1 {
            lemma_binomial_above(0, j);
        }
        let c = binomial(1, k);
        let d = binomial(0, j);
        assert(k * c == 1 * d) by (nonlinear_arith)
            requires
                c == d,
                k == 1 || d == 0,
        ;
    } else if k == 1 {
        lemma_binomial_absorption(m, 1);
        assert(binomial(m, 0) == 1);
        assert(binomial((m - 1) as nat, 0) == 1);
        let c = binomial(m, 1);
        assert(binomial(n, 1) == 1 + c);
        assert(1 * (1 + c) == n * 1) by (nonlinear_arith)
            requires
                1 * c == m * 1,
                n == m + 1,
        ;
    } else {
        lemma_binomial_absorption(m, k);
        lemma_binomial_absorption(m, j);
        let a = binomial((m - 1) as nat, (j - 1) as nat) as int;
        let b = binomial((m - 1) as nat, j) as int;
        let c = binomial(m, k) as int;
        let d = binomial(m, j) as int;
        assert(d == a + b);
        assert(binomial(n, k) == d + c);
        assert(k * (d + c) == n * d) by (nonlinear_arith)
            requires
                k * c == m * b,
                j * d == m * a,
                d == a + b,
                j == k - 1,
                m == n - 1,
        ;
    }
}

/// Euclid's lemma: a prime that divides a product divides one of the factors.
pub proof fn lemma_prime_divides_product(p: int, a: int, b: int)
    requires
        is_prime(p),
        0 < a,
        0 <= b,
        (a * b) % p == 0,
        a % p != 0,
    ensures
        b % p == 0,
{
    lemma_gcd_divides(a as nat, p as nat);
    let g = gcd_nat(a as nat, p as nat) as int;
    if g != 1 {
        // a divisor of a prime is one or the prime itself
        if g < p {
            assert(p % g != 0);
        } else if g > p {
            lemma_small_mod(p as nat, g as nat);
        }
        assert(g == p);
    }
    lemma_bezout_identity(a as nat, p as nat);
    let (u, v) = bezout(a as nat, p as nat);
    lemma_fundamental_div_mod(a * b, p);
    let t = (a * b) / p;
    assert(b == p * (t * u + b * v)) by (nonlinear_arith)
        requires
            a * u + p * v == 1,
            a * b == p * t,
    ;
    assert(b == (t * u + b * v) * p) by (nonlinear_arith)
        requires
            b == p * (t * u + b * v),
    ;
    lemma_mod_multiples_basic(t * u + b * v, p);
}

/// A prime divides each of its binomial coefficients but the first and the
/// last.
proof fn lemma_prime_divides_binomial(p: nat, k: nat)
    requires
        is_prime(p as int),
        0 < k < p,
    ensures
        binomial(p, k) % p == 0,
{
    lemma_binomial_absorption(p, k);
    let c = binomial(p, k) as int;
    let d = binomial((p - 1) as nat, (k - 1) as nat) as int;
    assert(k * c == d * p) by (nonlinear_arith)
        requires
            k * c == p * d,
    ;
    lemma_mod_multiples_basic(d, p as int);
    lemma_small_mod(k, p);
    lemma_prime_divides_product(p as int, k as int, c);
}

/// Modulo a prime, the expansion of `(x + 1)^p` before its last term is one.
proof fn lemma_binomial_sum_mod_prime(p: nat, x: int, j: nat)
    requires
        is_prime(p as int),
        j < p,
    ensures
        binomial_sum(p, x, j) % (p as int) == 1,
    decreases j,
{
    if j == 0 {
        lemma_small_mod(1, p);
    } else {
        lemma_binomial_sum_mod_prime(p, x, (j - 1) as nat);
        lemma_prime_divides_binomial(p, j);
        let c = binomial(p, j) as int;
        let xj = pow(x, j);
        let s = binomial_sum(p, x, (j - 1) as nat);
        lemma_fundamental_div_mod(c, p as int);
        let t = c / (p as int);
        assert(c * xj == (p as int) * (t * xj)) by (nonlinear_arith)
            requires
                c == (p as int) * t,
        ;
        lemma_mod_multiples_vanish(t * xj, s, p as int);
    }
}

/// Modulo a prime `p`, `(x + 1)^p` is `x^p + 1`.
proof fn lemma_freshman(p: nat, x: int)
    requires
        is_prime(p as int),
    ensures
        pow(x + 1, p) % (p as int) == (pow(x, p) + 1) % (p as int),
{
    lemma_binomial_theorem(p, x);
    lemma_binomial_full(p);
    let s = binomial_sum(p, x, (p - 1) as nat);
    lemma_binomial_sum_mod_prime(p, x, (p - 1) as nat);
    let xp = pow(x, p);
    assert(binomial_sum(p, x, p) == s + 1 * xp);
    assert(1 * xp == xp);
    vstd::arithmetic::div_mod::lemma_add_mod_noop(s, xp, p as int);
    vstd::arithmetic::div_mod::lemma_add_mod_noop(1, xp, p as int);
    lemma_small_mod(1, p);
}

/// Fermat's little theorem: modulo a prime `p`, `x^p` is `x`.
pub proof fn lemma_fermat(p: nat, x: nat)
    requires
        is_prime(p as int),
    ensures
        pow(x as int, p) % (p as int) == x % p,
    decreases x,
{
    if x == 0 {
        lemma0_pow(p);
    } else {
        let y = (x - 1) as nat;
        lemma_fermat(p, y);
        lemma_freshman(p, y as int);
        vstd::arithmetic::div_mod::lemma_add_mod_noop(pow(y as int, p), 1, p as int);
        vstd::arithmetic::div_mod::lemma_add_mod_noop(y as int, 1, p as int);
    }
}

/// Modulo a prime `p`, a power of `x` whose exponent is one more than a
/// multiple of `p - 1` is `x`.
pub proof fn lemma_fermat_multiple(p: nat, x: nat, m: nat)
    requires
        is_prime(p as int),
    ensures
        0 <= 1 + m * (p - 1),
        pow(x as int, (1 + m * (p - 1)) as nat) % (p as int) == x % p,
    decreases m,
{
    assert(0 <= m * (p - 1)) by (nonlinear_arith)
        requires
            p >= 2,
            m >= 0,
    ;
    if m == 0 {
        assert(m * (p - 1) == 0) by (nonlinear_arith)
            requires
                m == 0,
        ;
        lemma_pow1(x as int);
    } else {
        let k = (m - 1) as nat;
        lemma_fermat_multiple(p, x, k);
        lemma_fermat(p, x);
        assert(0 <= k * (p - 1)) by (nonlinear_arith)
            requires
                p >= 2,
                k >= 0,
        ;
        let low = (k * (p - 1)) as nat;
        assert(1 + m * (p - 1) == low + p) by (nonlinear_arith)
            requires
                low == k * (p - 1),
                k == m - 1,
        ;
        let a = pow(x as int, low);
        let xi = x as int;
        let pi = p as int;
        // x^(low + p) = x^low * x^p, which is x^low * x = x^(low + 1) modulo p
        lemma_pow_adds(xi, low, p);
        lemma_pow_adds(xi, low, 1);
        lemma_pow1(xi);
        lemma_mul_mod_noop_general(a, pow(xi, p), pi);
        lemma_mul_mod_noop_general(a, xi, pi);
        assert((a * pow(xi, p)) % pi == (a * (pow(xi, p) % pi)) % pi);
        assert((a * xi) % pi == (a * (xi % pi)) % pi);
    }
}

/// Raising to `a` and then to `b` gives back every residue of a prime `p`
/// where `a * b` is one modulo `p - 1`.
pub proof fn lemma_power_round_trip(p: int, x: int, a: nat, b: nat)
    requires
        is_prime(p),
        0 <= x < p,
        ((a * b) as int) % (p - 1) == 1,
    ensures
        pow_mod(pow_mod(x, a, p), b, p) == x,
{
    let q = p - 1;
    let ab = (a * b) as int;
    assert(q > 0);
    lemma_fundamental_div_mod(ab, q);
    let m = ab / q;
    assert(m >= 0) by {
        vstd::arithmetic::div_mod::lemma_div_pos_is_pos(ab, q);
    }
    assert(ab == 1 + m * q) by (nonlinear_arith)
        requires
            ab == q * m + 1,
    ;
    lemma_fermat_multiple(p as nat, x as nat, m as nat);
    lemma_pow_mod_noop(pow(x, a), b, p);
    lemma_pow_multiplies(x, a, b);
    lemma_small_mod(x as nat, p as nat);
}

} // verus!
