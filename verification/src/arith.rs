use vstd::arithmetic::div_mod::{
    lemma_fundamental_div_mod, lemma_mod_bound, lemma_mod_multiples_basic, lemma_mod_pos_bound,
    lemma_mul_mod_noop, lemma_small_mod,
};
use vstd::arithmetic::power::{lemma_pow_adds, pow};
use vstd::prelude::*;

verus! {

/// The greatest common divisor of two natural numbers, by Euclid's recursion.
pub open spec fn gcd_nat(a: nat, b: nat) -> nat
    decreases a,
{
    if a == 0 {
        b
    } else {
        gcd_nat(b % a, a)
    }
}

/// The pair of coefficients `(x, y)` that the extended Euclidean recursion
/// gives for `(a, b)`: the larger argument is moved to the right, the pair for
/// `(0, b)` is `(0, 1)`, and the pair for `(a, b)` comes from the one for
/// `(b mod a, a)` by back-substitution.
pub open spec fn bezout(a: nat, b: nat) -> (int, int)
    decreases a,
{
    if a > b {
        let (x, y) = bezout(b, a);
        (y, x)
    } else if a == 0 {
        (0, 1)
    } else {
        let (x1, y1) = bezout(b % a, a);
        (y1 - (b / a) * x1, x1)
    }
}

/// The natural number that a big-endian string of binary digits denotes.
pub open spec fn bits_value(bits: Seq<bool>) -> nat
    decreases bits.len(),
{
    if bits.len() == 0 {
        0
    } else {
        2 * bits_value(bits.drop_last()) + (if bits.last() { 1nat } else { 0nat })
    }
}

/// The binary digits of `v`, most significant first, without leading zeros;
/// zero has no digits.
pub open spec fn binary_digits(v: nat) -> Seq<bool>
    decreases v,
{
    if v == 0 {
        Seq::empty()
    } else {
        binary_digits(v / 2).push(v % 2 == 1)
    }
}

/// The number of binary digits that are set.
pub open spec fn count_ones(bits: Seq<bool>) -> nat
    decreases bits.len(),
{
    if bits.len() == 0 {
        0
    } else {
        count_ones(bits.drop_last()) + (if bits.last() { 1nat } else { 0nat })
    }
}

/// `b^e` reduced modulo `m`.
pub open spec fn pow_mod(b: int, e: nat, m: int) -> int {
    vstd::arithmetic::power::pow(b, e) % m
}

/// A digit string without a leading zero is the digit string of its value.
pub proof fn lemma_binary_digits_unique(bits: Seq<bool>)
    requires
        bits.len() == 0 || bits[0],
    ensures
        bits == binary_digits(bits_value(bits)),
        bits.len() > 0 ==> bits_value(bits) > 0,
    decreases bits.len(),
{
    if bits.len() == 0 {
    } else {
        let rest = bits.drop_last();
        let v = bits_value(bits);
        if rest.len() > 0 {
            assert(rest[0] == bits[0]);
        }
        lemma_binary_digits_unique(rest);
        if rest.len() == 0 {
            assert(bits.last() == bits[0]);
            assert(v == 1);
            assert(binary_digits(0) =~= Seq::<bool>::empty());
            assert(binary_digits(1) == binary_digits(0).push(true));
        }
        assert(v / 2 == bits_value(rest));
        assert((v % 2 == 1) == bits.last());
        assert(bits =~= rest.push(bits.last()));
    }
}

/// A product of two powers of one base, in modular arithmetic.
pub proof fn lemma_pow_mod_adds(b: int, e1: nat, e2: nat, m: int)
    requires
        m > 0,
    ensures
        (pow_mod(b, e1, m) * pow_mod(b, e2, m)) % m == pow_mod(b, e1 + e2, m),
{
    lemma_pow_adds(b, e1, e2);
    lemma_mul_mod_noop(pow(b, e1), pow(b, e2), m);
}

/// The greatest common divisor does not depend on the order of its arguments.
pub proof fn lemma_gcd_symmetric(a: nat, b: nat)
    ensures
        gcd_nat(a, b) == gcd_nat(b, a),
    decreases a + b,
{
    if a == 0 || b == 0 {
        assert(gcd_nat(0, 0) == 0);
        if a == 0 && b > 0 {
            assert(0nat % b == 0);
            assert(gcd_nat(b, 0) == gcd_nat(0, b));
        }
        if b == 0 && a > 0 {
            assert(0nat % a == 0);
            assert(gcd_nat(a, 0) == gcd_nat(0, a));
        }
    } else if a < b {
        // gcd(b, a) unfolds to gcd(a % b, b), and a % b == a
        lemma_small_mod_nat(a, b);
        assert(gcd_nat(b, a) == gcd_nat(a % b, b));
    } else if a > b {
        lemma_small_mod_nat(b, a);
        assert(gcd_nat(a, b) == gcd_nat(b % a, a));
    }
}

proof fn lemma_small_mod_nat(x: nat, m: nat)
    requires
        x < m,
    ensures
        x % m == x,
{
    lemma_small_mod(x, m);
}

/// Bézout's identity for the coefficients of the extended Euclidean recursion.
pub proof fn lemma_bezout_identity(a: nat, b: nat)
    ensures
        a * bezout(a, b).0 + b * bezout(a, b).1 == gcd_nat(a, b),
    decreases a,
{
    if a > b {
        lemma_bezout_identity(b, a);
        lemma_gcd_symmetric(a, b);
    } else if a == 0 {
    } else {
        let r = b % a;
        let q = b / a;
        lemma_mod_pos_bound(b as int, a as int);
        lemma_bezout_identity(r, a);
        lemma_fundamental_div_mod(b as int, a as int);
        let (x1, y1) = bezout(r, a);
        assert(b == a * q + r);
        assert(a * (y1 - q * x1) + b * x1 == r * x1 + a * y1) by (nonlinear_arith)
            requires
                b == a * q + r,
        ;
    }
}

/// The greatest common divisor divides both numbers.
pub proof fn lemma_gcd_divides(a: nat, b: nat)
    requires
        a > 0 || b > 0,
    ensures
        gcd_nat(a, b) > 0,
        a % gcd_nat(a, b) == 0,
        b % gcd_nat(a, b) == 0,
    decreases a,
{
    if a == 0 {
        lemma_mod_multiples_basic(1, b as int);
        lemma_small_mod(0, b);
    } else {
        let r = b % a;
        let q = b / a;
        lemma_mod_bound(b as int, a as int);
        lemma_gcd_divides(r, a);
        let d = gcd_nat(r, a);
        lemma_fundamental_div_mod(b as int, a as int);
        lemma_fundamental_div_mod(r as int, d as int);
        lemma_fundamental_div_mod(a as int, d as int);
        let u = r / d;
        let v = a / d;
        assert(b == d * (v * q + u)) by (nonlinear_arith)
            requires
                b == a * q + r,
                r == d * u,
                a == d * v,
        ;
        assert(b == (v * q + u) * d) by (nonlinear_arith)
            requires
                b == d * (v * q + u),
        ;
        lemma_mod_multiples_basic((v * q + u) as int, d as int);
    }
}

/// Every common divisor divides the greatest common divisor.
pub proof fn lemma_gcd_greatest(a: nat, b: nat, c: nat)
    requires
        c > 0,
        a % c == 0,
        b % c == 0,
    ensures
        gcd_nat(a, b) % c == 0,
{
    lemma_bezout_identity(a, b);
    let (x, y) = bezout(a, b);
    lemma_fundamental_div_mod(a as int, c as int);
    lemma_fundamental_div_mod(b as int, c as int);
    let u = (a / c) as int;
    let v = (b / c) as int;
    assert(a * x + b * y == (u * x + v * y) * c) by (nonlinear_arith)
        requires
            a == c * u,
            b == c * v,
    ;
    lemma_mod_multiples_basic(u * x + v * y, c as int);
}

/// Swapping two different arguments swaps the coefficient pair.
pub proof fn lemma_bezout_transposed(a: nat, b: nat)
    requires
        a != b,
    ensures
        bezout(b, a) == (bezout(a, b).1, bezout(a, b).0),
{
}

} // verus!
