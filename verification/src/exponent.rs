use crate::arith::{bezout, gcd_nat, lemma_bezout_identity};
use crate::field::{
    bigint_to_fr, characteristic, modulus, repr_sub_noborrow, repr_write_be, FieldElement,
};
use crate::integer::Integer;
use crate::primes::{
    is_first_coprime_prime, is_prime, lemma_first_coprime_prime_unique, lemma_has_prime_divisor,
    lemma_prime_above, lemma_prime_is_coprime,
};
use vstd::arithmetic::div_mod::{lemma_mod_is_zero, lemma_mod_multiples_basic, lemma_small_mod};
use vstd::arithmetic::div_mod::{
    lemma_fundamental_div_mod, lemma_mod_add_multiples_vanish, lemma_mod_pos_bound,
};
use vstd::prelude::*;

verus! {

/// Extended Euclidean algorithm: the greatest common divisor `d` of `a` and
/// `b`, and coefficients `(x, y)` with `a * x + b * y == d`.
pub fn gcd(a: &Integer, b: &Integer) -> (r: (Integer, (Integer, Integer)))
    requires
        a@ >= 0,
        b@ > 0,
    ensures
        r.0@ == gcd_nat(a@ as nat, b@ as nat),
        (r.1.0@, r.1.1@) == bezout(a@ as nat, b@ as nat),
        a@ * r.1.0@ + b@ * r.1.1@ == r.0@,
    decreases a@,
{
    proof {
        lemma_bezout_identity(a@ as nat, b@ as nat);
    }
    let zero = Integer::from_i64(0);
    let one = Integer::from_i64(1);
    if b.less_than(a) {
        let (d, (x1, y1)) = gcd(b, a);
        proof {
            crate::arith::lemma_gcd_symmetric(a@ as nat, b@ as nat);
        }
        (d, (y1, x1))
    } else if a.equals(&zero) {
        (b.clone(), (zero, one))
    } else {
        proof {
            lemma_fundamental_div_mod(b@, a@);
            lemma_mod_pos_bound(b@, a@);
        }
        let rest = b.remainder(a);
        let (d, (x1, y1)) = gcd(&rest, a);
        let x = y1.minus(&b.quotient(a).times(&x1));
        (d, (x, x1))
    }
}

/// The representative of a field element as an arbitrary-precision integer.
pub fn fr_to_bigint(fr: FieldElement) -> (r: Integer)
    ensures
        r@ == fr@,
{
    let buffer = repr_write_be(fr);
    Integer::from_bytes_be(&buffer)
}

/// The prime modulus of the field. The characteristic itself is no element of
/// the field, so its predecessor is converted and one is added back.
pub fn prime_modulus() -> (r: Integer)
    ensures
        r@ == modulus(),
{
    let p_repr = characteristic();
    let one_repr = FieldElement::one().limbs();
    let p_field = FieldElement::decode(repr_sub_noborrow(p_repr, one_repr)).unwrap();
    let one = Integer::from_i64(1);
    fr_to_bigint(p_field).plus(&one)
}

/// The coefficient of `alpha` in Bézout's identity for `alpha` and `order`,
/// reduced into `[0, order)`. Where the two are coprime it is the inverse of
/// `alpha` modulo `order`.
pub open spec fn inverse_exponent_of(alpha: nat, order: nat) -> int {
    bezout(alpha, order).0 % (order as int)
}

/// Where `alpha` and `order` are coprime, `inverse_exponent_of` is the inverse
/// of `alpha` modulo `order`.
pub proof fn lemma_inverse_exponent(alpha: nat, order: nat)
    requires
        order > 1,
        gcd_nat(alpha, order) == 1,
    ensures
        0 <= inverse_exponent_of(alpha, order) < order,
        (alpha * inverse_exponent_of(alpha, order)) % (order as int) == 1,
{
    let q = order as int;
    let (x, y) = bezout(alpha, order);
    lemma_bezout_identity(alpha, order);
    vstd::arithmetic::div_mod::lemma_mod_bound(x, q);
    vstd::arithmetic::div_mod::lemma_mul_mod_noop_general(alpha as int, x, q);
    assert(alpha * x == q * (-y) + 1) by (nonlinear_arith)
        requires
            alpha * x + q * y == 1,
    ;
    vstd::arithmetic::div_mod::lemma_mod_multiples_vanish(-y, 1, q);
    lemma_small_mod(1, order);
}

/// The inverse of the exponent `alpha` modulo `order`, from the extended
/// Euclidean algorithm.
pub fn inverse_exponent(alpha: &Integer, order: &Integer) -> (r: Integer)
    requires
        alpha@ >= 0,
        order@ > 0,
    ensures
        r@ == inverse_exponent_of(alpha@ as nat, order@ as nat),
        0 <= r@ < order@,
{
    let zero = Integer::from_i64(0);
    let (_, (coefficient, _)) = gcd(alpha, order);
    let ghost start = coefficient@;
    let mut corrected = coefficient;
    while corrected.less_than(&zero)
        invariant
            order@ > 0,
            zero@ == 0,
            corrected@ % order@ == start % order@,
        decreases
                if corrected@ < 0 {
                    -corrected@
                } else {
                    0
                },
    {
        proof {
            lemma_mod_add_multiples_vanish(corrected@, order@);
        }
        corrected = corrected.plus(order);
    }
    proof {
        lemma_fundamental_div_mod(corrected@, order@);
        lemma_mod_pos_bound(corrected@, order@);
    }
    corrected.remainder(order)
}

/// Whether none of the numbers in `sieve` divides `candidate`.
fn indivisible_by_all(candidate: &Integer, sieve: &Vec<Integer>) -> (r: bool)
    requires
        candidate@ >= 0,
        forall|k: int| 0 <= k < sieve@.len() ==> (#[trigger] sieve@[k])@ >= 2,
    ensures
        r == forall|k: int| 0 <= k < sieve@.len() ==> candidate@ % (#[trigger] sieve@[k])@ != 0,
{
    let zero = Integer::from_i64(0);
    let mut prime = true;
    let mut k: usize = 0;
    while k < sieve.len()
        invariant
            0 <= k <= sieve@.len(),
            zero@ == 0,
            candidate@ >= 0,
            forall|j: int| 0 <= j < sieve@.len() ==> (#[trigger] sieve@[j])@ >= 2,
            prime == forall|j: int| 0 <= j < k ==> candidate@ % (#[trigger] sieve@[j])@ != 0,
        decreases sieve@.len() - k,
    {
        proof {
            assert(sieve@[k as int]@ >= 2);
            lemma_fundamental_div_mod(candidate@, sieve@[k as int]@);
        }
        let rest = candidate.remainder(&sieve[k]);
        let divides = rest.equals(&zero);
        proof {
            if divides {
                assert(candidate@ % sieve@[k as int]@ == 0);
            }
        }
        prime = prime && !divides;
        k = k + 1;
    }
    prime
}

/// The least odd prime that does not divide `q`, found by trial division
/// against a growing list of the primes seen so far.
pub fn first_coprime_prime(q: &Integer) -> (r: Integer)
    requires
        q@ > 0,
    ensures
        is_first_coprime_prime(r@, q@),
{
    let zero = Integer::from_i64(0);
    let one = Integer::from_i64(1);
    let mut erath: Vec<Integer> = Vec::new();
    erath.push(Integer::from_i64(2));
    erath.push(Integer::from_i64(3));
    let mut res = Integer::from_i64(3);
    proof {
        lemma_three_is_prime();
        assert forall|r: int| is_prime(r) && r <= 3 implies exists|k: int|
            0 <= k < erath@.len() && (#[trigger] erath@[k])@ == r by {
            if r == 2 {
                assert(erath@[0]@ == 2);
            } else {
                assert(erath@[1]@ == 3);
            }
        }
    }
    loop
        invariant
            q@ > 0,
            zero@ == 0,
            one@ == 1,
            res@ >= 3,
            is_prime(res@),
            forall|k: int| 0 <= k < erath@.len() ==> 2 <= (#[trigger] erath@[k])@ <= res@,
            forall|r: int|
                is_prime(r) && r <= res@ ==> exists|k: int|
                    0 <= k < erath@.len() && (#[trigger] erath@[k])@ == r,
            forall|r: int| 3 <= r < res@ && is_prime(r) ==> #[trigger] (q@ % r) == 0,
        ensures
            q@ % res@ != 0,
        decreases
                if res@ <= q@ {
                    q@ - res@ + 1
                } else {
                    0
                },
    {
        proof {
            lemma_fundamental_div_mod(q@, res@);
        }
        if !q.remainder(&res).equals(&zero) {
            break ;
        }
        proof {
            lemma_mod_is_zero(q@ as nat, res@ as nat);
        }
        let ghost found = res@;
        let ghost bound = lemma_prime_above(found as nat);
        while !indivisible_by_all(&res, &erath)
            invariant
                one@ == 1,
                found >= 3,
                found <= res@ <= bound,
                is_prime(bound),
                bound > found,
                forall|m: int| found < m < res@ ==> !is_prime(m),
                forall|k: int| 0 <= k < erath@.len() ==> 2 <= (#[trigger] erath@[k])@ <= found,
            decreases bound - res@,
        {
            proof {
                if res@ > found {
                    let k = choose|k: int|
                        0 <= k < erath@.len() && res@ % (#[trigger] erath@[k])@ == 0;
                    assert(2 <= erath@[k]@ <= found);
                    assert(!is_prime(res@));
                }
            }
            res = res.plus(&one);
        }
        proof {
            let c = res@;
            if c == found {
                let k = choose|k: int| 0 <= k < erath@.len() && (#[trigger] erath@[k])@ == found;
                lemma_mod_multiples_basic(1, found);
                assert(c % erath@[k]@ == 0);
            }
            if !is_prime(c) {
                let d = lemma_has_prime_divisor(c);
                assert(d < c);
                assert(d <= found) by {
                    if d > found {
                        assert(!is_prime(d));
                    }
                }
                let k = choose|k: int| 0 <= k < erath@.len() && (#[trigger] erath@[k])@ == d;
                assert(c % erath@[k]@ == 0);
            }
        }
        let ghost sieve = erath@;
        erath.push(res.clone());
        proof {
            assert forall|r: int| is_prime(r) && r <= res@ implies exists|k: int|
                0 <= k < erath@.len() && (#[trigger] erath@[k])@ == r by {
                if r <= found {
                    let k = choose|k: int| 0 <= k < sieve.len() && (#[trigger] sieve[k])@ == r;
                    assert(erath@[k]@ == r);
                } else {
                    assert(r == res@);
                    assert(erath@[sieve.len() as int]@ == r);
                }
            }
            assert forall|k: int| 0 <= k < erath@.len() implies 2 <= (#[trigger] erath@[k])@
                <= res@ by {
                if k < sieve.len() {
                    assert(erath@[k] == sieve[k]);
                }
            }
        }
    }
    res
}

/// The exponents of the two S-boxes for a field of prime order `p`: the
/// least odd prime that does not divide `p - 1`, and its inverse modulo
/// `p - 1`.
pub fn derive_exponents(p: &Integer) -> (r: (Integer, Integer))
    requires
        p@ >= 2,
    ensures
        is_first_coprime_prime(r.0@, p@ - 1),
        r.1@ == inverse_exponent_of(r.0@ as nat, (p@ - 1) as nat),
        0 <= r.1@ < p@ - 1,
        p@ > 2 ==> (r.0@ * r.1@) % (p@ - 1) == 1,
{
    let one = Integer::from_i64(1);
    let p_m_1 = p.minus(&one);
    let alpha = first_coprime_prime(&p_m_1);
    let anti_alpha = inverse_exponent(&alpha, &p_m_1);
    proof {
        if p@ > 2 {
            lemma_prime_is_coprime(alpha@ as nat, p_m_1@ as nat);
            lemma_inverse_exponent(alpha@ as nat, p_m_1@ as nat);
        }
    }
    (alpha, anti_alpha)
}

proof fn lemma_three_is_prime()
    ensures
        is_prime(3),
{
    assert forall|d: int| 2 <= d < 3 implies #[trigger] (3int % d) != 0 by {
        assert(d == 2);
    }
}

/// In the scalar field of BN256, three divides the order of the
/// multiplicative group and five does not.
pub proof fn lemma_first_coprime_prime_is_five()
    ensures
        is_first_coprime_prime(5, modulus() - 1),
{
    let q = modulus() - 1;
    assert(q % 3 == 0);
    assert(q % 5 != 0);
    assert forall|d: int| 2 <= d < 5 implies #[trigger] (5int % d) != 0 by {
        if d == 2 {
        } else if d == 3 {
        } else {
            assert(d == 4);
        }
    }
    assert forall|r: int| 3 <= r < 5 && is_prime(r) implies #[trigger] (q % r) == 0 by {
        if r == 4 {
            assert(4int % 2 == 0);
        }
    }
}

/// In the scalar field of BN256, five is coprime to the order of the
/// multiplicative group.
pub proof fn lemma_five_is_coprime()
    ensures
        gcd_nat(5, (modulus() - 1) as nat) == 1,
{
    let q = (modulus() - 1) as nat;
    assert(q % 5 == 1);
    assert(gcd_nat(5, q) == gcd_nat(1, 5));
    assert(5nat % 1 == 0);
    assert(gcd_nat(1, 5) == gcd_nat(0, 1));
    assert(gcd_nat(0, 1) == 1);
}

/// The exponent of the S-box: the least odd prime that does not divide the
/// order of the field's multiplicative group.
pub fn get_alpha() -> (r: FieldElement)
    ensures
        r.wf(),
        is_first_coprime_prime(r@, modulus() - 1),
        r@ == 5,
{
    let one = Integer::from_i64(1);
    let p_m_1 = prime_modulus().minus(&one);
    let alpha = first_coprime_prime(&p_m_1);
    proof {
        lemma_first_coprime_prime_is_five();
        lemma_first_coprime_prime_unique(alpha@, 5, modulus() - 1);
        lemma_small_mod(5, modulus() as nat);
    }
    bigint_to_fr(&alpha).unwrap()
}

} // verus!
