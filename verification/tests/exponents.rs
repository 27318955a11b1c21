use bellman_ce::pairing::bn256::Fr;
use bellman_ce::pairing::ff::PrimeField;
use num_bigint::{BigInt, ToBigInt};
use rescue::{
    derive_exponents, first_coprime_prime, fr_to_bigint, gcd, get_alpha, get_bits_be,
    inverse_exponent, prime_modulus, FieldElement, Integer,
};

fn to_big(v: &Integer) -> BigInt {
    BigInt::from_signed_bytes_be(&v.to_signed_bytes_be())
}

fn to_integer(v: &BigInt) -> Integer {
    Integer::from_signed_bytes_be(v.to_signed_bytes_be())
}

fn small(v: i64) -> Integer {
    to_integer(&ToBigInt::to_bigint(&v).unwrap())
}

fn element(s: &str) -> FieldElement {
    FieldElement::from_repr(Fr::from_str(s).unwrap().into_repr().0).unwrap()
}

fn bn256_modulus() -> BigInt {
    BigInt::parse_bytes(
        b"21888242871839275222246405745257275088548364400416034343698204186575808495617",
        10,
    )
    .unwrap()
}

#[test]
fn test_gcd() {
    let values: Vec<(i64, i64, i64)> = vec![
        (2, 1, 1),
        (3, 1, 1),
        (3, 2, 1),
        (4, 1, 1),
        (4, 2, 2),
        (4, 3, 1),
        (5, 1, 1),
        (5, 2, 1),
        (5, 3, 1),
        (5, 4, 1),
        (6, 1, 1),
        (6, 2, 2),
        (6, 3, 3),
        (6, 4, 2),
        (6, 5, 1),
        (7, 1, 1),
        (7, 2, 1),
        (7, 3, 1),
        (7, 4, 1),
        (7, 5, 1),
        (7, 6, 1),
        (8, 1, 1),
        (8, 2, 2),
        (8, 3, 1),
        (8, 4, 4),
        (8, 5, 1),
        (8, 6, 2),
        (8, 7, 1),
    ];
    for (a, b, d) in values {
        let big_a = ToBigInt::to_bigint(&a).unwrap();
        let big_b = ToBigInt::to_bigint(&b).unwrap();
        let big_d = ToBigInt::to_bigint(&d).unwrap();
        let (res_d, (x, y)) = gcd(&to_integer(&big_a), &to_integer(&big_b));
        assert_eq!(to_big(&res_d), big_d.clone());
        assert_eq!(big_a * to_big(&x) + big_b * to_big(&y), big_d);
    }
}

#[test]
fn gcd_is_symmetric_and_transposes_coefficients() {
    for a in 1..40i64 {
        for b in 1..40i64 {
            let (d, (x, y)) = gcd(&small(a), &small(b));
            let (d1, (x1, y1)) = gcd(&small(b), &small(a));
            assert_eq!(to_big(&d), to_big(&d1));
            assert_eq!(a % to_i64(&d), 0);
            assert_eq!(b % to_i64(&d), 0);
            assert_eq!(a * to_i64(&x) + b * to_i64(&y), to_i64(&d));
            if a != b {
                assert_eq!(to_big(&x), to_big(&y1));
                assert_eq!(to_big(&y), to_big(&x1));
            }
        }
    }
}

fn to_i64(v: &Integer) -> i64 {
    let digits = to_big(v).to_string();
    digits.parse::<i64>().unwrap()
}

#[test]
fn gcd_exact_coefficients() {
    let (d, (x, y)) = gcd(&small(12), &small(18));
    assert_eq!(to_i64(&d), 6);
    assert_eq!(to_i64(&x), -1);
    assert_eq!(to_i64(&y), 1);
    let (d, (x, y)) = gcd(&small(18), &small(12));
    assert_eq!(to_i64(&d), 6);
    assert_eq!(to_i64(&x), 1);
    assert_eq!(to_i64(&y), -1);
}

#[test]
fn gcd_of_zero_and_of_equal_arguments() {
    let (d, (x, y)) = gcd(&small(0), &small(9));
    assert_eq!((to_i64(&d), to_i64(&x), to_i64(&y)), (9, 0, 1));
    let (d, (x, y)) = gcd(&small(7), &small(7));
    assert_eq!((to_i64(&d), to_i64(&x), to_i64(&y)), (7, 1, 0));
}

#[test]
fn gcd_on_large_arguments() {
    let p = bn256_modulus();
    let q = &p - 1;
    let five = ToBigInt::to_bigint(&5).unwrap();
    let (d, (x, y)) = gcd(&to_integer(&five), &to_integer(&q));
    assert_eq!(to_big(&d), ToBigInt::to_bigint(&1).unwrap());
    assert_eq!(&five * to_big(&x) + &q * to_big(&y), ToBigInt::to_bigint(&1).unwrap());
}

#[test]
fn alpha_test() {
    let alpha = get_alpha();
    assert_eq!(alpha, element("5"));
}

#[test]
fn prime_modulus_is_the_order_of_the_scalar_field() {
    assert_eq!(to_big(&prime_modulus()), bn256_modulus());
}

#[test]
fn fr_to_bigint_gives_the_representative() {
    assert_eq!(to_i64(&fr_to_bigint(element("0"))), 0);
    assert_eq!(to_i64(&fr_to_bigint(element("1"))), 1);
    assert_eq!(to_i64(&fr_to_bigint(element("123456789"))), 123456789);
    let top = "21888242871839275222246405745257275088548364400416034343698204186575808495616";
    assert_eq!(to_big(&fr_to_bigint(element(top))), bn256_modulus() - 1);
}

#[test]
fn first_coprime_prime_skips_the_prime_factors() {
    assert_eq!(to_i64(&first_coprime_prime(&small(1))), 3);
    assert_eq!(to_i64(&first_coprime_prime(&small(2))), 3);
    assert_eq!(to_i64(&first_coprime_prime(&small(3))), 5);
    assert_eq!(to_i64(&first_coprime_prime(&small(30))), 7);
    assert_eq!(to_i64(&first_coprime_prime(&small(15015))), 17);
    assert_eq!(to_i64(&first_coprime_prime(&small(3 * 5 * 7 * 11 * 13 * 17 * 19 * 23))), 29);
}

#[test]
fn first_coprime_prime_of_the_group_order() {
    let q = bn256_modulus() - 1;
    assert_eq!(to_i64(&first_coprime_prime(&to_integer(&q))), 5);
}

#[test]
fn inverse_exponent_is_the_inverse_modulo_the_order() {
    assert_eq!(to_i64(&inverse_exponent(&small(5), &small(6))), 5);
    assert_eq!(to_i64(&inverse_exponent(&small(3), &small(10))), 7);
    assert_eq!(to_i64(&inverse_exponent(&small(7), &small(10))), 3);
    let q = bn256_modulus() - 1;
    let five = ToBigInt::to_bigint(&5).unwrap();
    let inverse = to_big(&inverse_exponent(&to_integer(&five), &to_integer(&q)));
    assert!(inverse >= ToBigInt::to_bigint(&0).unwrap());
    assert!(inverse < q);
    assert_eq!((&five * &inverse) % &q, ToBigInt::to_bigint(&1).unwrap());
}

#[test]
fn inverse_exponent_of_an_exponent_above_the_order() {
    // 13 is 3 modulo 10, whose inverse is 7
    assert_eq!(to_i64(&inverse_exponent(&small(13), &small(10))), 7);
}

#[test]
fn bits_are_big_endian_without_leading_zeros() {
    assert_eq!(get_bits_be(&element("5")), vec![true, false, true]);
    assert_eq!(get_bits_be(&element("6")), vec![true, true, false]);
    assert_eq!(get_bits_be(&element("1")), vec![true]);
    assert_eq!(get_bits_be(&element("8")), vec![true, false, false, false]);
    assert_eq!(get_bits_be(&element("0")), Vec::<bool>::new());
}

#[test]
fn bits_of_the_largest_element() {
    let top = "21888242871839275222246405745257275088548364400416034343698204186575808495616";
    let bits = get_bits_be(&element(top));
    assert_eq!(bits.len(), 254);
    assert!(bits[0]);
    assert!(!bits[253]);
}

#[test]
fn integer_bytes_round_trip() {
    for v in [-300i64, -129, -128, -1, 0, 1, 127, 128, 255, 256, 65535] {
        assert_eq!(to_i64(&small(v)), v);
    }
    assert_eq!(to_i64(&Integer::from_signed_bytes_be(vec![])), 0);
    assert_eq!(to_i64(&Integer::from_signed_bytes_be(vec![0x00, 0xff])), 255);
    assert_eq!(to_i64(&Integer::from_signed_bytes_be(vec![0xff])), -1);
    assert_eq!(to_i64(&Integer::from_signed_bytes_be(vec![0xfb, 0x9b])), -1125);
}

#[test]
fn field_elements_from_limbs() {
    assert_eq!(FieldElement::from_repr([5, 0, 0, 0]), Some(FieldElement::from_u64(5)));
    assert_eq!(FieldElement::from_u64(7).limbs(), [7, 0, 0, 0]);
    assert_eq!(FieldElement::zero().limbs(), [0, 0, 0, 0]);
    assert_eq!(FieldElement::one().limbs(), [1, 0, 0, 0]);
    let modulus = Fr::char().0;
    assert_eq!(FieldElement::from_repr(modulus), None);
    assert_eq!(FieldElement::from_repr([u64::MAX, u64::MAX, u64::MAX, u64::MAX]), None);
    let mut below = modulus;
    below[0] -= 1;
    assert!(FieldElement::from_repr(below).is_some());
    assert!(FieldElement::from_u64(3).equals(&element("3")));
    assert!(!FieldElement::from_u64(3).equals(&element("4")));
}

#[test]
fn derive_exponents_of_small_primes() {
    let (alpha, anti_alpha) = derive_exponents(&small(7));
    assert_eq!((to_i64(&alpha), to_i64(&anti_alpha)), (5, 5));
    let (alpha, anti_alpha) = derive_exponents(&small(3));
    assert_eq!((to_i64(&alpha), to_i64(&anti_alpha)), (3, 1));
    let (alpha, anti_alpha) = derive_exponents(&small(2));
    assert_eq!((to_i64(&alpha), to_i64(&anti_alpha)), (3, 0));
    let (alpha, anti_alpha) = derive_exponents(&small(31));
    assert_eq!((to_i64(&alpha), to_i64(&anti_alpha)), (7, 13));
}

#[test]
fn derive_exponents_of_the_scalar_field() {
    let p = bn256_modulus();
    let q = &p - 1;
    let (alpha, anti_alpha) = derive_exponents(&to_integer(&p));
    assert_eq!(to_i64(&alpha), 5);
    let inverse = to_big(&anti_alpha);
    assert!(inverse < q);
    assert_eq!((to_big(&alpha) * &inverse) % &q, ToBigInt::to_bigint(&1).unwrap());
    let expected = BigInt::parse_bytes(
        b"17510594297471420177797124596205820070838691520332827474958563349260646796493",
        10,
    )
    .unwrap();
    assert_eq!(inverse, expected);
}
