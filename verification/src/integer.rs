use num_bigint::{BigInt, Sign, ToBigInt};
use vstd::arithmetic::power::pow;
use vstd::prelude::*;

verus! {

/// The natural number that a big-endian string of base-256 digits denotes.
pub open spec fn be_value(s: Seq<u8>) -> nat
    decreases s.len(),
{
    if s.len() == 0 {
        0
    } else {
        256 * be_value(s.drop_last()) + s.last() as nat
    }
}

/// The integer that a big-endian two's-complement byte string denotes: the
/// unsigned reading, lowered by `256^len` when the top bit is set. The empty
/// string denotes zero.
pub open spec fn signed_be_value(s: Seq<u8>) -> int {
    if s.len() > 0 && s[0] >= 128 {
        be_value(s) - pow(256, s.len())
    } else {
        be_value(s) as int
    }
}

/// Division rounding toward zero, for a non-zero divisor.
pub open spec fn trunc_div(a: int, b: int) -> int {
    if a >= 0 && b > 0 {
        a / b
    } else if a < 0 && b > 0 {
        -((-a) / b)
    } else if a >= 0 {
        -(a / (-b))
    } else {
        (-a) / (-b)
    }
}

/// The remainder that goes with `trunc_div`; it has the sign of the dividend.
pub open spec fn trunc_rem(a: int, b: int) -> int {
    a - b * trunc_div(a, b)
}

/// An arbitrary-precision signed integer, held as big-endian two's-complement
/// bytes. Its view is the mathematical integer; all arithmetic on it is done
/// by `num_bigint`.
#[derive(Debug, PartialEq, Eq)]
pub struct Integer {
    bytes: Vec<u8>,
}

impl View for Integer {
    type V = int;

    open spec fn view(&self) -> int {
        signed_be_value(self.bytes())
    }
}

impl Clone for Integer {
    fn clone(&self) -> (r: Integer)
        ensures
            r.bytes() == self.bytes(),
    {
        Integer { bytes: self.bytes.clone() }
    }
}

impl Integer {
    /// The bytes that hold the integer.
    pub closed spec fn bytes(&self) -> Seq<u8> {
        self.bytes@
    }

    /// The integer that the given big-endian two's-complement bytes denote.
    pub fn from_signed_bytes_be(bytes: Vec<u8>) -> (r: Integer)
        ensures
            r.bytes() == bytes@,
    {
        Integer { bytes }
    }

    /// The big-endian two's-complement bytes that hold the integer.
    pub fn to_signed_bytes_be(&self) -> (r: Vec<u8>)
        ensures
            r@ == self.bytes(),
    {
        self.bytes.clone()
    }

    /// `ToBigInt::to_bigint` on an `i64`: the integer with the same value.
    #[verifier::external_body]
    pub(crate) fn from_i64(v: i64) -> (r: Integer)
        ensures
            r@ == v,
    {
        Integer { bytes: ToBigInt::to_bigint(&v).unwrap().to_signed_bytes_be() }
    }

    /// `BigInt::from_bytes_be` with a positive sign: the natural number that
    /// the bytes denote as big-endian base-256 digits.
    #[verifier::external_body]
    pub(crate) fn from_bytes_be(bytes: &Vec<u8>) -> (r: Integer)
        ensures
            r@ == be_value(bytes@),
    {
        Integer { bytes: BigInt::from_bytes_be(Sign::Plus, bytes).to_signed_bytes_be() }
    }

    /// `BigInt::modpow`: the power reduced into `[0, modulus)` for a positive
    /// modulus. It panics on a negative exponent and on a zero modulus.
    #[verifier::external_body]
    pub(crate) fn modpow(&self, exponent: &Integer, modulus: &Integer) -> (r: Integer)
        requires
            exponent@ >= 0,
            modulus@ != 0,
        ensures
            modulus@ > 0 ==> r@ == pow(self@, exponent@ as nat) % modulus@,
    {
        let x = BigInt::from_signed_bytes_be(&self.bytes);
        let e = BigInt::from_signed_bytes_be(&exponent.bytes);
        let m = BigInt::from_signed_bytes_be(&modulus.bytes);
        Integer { bytes: x.modpow(&e, &m).to_signed_bytes_be() }
    }

    /// `BigInt`'s `+`: the exact sum.
    #[verifier::external_body]
    pub(crate) fn plus(&self, other: &Integer) -> (r: Integer)
        ensures
            r@ == self@ + other@,
    {
        let x = BigInt::from_signed_bytes_be(&self.bytes);
        let y = BigInt::from_signed_bytes_be(&other.bytes);
        Integer { bytes: (x + y).to_signed_bytes_be() }
    }

    /// `BigInt`'s `-`: the exact difference.
    #[verifier::external_body]
    pub(crate) fn minus(&self, other: &Integer) -> (r: Integer)
        ensures
            r@ == self@ - other@,
    {
        let x = BigInt::from_signed_bytes_be(&self.bytes);
        let y = BigInt::from_signed_bytes_be(&other.bytes);
        Integer { bytes: (x - y).to_signed_bytes_be() }
    }

    /// `BigInt`'s `*`: the exact product.
    #[verifier::external_body]
    pub(crate) fn times(&self, other: &Integer) -> (r: Integer)
        ensures
            r@ == self@ * other@,
    {
        let x = BigInt::from_signed_bytes_be(&self.bytes);
        let y = BigInt::from_signed_bytes_be(&other.bytes);
        Integer { bytes: (x * y).to_signed_bytes_be() }
    }

    /// `BigInt`'s `/`, which rounds toward zero and panics on a zero divisor.
    #[verifier::external_body]
    pub(crate) fn quotient(&self, other: &Integer) -> (r: Integer)
        requires
            other@ != 0,
        ensures
            r@ == trunc_div(self@, other@),
    {
        let x = BigInt::from_signed_bytes_be(&self.bytes);
        let y = BigInt::from_signed_bytes_be(&other.bytes);
        Integer { bytes: (x / y).to_signed_bytes_be() }
    }

    /// `BigInt`'s `%`, the remainder of the division that rounds toward zero;
    /// it panics on a zero divisor.
    #[verifier::external_body]
    pub(crate) fn remainder(&self, other: &Integer) -> (r: Integer)
        requires
            other@ != 0,
        ensures
            r@ == trunc_rem(self@, other@),
    {
        let x = BigInt::from_signed_bytes_be(&self.bytes);
        let y = BigInt::from_signed_bytes_be(&other.bytes);
        Integer { bytes: (x % y).to_signed_bytes_be() }
    }

    /// `BigInt`'s `<`: the order of the integers.
    #[verifier::external_body]
    pub(crate) fn less_than(&self, other: &Integer) -> (r: bool)
        ensures
            r == (self@ < other@),
    {
        BigInt::from_signed_bytes_be(&self.bytes) < BigInt::from_signed_bytes_be(&other.bytes)
    }

    /// `BigInt`'s `==`: equality of the integers.
    #[verifier::external_body]
    pub(crate) fn equals(&self, other: &Integer) -> (r: bool)
        ensures
            r == (self@ == other@),
    {
        BigInt::from_signed_bytes_be(&self.bytes) == BigInt::from_signed_bytes_be(&other.bytes)
    }
}

} // verus!
