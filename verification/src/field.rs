use crate::arith::bits_value;
use crate::integer::{be_value, Integer};
use bellman_ce::pairing::bn256::{Fr, FrRepr};
use bellman_ce::pairing::ff::{BitIterator, Field, PrimeField, PrimeFieldRepr};
use num_bigint::BigInt;
use vstd::prelude::*;

verus! {

/// The prime order of the scalar field of the BN256 curve.
pub open spec fn modulus() -> int {
    21888242871839275222246405745257275088548364400416034343698204186575808495617int
}

/// The number that four 64-bit limbs denote, least significant limb first.
pub open spec fn limbs_value(limbs: [u64; 4]) -> int {
    limbs[0] as int + limbs[1] as int * 0x1_0000_0000_0000_0000int + limbs[2] as int
        * 0x1_0000_0000_0000_0000_0000_0000_0000_0000int + limbs[3] as int
        * 0x1_0000_0000_0000_0000_0000_0000_0000_0000_0000_0000_0000_0000int
}

/// An element of the scalar field of BN256, held as the four limbs of its
/// canonical representative. Its view is that representative, a number below
/// `modulus()`.
#[derive(Clone, Copy, Debug, PartialEq, Eq)]
pub struct FieldElement {
    limbs: [u64; 4],
}

impl View for FieldElement {
    type V = int;

    closed spec fn view(&self) -> int {
        limbs_value(self.limbs)
    }
}

impl FieldElement {
    /// The representative lies in `[0, modulus())`.
    pub closed spec fn wf(&self) -> bool {
        0 <= limbs_value(self.limbs) < modulus()
    }

    /// The representative is never negative.
    pub proof fn lemma_view_bounds(&self)
        requires
            self.wf(),
        ensures
            0 <= self@ < modulus(),
    {
    }

    /// The additive identity.
    pub fn zero() -> (r: FieldElement)
        ensures
            r.wf(),
            r@ == 0,
    {
        FieldElement { limbs: [0, 0, 0, 0] }
    }

    /// The multiplicative identity.
    pub fn one() -> (r: FieldElement)
        ensures
            r.wf(),
            r@ == 1,
    {
        FieldElement { limbs: [1, 0, 0, 0] }
    }

    /// The element whose representative is `v`.
    pub fn from_u64(v: u64) -> (r: FieldElement)
        ensures
            r.wf(),
            r@ == v,
    {
        FieldElement { limbs: [v, 0, 0, 0] }
    }

    /// The element whose representative has the given limbs, least
    /// significant first; none where they denote no number below the modulus.
    pub fn from_repr(limbs: [u64; 4]) -> (r: Option<FieldElement>)
        ensures
            r.is_some() == (limbs_value(limbs) < modulus()),
            r.is_some() ==> r.unwrap().wf() && r.unwrap()@ == limbs_value(limbs),
    {
        FieldElement::decode(limbs)
    }

    /// The limbs of the representative, least significant first.
    pub fn limbs(&self) -> (r: [u64; 4])
        ensures
            limbs_value(r) == self@,
    {
        self.limbs
    }

    /// Whether two elements are the same residue.
    pub fn equals(&self, other: &FieldElement) -> (r: bool)
        ensures
            r == (self@ == other@),
    {
        self.limbs[0] == other.limbs[0] && self.limbs[1] == other.limbs[1] && self.limbs[2]
            == other.limbs[2] && self.limbs[3] == other.limbs[3]
    }

    /// `PrimeField::from_repr`: the element with the given representative,
    /// which exists exactly when the limbs denote a number below the modulus.
    #[verifier::external_body]
    pub(crate) fn decode(limbs: [u64; 4]) -> (r: Option<FieldElement>)
        ensures
            r.is_some() == (limbs_value(limbs) < modulus()),
            r.is_some() ==> r.unwrap().wf() && r.unwrap()@ == limbs_value(limbs),
    {
        match Fr::from_repr(FrRepr(limbs)) {
            Ok(f) => Some(FieldElement { limbs: f.into_repr().0 }),
            Err(_) => None,
        }
    }

    /// `Field::mul_assign`: the product in the field.
    #[verifier::external_body]
    pub(crate) fn times(&self, other: &FieldElement) -> (r: FieldElement)
        requires
            self.wf(),
            other.wf(),
        ensures
            r.wf(),
            r@ == (self@ * other@) % modulus(),
    {
        let mut x = Fr::from_repr(FrRepr(self.limbs)).unwrap();
        x.mul_assign(&Fr::from_repr(FrRepr(other.limbs)).unwrap());
        FieldElement { limbs: x.into_repr().0 }
    }

    /// `Field::square`: the square in the field.
    #[verifier::external_body]
    pub(crate) fn squared(&self) -> (r: FieldElement)
        requires
            self.wf(),
        ensures
            r.wf(),
            r@ == (self@ * self@) % modulus(),
    {
        let mut x = Fr::from_repr(FrRepr(self.limbs)).unwrap();
        x.square();
        FieldElement { limbs: x.into_repr().0 }
    }

    /// `Field::add_assign`: the sum in the field.
    #[verifier::external_body]
    pub(crate) fn plus(&self, other: &FieldElement) -> (r: FieldElement)
        requires
            self.wf(),
            other.wf(),
        ensures
            r.wf(),
            r@ == (self@ + other@) % modulus(),
    {
        let mut x = Fr::from_repr(FrRepr(self.limbs)).unwrap();
        x.add_assign(&Fr::from_repr(FrRepr(other.limbs)).unwrap());
        FieldElement { limbs: x.into_repr().0 }
    }

    /// `BitIterator` over the representative: its 256 binary digits, most
    /// significant first.
    #[verifier::external_body]
    pub(crate) fn bits_be(&self) -> (r: Vec<bool>)
        ensures
            r.len() == 256,
            bits_value(r@) == self@,
    {
        BitIterator::new(FrRepr(self.limbs)).collect()
    }
}

/// `PrimeField::char` of the scalar field: the limbs of the field's modulus.
#[verifier::external_body]
pub(crate) fn characteristic() -> (r: [u64; 4])
    ensures
        limbs_value(r) == modulus(),
{
    Fr::char().0
}

/// `PrimeFieldRepr::sub_noborrow`: the difference of two representations, the
/// second of which is not the larger.
#[verifier::external_body]
pub(crate) fn repr_sub_noborrow(a: [u64; 4], b: [u64; 4]) -> (r: [u64; 4])
    requires
        limbs_value(b) <= limbs_value(a),
    ensures
        limbs_value(r) == limbs_value(a) - limbs_value(b),
{
    let mut x = FrRepr(a);
    x.sub_noborrow(&FrRepr(b));
    x.0
}

/// `PrimeFieldRepr::write_be` into an empty buffer: the representative as 32
/// big-endian bytes.
#[verifier::external_body]
pub(crate) fn repr_write_be(fr: FieldElement) -> (r: Vec<u8>)
    ensures
        r@.len() == 32,
        be_value(r@) == fr@,
{
    let mut buffer = Vec::<u8>::new();
    FrRepr(fr.limbs).write_be(&mut buffer).expect("failed to write into Vec<u8>");
    buffer
}

/// The residue of an integer: `PrimeField::from_str` on the decimal digits
/// that `BigInt::to_str_radix` writes. A negative integer has a sign in front
/// of its digits and is refused; any other is reduced modulo the field's prime.
#[verifier::external_body]
pub(crate) fn bigint_to_fr(bigint: &Integer) -> (r: Option<FieldElement>)
    ensures
        r.is_some() == (bigint@ >= 0),
        r.is_some() ==> r.unwrap().wf() && r.unwrap()@ == bigint@ % modulus(),
{
    let digits = BigInt::from_signed_bytes_be(&bigint.to_signed_bytes_be()).to_str_radix(10);
    match Fr::from_str(&digits) {
        Some(f) => Some(FieldElement { limbs: f.into_repr().0 }),
        None => None,
    }
}

} // verus!
