pub mod arith;
pub mod error;
pub mod exponent;
pub mod fermat;
pub mod field;
pub mod integer;
pub mod num;
pub mod permutation;
pub mod primes;
pub mod r1cs;
pub mod sbox;

pub use crate::error::GadgetError;
pub use crate::exponent::{
    derive_exponents, first_coprime_prime, fr_to_bigint, gcd, get_alpha, inverse_exponent,
    prime_modulus,
};
pub use crate::field::FieldElement;
pub use crate::integer::Integer;
pub use crate::num::AllocatedNum;
pub use crate::permutation::{add_key, generate_mds, rescue_round_function, ROUNDS, WIDTH};
pub use crate::r1cs::{Constraint, LinearCombination, R1cs, Variable};
pub use crate::sbox::{generate_powers, generate_roots, get_bits_be, root_witness};
