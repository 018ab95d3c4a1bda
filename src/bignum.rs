//! Arbitrary-precision arithmetic from `num-bigint`, on `u64` operands and
//! results.
use num_bigint::BigUint;
use num_traits::ToPrimitive;
use vstd::arithmetic::power::pow;
use vstd::prelude::*;

verus! {

/// The integer that `bytes` spell in big-endian order.
pub open spec fn be_value(bytes: Seq<u8>) -> nat
    decreases bytes.len(),
{
    if bytes.len() == 0 {
        0
    } else {
        be_value(bytes.drop_last()) * 256 + bytes.last() as nat
    }
}

/// Relies on `num_bigint::BigUint::modpow`: `base` to the power `exponent`,
/// reduced modulo `modulus`. It panics on a zero modulus; `requires` also
/// leaves out the modulus one.
#[verifier::external_body]
pub(crate) fn pow_mod(base: u64, exponent: u64, modulus: u64) -> (r: u64)
    requires
        modulus > 1,
    ensures
        r == pow(base as int, exponent as nat) % (modulus as int),
{
    let big = BigUint::from(base).modpow(&BigUint::from(exponent), &BigUint::from(modulus));
    big.to_u64().unwrap()
}

/// Relies on `num_bigint::BigUint::from_bytes_be` and its remainder by a
/// `u64`: the big-endian value of `bytes`, reduced modulo `modulus`. The
/// remainder panics on a zero modulus, which `requires` excludes.
#[verifier::external_body]
pub(crate) fn reduce_be(bytes: &[u8], modulus: u64) -> (r: u64)
    requires
        modulus > 0,
    ensures
        r == be_value(bytes@) % (modulus as nat),
{
    let big = BigUint::from_bytes_be(bytes) % modulus;
    big.to_u64().unwrap()
}

} // verus!
