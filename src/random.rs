//! Drawing uniform integers from a seedable generator.
use crate::arithmetic::{gcd, gcd_spec};
use rand::rngs::StdRng;
use rand::Rng;
use vstd::prelude::*;

verus! {

#[verifier::external_type_specification]
#[verifier::external_body]
pub struct ExStdRng(StdRng);

/// How many draws a resampling loop makes before it gives up.
pub const SAMPLING_ATTEMPTS: u64 = 128;

/// Relies on `rand::Rng::gen_range` with a half-open range: a value in
/// `[low, high)`. It panics on an empty range, which `requires` excludes.
#[verifier::external_body]
pub(crate) fn sample_range(rng: &mut StdRng, low: u64, high: u64) -> (r: u64)
    requires
        low < high,
    ensures
        low <= r < high,
{
    rng.gen_range(low..high)
}

/// A uniform scalar in `[1, order)`.
pub fn sample_scalar(rng: &mut StdRng, order: u64) -> (r: u64)
    requires
        order > 1,
    ensures
        1 <= r < order,
{
    sample_range(rng, 1, order)
}

/// Draws from `[low, high)` until a value coprime to `n` comes, at most
/// `SAMPLING_ATTEMPTS` times; `None` when none came.
pub fn sample_unit(rng: &mut StdRng, low: u64, high: u64, n: u64) -> (r: Option<u64>)
    requires
        low < high,
    ensures
        r matches Some(v) ==> low <= v < high && gcd_spec(v as nat, n as nat) == 1,
{
    let mut attempt: u64 = 0;
    while attempt < SAMPLING_ATTEMPTS
        invariant
            low < high,
        decreases SAMPLING_ATTEMPTS - attempt,
    {
        let v = sample_range(rng, low, high);
        if gcd(v, n) == 1 {
            return Some(v);
        }
        attempt = attempt + 1;
    }
    None
}

} // verus!
