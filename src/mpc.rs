//! Two-party threshold ECDSA. Party 1 holds the share `d1` and a Paillier
//! key, and has handed Party 2 the encryption `cKey` of `d1`; Party 2 holds
//! `d2`. The joint key is `Q = (d1·d2)·G`. In a signing round each party
//! publishes `R_i = k_i·G` for a fresh nonce `k_i`; Party 2 combines the
//! message scalar with its share under encryption, and Party 1 decrypts and
//! finishes the signature `(r, s)`.
use crate::arithmetic::{gcd_spec, inv_mod, inv_spec, lemma_product_fits, mul_mod};
use crate::bignum::{be_value, pow_mod, reduce_be};
use crate::curve::{EcWei, Point};
use crate::error::CryptoError;
use crate::hashing::{sha256, sha256_spec};
use crate::paillier::{
    cipher_paillier_with_nonce, cipher_result, decipher_paillier, decrypt_spec, modulus_ok,
    PaillierKey,
};
use crate::random::sample_unit;
use rand::rngs::StdRng;
use vstd::arithmetic::div_mod::*;
use vstd::arithmetic::power::pow;
use vstd::prelude::*;

verus! {

/// An ECDSA signature `(r, s)`, both modulo the group order.
#[derive(Debug, Clone, Copy, PartialEq, Eq, Structural)]
pub struct Signature {
    pub r: u64,
    pub s: u64,
}

/// `e = H(m) mod N` for a digest already computed.
pub fn digest_scalar(digest: &[u8], order: u64) -> (r: u64)
    requires
        order > 0,
    ensures
        r == be_value(digest@) % (order as nat),
{
    reduce_be(digest, order)
}

/// `e = H(m) mod N`: the SHA-256 digest of `message`, read as a big-endian
/// integer and reduced modulo the group order.
pub fn message_scalar(message: &[u8], order: u64) -> (r: u64)
    requires
        order > 0,
    ensures
        r == be_value(sha256_spec(message@)) % (order as nat),
{
    let digest = sha256(message);
    digest_scalar(digest.as_slice(), order)
}

/// What Party 2 sends in a round: with `k2⁻¹` the inverse of its nonce modulo
/// `N` and `R = k2·R1` the shared nonce point, the ciphertext
/// `Enc(ρ·N + k2⁻¹·e) · cKey^((k2⁻¹·R.x·d2) mod N) mod n²`, the encryption
/// using the nonce `s`.
pub open spec fn party2_spec(
    curve: EcWei,
    order: int,
    g: int,
    n: int,
    c_key: int,
    e: int,
    k2: int,
    d2: int,
    point_r1: Point,
    rho: int,
    s: int,
) -> Result<u64, CryptoError> {
    if !curve.contains_spec(point_r1) {
        Err(CryptoError::PointNotOnCurve)
    } else if gcd_spec(k2 as nat, order as nat) != 1 {
        Err(CryptoError::NoInverseExists)
    } else {
        let ik = inv_spec(k2, order);
        let shared = curve.mul_spec(point_r1, k2 as nat);
        match cipher_result(g, n, rho * order + ik * e, s) {
            Err(err) => Err(err),
            Ok(c1) => Ok(
                ((c1 * pow(c_key, ((ik * shared.x * d2) % order) as nat)) % (n * n)) as u64,
            ),
        }
    }
}

/// Party 1's signature from Party 2's ciphertext `c3`: `r = R.x mod N` for
/// `R = k1·R2`, and `s = Dec(c3) · k1⁻¹ mod N`.
pub open spec fn party1_spec(
    curve: EcWei,
    order: int,
    lambda: int,
    mu: int,
    n: int,
    c3: int,
    k1: int,
    point_r2: Point,
) -> Result<Signature, CryptoError> {
    if !curve.contains_spec(point_r2) {
        Err(CryptoError::PointNotOnCurve)
    } else if gcd_spec(k1 as nat, order as nat) != 1 {
        Err(CryptoError::NoInverseExists)
    } else {
        let shared = curve.mul_spec(point_r2, k1 as nat);
        Ok(
            Signature {
                r: (shared.x as int % order) as u64,
                s: ((decrypt_spec(lambda, mu, n, c3) * inv_spec(k1, order)) % order) as u64,
            },
        )
    }
}

/// ECDSA verification with the message scalar `e`: with `w = s⁻¹ mod N`,
/// `u1 = e·w mod N`, `u2 = r·w mod N` and `X = u1·G + u2·Q`, the signature
/// is valid when `r ≡ X.x (mod N)`. It is not when `G` or `Q` is not in the
/// group or `s` has no inverse.
pub open spec fn verify_spec(
    curve: EcWei,
    order: int,
    generator: Point,
    public_key: Point,
    e: int,
    sig: Signature,
) -> bool {
    &&& curve.contains_spec(generator)
    &&& curve.contains_spec(public_key)
    &&& gcd_spec(sig.s as nat, order as nat) == 1
    &&& {
        let w = inv_spec(sig.s as int, order);
        let u1 = (e * w) % order;
        let u2 = (sig.r * w) % order;
        let x = curve.add_spec(
            curve.mul_spec(generator, u1 as nat),
            curve.mul_spec(public_key, u2 as nat),
        );
        sig.r as int % order == x.x as int % order
    }
}

/// Party 2's step: from Party 1's nonce point `point_r1`, its own nonce `k2`
/// and share `d2`, the message scalar `e`, the blinding factor `rho` and the
/// encryption nonce `s`, the ciphertext that it sends to Party 1.
pub fn party2_contribution(
    curve: &EcWei,
    order: u64,
    public_key: &(u64, u64),
    c_key: u64,
    e: u64,
    k2: u64,
    d2: u64,
    point_r1: &Point,
    rho: u64,
    s: u64,
) -> (r: Result<u64, CryptoError>)
    requires
        order > 0,
        modulus_ok(public_key.1 as int),
    ensures
        r == party2_spec(
            *curve,
            order as int,
            public_key.0 as int,
            public_key.1 as int,
            c_key as int,
            e as int,
            k2 as int,
            d2 as int,
            *point_r1,
            rho as int,
            s as int,
        ),
{
    if !curve.contains(point_r1) {
        return Err(CryptoError::PointNotOnCurve);
    }
    let inv_k2 = match inv_mod(k2, order) {
        Some(i) => i,
        None => {
            return Err(CryptoError::NoInverseExists);
        },
    };
    let shared = curve.scalar_mul(point_r1, k2);
    let n = public_key.1;
    proof {
        lemma_product_fits(rho, order);
        lemma_product_fits(inv_k2, e);
    }
    let blind: u128 = rho as u128 * order as u128;
    let masked: u128 = inv_k2 as u128 * e as u128;
    if blind >= n as u128 || masked >= n as u128 || blind + masked >= n as u128 {
        return Err(CryptoError::InvalidMessageRange);
    }
    let plain = (blind + masked) as u64;
    let c1 = match cipher_paillier_with_nonce(public_key, plain, s) {
        Ok(c) => c,
        Err(err) => {
            return Err(err);
        },
    };
    let nn = n * n;
    proof {
        assert(n < nn) by (nonlinear_arith)
            requires
                n > 1,
                nn == n * n,
        ;
    }
    let v = mul_mod(mul_mod(inv_k2, shared.x, order), d2, order);
    let c2 = pow_mod(c_key, v, nn);
    proof {
        lemma_mul_mod_noop_left(inv_k2 * shared.x, d2 as int, order as int);
        lemma_mul_mod_noop_right(c1 as int, pow(c_key as int, v as nat), nn as int);
    }
    Ok(mul_mod(c1, c2, nn))
}

/// Party 2's step with a fresh blinding factor drawn from `[1, N²)` and a
/// fresh encryption nonce drawn from `[1, n)`, both coprime to `n`.
pub fn party2_sign(
    curve: &EcWei,
    order: u64,
    public_key: &(u64, u64),
    c_key: u64,
    e: u64,
    k2: u64,
    d2: u64,
    point_r1: &Point,
    rng: &mut StdRng,
) -> (r: Result<u64, CryptoError>)
    requires
        order > 1,
        order * order <= u64::MAX,
        modulus_ok(public_key.1 as int),
    ensures
        r != Err::<u64, CryptoError>(CryptoError::SamplingFailed) ==> exists|rho: int, s: int|
            1 <= rho < order * order && 1 <= s < public_key.1 && gcd_spec(
                rho as nat,
                public_key.1 as nat,
            ) == 1 && gcd_spec(s as nat, public_key.1 as nat) == 1 && #[trigger] party2_spec(
                *curve,
                order as int,
                public_key.0 as int,
                public_key.1 as int,
                c_key as int,
                e as int,
                k2 as int,
                d2 as int,
                *point_r1,
                rho,
                s,
            ) == r,
{
    let n = public_key.1;
    assert(1 < order * order) by (nonlinear_arith)
        requires
            order > 1,
    ;
    let rho = match sample_unit(rng, 1, order * order, n) {
        Some(v) => v,
        None => {
            return Err(CryptoError::SamplingFailed);
        },
    };
    let s = match sample_unit(rng, 1, n, n) {
        Some(v) => v,
        None => {
            return Err(CryptoError::SamplingFailed);
        },
    };
    let r = party2_contribution(curve, order, public_key, c_key, e, k2, d2, point_r1, rho, s);
    assert(party2_spec(
        *curve,
        order as int,
        public_key.0 as int,
        public_key.1 as int,
        c_key as int,
        e as int,
        k2 as int,
        d2 as int,
        *point_r1,
        rho as int,
        s as int,
    ) == r);
    r
}

/// Party 1's step: decrypts Party 2's ciphertext and finishes the signature
/// with its nonce `k1` and Party 2's nonce point `point_r2`.
pub fn party1_signature(
    curve: &EcWei,
    order: u64,
    key: &PaillierKey,
    c3: u64,
    k1: u64,
    point_r2: &Point,
) -> (r: Result<Signature, CryptoError>)
    requires
        order > 0,
        modulus_ok(key.public_key.1 as int),
    ensures
        r == party1_spec(
            *curve,
            order as int,
            key.private_key.0 as int,
            key.private_key.1 as int,
            key.public_key.1 as int,
            c3 as int,
            k1 as int,
            *point_r2,
        ),
{
    if !curve.contains(point_r2) {
        return Err(CryptoError::PointNotOnCurve);
    }
    let inv_k1 = match inv_mod(k1, order) {
        Some(i) => i,
        None => {
            return Err(CryptoError::NoInverseExists);
        },
    };
    let shared = curve.scalar_mul(point_r2, k1);
    let r = shared.x % order;
    let s_prime = decipher_paillier(&key.private_key, c3, &key.public_key);
    let s = mul_mod(s_prime, inv_k1, order);
    Ok(Signature { r, s })
}

/// Whether `sig` is a valid signature for the message scalar `e` under the
/// public key `public_key` and the generator `generator` of order `order`.
pub fn verify_signature_for_scalar(
    curve: &EcWei,
    order: u64,
    generator: &Point,
    public_key: &Point,
    e: u64,
    sig: &Signature,
) -> (r: bool)
    requires
        order > 0,
    ensures
        r == verify_spec(*curve, order as int, *generator, *public_key, e as int, *sig),
{
    if !curve.contains(generator) || !curve.contains(public_key) {
        return false;
    }
    let w = match inv_mod(sig.s, order) {
        Some(i) => i,
        None => {
            return false;
        },
    };
    let u1 = mul_mod(e, w, order);
    let u2 = mul_mod(sig.r, w, order);
    let x = curve.point_add(&curve.scalar_mul(generator, u1), &curve.scalar_mul(public_key, u2));
    sig.r % order == x.x % order
}

/// Whether `sig` is a valid signature of `message` under the public key
/// `public_key` and the generator `generator` of order `order`.
pub fn verify_signature(
    curve: &EcWei,
    order: u64,
    generator: &Point,
    public_key: &Point,
    message: &[u8],
    sig: &Signature,
) -> (r: bool)
    requires
        order > 0,
    ensures
        r == verify_spec(
            *curve,
            order as int,
            *generator,
            *public_key,
            (be_value(sha256_spec(message@)) % (order as nat)) as int,
            *sig,
        ),
{
    let e = message_scalar(message, order);
    verify_signature_for_scalar(curve, order, generator, public_key, e, sig)
}

/// The nonces that a party has used, so that none serves in two rounds.
pub struct NonceLog {
    used: Vec<u64>,
}

impl View for NonceLog {
    type V = Set<u64>;

    closed spec fn view(&self) -> Set<u64> {
        self.used@.to_set()
    }
}

impl NonceLog {
    /// A log with no nonce in it.
    pub fn new() -> (r: Self)
        ensures
            r@ == Set::<u64>::empty(),
    {
        let r = NonceLog { used: Vec::new() };
        assert(r@ =~= Set::<u64>::empty());
        r
    }

    /// Whether `k` has been used.
    pub fn contains(&self, k: u64) -> (r: bool)
        ensures
            r == self@.contains(k),
    {
        let mut i: usize = 0;
        while i < self.used.len()
            invariant
                i <= self.used.len(),
                forall|j: int| 0 <= j < i ==> self.used@[j] != k,
            decreases self.used.len() - i,
        {
            if self.used[i] == k {
                assert(self.used@.to_set().contains(self.used@[i as int]));
                return true;
            }
            i = i + 1;
        }
        assert(!self.used@.to_set().contains(k));
        false
    }

    /// Claims `k` for a round: `true`, and `k` recorded, when it has not
    /// been used; `false`, and the log unchanged, when it has.
    pub fn claim(&mut self, k: u64) -> (r: bool)
        ensures
            r == !old(self)@.contains(k),
            final(self)@ == old(self)@.insert(k),
    {
        if self.contains(k) {
            assert(self@.insert(k) =~= self@);
            return false;
        }
        self.used.push(k);
        assert(self.used@.to_set() =~= old(self).used@.to_set().insert(k)) by {
            assert(self.used@ == old(self).used@.push(k));
            assert forall|x: u64| self.used@.to_set().contains(x) <==> old(
                self,
            ).used@.to_set().insert(k).contains(x) by {
                if x != k && self.used@.contains(x) {
                    let j = choose|j: int| 0 <= j < self.used@.len() && self.used@[j] == x;
                    assert(old(self).used@[j] == x);
                }
                if old(self).used@.contains(x) {
                    let j = choose|j: int| 0 <= j < old(self).used@.len() && old(self).used@[j] == x;
                    assert(self.used@[j] == x);
                }
                if x == k {
                    assert(self.used@[self.used@.len() - 1] == k);
                }
            }
        };
        true
    }
}

} // verus!
