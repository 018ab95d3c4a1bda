//! The Paillier cryptosystem: key generation, encryption, decryption and
//! the operations on ciphertexts that act on the plaintexts additively.
use crate::arithmetic::{
    gcd, gcd_spec, inv_mod, inv_spec, is_inverse, is_prime, lcm, lcm_spec, lemma_gcd_divides,
    lemma_mod_linear, mul_mod,
};
use crate::number_theory::{lemma_carmichael, lemma_inverse_exists};
use crate::bignum::pow_mod;
use crate::error::CryptoError;
use crate::random::{sample_range, sample_unit, SAMPLING_ATTEMPTS};
use rand::rngs::StdRng;
use vstd::arithmetic::div_mod::*;
use vstd::arithmetic::mul::*;
use vstd::arithmetic::power::{
    lemma1_pow, lemma_pow_distributes, lemma_pow_mod_noop, lemma_pow_multiplies, pow,
};
use vstd::prelude::*;

verus! {

/// A Paillier key: the public key `(g, n)` and the private key `(λ, μ)`.
#[derive(Debug, Clone, Copy)]
pub struct PaillierKey {
    pub public_key: (u64, u64),
    pub private_key: (u64, u64),
}

/// `L(x) = (x − 1) / n`; `L(0)` is `0`, as division toward zero gives.
pub open spec fn l_spec(x: int, n: int) -> int {
    if x <= 0 {
        0
    } else {
        (x - 1) / n
    }
}

/// `n` is a usable modulus: `n > 1`, and residues modulo `n²` fit in `u64`.
/// The second part is the price of `u64` integers: it bounds `n` below
/// `2^32`.
pub open spec fn modulus_ok(n: int) -> bool {
    n > 1 && n * n <= u64::MAX
}

/// `g^m · s^n mod n²`: the encryption of `m` with the random nonce `s`.
pub open spec fn encrypt_spec(g: int, n: int, m: int, s: int) -> int {
    (pow(g, m as nat) * pow(s, n as nat)) % (n * n)
}

/// What encrypting `m` under `(g, n)` with the nonce `s` yields: the
/// plaintext must lie in `(0, n)` and the nonce be coprime to `n`.
pub open spec fn cipher_result(g: int, n: int, m: int, s: int) -> Result<u64, CryptoError> {
    if m <= 0 || m >= n {
        Err(CryptoError::InvalidMessageRange)
    } else if gcd_spec(s as nat, n as nat) != 1 {
        Err(CryptoError::NoInverseExists)
    } else {
        Ok(encrypt_spec(g, n, m, s) as u64)
    }
}

/// `L(c^λ mod n²) · μ mod n`.
pub open spec fn decrypt_spec(lambda: int, mu: int, n: int, c: int) -> int {
    (l_spec(pow(c, lambda as nat) % (n * n), n) * mu) % n
}

/// The key for the primes `p`, `q` and the base `g`: `n = p·q`,
/// `λ = lcm(p − 1, q − 1)` and `μ` the inverse of `L(g^λ mod n²)` modulo `n`.
/// There is none unless `g` and that `L` value are both coprime to `n`.
pub open spec fn key_for_base(p: int, q: int, g: int) -> Option<PaillierKey> {
    let n = p * q;
    let lambda = lcm_spec((p - 1) as nat, (q - 1) as nat);
    let lv = l_spec(pow(g, lambda as nat) % (n * n), n);
    if gcd_spec(g as nat, n as nat) == 1 && gcd_spec(lv as nat, n as nat) == 1 {
        Some(
            PaillierKey {
                public_key: (g as u64, n as u64),
                private_key: (lambda as u64, inv_spec(lv, n) as u64),
            },
        )
    } else {
        None
    }
}

proof fn lemma_key_sizes(p: u64, q: u64)
    requires
        p > 1,
        q > 1,
        modulus_ok(p * q),
    ensures
        p * q <= u64::MAX,
        lcm_spec((p - 1) as nat, (q - 1) as nat) <= p * q,
        lcm_spec((p - 1) as nat, (q - 1) as nat) >= 0,
{
    let n = p * q;
    assert(n <= n * n) by (nonlinear_arith)
        requires
            n > 1,
    ;
    let (a, b) = ((p - 1) as nat, (q - 1) as nat);
    lemma_gcd_divides(a, b);
    assert(a * b <= n) by (nonlinear_arith)
        requires
            a == p - 1,
            b == q - 1,
            n == p * q,
            p > 1,
            q > 1,
    ;
    assert(a * b >= 0) by (nonlinear_arith);
    lemma_div_is_ordered_by_denominator((a * b) as int, 1, gcd_spec(a, b) as int);
}

/// `L(x)` for `x < n²` is a residue modulo `n`.
proof fn lemma_l_bound(x: int, n: int)
    requires
        n > 1,
        0 <= x < n * n,
    ensures
        0 <= l_spec(x, n) < n,
{
    if x > 0 {
        lemma_fundamental_div_mod(x - 1, n);
        let q = (x - 1) / n;
        let r = (x - 1) % n;
        assert(0 <= q < n) by (nonlinear_arith)
            requires
                x - 1 == n * q + r,
                0 <= r < n,
                0 <= x - 1 < n * n,
        ;
    }
}

/// A usable modulus has a square above it.
proof fn lemma_modulus(n: int)
    requires
        modulus_ok(n),
    ensures
        n < n * n,
{
    assert(n < n * n) by (nonlinear_arith)
        requires
            n > 1,
    ;
}

/// The key for the primes `p`, `q` and the base `g`, when there is one.
pub fn paillier_key_for_base(p: u64, q: u64, g: u64) -> (r: Option<PaillierKey>)
    requires
        p > 1,
        q > 1,
        modulus_ok(p * q),
    ensures
        r == key_for_base(p as int, q as int, g as int),
{
    proof {
        lemma_key_sizes(p, q);
    }
    let n = p * q;
    let nn = n * n;
    let lambda = lcm(p - 1, q - 1);
    if gcd(g, n) != 1 {
        return None;
    }
    proof {
        lemma_modulus(n as int);
    }
    let x = pow_mod(g, lambda, nn);
    proof {
        lemma_mod_bound(pow(g as int, lambda as nat), nn as int);
    }
    let lv = if x == 0 {
        0
    } else {
        (x - 1) / n
    };
    if gcd(lv, n) != 1 {
        return None;
    }
    proof {
        lemma_l_bound(x as int, n as int);
    }
    let mu = inv_mod(lv, n).unwrap();
    Some(PaillierKey { public_key: (g, n), private_key: (lambda, mu) })
}

/// A key for the primes `p` and `q` whose base `g` is drawn uniformly from
/// `[1, n²)`, drawing again while `g` or `L(g^λ mod n²)` shares a factor with
/// `n`, at most `SAMPLING_ATTEMPTS` times.
pub fn gen_key_paillier(p: u64, q: u64, rng: &mut StdRng) -> (r: Result<PaillierKey, CryptoError>)
    requires
        p > 1,
        q > 1,
        modulus_ok(p * q),
    ensures
        r matches Ok(k) ==> 1 <= k.public_key.0 < (p * q) * (p * q) && key_for_base(
            p as int,
            q as int,
            k.public_key.0 as int,
        ) == Some(k),
        r matches Err(e) ==> e == CryptoError::KeyGenerationFailed,
{
    proof {
        lemma_key_sizes(p, q);
    }
    let n = p * q;
    let nn = n * n;
    proof {
        lemma_modulus(n as int);
    }
    let mut attempt: u64 = 0;
    while attempt < SAMPLING_ATTEMPTS
        invariant
            p > 1,
            q > 1,
            modulus_ok(p * q),
            n == p * q,
            nn == n * n,
            nn > 1,
        decreases SAMPLING_ATTEMPTS - attempt,
    {
        let g = sample_range(rng, 1, nn);
        match paillier_key_for_base(p, q, g) {
            Some(key) => {
                return Ok(key);
            },
            None => {},
        }
        attempt = attempt + 1;
    }
    Err(CryptoError::KeyGenerationFailed)
}

/// Encrypts `m` under `public_key = (g, n)` with the nonce `s`:
/// `g^m · s^n mod n²`.
pub fn cipher_paillier_with_nonce(public_key: &(u64, u64), m: u64, s: u64) -> (r: Result<
    u64,
    CryptoError,
>)
    requires
        modulus_ok(public_key.1 as int),
    ensures
        r == cipher_result(public_key.0 as int, public_key.1 as int, m as int, s as int),
{
    let (g, n) = *public_key;
    if m >= n || m == 0 {
        return Err(CryptoError::InvalidMessageRange);
    }
    if gcd(s, n) != 1 {
        return Err(CryptoError::NoInverseExists);
    }
    let nn = n * n;
    proof {
        lemma_modulus(n as int);
    }
    let k1 = pow_mod(g, m, nn);
    let k2 = pow_mod(s, n, nn);
    proof {
        lemma_mul_mod_noop(pow(g as int, m as nat), pow(s as int, n as nat), nn as int);
    }
    Ok(mul_mod(k1, k2, nn))
}

/// Encrypts `m` under `public_key = (g, n)`, requiring `0 < m < n`; the nonce
/// is drawn uniformly from `[1, n)` among the values coprime to `n`.
pub fn cipher_paillier(public_key: &(u64, u64), m: u64, rng: &mut StdRng) -> (r: Result<
    u64,
    CryptoError,
>)
    requires
        modulus_ok(public_key.1 as int),
    ensures
        r == Err::<u64, CryptoError>(CryptoError::InvalidMessageRange) <==> (m == 0 || m
            >= public_key.1),
        r matches Ok(c) ==> exists|s: int|
            0 < s < public_key.1 && #[trigger] cipher_result(
                public_key.0 as int,
                public_key.1 as int,
                m as int,
                s,
            ) == Ok::<u64, CryptoError>(c),
        r matches Err(e) ==> e == CryptoError::InvalidMessageRange || e
            == CryptoError::SamplingFailed,
{
    let n = public_key.1;
    if m >= n || m == 0 {
        return Err(CryptoError::InvalidMessageRange);
    }
    match sample_unit(rng, 1, n, n) {
        Some(s) => {
            let r = cipher_paillier_with_nonce(public_key, m, s);
            assert(cipher_result(public_key.0 as int, public_key.1 as int, m as int, s as int) == r);
            r
        },
        None => Err(CryptoError::SamplingFailed),
    }
}

/// Decrypts `c_key`: `L(c^λ mod n²) · μ mod n`.
pub fn decipher_paillier(private_key: &(u64, u64), c_key: u64, public_key: &(u64, u64)) -> (r:
    u64)
    requires
        modulus_ok(public_key.1 as int),
    ensures
        r == decrypt_spec(
            private_key.0 as int,
            private_key.1 as int,
            public_key.1 as int,
            c_key as int,
        ),
{
    let (lambda, mu) = *private_key;
    let n = public_key.1;
    proof {
        lemma_modulus(n as int);
    }
    let x = pow_mod(c_key, lambda, n * n);
    let l = if x == 0 {
        0
    } else {
        (x - 1) / n
    };
    mul_mod(l, mu, n)
}

/// The ciphertext of the sum of two plaintexts: `c1 · c2 mod n²`.
pub fn add_ciphertexts(public_key: &(u64, u64), c1: u64, c2: u64) -> (r: u64)
    requires
        modulus_ok(public_key.1 as int),
    ensures
        r == (c1 * c2) % (public_key.1 * public_key.1),
{
    let n = public_key.1;
    proof {
        lemma_modulus(n as int);
    }
    mul_mod(c1, c2, n * n)
}

/// The ciphertext of a plaintext times `v`: `c^v mod n²`.
pub fn scale_ciphertext(public_key: &(u64, u64), c: u64, v: u64) -> (r: u64)
    requires
        modulus_ok(public_key.1 as int),
    ensures
        r == pow(c as int, v as nat) % (public_key.1 * public_key.1),
{
    let n = public_key.1;
    proof {
        lemma_modulus(n as int);
    }
    pow_mod(c, v, n * n)
}

/// A residue modulo `n²` that is `1` modulo `n` is `1 + n·L` for its
/// `L` value, which is a residue modulo `n`.
proof fn lemma_unit_shape(x: int, n: int)
    requires
        n > 1,
        x % n == 1,
    ensures
        0 <= x % (n * n) < n * n,
        x % (n * n) == 1 + n * l_spec(x % (n * n), n),
        0 <= l_spec(x % (n * n), n) < n,
{
    let nn = n * n;
    lemma_mod_mod(x, n, n);
    lemma_mod_bound(x, nn);
    let y = x % nn;
    lemma_fundamental_div_mod(y, n);
    lemma_fundamental_div_mod_converse_div(y - 1, n, y / n, 0);
    lemma_l_bound(y, n);
}

/// Multiplying two ciphertexts modulo `n²` adds, modulo `n`, what they
/// decrypt to, for ciphertexts whose `λ`-th powers are `1` modulo `n`.
proof fn lemma_product_decrypts_to_sum(lambda: nat, mu: int, n: int, c1: int, c2: int)
    requires
        n > 1,
        pow(c1, lambda) % n == 1,
        pow(c2, lambda) % n == 1,
    ensures
        decrypt_spec(lambda as int, mu, n, (c1 * c2) % (n * n)) == (decrypt_spec(
            lambda as int,
            mu,
            n,
            c1,
        ) + decrypt_spec(lambda as int, mu, n, c2)) % n,
{
    let nn = n * n;
    let pw1 = pow(c1, lambda);
    let pw2 = pow(c2, lambda);
    lemma_unit_shape(pw1, n);
    lemma_unit_shape(pw2, n);
    let x1 = pw1 % nn;
    let x2 = pw2 % nn;
    let l1 = l_spec(x1, n);
    let l2 = l_spec(x2, n);
    lemma_pow_mod_noop(c1 * c2, lambda, nn);
    lemma_pow_distributes(c1, c2, lambda);
    lemma_mul_mod_noop(pw1, pw2, nn);
    let sum = l1 + l2;
    lemma_fundamental_div_mod(sum, n);
    let s = sum % n;
    let t = sum / n;
    lemma_mod_bound(sum, n);
    assert(x1 * x2 == (t + l1 * l2) * nn + (1 + n * s)) by (nonlinear_arith)
        requires
            x1 == 1 + n * l1,
            x2 == 1 + n * l2,
            sum == l1 + l2,
            sum == n * t + s,
            nn == n * n,
    ;
    assert(0 <= 1 + n * s < nn) by (nonlinear_arith)
        requires
            n > 1,
            0 <= s < n,
            nn == n * n,
    ;
    lemma_fundamental_div_mod_converse_mod(x1 * x2, nn, t + l1 * l2, 1 + n * s);
    lemma_fundamental_div_mod_converse_div(n * s, n, s, 0);
    assert(l_spec(1 + n * s, n) == s);
    lemma_add_mod_noop(l1 * mu, l2 * mu, n);
    assert(l1 * mu + l2 * mu == sum * mu) by (nonlinear_arith)
        requires
            sum == l1 + l2,
    ;
    lemma_mul_mod_noop_left(sum, mu, n);
}

/// `(1 + n·l)^v ≡ 1 + n·(v·l mod n) (mod n²)`.
proof fn lemma_power_of_unit(n: int, l: int, v: nat)
    requires
        n > 1,
    ensures
        pow(1 + n * l, v) % (n * n) == 1 + n * ((v * l) % n),
    decreases v,
{
    let nn = n * n;
    let x = 1 + n * l;
    assert(nn > 1) by (nonlinear_arith)
        requires
            n > 1,
            nn == n * n,
    ;
    reveal(pow);
    lemma_mod_bound(v * l, n);
    if v == 0 {
        lemma_small_mod(1, nn as nat);
        lemma_small_mod(0, n as nat);
        assert(v * l == 0) by (nonlinear_arith)
            requires
                v == 0,
        ;
    } else {
        let w = (v - 1) as nat;
        lemma_power_of_unit(n, l, w);
        let s = (w * l) % n;
        lemma_mul_mod_noop_right(x, pow(x, w), nn);
        let sum = l + s;
        lemma_fundamental_div_mod(sum, n);
        lemma_mod_bound(sum, n);
        let t = sum / n;
        let r = sum % n;
        assert(x * (1 + n * s) == (t + l * s) * nn + (1 + n * r)) by (nonlinear_arith)
            requires
                x == 1 + n * l,
                sum == l + s,
                sum == n * t + r,
                nn == n * n,
        ;
        assert(0 <= 1 + n * r < nn) by (nonlinear_arith)
            requires
                n > 1,
                0 <= r < n,
                nn == n * n,
        ;
        lemma_fundamental_div_mod_converse_mod(x * (1 + n * s), nn, t + l * s, 1 + n * r);
        assert(pow(x, v) == x * pow(x, w));
        assert(pow(x, v) % nn == 1 + n * r);
        lemma_mod_linear(l, w * l, n);
        assert(l + w * l == v * l) by (nonlinear_arith)
            requires
                w == v - 1,
        ;
        assert(r == (v * l) % n);
    }
}

/// Decryption undoes encryption: for a private key `(λ, μ)` whose `μ`
/// inverts `L(g^λ mod n²)` modulo `n`, a plaintext `0 < m < n` and a nonce
/// `s`, where `g^λ` and `s^λ` are `1` modulo `n`.
proof fn lemma_decrypt_encrypt(lambda: nat, mu: int, n: int, g: nat, m: nat, s: nat)
    requires
        n > 1,
        0 < m < n,
        is_inverse(l_spec(pow(g as int, lambda) % (n * n), n), n, mu),
        pow(g as int, lambda) % n == 1,
        pow(s as int, lambda) % n == 1,
    ensures
        decrypt_spec(lambda as int, mu, n, encrypt_spec(g as int, n, m as int, s as int)) == m,
{
    let nn = n * n;
    let gl = pow(g as int, lambda);
    let sl = pow(s as int, lambda);
    lemma_unit_shape(gl, n);
    lemma_unit_shape(sl, n);
    let lg = l_spec(gl % nn, n);
    let ls = l_spec(sl % nn, n);
    let gm = pow(g as int, m);
    let sn = pow(s as int, n as nat);
    // (g^m · s^n)^λ = (g^λ)^m · (s^λ)^n
    lemma_pow_mod_noop(gm * sn, lambda, nn);
    lemma_pow_distributes(gm, sn, lambda);
    lemma_pow_multiplies(g as int, m, lambda);
    lemma_pow_multiplies(g as int, lambda, m);
    lemma_pow_multiplies(s as int, n as nat, lambda);
    lemma_pow_multiplies(s as int, lambda, n as nat);
    assert(m * lambda == lambda * m) by (nonlinear_arith);
    assert((n as nat) * lambda == lambda * (n as nat)) by (nonlinear_arith);
    lemma_pow_mod_noop(gl, m, nn);
    lemma_pow_mod_noop(sl, n as nat, nn);
    lemma_power_of_unit(n, lg, m);
    lemma_power_of_unit(n, ls, n as nat);
    lemma_mod_multiples_basic(ls, n);
    assert(n * ls == ls * n) by (nonlinear_arith);
    assert(pow(gm, lambda) == pow(gl, m));
    assert(pow(sn, lambda) == pow(sl, n as nat));
    assert(pow(gl, m) % nn == 1 + n * ((m * lg) % n));
    assert(pow(sl, n as nat) % nn == 1);
    lemma_mul_mod_noop(pow(gl, m), pow(sl, n as nat), nn);
    let k = (m * lg) % n;
    lemma_mod_bound(m * lg, n);
    assert(0 <= 1 + n * k < nn) by (nonlinear_arith)
        requires
            n > 1,
            0 <= k < n,
            nn == n * n,
    ;
    lemma_small_mod((1 + n * k) as nat, nn as nat);
    lemma_fundamental_div_mod_converse_div(n * k, n, k, 0);
    assert(pow(encrypt_spec(g as int, n, m as int, s as int), lambda) % nn == 1 + n * k);
    assert(l_spec(1 + n * k, n) == k);
    // L = m·L_g mod n, and μ inverts L_g.
    lemma_mul_mod_noop_left(m * lg, mu, n);
    assert(m * lg * mu == m * (lg * mu)) by (nonlinear_arith);
    lemma_mul_mod_noop_right(m as int, lg * mu, n);
    lemma_small_mod(1, n as nat);
    lemma_small_mod(m, n as nat);
}

/// Raising a ciphertext to the power `v` modulo `n²` multiplies what it
/// decrypts to by `v` modulo `n`, for a ciphertext whose `λ`-th power is `1`
/// modulo `n`.
proof fn lemma_power_decrypts_to_multiple(lambda: nat, mu: int, n: int, c: nat, v: nat)
    requires
        n > 1,
        pow(c as int, lambda) % n == 1,
    ensures
        decrypt_spec(lambda as int, mu, n, pow(c as int, v) % (n * n)) == (v * decrypt_spec(
            lambda as int,
            mu,
            n,
            c as int,
        )) % n,
{
    let nn = n * n;
    let cl = pow(c as int, lambda);
    lemma_unit_shape(cl, n);
    let lc = l_spec(cl % nn, n);
    lemma_pow_mod_noop(pow(c as int, v), lambda, nn);
    lemma_pow_multiplies(c as int, v, lambda);
    lemma_pow_multiplies(c as int, lambda, v);
    assert(v * lambda == lambda * v) by (nonlinear_arith);
    lemma_pow_mod_noop(cl, v, nn);
    lemma_power_of_unit(n, lc, v);
    let k = (v * lc) % n;
    lemma_mod_bound(v * lc, n);
    assert(0 <= 1 + n * k < nn) by (nonlinear_arith)
        requires
            n > 1,
            0 <= k < n,
            nn == n * n,
    ;
    lemma_small_mod((1 + n * k) as nat, nn as nat);
    lemma_fundamental_div_mod_converse_div(n * k, n, k, 0);
    lemma_mul_mod_noop_left(v * lc, mu, n);
    assert(v * lc * mu == v * (lc * mu)) by (nonlinear_arith);
    lemma_mul_mod_noop_right(v as int, lc * mu, n);
}

/// The facts about a key for distinct primes that the laws below rest on:
/// its parts are the exact values of `key_for_base`, `μ` inverts
/// `L(g^λ mod n²)`, and `g^λ ≡ 1 (mod n)`.
proof fn lemma_key_facts(p: u64, q: u64, g: u64, key: PaillierKey)
    requires
        is_prime(p as int),
        is_prime(q as int),
        p != q,
        modulus_ok(p * q),
        key_for_base(p as int, q as int, g as int) == Some(key),
    ensures
        key.public_key == (g, (p * q) as u64),
        key.private_key.0 == lcm_spec((p - 1) as nat, (q - 1) as nat),
        is_inverse(
            l_spec(pow(g as int, key.private_key.0 as nat) % ((p * q) * (p * q)), (p * q) as int),
            (p * q) as int,
            key.private_key.1 as int,
        ),
        pow(g as int, key.private_key.0 as nat) % ((p * q) as int) == 1,
{
    lemma_key_sizes(p, q);
    let n = (p * q) as int;
    let lambda = lcm_spec((p - 1) as nat, (q - 1) as nat);
    let x = pow(g as int, lambda as nat) % (n * n);
    lemma_modulus(n);
    lemma_mod_bound(pow(g as int, lambda as nat), n * n);
    lemma_l_bound(x, n);
    let lv = l_spec(x, n);
    lemma_inverse_exists(lv as nat, n as nat);
    lemma_carmichael(p as nat, q as nat, g as nat);
}

/// A ciphertext whose base and nonce have `λ`-th powers `1` modulo `n` has
/// that property too.
proof fn lemma_ciphertext_power(g: int, n: int, m: nat, s: int, lambda: nat)
    requires
        n > 1,
        pow(g, lambda) % n == 1,
        pow(s, lambda) % n == 1,
    ensures
        pow(encrypt_spec(g, n, m as int, s), lambda) % n == 1,
{
    let e = pow(g, m) * pow(s, n as nat);
    lemma_pow_mod_noop(encrypt_spec(g, n, m as int, s), lambda, n);
    lemma_mod_mod(e, n, n);
    lemma_pow_mod_noop(e, lambda, n);
    lemma_pow_distributes(pow(g, m), pow(s, n as nat), lambda);
    lemma_pow_multiplies(g, m, lambda);
    lemma_pow_multiplies(g, lambda, m);
    lemma_pow_multiplies(s, n as nat, lambda);
    lemma_pow_multiplies(s, lambda, n as nat);
    assert(m * lambda == lambda * m) by (nonlinear_arith);
    assert((n as nat) * lambda == lambda * (n as nat)) by (nonlinear_arith);
    lemma_pow_mod_noop(pow(g, lambda), m, n);
    lemma_pow_mod_noop(pow(s, lambda), n as nat, n);
    lemma1_pow(m);
    lemma1_pow(n as nat);
    lemma_small_mod(1, n as nat);
    lemma_mul_mod_noop(pow(pow(g, lambda), m), pow(pow(s, lambda), n as nat), n);
}

/// Decryption undoes encryption: under a key for two distinct primes, every
/// ciphertext of a plaintext `m` decrypts to `m`.
pub proof fn lemma_round_trip(p: u64, q: u64, g: u64, key: PaillierKey, m: u64, s: u64, c: u64)
    requires
        is_prime(p as int),
        is_prime(q as int),
        p != q,
        modulus_ok(p * q),
        key_for_base(p as int, q as int, g as int) == Some(key),
        cipher_result(key.public_key.0 as int, key.public_key.1 as int, m as int, s as int) == Ok::<
            u64,
            CryptoError,
        >(c),
    ensures
        decrypt_spec(
            key.private_key.0 as int,
            key.private_key.1 as int,
            key.public_key.1 as int,
            c as int,
        ) == m,
{
    lemma_key_sizes(p, q);
    lemma_key_facts(p, q, g, key);
    let n = (p * q) as int;
    lemma_modulus(n);
    lemma_mod_bound(pow(g as int, m as nat) * pow(s as int, n as nat), n * n);
    lemma_carmichael(p as nat, q as nat, s as nat);
    lemma_decrypt_encrypt(key.private_key.0 as nat, key.private_key.1 as int, n, g as nat, m as nat, s as nat);
}

/// Multiplying two ciphertexts modulo `n²` adds their plaintexts modulo `n`,
/// under a key for two distinct primes.
pub proof fn lemma_homomorphic_sum(
    p: u64,
    q: u64,
    g: u64,
    key: PaillierKey,
    m1: u64,
    s1: u64,
    c1: u64,
    m2: u64,
    s2: u64,
    c2: u64,
)
    requires
        is_prime(p as int),
        is_prime(q as int),
        p != q,
        modulus_ok(p * q),
        key_for_base(p as int, q as int, g as int) == Some(key),
        cipher_result(key.public_key.0 as int, key.public_key.1 as int, m1 as int, s1 as int)
            == Ok::<u64, CryptoError>(c1),
        cipher_result(key.public_key.0 as int, key.public_key.1 as int, m2 as int, s2 as int)
            == Ok::<u64, CryptoError>(c2),
    ensures
        decrypt_spec(
            key.private_key.0 as int,
            key.private_key.1 as int,
            key.public_key.1 as int,
            (c1 * c2) % (key.public_key.1 * key.public_key.1),
        ) == (m1 + m2) % (key.public_key.1 as int),
{
    lemma_key_sizes(p, q);
    lemma_key_facts(p, q, g, key);
    let n = (p * q) as int;
    let lambda = key.private_key.0 as nat;
    lemma_modulus(n);
    lemma_round_trip(p, q, g, key, m1, s1, c1);
    lemma_round_trip(p, q, g, key, m2, s2, c2);
    lemma_carmichael(p as nat, q as nat, s1 as nat);
    lemma_carmichael(p as nat, q as nat, s2 as nat);
    lemma_mod_bound(pow(g as int, m1 as nat) * pow(s1 as int, n as nat), n * n);
    lemma_mod_bound(pow(g as int, m2 as nat) * pow(s2 as int, n as nat), n * n);
    lemma_ciphertext_power(g as int, n, m1 as nat, s1 as int, lambda);
    lemma_ciphertext_power(g as int, n, m2 as nat, s2 as int, lambda);
    lemma_product_decrypts_to_sum(lambda, key.private_key.1 as int, n, c1 as int, c2 as int);
    lemma_add_mod_noop(m1 as int, m2 as int, n);
}

/// Raising a ciphertext to the power `v` modulo `n²` multiplies its
/// plaintext by `v` modulo `n`, under a key for two distinct primes.
pub proof fn lemma_homomorphic_scaling(
    p: u64,
    q: u64,
    g: u64,
    key: PaillierKey,
    m: u64,
    s: u64,
    c: u64,
    v: u64,
)
    requires
        is_prime(p as int),
        is_prime(q as int),
        p != q,
        modulus_ok(p * q),
        key_for_base(p as int, q as int, g as int) == Some(key),
        cipher_result(key.public_key.0 as int, key.public_key.1 as int, m as int, s as int) == Ok::<
            u64,
            CryptoError,
        >(c),
    ensures
        decrypt_spec(
            key.private_key.0 as int,
            key.private_key.1 as int,
            key.public_key.1 as int,
            pow(c as int, v as nat) % (key.public_key.1 * key.public_key.1),
        ) == (v * m) % (key.public_key.1 as int),
{
    lemma_key_sizes(p, q);
    lemma_key_facts(p, q, g, key);
    let n = (p * q) as int;
    let lambda = key.private_key.0 as nat;
    lemma_modulus(n);
    lemma_round_trip(p, q, g, key, m, s, c);
    lemma_carmichael(p as nat, q as nat, s as nat);
    lemma_mod_bound(pow(g as int, m as nat) * pow(s as int, n as nat), n * n);
    lemma_ciphertext_power(g as int, n, m as nat, s as int, lambda);
    lemma_power_decrypts_to_multiple(lambda, key.private_key.1 as int, n, c as nat, v as nat);
}

} // verus!
