use mpc_zk_paillier::curve::{EcWei, Point};
use mpc_zk_paillier::error::CryptoError;
use mpc_zk_paillier::mpc::{
    digest_scalar, message_scalar, party1_signature, party2_contribution, party2_sign,
    verify_signature, verify_signature_for_scalar, NonceLog, Signature,
};
use mpc_zk_paillier::paillier::{cipher_paillier_with_nonce, paillier_key_for_base, PaillierKey};
use mpc_zk_paillier::random::{sample_scalar, sample_unit};
use rand::rngs::StdRng;
use rand::SeedableRng;

const MESSAGE: &str = "Hello Victor, this is a message from Peggy";
const ORDER: u64 = 11;

fn curve() -> EcWei {
    EcWei::new(-2, 7, 17)
}

fn generator() -> Point {
    Point::new(7, 8)
}

fn party1_paillier() -> PaillierKey {
    paillier_key_for_base(1009, 1013, 2).unwrap()
}

#[test]
fn message_scalars() {
    assert_eq!(message_scalar(MESSAGE.as_bytes(), ORDER), 8);
    assert_eq!(message_scalar(b"abc", 1_000_003), 127_342);
    assert_eq!(digest_scalar(&[1, 0], 7), 4);
    assert_eq!(digest_scalar(&[], 7), 0);
}

#[test]
fn paillier_key_for_the_round() {
    let key = party1_paillier();
    assert_eq!(key.public_key, (2, 1_022_117));
    assert_eq!(key.private_key, (255_024, 877_930));
}

/// Runs one round with fixed shares, nonces, blinding factor and
/// encryption nonces; returns the signature and the joint public key.
fn fixed_round() -> (Signature, Point) {
    let ec = curve();
    let g = generator();
    let key = party1_paillier();
    let (d1, d2, k1, k2) = (3, 7, 4, 5);
    let q1 = ec.scalar_mul(&g, d1);
    let q2 = ec.scalar_mul(&g, d2);
    let joint_1 = ec.scalar_mul(&q2, d1);
    let joint_2 = ec.scalar_mul(&q1, d2);
    assert_eq!(joint_1, joint_2);
    assert_eq!(joint_1, Point::new(7, 9));
    let c_key = cipher_paillier_with_nonce(&key.public_key, d1, 12_345).unwrap();
    assert_eq!(c_key, 837_582_684_791);
    let r1 = ec.scalar_mul(&g, k1);
    let r2 = ec.scalar_mul(&g, k2);
    assert_eq!(r1, Point::new(10, 16));
    assert_eq!(r2, Point::new(9, 15));
    assert_eq!(ec.scalar_mul(&r2, k1), ec.scalar_mul(&r1, k2));
    let e = message_scalar(MESSAGE.as_bytes(), ORDER);
    let c3 = party2_contribution(&ec, ORDER, &key.public_key, c_key, e, k2, d2, &r1, 17, 54_321)
        .unwrap();
    assert_eq!(c3, 239_469_735_866);
    let sig = party1_signature(&ec, ORDER, &key, c3, k1, &r2).unwrap();
    (sig, joint_1)
}

#[test]
fn fixed_round_signature_verifies() {
    let (sig, q) = fixed_round();
    assert_eq!(sig, Signature { r: 5, s: 4 });
    assert!(verify_signature(&curve(), ORDER, &generator(), &q, MESSAGE.as_bytes(), &sig));
}

#[test]
fn perturbed_signatures_fail() {
    let (sig, q) = fixed_round();
    let ec = curve();
    let bad_r = Signature { r: sig.r + 1, s: sig.s };
    let bad_s = Signature { r: sig.r, s: sig.s + 1 };
    assert!(!verify_signature(&ec, ORDER, &generator(), &q, MESSAGE.as_bytes(), &bad_r));
    assert!(!verify_signature(&ec, ORDER, &generator(), &q, MESSAGE.as_bytes(), &bad_s));
    assert!(!verify_signature(&ec, ORDER, &generator(), &q, b"another message", &sig));
}

#[test]
fn verification_rejects_a_zero_s_and_foreign_points() {
    let (sig, q) = fixed_round();
    let ec = curve();
    let zero_s = Signature { r: sig.r, s: 0 };
    assert!(!verify_signature_for_scalar(&ec, ORDER, &generator(), &q, 8, &zero_s));
    assert!(!verify_signature_for_scalar(&ec, ORDER, &generator(), &Point::new(4, 7), 8, &sig));
    assert!(verify_signature_for_scalar(&ec, ORDER, &generator(), &q, 8, &sig));
}

#[test]
fn seeded_round_with_drawn_nonces_verifies() {
    let ec = curve();
    let g = generator();
    let key = party1_paillier();
    let mut rng = StdRng::seed_from_u64(2024);
    let kp1 = ec.gen_key_pair(&g, &mut rng).unwrap();
    let kp2 = ec.gen_key_pair(&g, &mut rng).unwrap();
    let q = ec.scalar_mul(&kp2.pk, kp1.sk);
    let nonce = sample_unit(&mut rng, 1, key.public_key.1, key.public_key.1).unwrap();
    let c_key = cipher_paillier_with_nonce(&key.public_key, kp1.sk, nonce).unwrap();
    let k1 = sample_scalar(&mut rng, ORDER);
    let k2 = sample_scalar(&mut rng, ORDER);
    assert!((1..ORDER).contains(&k1) && (1..ORDER).contains(&k2));
    let r1 = ec.scalar_mul(&g, k1);
    let r2 = ec.scalar_mul(&g, k2);
    let e = message_scalar(MESSAGE.as_bytes(), ORDER);
    let c3 = party2_sign(&ec, ORDER, &key.public_key, c_key, e, k2, kp2.sk, &r1, &mut rng)
        .unwrap();
    let sig = party1_signature(&ec, ORDER, &key, c3, k1, &r2).unwrap();
    assert!(verify_signature(&ec, ORDER, &g, &q, MESSAGE.as_bytes(), &sig));
}

#[test]
fn party_steps_report_their_errors() {
    let ec = curve();
    let key = party1_paillier();
    let r1 = Point::new(10, 16);
    assert_eq!(
        party2_contribution(&ec, ORDER, &key.public_key, 5, 8, 5, 7, &Point::new(4, 7), 17, 3),
        Err(CryptoError::PointNotOnCurve)
    );
    assert_eq!(
        party2_contribution(&ec, ORDER, &key.public_key, 5, 8, 11, 7, &r1, 17, 3),
        Err(CryptoError::NoInverseExists)
    );
    assert_eq!(
        party2_contribution(&ec, ORDER, &key.public_key, 5, 8, 5, 7, &r1, 1_000_000, 3),
        Err(CryptoError::InvalidMessageRange)
    );
    assert_eq!(
        party1_signature(&ec, ORDER, &key, 5, 4, &Point::new(18, 0)),
        Err(CryptoError::PointNotOnCurve)
    );
    assert_eq!(
        party1_signature(&ec, ORDER, &key, 5, 0, &r1),
        Err(CryptoError::NoInverseExists)
    );
}

#[test]
fn nonce_log_refuses_a_second_use() {
    let mut log = NonceLog::new();
    assert!(!log.contains(4));
    assert!(log.claim(4));
    assert!(log.claim(5));
    assert!(log.contains(4));
    assert!(!log.claim(4));
    assert!(!log.claim(5));
    assert!(log.claim(6));
}
