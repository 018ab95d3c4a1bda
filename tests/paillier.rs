use mpc_zk_paillier::error::CryptoError;
use mpc_zk_paillier::paillier::{
    add_ciphertexts, cipher_paillier, cipher_paillier_with_nonce, decipher_paillier,
    gen_key_paillier, paillier_key_for_base, scale_ciphertext, PaillierKey,
};
use rand::rngs::StdRng;
use rand::SeedableRng;

fn toy_key() -> PaillierKey {
    paillier_key_for_base(11, 3, 5).unwrap()
}

#[test]
fn key_for_base_five() {
    let key = toy_key();
    assert_eq!(key.public_key, (5, 33));
    assert_eq!(key.private_key, (10, 2));
    let key = paillier_key_for_base(11, 3, 34).unwrap();
    assert_eq!(key.private_key, (10, 10));
}

#[test]
fn key_for_base_rejects_bad_bases() {
    assert!(paillier_key_for_base(11, 3, 3).is_none());
    assert!(paillier_key_for_base(11, 3, 1).is_none());
}

#[test]
fn encryption_with_fixed_nonce() {
    let key = toy_key();
    assert_eq!(cipher_paillier_with_nonce(&key.public_key, 5, 7), Ok(794));
    assert_eq!(cipher_paillier_with_nonce(&key.public_key, 3, 2), Ok(109));
    assert_eq!(
        cipher_paillier_with_nonce(&key.public_key, 5, 11),
        Err(CryptoError::NoInverseExists)
    );
}

#[test]
fn message_out_of_range() {
    let key = toy_key();
    let mut rng = StdRng::seed_from_u64(3);
    assert_eq!(
        cipher_paillier(&key.public_key, 0, &mut rng),
        Err(CryptoError::InvalidMessageRange)
    );
    assert_eq!(
        cipher_paillier(&key.public_key, 33, &mut rng),
        Err(CryptoError::InvalidMessageRange)
    );
    assert_eq!(
        cipher_paillier_with_nonce(&key.public_key, 40, 7),
        Err(CryptoError::InvalidMessageRange)
    );
}

#[test]
fn decryption_of_fixed_ciphertexts() {
    let key = toy_key();
    assert_eq!(decipher_paillier(&key.private_key, 794, &key.public_key), 5);
    assert_eq!(decipher_paillier(&key.private_key, 109, &key.public_key), 3);
}

#[test]
fn round_trip_for_every_plaintext() {
    let mut rng = StdRng::seed_from_u64(5);
    let key = gen_key_paillier(11, 3, &mut rng).unwrap();
    for m in 1..33 {
        let c = cipher_paillier(&key.public_key, m, &mut rng).unwrap();
        assert!(c < 33 * 33);
        assert_eq!(decipher_paillier(&key.private_key, c, &key.public_key), m);
    }
}

#[test]
fn homomorphic_sum_of_five_and_three() {
    let mut rng = StdRng::seed_from_u64(8);
    let key = gen_key_paillier(11, 3, &mut rng).unwrap();
    let c1 = cipher_paillier(&key.public_key, 5, &mut rng).unwrap();
    let c2 = cipher_paillier(&key.public_key, 3, &mut rng).unwrap();
    let sum = add_ciphertexts(&key.public_key, c1, c2);
    assert_eq!(sum, (c1 * c2) % (33 * 33));
    assert_eq!(decipher_paillier(&key.private_key, sum, &key.public_key), 8);
}

#[test]
fn homomorphic_sums_wrap_modulo_n() {
    let mut rng = StdRng::seed_from_u64(9);
    let key = gen_key_paillier(11, 3, &mut rng).unwrap();
    for (m1, m2) in [(1, 2), (20, 20), (32, 32), (17, 16)] {
        let c1 = cipher_paillier(&key.public_key, m1, &mut rng).unwrap();
        let c2 = cipher_paillier(&key.public_key, m2, &mut rng).unwrap();
        let sum = add_ciphertexts(&key.public_key, c1, c2);
        assert_eq!(decipher_paillier(&key.private_key, sum, &key.public_key), (m1 + m2) % 33);
    }
}

#[test]
fn homomorphic_scaling() {
    let key = toy_key();
    let c = cipher_paillier_with_nonce(&key.public_key, 4, 7).unwrap();
    let scaled = scale_ciphertext(&key.public_key, c, 5);
    assert_ne!(scaled, c);
    assert_eq!(decipher_paillier(&key.private_key, scaled, &key.public_key), 20);
    let scaled = scale_ciphertext(&key.public_key, c, 10);
    assert_eq!(decipher_paillier(&key.private_key, scaled, &key.public_key), 7);
}

#[test]
fn generated_key_has_the_stated_shape() {
    let mut rng = StdRng::seed_from_u64(21);
    let key = gen_key_paillier(11, 3, &mut rng).unwrap();
    let g = key.public_key.0;
    assert!(1 <= g && g < 33 * 33);
    assert_eq!(paillier_key_for_base(11, 3, g).unwrap().private_key, key.private_key);
}

#[test]
fn key_generation_fails_without_a_usable_base() {
    let mut rng = StdRng::seed_from_u64(2);
    assert_eq!(gen_key_paillier(2, 3, &mut rng).unwrap_err(), CryptoError::KeyGenerationFailed);
}
