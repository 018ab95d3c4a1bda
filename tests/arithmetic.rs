use mpc_zk_paillier::arithmetic::{check_prime, div_mod, gcd, inv_mod, lcm, totient};

#[test]
fn gcd_of_common_values() {
    assert_eq!(gcd(12, 18), 6);
    assert_eq!(gcd(17, 5), 1);
    assert_eq!(gcd(0, 9), 9);
    assert_eq!(gcd(9, 0), 9);
}

#[test]
fn lcm_of_common_values() {
    assert_eq!(lcm(4, 6), 12);
    assert_eq!(lcm(10, 2), 10);
    assert_eq!(lcm(7, 5), 35);
}

#[test]
fn inv_mod_examples() {
    assert_eq!(inv_mod(3, 11), Some(4));
    assert_eq!(inv_mod(10, 17), Some(12));
    assert_eq!(inv_mod(2, 4), None);
    assert_eq!(inv_mod(0, 7), None);
    assert_eq!(inv_mod(14, 11), Some(4));
}

#[test]
fn inv_mod_inverts_exactly_the_coprime_values() {
    for p in 1u64..40 {
        for x in 0u64..60 {
            match inv_mod(x, p) {
                Some(i) => {
                    assert_eq!(gcd(x, p), 1);
                    assert!(i < p);
                    assert_eq!((x * i) % p, 1 % p);
                }
                None => assert_ne!(gcd(x, p), 1),
            }
        }
    }
}

#[test]
fn inv_mod_on_large_modulus() {
    let p: u64 = 18_446_744_073_709_551_557;
    let i = inv_mod(123_456_789, p).unwrap();
    assert_eq!((123_456_789u128 * i as u128) % p as u128, 1);
}

#[test]
fn div_mod_examples() {
    assert_eq!(div_mod(3, 11), Some(1));
    assert_eq!(div_mod(6, 9), None);
}

#[test]
fn totient_examples() {
    assert_eq!(totient(0), 0);
    assert_eq!(totient(1), 1);
    assert_eq!(totient(9), 6);
    assert_eq!(totient(10), 4);
    assert_eq!(totient(17), 16);
    assert_eq!(totient(36), 12);
    assert_eq!(totient(1_000_000), 400_000);
    assert_eq!(totient(1_022_117), 1008 * 1012);
}

#[test]
fn totient_counts_coprime_residues() {
    for n in 1u64..300 {
        let count = (1..=n).filter(|k| gcd(*k, n) == 1).count() as u64;
        assert_eq!(totient(n), count);
    }
}

#[test]
fn primality_by_trial_division() {
    let primes: Vec<u64> = (0u64..60).filter(|n| check_prime(*n)).collect();
    assert_eq!(primes, vec![2, 3, 5, 7, 11, 13, 17, 19, 23, 29, 31, 37, 41, 43, 47, 53, 59]);
    assert!(check_prime(1009));
    assert!(!check_prime(1_022_117));
    assert!(check_prime(18_446_744_073_709_551_557));
}
