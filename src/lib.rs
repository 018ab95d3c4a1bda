//! Prime-field elliptic-curve arithmetic, the Paillier cryptosystem and a
//! two-party threshold ECDSA signing round built from both.
//!
//! Integers are `u64` values; products are formed in `u128` and reduced, and
//! every public function states its result over mathematical integers. Where
//! a value must fit in `u64` (a Paillier ciphertext below `n²`, a group order
//! one above the number of listed points) a precondition says so; nothing
//! else bounds the inputs.
pub mod arithmetic;
pub mod number_theory;
pub mod bignum;
pub mod hashing;
pub mod random;
pub mod error;
pub mod curve;
pub mod paillier;
pub mod mpc;
