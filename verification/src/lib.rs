//! Modular exponentiation `base^exponent mod modulus` over arbitrary-precision
//! unsigned integers, by Montgomery multiplication with a fixed four-bit
//! window.
//!
//! Integers are little-endian vectors of 64-bit limbs ([`biguint::BigUint`]).
//! [`monty::monty_modpow`] is the entry point; beneath it lie the
//! almost-Montgomery multiplication [`monty::montgomery`], the
//! multiply-accumulate primitive in its sequential ([`vector`]) and
//! chunk-parallel ([`parallel`]) forms, and the single-limb building blocks
//! ([`word`]). Every function states what it returns over the number that a
//! limb vector stands for ([`limbs::limbs_value`]).

pub mod big_digit;
pub mod biguint;
pub mod limbs;
pub mod modular;
pub mod monty;
pub mod monty_proofs;
pub mod ops;
pub mod parallel;
pub mod vector;
pub mod word;

pub use monty::monty_modpow;
