//! A Merkle-tree vector commitment over base-field columns, coupled with a
//! Fiat-Shamir transcript: a prover commits to power-of-two columns, answers
//! query sets with minimal decommitments, and a verifier reconstructs the
//! root from revealed values and witness digests; all verifier randomness is
//! drawn from a hash-backed channel so that prover and verifier stay in
//! lockstep. The hash backends are pluggable; the byte-oriented one here is
//! blake3.

pub mod blake3_channel;
pub mod blake3_hash;
pub mod blake3_merkle;
pub mod channel;
pub mod fields;
pub mod laws;
pub mod merkle_verifier;
pub mod ops;
pub mod poseidon31_hash;
pub mod poseidon31_merkle;
pub mod prover;
pub mod queries;
