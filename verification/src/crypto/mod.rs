//! Cryptographic layer: hashing, NIST ML-DSA-44, and the phone-only shield.

pub mod hash;
pub mod lattice;
pub mod mobile_only;
