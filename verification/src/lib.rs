//! Recovery of CBC-mode plaintext through a padding-validity oracle.
//!
//! The crate has two components: a validity oracle, which holds the secret
//! key and answers only whether a candidate (IV, ciphertext) pair decrypts
//! to well-formed trailing padding, and an attack engine, which queries that
//! oracle with forged predecessor blocks and recovers the full plaintext
//! without ever seeing the key.

pub mod adversary;
pub mod model;
pub mod oracle;
