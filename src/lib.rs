//! Drift certificates for the truncated Collatz map.
//!
//! For a modulus exponent `k` and a depth `l`, every odd residue modulo `2^k`
//! is iterated `l` times under `x -> (3x + 1) / 2^e` (kept modulo `2^k`), and
//! the removed powers of two are summed. The library computes that table,
//! stores it in a self-checking binary format, derives the certificate
//! (minimum, threshold, pass flag) and checks a stored certificate against a
//! fresh recomputation.
pub mod cert;
pub mod hex;
pub mod kernel;
pub mod stats;
pub mod table;
pub mod threshold;
