//! A forward-secure, aggregatable signature scheme over a bilinear pairing.
//!
//! A signer is provisioned with a master secret tied to a time horizon `T`
//! (with `T + 1` a power of two).  At each period `t` in `[1, T]` the signer
//! holds a node secret that can sign messages for `t`; advancing the clock
//! punctures the key so that secrets for past periods are destroyed while
//! keys for later periods remain derivable.  Signatures from independent
//! signers on the same message and period aggregate into one constant-size
//! signature that verifies against the sum of their verification keys.
//!
//! The binary-tree key-evolution engine (`keys`, `tree`) is verified: the
//! store provably holds exactly the minimal frontier covering the periods
//! that are still signable.  Group and pairing arithmetic is delegated to
//! the `amcl_wrapper` crate through the trusted declarations in `pairing`.

pub mod errors;
pub mod pairing;
pub mod tree;
pub mod keys;
pub mod signature;
