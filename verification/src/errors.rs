use vstd::prelude::*;

verus! {

/// Errors raised by setup, the key-evolution engine and the signing algebra.
///
/// Verification failures (a bad signature, an identity point, a point of the
/// wrong order) are not errors but a negative boolean result; only
/// argument-shape problems raise one of these.
#[derive(Debug)]
pub enum ForwardSecureSignatureError {
    /// Setup was asked for a horizon below 3 or at the integer maximum.
    InvalidMaxTimePeriod { t_max: u128 },
    /// The horizon plus one is not a power of two.
    NonPowerOfTwo { t_max: u128 },
    /// A node path is malformed: too long, or a step is not 1 or 2.
    InvalidPath { path: Vec<u8>, l: u8 },
    /// A time period lies outside `[1, 2^l - 1]`.
    InvalidNodeNum { t: u128, l: u8 },
    /// The generator set holds fewer than `n` signature-group generators.
    NotEnoughGenerators { n: usize },
    /// No node secret for the requested period is in the store.
    SigkeyNotFound { t: u128 },
    /// An update was asked to move strictly backwards in time.
    SigkeyUpdateBackward { old_t: u128, current_t: u128 },
    /// An update was asked to move to the period it is already at.
    SigkeyAlreadyUpdated { t: u128 },
}

} // verus!
