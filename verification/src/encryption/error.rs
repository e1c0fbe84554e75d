//! Why a frame could not be protected or opened.
use vstd::prelude::*;

verus! {

/// Why a frame could not be protected or opened.
#[derive(Debug, Clone, PartialEq, Eq)]
pub enum EncryptionError {
    NotImplemented,
    CounterExhausted,
    InvalidFrame,
    TruncatedFrame,
    CiphertextTooShort,
    InvalidPadLength,
    InvalidEncryptedFlag(u8),
    InvalidSigFlag(u8),
    AuthenticationFailed,
    SignatureFailed,
    SigningMismatch,
    MissingSigSlot,
    SignatureNotAllowedByNSigned,
    DecryptionFailed,
    InvalidKey,
    InvalidKeyId(u8),
    UnsupportedVersion(u8),
    Backend(String),
}

} // verus!
