//! What a payload processor is told, and how it fails.
use vstd::prelude::*;

use crate::time::Timestamp;

verus! {

/// Why a payload could not be processed.
#[derive(Debug, Clone, PartialEq, Eq)]
pub enum PayloadError {
    /// The processor failed, for the given reason.
    Processor(String),
}

impl PayloadError {
    /// The error as a message.
    pub fn text(&self) -> (r: String)
        ensures
            r@ == (match self {
                PayloadError::Processor(message) => "payload processor error: "@ + message@,
            }),
    {
        match self {
            PayloadError::Processor(message) => {
                let mut out = "payload processor error: ".to_owned();
                out.append(message.as_str());
                out
            },
        }
    }
}

/// Where a payload belongs.
#[derive(Debug, Clone)]
pub struct PayloadContext {
    /// The name of the track.
    pub track: String,
    /// The presentation time of the payload.
    pub timestamp: Timestamp,
}

} // verus!
