//! Outcome enumerations for the encode and decode operations.
//!
//! Both sets are closed and their numeric codes are a stable cross-boundary
//! contract: [`EncodeStatus::code`] and [`DecodeStatus::code`] pin one number
//! to each variant, and those numbers must never be renumbered or reordered.

use vstd::prelude::*;

verus! {

/// The outcome of an encode operation.
#[derive(PartialEq, Eq, Copy, Clone, Debug, Structural)]
pub enum EncodeStatus {
    Success,
    OutOfMemory,
    MaxDepthExceeded,
    MissingRequired,
}

/// The outcome of a decode operation.
#[derive(PartialEq, Eq, Copy, Clone, Debug, Structural)]
pub enum DecodeStatus {
    Success,
    Malformed,
    OutOfMemory,
    BadUtf8,
    MaxDepthExceeded,
    MissingRequired,
    UnlinkedSubMessage,
}

impl EncodeStatus {
    /// The pinned numeric code of this status.
    pub open spec fn code_spec(self) -> u8 {
        match self {
            EncodeStatus::Success => 0,
            EncodeStatus::OutOfMemory => 1,
            EncodeStatus::MaxDepthExceeded => 2,
            EncodeStatus::MissingRequired => 3,
        }
    }

    /// The pinned numeric code of this status.
    pub fn code(&self) -> (r: u8)
        ensures
            r == self.code_spec(),
    {
        match self {
            EncodeStatus::Success => 0,
            EncodeStatus::OutOfMemory => 1,
            EncodeStatus::MaxDepthExceeded => 2,
            EncodeStatus::MissingRequired => 3,
        }
    }
}

impl DecodeStatus {
    /// The pinned numeric code of this status.
    pub open spec fn code_spec(self) -> u8 {
        match self {
            DecodeStatus::Success => 0,
            DecodeStatus::Malformed => 1,
            DecodeStatus::OutOfMemory => 2,
            DecodeStatus::BadUtf8 => 3,
            DecodeStatus::MaxDepthExceeded => 4,
            DecodeStatus::MissingRequired => 5,
            DecodeStatus::UnlinkedSubMessage => 6,
        }
    }

    /// The pinned numeric code of this status.
    pub fn code(&self) -> (r: u8)
        ensures
            r == self.code_spec(),
    {
        match self {
            DecodeStatus::Success => 0,
            DecodeStatus::Malformed => 1,
            DecodeStatus::OutOfMemory => 2,
            DecodeStatus::BadUtf8 => 3,
            DecodeStatus::MaxDepthExceeded => 4,
            DecodeStatus::MissingRequired => 5,
            DecodeStatus::UnlinkedSubMessage => 6,
        }
    }
}

} // verus!
