//! The contract every loglet implementation satisfies: append, tail
//! discovery, trim and seal, with a shared vocabulary of tail states and
//! errors.

use vstd::prelude::*;

use crate::offsets::LogletOffset;

verus! {

/// A loglet's tail: one past the last durable record, and whether the
/// loglet still accepts appends. A seal is terminal: once sealed at `n`,
/// the tail is frozen at `n` forever.
#[derive(Debug, Clone, Copy, PartialEq, Eq, Structural)]
pub enum TailState {
    Open(LogletOffset),
    Sealed(LogletOffset),
}

impl TailState {
    /// The tail offset, open or sealed.
    pub open spec fn spec_offset(self) -> LogletOffset {
        match self {
            TailState::Open(o) => o,
            TailState::Sealed(o) => o,
        }
    }

    pub fn offset(self) -> (r: LogletOffset)
        ensures
            r == self.spec_offset(),
    {
        match self {
            TailState::Open(o) => o,
            TailState::Sealed(o) => o,
        }
    }

    pub open spec fn spec_is_sealed(self) -> bool {
        self is Sealed
    }

    pub fn is_sealed(self) -> (r: bool)
        ensures
            r == self.spec_is_sealed(),
    {
        matches!(self, TailState::Sealed(_))
    }
}

/// Why an append was refused.
#[derive(Debug, Clone, Copy, PartialEq, Eq, Structural)]
pub enum AppendError {
    /// The loglet accepts no further writes; the caller may switch to a
    /// newer segment.
    Sealed,
    /// The process is terminating; not retryable.
    Shutdown,
}

/// Why an operation other than an append failed.
#[derive(Debug, Clone, Copy, PartialEq, Eq, Structural)]
pub enum OperationError {
    Shutdown,
    /// A transient fault; the caller may retry.
    Retryable,
}

} // verus!
