//! The error taxonomy of the game core.

use vstd::prelude::*;

verus! {

/// Every failure the core can report. Cryptographic and decode failures are
/// surfaced as typed errors, never silently ignored.
#[derive(Clone, Copy, Debug, PartialEq, Eq, Structural)]
pub enum GameError {
    /// A visibility mask's dimensions do not match the maze's.
    DimensionMismatch,
    /// A serialized record is malformed.
    DecodeError,
    /// A signature does not verify against the claimed state and key.
    InvalidSignature,
    /// A state update whose turn number does not strictly increase.
    StaleUpdate,
    /// A malformed inbound session request.
    ProtocolError,
    /// The peer closed the connection (clean end of stream).
    ConnectionClosed,
}

impl GameError {
    /// A short human-readable description, for session logs.
    pub fn describe(&self) -> (r: &'static str)
        ensures
            r@ == match self {
                GameError::DimensionMismatch => "mask dimensions do not match the maze"@,
                GameError::DecodeError => "malformed serialized record"@,
                GameError::InvalidSignature => "signature does not verify"@,
                GameError::StaleUpdate => "turn number does not increase"@,
                GameError::ProtocolError => "malformed session request"@,
                GameError::ConnectionClosed => "connection closed"@,
            },
    {
        match self {
            GameError::DimensionMismatch => "mask dimensions do not match the maze",
            GameError::DecodeError => "malformed serialized record",
            GameError::InvalidSignature => "signature does not verify",
            GameError::StaleUpdate => "turn number does not increase",
            GameError::ProtocolError => "malformed session request",
            GameError::ConnectionClosed => "connection closed",
        }
    }
}

} // verus!
