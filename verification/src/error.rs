//! Error values of the store and its wire protocol.
//!
//! Conflicts and exceeded length caps are recoverable and are kept apart
//! from I/O failures, so callers can branch on them without inspecting
//! message text.

use vstd::prelude::*;

verus! {

/// A malformed or unexpected byte on the wire, or an invalid log record.
#[derive(Clone, Copy, Debug, PartialEq, Eq, Structural)]
pub struct ProtocolError;

/// A transaction's witnesses overlapped an interposed commit.
#[derive(Clone, Copy, Debug, PartialEq, Eq, Structural)]
pub struct TransactionConflict;

/// The answer would exceed the length cap the client set.
#[derive(Clone, Copy, Debug, PartialEq, Eq, Structural)]
pub struct LimitExceeded;

/// The kinds of I/O failure the library distinguishes.
#[derive(Clone, Copy, Debug, PartialEq, Eq, Structural)]
pub enum IoErrorKind {
    /// The peer closed or reset the connection.
    ConnectionReset,
    /// The input ended inside a frame or record.
    UnexpectedEof,
    /// A protocol rule was broken by the peer.
    InvalidData,
    /// The answer would exceed a length cap the caller set.
    LimitExceeded,
    /// Any other failure the transport reports.
    Other,
}

/// An I/O failure reported by a transport or a log sink.
#[derive(Clone, Copy, Debug, PartialEq, Eq, Structural)]
pub struct IoError {
    pub kind: IoErrorKind,
}

impl IoError {
    pub fn new(kind: IoErrorKind) -> (r: IoError)
        ensures
            r.kind == kind,
    {
        IoError { kind }
    }

    /// The protocol-error failure, as both sides of the wire report it.
    pub fn protocol() -> (r: IoError)
        ensures
            r.kind == IoErrorKind::InvalidData,
    {
        IoError { kind: IoErrorKind::InvalidData }
    }
}

/// Why a commit failed: a witness conflict, or an I/O failure underneath.
#[derive(Debug)]
pub enum TransactionError {
    /// The transaction's witnesses overlapped an interposed commit; the
    /// caller may retry from a fresh snapshot.
    Conflict,
    /// The underlying transport or log failed; passed through verbatim.
    Io(IoError),
}

/// Splits a commit result so callers can branch on conflicts without
/// touching I/O failures.
pub trait TransposeConflict: Sized {
    type Output;

    /// What the split returns for each input.
    spec fn transpose_spec(self) -> Result<Result<Self::Output, TransactionConflict>, IoError>;

    fn transpose_conflict(self) -> (r: Result<Result<Self::Output, TransactionConflict>, IoError>)
        ensures
            r == self.transpose_spec(),
    ;
}

impl<T> TransposeConflict for Result<T, TransactionError> {
    type Output = T;

    /// A success stays a success, a conflict becomes the recoverable
    /// `TransactionConflict`, and an I/O failure passes through verbatim.
    open spec fn transpose_spec(self) -> Result<Result<T, TransactionConflict>, IoError> {
        match self {
            Ok(x) => Ok(Ok(x)),
            Err(TransactionError::Conflict) => Ok(Err(TransactionConflict)),
            Err(TransactionError::Io(error)) => Err(error),
        }
    }

    fn transpose_conflict(self) -> (r: Result<Result<T, TransactionConflict>, IoError>) {
        match self {
            Ok(x) => Ok(Ok(x)),
            Err(TransactionError::Conflict) => Ok(Err(TransactionConflict)),
            Err(TransactionError::Io(error)) => Err(error),
        }
    }
}

} // verus!
