//! How the conditions a TLS channel reports map onto the engine's outcomes.
//!
//! A TLS read or write may fail with more than an I/O error: the peer may have
//! closed the session cleanly, or the channel may need to become readable or
//! writable first, whichever operation was asked for. A stream over TLS uses
//! the same engine as a plain one, and these two functions decide what such a
//! condition means for a non-blocking receive and a non-blocking send.
use vstd::prelude::*;

use crate::error::StreamError;

verus! {

/// A condition reported by a TLS read or write instead of a byte count.
#[derive(Clone, Copy, PartialEq, Eq, Structural, Debug)]
pub enum TlsErrorCode {
    /// The peer closed the TLS session.
    ZeroReturn,
    /// The channel must become readable first.
    WantRead,
    /// The channel must become writable first.
    WantWrite,
    /// An operating-system call failed.
    Syscall,
    /// The TLS protocol failed.
    Ssl,
    /// Any other condition.
    Other,
}

/// What a non-blocking receive does when a TLS read reports `code`.
///
/// `None`: nothing more can be read for now, so reading stops and the bytes
/// gathered so far are decoded. `Some(e)`: the receive fails with `e`.
pub fn read_error_outcome(code: TlsErrorCode) -> (r: Option<StreamError>)
    ensures
        code == TlsErrorCode::WantRead <==> r is None,
        code == TlsErrorCode::ZeroReturn ==> r == Some(StreamError::UnexpectedEof),
        code == TlsErrorCode::WantWrite ==> r == Some(StreamError::WantWrite),
        code == TlsErrorCode::Syscall ==> r == Some(StreamError::Syscall),
        code == TlsErrorCode::Ssl ==> r == Some(StreamError::Ssl),
        code == TlsErrorCode::Other ==> r == Some(StreamError::Unknown),
{
    match code {
        TlsErrorCode::ZeroReturn => Some(StreamError::UnexpectedEof),
        TlsErrorCode::WantRead => None,
        TlsErrorCode::WantWrite => Some(StreamError::WantWrite),
        TlsErrorCode::Syscall => Some(StreamError::Syscall),
        TlsErrorCode::Ssl => Some(StreamError::Ssl),
        TlsErrorCode::Other => Some(StreamError::Unknown),
    }
}

/// What a non-blocking send reports when a TLS write reports `code`. The
/// transmit buffer keeps every byte in either case.
pub fn write_error_outcome(code: TlsErrorCode) -> (r: StreamError)
    ensures
        code == TlsErrorCode::WantWrite <==> r == StreamError::WouldBlock,
        code == TlsErrorCode::ZeroReturn ==> r == StreamError::UnexpectedEof,
        code == TlsErrorCode::WantRead ==> r == StreamError::WantRead,
        code == TlsErrorCode::Syscall ==> r == StreamError::Syscall,
        code == TlsErrorCode::Ssl ==> r == StreamError::Ssl,
        code == TlsErrorCode::Other ==> r == StreamError::Unknown,
{
    match code {
        TlsErrorCode::ZeroReturn => StreamError::UnexpectedEof,
        TlsErrorCode::WantRead => StreamError::WantRead,
        TlsErrorCode::WantWrite => StreamError::WouldBlock,
        TlsErrorCode::Syscall => StreamError::Syscall,
        TlsErrorCode::Ssl => StreamError::Ssl,
        TlsErrorCode::Other => StreamError::Unknown,
    }
}

} // verus!
