//! The outcomes a stream call reports besides success.
use vstd::prelude::*;

verus! {

/// Why a stream call did not complete.
///
/// `WouldBlock` is transient: the call should be made again once the channel
/// is ready. `WantRead` and `WantWrite` carry the direction a TLS channel needs
/// before it can make progress. The others are fatal.
#[derive(Clone, Copy, PartialEq, Eq, Structural, Debug)]
pub enum StreamError {
    /// No progress is possible right now.
    WouldBlock,
    /// The peer closed the channel.
    UnexpectedEof,
    /// The channel accepted none of the bytes offered.
    WriteZero,
    /// The TLS channel must become readable first.
    WantRead,
    /// The TLS channel must become writable first.
    WantWrite,
    /// An operating-system call under the TLS channel failed.
    Syscall,
    /// The TLS protocol failed.
    Ssl,
    /// The TLS channel reported a condition this operation does not expect.
    Unknown,
}

} // verus!
