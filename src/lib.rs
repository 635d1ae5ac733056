//! A framed message transport over a duplex byte channel.
//!
//! Wire formats live in `simple`, `checksum32` and `websocket`; the buffering
//! engine that turns raw reads and writes into whole frames lives in `plain`,
//! and `secure` maps the outcomes of a TLS channel onto the engine's.
use vstd::prelude::*;

pub mod bytes;
pub mod checksum32;
pub mod error;
pub mod frame;
pub mod plain;
pub mod secure;
pub mod simple;
pub mod websocket;

pub use checksum32::{Checksum32Frame, Checksum32FrameBuilder};
pub use error::StreamError;
pub use frame::{Frame, FrameBuilder};
pub use plain::Plain;
pub use secure::TlsErrorCode;
pub use simple::{from_slice, SimpleFrame, SimpleFrameBuilder};
pub use websocket::{FrameType, OpType, WebSocketFrame, WebSocketFrameBuilder};

verus! {

/// A stream whose calls wait until they complete or the channel fails.
pub trait Blocking {
    /// The frames the stream carries.
    type Output;

    /// What a failed call reports.
    type Error;

    /// Waits until one complete frame has been received.
    fn b_recv(&mut self) -> Result<Self::Output, Self::Error>;

    /// Waits until the encoding of `frame` has been written.
    fn b_send(&mut self, frame: &Self::Output) -> Result<(), Self::Error>;
}

/// A stream whose calls never wait: what cannot be done now is reported as
/// "would block", and bytes not yet written are kept for the next send.
pub trait NonBlocking {
    /// The frames the stream carries.
    type Output;

    /// What a call that did not complete reports.
    type Error;

    /// Reads everything the channel has, then returns every complete frame
    /// received, oldest first.
    fn nb_recv(&mut self) -> Result<Vec<Self::Output>, Self::Error>;

    /// Queues the encoding of `frame` behind any unsent bytes and writes what
    /// the channel accepts.
    fn nb_send(&mut self, frame: &Self::Output) -> Result<(), Self::Error>;
}

} // verus!
