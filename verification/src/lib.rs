//! A reliable, encrypted, congestion-controlled datagram transport.
//!
//! The engine is a pure state machine: the caller owns the socket, feeds
//! received datagrams and the current time into `update`, and sends the
//! datagrams that `update` hands back.

pub mod buffer;
pub mod codec;
pub mod compress;
pub mod congestion;
pub mod encryption;
pub mod protocol;
pub mod wire;

use vstd::prelude::*;

verus! {

/// What a transport operation can fail with. Per-frame troubles (a frame
/// that fails authentication or decoding) are absorbed, not reported.
#[derive(Clone, Copy, Debug, PartialEq, Eq, Structural)]
pub enum TransportError {
    /// Sealing failed or the nonce counter is exhausted.
    Crypto,
    /// The outgoing queue is full; the caller may retry later.
    BufferFull,
}

/// Lifecycle of a point-to-point connection.
#[derive(Clone, Copy, Debug, PartialEq, Eq, Structural)]
pub enum ProtocolState {
    Idle,
    Connecting,
    Connected,
    Disconnecting,
}

} // verus!
