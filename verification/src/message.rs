//! The library's view of a WebSocket message.
//!
//! Every transport the relay touches frames its messages as text, binary,
//! ping, pong or close. The transports' own message types live outside the
//! library; this one carries the same information as plain values, and the
//! code around the library converts at the boundary.

use vstd::prelude::*;

verus! {

/// The close payload a close message may carry: a status code and a reason.
#[derive(Clone)]
pub struct CloseFrame {
    pub code: u16,
    pub reason: String,
}

/// One WebSocket message, as the relay sees it.
#[derive(Clone)]
pub enum Message {
    Text(String),
    Binary(Vec<u8>),
    Ping(Vec<u8>),
    Pong(Vec<u8>),
    Close(Option<CloseFrame>),
}

} // verus!
