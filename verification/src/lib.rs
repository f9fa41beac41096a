//! A UDP-over-WebSocket transport for QUIC endpoints.
//!
//! Datagrams travel through a relay as WebSocket binary frames. Each frame
//! carries one message: the remote socket address followed by the datagram
//! bytes, laid out in the compact binary wire format described in
//! [`message`]. This crate holds the verified core of that transport: the
//! wire codec, the state machine that drives a batch of sends, the handling
//! of received frames, and the timer arithmetic of the runtime.

pub mod addr;
pub mod message;
pub mod runtime;
pub mod socket;
pub mod varint;

pub use runtime::{instant_to_wasmtimer_instant, JsRuntime};
pub use addr::SocketAddr;
pub use message::{InboundMessage, OutboundMessage};
pub use socket::{
    deliver_datagram, incoming_message, transmit_to_message, IncomingFrame, RecvError, RecvMeta,
    SendAction, SendBatch, SendOutcome, SendStep, SinkEvent, Transmit, WsMessage,
};
pub use varint::WireError;
