//! Realtime chat session core: a wire-format codec for the three chat
//! operations, an in-process publish/subscribe message bus, a model of the
//! transport channel, and the per-surface session state (roster and message
//! log) reconciled from the inbound frame stream.

pub mod bus;
pub mod codec;
pub mod session;
pub mod transport;
