//! Capture of inbound webhook requests addressed to per-user endpoint
//! identifiers: a bounded per-endpoint history, live fan-out to subscribers
//! over a broadcast channel, a keepalive state machine for long-lived
//! subscriber connections, and a periodic sweep that evicts stale entries.

mod clock;
mod fanout;
pub mod repository;
pub mod request;
pub mod session;
