//! A WebSocket echo server's core: the frame codec, the per-connection
//! protocol state machine and the connection registry.
pub mod client;
pub mod frame;
pub mod handler;
pub mod handshake;
pub mod server;
