//! Driver for a wireless co-processor reached over a synchronous serial bus.
//!
//! The co-processor speaks a length-prefixed, handshake-gated binary
//! protocol. This crate holds the fixed-capacity field buffer that replies
//! are decoded into, the command framing and reply parsing rules, the
//! blocking byte transport, and the per-operation command catalog.
pub mod buffer;
pub mod esp32;
pub mod lines;
pub mod protocol;
pub mod spi;
pub mod types;
