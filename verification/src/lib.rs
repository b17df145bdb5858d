//! A RESP3-style framed value codec and the connection state machine of a
//! small request/response server.
//!
//! The library owns the pure parts of the protocol: the byte-exact encoder
//! and decoder for the self-describing value format, the deterministic
//! ordering of map and set entries, command parsing, and the per-connection
//! handshake and dispatch decisions.  Network transport is left to the host
//! application, which feeds bytes in and carries bytes and actions out.

pub mod client;
pub mod command;
pub mod decoder;
pub mod encoder;
pub mod error;
pub mod float_text;
pub mod laws;
pub mod number;
pub mod order;
pub mod server;
pub mod session;
pub mod sorted;
pub mod value;

pub use command::Command;
pub use server::Server;
pub use session::Action;
pub use session::Policy;
pub use session::ResponseAction;
pub use session::Session;
pub use decoder::Decoder;
pub use encoder::Encoder;
pub use error::Error;
pub use value::SpecValue;
pub use value::Value;
