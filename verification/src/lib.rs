//! A verified codec for a fixed-format peer-to-peer handshake message.
//!
//! The message carries an agent name, a three-component version tag and a
//! peer name, preceded by a variable-length timestamp and followed by a
//! reserved placeholder byte. Encoding and decoding are pure functions
//! over byte buffers; opening a connection, timeouts and the command line
//! live outside this library and only hand buffers in and out.

pub mod encoder;
pub mod error;
pub mod text;
pub mod varint;
pub mod version;

pub use encoder::HandshakeMessage;
pub use error::ProtocolError;
pub use text::TinyString;
pub use varint::read_unsigned_varint;
pub use varint::write_unsigned_varint;
pub use version::Version;
