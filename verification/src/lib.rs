//! Yet another tag-length-value format: a compact binary encoding of tagged
//! fields, with a builder that emits frames and a validating parser that
//! indexes them.
//!
//! A frame is a one-byte format marker (always `0x01`), a four-byte big-endian
//! field count, and that many fields; a field is a two-byte big-endian tag, a
//! four-byte big-endian length, and exactly that many bytes of value. A
//! packet-frame prefixes a frame with its own four-byte big-endian byte
//! length, making it self-delimiting; child frames are always embedded as
//! packet-frames so the parent can record their extent.
//!
//! Numbers are stored big-endian, booleans as a single byte (`0x00` or
//! `0xFF`), and text as UTF-8. Readers are forward compatible: a number
//! written narrow can always be read wide, and wide values can be read narrow
//! when they fit.

mod builder;
mod error;
pub mod laws;
pub mod model;
mod parser;
mod wire;

pub use builder::FrameBuilder;
pub use builder::FrameBuilderLike;
pub use builder::PacketFrameBuilder;
pub use error::Error;
pub use parser::decode_bool;
pub use parser::decode_str;
pub use parser::decode_u16;
pub use parser::decode_u32;
pub use parser::decode_u64;
pub use parser::decode_u8;
pub use parser::FrameParser;
