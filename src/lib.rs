//! Streaming base64 and base32 codecs (RFC 4648) with line wrapping and
//! garbage-tolerant decoding.
//!
//! `encoder` and `decoder` hold the streaming state machines and the
//! specifications they are proved against (`encode_spec`, `decode_spec`);
//! `base64` and `base32` encode and decode whole buffers; `laws` proves how
//! the two directions fit together.
pub mod alphabet;
pub mod common;
pub mod error;
pub mod encoder;
pub mod decoder;
pub mod base64;
pub mod base32;
pub mod laws;
