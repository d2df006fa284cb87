//! A binary serialization codec: it turns structured in-memory values into a
//! compact byte stream and back, with explicit control over integer byte
//! order.
//!
//! The wire format is the plain concatenation of per-value encodings: fixed
//! width integers in the configured byte order, one-byte booleans, 32-bit
//! length prefixes before strings and element counts, and one-byte tags
//! before optional and fallible values. Every encoding rule is stated as a
//! specification function, and every decoder is proved to follow it.

pub mod collections;
pub mod context;
pub mod converter;
pub mod decoder;
pub mod encoder;
pub mod endian;
pub mod error;
pub mod laws;
pub mod record;
