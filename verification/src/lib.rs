//! Codec for a line-oriented, single-byte-command text protocol spoken over a
//! persistent TCP connection, in the style of an SKK dictionary server.
//!
//! A client sends one ASCII digit naming an operation, optionally followed by
//! a UTF-8 payload terminated by a single space; the server replies with a
//! correspondingly framed response, escaping any payload bytes that collide
//! with the `/` field delimiter. The decoder here is incremental: it consumes
//! a prefix of a growing byte buffer and either yields one typed request,
//! reports that more bytes are needed, or reports a protocol error.

pub mod buffer;
pub mod codec;
pub mod converter;
pub mod session;
