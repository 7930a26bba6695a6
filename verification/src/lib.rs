//! Decoder for DNS messages in RFC 1035 wire format.
//!
//! One immutable byte buffer holds a whole message; every decoded entity
//! keeps integer offsets into that buffer and reads fields on demand.
//! The decoder handles header bit fields, questions and resource records,
//! name decompression with back-reference pointers, and the typed payloads
//! of the common record types.

pub mod characters;
pub mod error;
pub mod helpers;
pub mod labels;
pub mod packet;
pub mod record;
pub mod roundtrip;
mod text;
