//! The error taxonomy of the decoder.

use vstd::prelude::*;

verus! {

/// Everything that can go wrong while decoding a DNS message.
///
/// Message-level framing errors abort a whole decode; structural errors in
/// the payload of a recognized record type are caught by the caller and
/// downgraded to an opaque value instead.
#[derive(Clone, Copy, Debug, PartialEq, Eq, Structural)]
pub enum DnsError {
    /// The length field of a record's data does not fit the buffer or the
    /// minimum for its type.
    DataLength,
    /// Too few bytes remain at an offset for a minimal question or record.
    RecordLength,
    /// The buffer is shorter than the fixed 12-byte header.
    PacketLength,
    /// A character string's length byte points past its slice.
    CharactersLength,
    /// A character string holds invalid UTF-8.
    CharactersUtf8,
    /// A name ran off the end of the buffer.
    LabelLength,
    /// A compression pointer does not point strictly backwards.
    LabelReference,
    /// A label holds invalid UTF-8.
    LabelUtf8,
}

impl DnsError {
    /// A human-readable description of the error.
    pub fn message(&self) -> (r: &'static str)
        ensures
            r@ == match self {
                DnsError::DataLength => "invalid length of data field in record"@,
                DnsError::RecordLength => "invalid length of record"@,
                DnsError::PacketLength => "invalid length of packet"@,
                DnsError::CharactersLength => "invalid length of character string"@,
                DnsError::CharactersUtf8 => "invalid utf8 in character string"@,
                DnsError::LabelLength => "invalid length of label"@,
                DnsError::LabelReference => "invalid reference in label"@,
                DnsError::LabelUtf8 => "invalid utf8 in label"@,
            },
    {
        match self {
            DnsError::DataLength => "invalid length of data field in record",
            DnsError::RecordLength => "invalid length of record",
            DnsError::PacketLength => "invalid length of packet",
            DnsError::CharactersLength => "invalid length of character string",
            DnsError::CharactersUtf8 => "invalid utf8 in character string",
            DnsError::LabelLength => "invalid length of label",
            DnsError::LabelReference => "invalid reference in label",
            DnsError::LabelUtf8 => "invalid utf8 in label",
        }
    }
}

} // verus!
