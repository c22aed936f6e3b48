//! What can go wrong when a trace is read or written.

use crate::text::{self, push_decimal, push_hex};
use vstd::prelude::*;

verus! {

/// The standard library's input and output error, carried as it is.
#[verifier::external_type_specification]
#[verifier::external_body]
pub struct ExIoError(std::io::Error);

/// Why a record could not be read or written. Offsets count bytes from the
/// start of the stream to the start of the record.
#[derive(Debug)]
pub enum TraceError {
    /// The stream itself failed.
    Io(std::io::Error),
    /// The stream ended within a header.
    TruncatedHeader { offset: u64, got: usize },
    /// The stream ended within a payload.
    TruncatedPayload { offset: u64, expected: usize, got: usize },
    /// The record does not start with the magic number.
    InvalidMagic { offset: u64, magic: u32 },
    /// The record has another format version.
    UnsupportedVersion { offset: u64, version: u8 },
    /// The record is neither a submission nor a completion.
    UnknownType { offset: u64, record_type: u8 },
    /// The length of the record contradicts its contents.
    InvalidLength { offset: u64, record_type: u8, len: usize, reason: &'static str },
}

pub type Result<T> = std::result::Result<T, TraceError>;

impl From<std::io::Error> for TraceError {
    fn from(value: std::io::Error) -> (error: Self) {
        TraceError::Io(value)
    }
}

impl vstd::std_specs::convert::FromSpecImpl<std::io::Error> for TraceError {
    open spec fn obeys_from_spec() -> bool {
        true
    }

    open spec fn from_spec(value: std::io::Error) -> Self {
        TraceError::Io(value)
    }
}

/// The text of an error other than that of the stream itself.
pub open spec fn error_text(error: TraceError) -> Seq<char> {
    match error {
        TraceError::Io(_) => seq![],
        TraceError::TruncatedHeader { offset, got } => "truncated header at offset "@ + text::decimal(
            offset as nat,
        ) + ": got "@ + text::decimal(got as nat) + " bytes"@,
        TraceError::TruncatedPayload { offset, expected, got } => "truncated payload at offset "@
            + text::decimal(offset as nat) + ": expected "@ + text::decimal(expected as nat) + " bytes, got "@
            + text::decimal(got as nat),
        TraceError::InvalidMagic { offset, magic } => "bad magic at offset "@ + text::decimal(
            offset as nat,
        ) + ": 0x"@ + text::hex(magic as nat, 8),
        TraceError::UnsupportedVersion { offset, version } => "unsupported version at offset "@
            + text::decimal(offset as nat) + ": "@ + text::decimal(version as nat),
        TraceError::UnknownType { offset, record_type } => "unknown record type at offset "@
            + text::decimal(offset as nat) + ": "@ + text::decimal(record_type as nat),
        TraceError::InvalidLength { offset, record_type, len, reason } =>
            "invalid record length at offset "@ + text::decimal(offset as nat) + ": type="@ + text::decimal(
            record_type as nat,
        ) + " len="@ + text::decimal(len as nat) + ": "@ + reason@,
    }
}

impl TraceError {
    /// Writes the error out. A failure of the stream speaks for itself.
    pub fn message(&self) -> (text: String)
        ensures
            match *self {
                TraceError::Io(err) => vstd::string::to_string_from_display_ensures(&err, text),
                _ => text@ == error_text(*self),
            },
    {
        let mut out = String::new();
        match self {
            TraceError::Io(err) => {
                out = err.to_string();
            },
            TraceError::TruncatedHeader { offset, got } => {
                out = "truncated header at offset ".to_owned();
                push_decimal(&mut out, *offset as u128);
                out.append(": got ");
                push_decimal(&mut out, *got as u128);
                out.append(" bytes");
            },
            TraceError::TruncatedPayload { offset, expected, got } => {
                out = "truncated payload at offset ".to_owned();
                push_decimal(&mut out, *offset as u128);
                out.append(": expected ");
                push_decimal(&mut out, *expected as u128);
                out.append(" bytes, got ");
                push_decimal(&mut out, *got as u128);
            },
            TraceError::InvalidMagic { offset, magic } => {
                out = "bad magic at offset ".to_owned();
                push_decimal(&mut out, *offset as u128);
                out.append(": 0x");
                push_hex(&mut out, *magic as u64, 8);
            },
            TraceError::UnsupportedVersion { offset, version } => {
                out = "unsupported version at offset ".to_owned();
                push_decimal(&mut out, *offset as u128);
                out.append(": ");
                push_decimal(&mut out, *version as u128);
            },
            TraceError::UnknownType { offset, record_type } => {
                out = "unknown record type at offset ".to_owned();
                push_decimal(&mut out, *offset as u128);
                out.append(": ");
                push_decimal(&mut out, *record_type as u128);
            },
            TraceError::InvalidLength { offset, record_type, len, reason } => {
                out = "invalid record length at offset ".to_owned();
                push_decimal(&mut out, *offset as u128);
                out.append(": type=");
                push_decimal(&mut out, *record_type as u128);
                out.append(" len=");
                push_decimal(&mut out, *len as u128);
                out.append(": ");
                out.append(*reason);
            },
        }
        out
    }
}

} // verus!
