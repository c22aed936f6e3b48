//! What the texts of errors tell.

use crate::error::{self, TraceError};
use crate::ftrace_format::{self, FtraceError};
use crate::names::{self, NoFiles};
use crate::text;
use crate::text_laws;
use vstd::prelude::*;

verus! {

/// A text is the number `n`, written out.
pub open spec fn says(piece: Seq<char>, n: nat) -> bool {
    text::number(piece, n) == Some(n)
}

/// The text of an error says what is wrong, and tells the offset and the other
/// numbers of the error, each at its place.
pub proof fn errors_tell_their_numbers(err: TraceError) -> (told: Seq<Seq<char>>)
    ensures
        told.len() == 3,
        match err {
            TraceError::Io(_) => true,
            TraceError::TruncatedHeader { offset, got } => {
                &&& error::error_text(err) == "truncated header at offset "@ + told[0] + ": got "@
                    + told[1] + " bytes"@
                &&& says(told[0], offset as nat)
                &&& says(told[1], got as nat)
            },
            TraceError::TruncatedPayload { offset, expected, got } => {
                &&& error::error_text(err) == "truncated payload at offset "@ + told[0]
                    + ": expected "@ + told[1] + " bytes, got "@ + told[2]
                &&& says(told[0], offset as nat)
                &&& says(told[1], expected as nat)
                &&& says(told[2], got as nat)
            },
            TraceError::InvalidMagic { offset, magic } => {
                &&& error::error_text(err) == "bad magic at offset "@ + told[0] + ": 0x"@ + told[1]
                &&& says(told[0], offset as nat)
                &&& told[1].len() >= 8 && text_laws::is_hex(told[1])
                &&& text_laws::hex_value(told[1]) == magic
            },
            TraceError::UnsupportedVersion { offset, version } => {
                &&& error::error_text(err) == "unsupported version at offset "@ + told[0] + ": "@
                    + told[1]
                &&& says(told[0], offset as nat)
                &&& says(told[1], version as nat)
            },
            TraceError::UnknownType { offset, record_type } => {
                &&& error::error_text(err) == "unknown record type at offset "@ + told[0] + ": "@
                    + told[1]
                &&& says(told[0], offset as nat)
                &&& says(told[1], record_type as nat)
            },
            TraceError::InvalidLength { offset, record_type, len, reason } => {
                &&& error::error_text(err) == "invalid record length at offset "@ + told[0]
                    + ": type="@ + told[1] + " len="@ + told[2] + ": "@ + reason@
                &&& says(told[0], offset as nat)
                &&& says(told[1], record_type as nat)
                &&& says(told[2], len as nat)
            },
        },
{
    let none = Seq::<char>::empty();
    match err {
        TraceError::Io(_) => seq![none, none, none],
        TraceError::TruncatedHeader { offset, got } => {
            text_laws::decimal_reads_back(offset as nat);
            text_laws::decimal_reads_back(got as nat);
            seq![text::decimal(offset as nat), text::decimal(got as nat), none]
        },
        TraceError::TruncatedPayload { offset, expected, got } => {
            text_laws::decimal_reads_back(offset as nat);
            text_laws::decimal_reads_back(expected as nat);
            text_laws::decimal_reads_back(got as nat);
            seq![
                text::decimal(offset as nat),
                text::decimal(expected as nat),
                text::decimal(got as nat),
            ]
        },
        TraceError::InvalidMagic { offset, magic } => {
            text_laws::decimal_reads_back(offset as nat);
            text_laws::hex_reads_back(magic as nat, 8);
            seq![text::decimal(offset as nat), text::hex(magic as nat, 8), none]
        },
        TraceError::UnsupportedVersion { offset, version } => {
            text_laws::decimal_reads_back(offset as nat);
            text_laws::decimal_reads_back(version as nat);
            seq![text::decimal(offset as nat), text::decimal(version as nat), none]
        },
        TraceError::UnknownType { offset, record_type } => {
            text_laws::decimal_reads_back(offset as nat);
            text_laws::decimal_reads_back(record_type as nat);
            seq![text::decimal(offset as nat), text::decimal(record_type as nat), none]
        },
        TraceError::InvalidLength { offset, record_type, len, reason } => {
            text_laws::decimal_reads_back(offset as nat);
            text_laws::decimal_reads_back(record_type as nat);
            text_laws::decimal_reads_back(len as nat);
            seq![
                text::decimal(offset as nat),
                text::decimal(record_type as nat),
                text::decimal(len as nat),
            ]
        },
    }
}

/// The text of an error names what is missing and where it was looked for: each
/// name stands in it whole.
pub proof fn errors_name_what_is_missing(err: FtraceError, none: NoFiles)
    ensures
        match err {
            FtraceError::MissingField { field, event } => {
                &&& named_behind(ftrace_format::ftrace_error_text(err), 7, field@)
                &&& named_behind(
                    ftrace_format::ftrace_error_text(err),
                    34 + field@.len(),
                    event@,
                )
            },
            FtraceError::BadEventId { path } => ends_in(
                ftrace_format::ftrace_error_text(err),
                22,
                path@,
            ),
            FtraceError::NoCpus { path } => ends_in(
                ftrace_format::ftrace_error_text(err),
                34,
                path@,
            ),
        },
        none matches NoFiles::TraceFiles { dir } ==> ends_in(names::no_files_text(none), 32, dir@),
{
    let written = ftrace_format::ftrace_error_text(err);
    reveal_strlit("field '");
    reveal_strlit("' not found in format for '");
    reveal_strlit("'");
    reveal_strlit("parsing event ID from ");
    reveal_strlit("no per_cpu/cpuN directories under ");
    reveal_strlit("no trace<cpu> files found under ");
    match err {
        FtraceError::MissingField { field, event } => {
            let at = 34 + field@.len();
            assert(written.subrange(7, 7int + field@.len()) =~= field@);
            assert(written.subrange(at as int, at as int + event@.len()) =~= event@);
        },
        FtraceError::BadEventId { path } => {
            assert(written.skip(22) =~= path@);
        },
        FtraceError::NoCpus { path } => {
            assert(written.skip(34) =~= path@);
        },
    }
    if let NoFiles::TraceFiles { dir } = none {
        assert(names::no_files_text(none).skip(32) =~= dir@);
    }
}

/// A name stands in a text between quotes.
pub open spec fn named_behind(s: Seq<char>, at: nat, name: Seq<char>) -> bool {
    &&& at > 0
    &&& at + name.len() < s.len()
    &&& s[at - 1] == '\''
    &&& s.subrange(at as int, at as int + name.len()) == name
    &&& s[(at + name.len()) as int] == '\''
}

/// A text ends in a name.
pub open spec fn ends_in(s: Seq<char>, at: nat, name: Seq<char>) -> bool {
    s.len() == at + name.len() && s.skip(at as int) == name
}

} // verus!
