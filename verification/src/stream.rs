//! Byte streams and the reading of records from them.
//!
//! The traits say what the library asks of the streams it is handed. A source
//! or a sink that can fail names in advance the error that it fails with, so
//! that contracts can say where an error came from. A stream that is written
//! outside the verified code gives no model: what it holds is then some unknown
//! sequence, and that it keeps to the contracts is up to its author.

use crate::error::{Result, TraceError};
use crate::record::{
    self, parse_header, parse_record_bytes, RawRecord, RawRecordView, HEADER_LEN,
};
use vstd::prelude::*;
use vstd::slice::slice_subrange;

verus! {

/// Why a read gave no bytes.
#[derive(Debug)]
pub enum ReadError {
    /// A signal came first; the read can be tried again.
    Interrupted,
    /// The source failed.
    Failed(std::io::Error),
}

/// Where bytes come from.
pub trait ByteSource {
    /// The bytes up to the next end of the source.
    closed spec fn remaining(&self) -> Seq<u8> {
        arbitrary()
    }

    /// How many bytes the source will still give in all. A source may go on
    /// after an end, as a file does that grows.
    closed spec fn left(&self) -> nat {
        arbitrary()
    }

    /// How often reads will still be interrupted.
    closed spec fn interruptions(&self) -> nat {
        arbitrary()
    }

    /// The error that a failing read returns, if any ever fails.
    closed spec fn failure(&self) -> Option<std::io::Error> {
        arbitrary()
    }

    /// Reads up to `want` bytes. No bytes mean that the source is at an end.
    /// What comes before the next end is part of what comes at all.
    fn read(&mut self, want: usize) -> (result: std::result::Result<Vec<u8>, ReadError>)
        requires
            want > 0,
        ensures
            final(self).failure() == old(self).failure(),
            final(self).remaining().len() <= final(self).left(),
            match result {
                Ok(chunk) => {
                    &&& chunk@.len() <= want
                    &&& chunk@.is_prefix_of(old(self).remaining())
                    &&& chunk@.len() == 0 ==> old(self).remaining().len() == 0
                    &&& chunk@.len() > 0 ==> final(self).remaining() == old(self).remaining().skip(
                        chunk@.len() as int,
                    )
                    &&& chunk@.len() + final(self).left() == old(self).left()
                    &&& final(self).interruptions() <= old(self).interruptions()
                },
                Err(ReadError::Interrupted) => {
                    &&& final(self).remaining() == old(self).remaining()
                    &&& final(self).left() == old(self).left()
                    &&& final(self).interruptions() < old(self).interruptions()
                },
                Err(ReadError::Failed(err)) => {
                    &&& old(self).failure() == Some(err)
                    &&& final(self).remaining() == old(self).remaining()
                    &&& final(self).left() == old(self).left()
                },
            },
    ;
}

/// Where bytes go to.
pub trait ByteSink {
    /// The bytes that were written.
    closed spec fn written(&self) -> Seq<u8> {
        arbitrary()
    }

    /// The error that a failing write returns, if any ever fails.
    closed spec fn failure(&self) -> Option<std::io::Error> {
        arbitrary()
    }

    /// Writes all of `bytes`. A write that fails may have written some of them.
    fn write_all(&mut self, bytes: &[u8]) -> (result: std::result::Result<(), std::io::Error>)
        ensures
            final(self).failure() == old(self).failure(),
            match result {
                Ok(()) => final(self).written() == old(self).written() + bytes@,
                Err(err) => {
                    &&& old(self).failure() == Some(err)
                    &&& old(self).written().is_prefix_of(final(self).written())
                    &&& final(self).written().is_prefix_of(old(self).written() + bytes@)
                },
            },
    ;
}

/// Where text goes to.
pub trait TextSink {
    /// The text that was written.
    closed spec fn written(&self) -> Seq<char> {
        arbitrary()
    }

    /// The error that a failing write returns, if any ever fails.
    closed spec fn failure(&self) -> Option<std::io::Error> {
        arbitrary()
    }

    /// Writes `text`. A write that fails may have written some of it.
    fn write_text(&mut self, text: &str) -> (result: std::result::Result<(), std::io::Error>)
        ensures
            final(self).failure() == old(self).failure(),
            match result {
                Ok(()) => final(self).written() == old(self).written() + text@,
                Err(err) => {
                    &&& old(self).failure() == Some(err)
                    &&& old(self).written().is_prefix_of(final(self).written())
                    &&& final(self).written().is_prefix_of(old(self).written() + text@)
                },
            },
    ;
}

/// Where warnings go to.
pub trait WarnSink {
    /// The warnings that were given.
    closed spec fn warnings(&self) -> Seq<Seq<char>> {
        arbitrary()
    }

    /// Gives a warning.
    fn warn(&mut self, warning: String)
        ensures
            final(self).warnings() == old(self).warnings().push(warning@),
    ;
}

/// A source over bytes in memory.
#[derive(Debug)]
pub struct ByteCursor {
    bytes: Vec<u8>,
    at: usize,
}

impl ByteCursor {
    /// A source that gives `bytes`.
    pub fn new(bytes: Vec<u8>) -> (cursor: Self)
        ensures
            cursor.remaining() == bytes@,
            cursor.left() == bytes@.len(),
            cursor.failure() is None,
    {
        let cursor = ByteCursor { bytes, at: 0 };
        assert(cursor.remaining() =~= bytes@);
        cursor
    }
}

impl ByteSource for ByteCursor {
    closed spec fn remaining(&self) -> Seq<u8> {
        if self.at <= self.bytes@.len() {
            self.bytes@.skip(self.at as int)
        } else {
            seq![]
        }
    }

    closed spec fn left(&self) -> nat {
        self.remaining().len()
    }

    closed spec fn interruptions(&self) -> nat {
        0
    }

    closed spec fn failure(&self) -> Option<std::io::Error> {
        None
    }

    fn read(&mut self, want: usize) -> (result: std::result::Result<Vec<u8>, ReadError>) {
        let mut chunk: Vec<u8> = Vec::new();
        if self.at < self.bytes.len() {
            let rest: usize = self.bytes.len() - self.at;
            let count: usize = if want < rest {
                want
            } else {
                rest
            };
            chunk.extend_from_slice(
                slice_subrange(self.bytes.as_slice(), self.at, self.at + count),
            );
            self.at = self.at + count;
            assert(chunk@ =~= old(self).remaining().take(count as int));
            assert(self.remaining() =~= old(self).remaining().skip(count as int));
        }
        Ok(chunk)
    }
}

impl ByteSink for Vec<u8> {
    open spec fn written(&self) -> Seq<u8> {
        self@
    }

    open spec fn failure(&self) -> Option<std::io::Error> {
        None
    }

    fn write_all(&mut self, bytes: &[u8]) -> (result: std::result::Result<(), std::io::Error>) {
        self.extend_from_slice(bytes);
        assert(self@ =~= old(self)@ + bytes@);
        Ok(())
    }
}

impl TextSink for String {
    open spec fn written(&self) -> Seq<char> {
        self@
    }

    open spec fn failure(&self) -> Option<std::io::Error> {
        None
    }

    fn write_text(&mut self, text: &str) -> (result: std::result::Result<(), std::io::Error>) {
        self.append(text);
        Ok(())
    }
}

impl WarnSink for Vec<String> {
    open spec fn warnings(&self) -> Seq<Seq<char>> {
        self@.map_values(|warning: String| warning@)
    }

    fn warn(&mut self, warning: String) {
        self.push(warning);
        assert(self.warnings() =~= old(self).warnings().push(warning@));
    }
}

/// Reads until there are `want` bytes or the source is at an end. An
/// interrupted read is tried again.
pub fn read_exact_or_eof<R: ByteSource>(
    reader: &mut R,
    want: usize,
) -> (result: std::result::Result<Vec<u8>, std::io::Error>)
    ensures
        final(reader).failure() == old(reader).failure(),
        want > 0 || old(reader).remaining().len() <= old(reader).left()
            ==> final(reader).remaining().len() <= final(reader).left(),
        match result {
            Ok(bytes) => {
                let input = old(reader).remaining();
                &&& bytes@ == if input.len() < want {
                    input
                } else {
                    input.take(want as int)
                }
                &&& input.len() >= want ==> final(reader).remaining() == input.skip(want as int)
                &&& bytes@.len() + final(reader).left() == old(reader).left()
                &&& final(reader).interruptions() <= old(reader).interruptions()
            },
            Err(err) => {
                &&& old(reader).failure() == Some(err)
                &&& final(reader).left() <= old(reader).left()
            },
        },
{
    let mut bytes: Vec<u8> = Vec::new();
    let ghost input = reader.remaining();
    assert(bytes@ =~= input.take(0));
    assert(input.skip(0) =~= input);
    while bytes.len() < want
        invariant
            input == old(reader).remaining(),
            reader.failure() == old(reader).failure(),
            bytes@.len() <= want,
            bytes@.len() <= input.len(),
            bytes@ == input.take(bytes@.len() as int),
            reader.remaining() == input.skip(bytes@.len() as int),
            bytes@.len() + reader.left() == old(reader).left(),
            bytes@.len() > 0 || old(reader).remaining().len() <= old(reader).left()
                ==> reader.remaining().len() <= reader.left(),
            reader.interruptions() <= old(reader).interruptions(),
        decreases want - bytes@.len(), reader.interruptions(),
    {
        let ghost before = bytes@;
        let missing: usize = want - bytes.len();
        match reader.read(missing) {
            Ok(chunk) => {
                if chunk.len() == 0 {
                    assert(input.len() == bytes@.len());
                    assert(bytes@ =~= input);
                    return Ok(bytes);
                }
                bytes.extend_from_slice(chunk.as_slice());
                assert(bytes@ =~= before + chunk@);
                assert(bytes@ =~= input.take(bytes@.len() as int)) by {
                    assert forall|i: int| 0 <= i < bytes@.len() implies bytes@[i] == input[i] by {
                        if i >= before.len() {
                            assert(chunk@[i - before.len()] == input.skip(
                                before.len() as int,
                            )[i - before.len()]);
                        } else {
                            assert(before[i] == input.take(before.len() as int)[i]);
                        }
                    }
                }
                assert(reader.remaining() =~= input.skip(bytes@.len() as int));
            },
            Err(ReadError::Interrupted) => {},
            Err(ReadError::Failed(err)) => {
                return Err(err);
            },
        }
    }
    Ok(bytes)
}

/// What the first record of `input` is, `offset` telling where it stands: a
/// record, nothing, or what is wrong with it.
pub open spec fn first_record(input: Seq<u8>, offset: u64) -> Result<Option<RawRecordView>> {
    let header = record::header_in(input);
    if input.len() == 0 {
        Ok(None)
    } else if input.len() < HEADER_LEN {
        Err(TraceError::TruncatedHeader { offset, got: input.len() as usize })
    } else if record::checked_header(input, offset) is Err {
        Err(record::checked_header(input, offset)->Err_0)
    } else if header.len < HEADER_LEN {
        Err(
            TraceError::InvalidLength {
                offset,
                record_type: header.record_type,
                len: header.len as usize,
                reason: "record length is smaller than the header",
            },
        )
    } else if input.len() < header.len {
        Err(
            TraceError::TruncatedPayload {
                offset,
                expected: (header.len - HEADER_LEN) as usize,
                got: (input.len() - HEADER_LEN) as usize,
            },
        )
    } else {
        match record::checked_record(input.take(header.len as int), offset) {
            Ok(raw) => Ok(Some(raw)),
            Err(err) => Err(err),
        }
    }
}

/// How far the offset moves when the first record of `input` is read. It stays
/// before a record that does not parse and moves past one that is cut short.
pub open spec fn advance(input: Seq<u8>, offset: u64) -> nat {
    match first_record(input, offset) {
        Ok(Some(raw)) => raw.bytes.len(),
        Ok(None) => 0,
        Err(TraceError::TruncatedHeader { .. }) => input.len(),
        Err(TraceError::TruncatedPayload { .. }) => input.len(),
        Err(_) => 0,
    }
}

/// How many bytes of `input` are taken when its first record is read.
pub open spec fn taken(input: Seq<u8>) -> nat {
    let header = record::header_in(input);
    if input.len() < HEADER_LEN {
        input.len()
    } else if record::checked_header(input, 0) is Err || header.len < HEADER_LEN {
        HEADER_LEN as nat
    } else if input.len() < header.len {
        input.len()
    } else {
        header.len as nat
    }
}

/// Tells whether the end of `input` is met when its first record is read.
pub open spec fn meets_end(input: Seq<u8>) -> bool {
    let header = record::header_in(input);
    ||| input.len() < HEADER_LEN
    ||| record::checked_header(input, 0) is Ok && HEADER_LEN <= header.len && input.len()
        < header.len
}

/// What a result with an optional value holds.
pub open spec fn viewed_option(result: Result<Option<RawRecord>>) -> Result<Option<RawRecordView>> {
    match result {
        Ok(Some(raw)) => Ok(Some(raw@)),
        Ok(None) => Ok(None),
        Err(err) => Err(err),
    }
}

/// Reads records from a source, one after the other.
pub struct RecordReader<R> {
    inner: R,
    offset: u64,
}

impl<R: ByteSource> RecordReader<R> {
    /// The source.
    pub closed spec fn source(&self) -> R {
        self.inner
    }

    /// How far the reader has come.
    pub closed spec fn position(&self) -> u64 {
        self.offset
    }

    /// The offset can count every byte that is still to come.
    pub open spec fn wf(&self) -> bool {
        self.position() + self.source().left() <= u64::MAX
    }

    /// A reader at the start of `inner`.
    pub fn new(inner: R) -> (reader: Self)
        requires
            inner.left() <= u64::MAX,
        ensures
            reader.source() == inner,
            reader.position() == 0,
            reader.wf(),
    {
        RecordReader { inner, offset: 0 }
    }

    /// How many bytes the reader has gone past.
    pub fn offset(&self) -> (offset: u64)
        ensures
            offset == self.position(),
    {
        self.offset
    }

    /// Reads the next record, if there is one before the end of the source.
    #[verifier::rlimit(30)]
    pub fn next_record(&mut self) -> (result: Result<Option<RawRecord>>)
        requires
            old(self).wf(),
        ensures
            next_outcome(*old(self), result, *final(self)),
    {
        let ghost input = self.inner.remaining();
        let offset: u64 = self.offset;
        let header_bytes = match read_exact_or_eof(&mut self.inner, HEADER_LEN) {
            Ok(bytes) => bytes,
            Err(err) => {
                return Err(TraceError::from(err));
            },
        };
        let got: usize = header_bytes.len();
        if got == 0 {
            return Ok(None);
        }
        if got != HEADER_LEN {
            self.offset = self.offset + got as u64;
            return Err(TraceError::TruncatedHeader { offset, got });
        }
        proof {
            assert(header_bytes@.take(24) =~= input.take(24));
            record::lemma_header_in_front(header_bytes@, input);
        }
        let header = match parse_header(header_bytes.as_slice(), offset) {
            Ok(header) => header,
            Err(err) => {
                return Err(err);
            },
        };
        let len: usize = header.len as usize;
        if len < HEADER_LEN {
            return Err(
                TraceError::InvalidLength {
                    offset,
                    record_type: header.record_type,
                    len,
                    reason: "record length is smaller than the header",
                },
            );
        }
        let mut bytes = header_bytes;
        let payload_len: usize = len - HEADER_LEN;
        let ghost rest = self.inner.remaining();
        let payload = match read_exact_or_eof(&mut self.inner, payload_len) {
            Ok(bytes) => bytes,
            Err(err) => {
                return Err(TraceError::from(err));
            },
        };
        let got: usize = payload.len();
        if got != payload_len {
            self.offset = self.offset + (HEADER_LEN as u64 + got as u64);
            return Err(TraceError::TruncatedPayload { offset, expected: payload_len, got });
        }
        bytes.extend_from_slice(payload.as_slice());
        assert(bytes@ =~= input.take(len as int)) by {
            assert(rest =~= input.skip(24));
            assert(payload@ =~= input.subrange(24, len as int));
        }
        assert(self.inner.remaining() =~= input.skip(len as int));
        let record = match parse_record_bytes(bytes, offset) {
            Ok(record) => record,
            Err(err) => {
                return Err(err);
            },
        };
        self.offset = self.offset + len as u64;
        Ok(Some(record))
    }
}

/// What the reading of one record does to a reader. An error of the source comes
/// only where the source names it.
pub open spec fn next_outcome<R: ByteSource>(
    before: RecordReader<R>,
    result: Result<Option<RawRecord>>,
    after: RecordReader<R>,
) -> bool {
    let input = before.source().remaining();
    &&& after.wf()
    &&& after.source().failure() == before.source().failure()
    &&& after.source().left() <= before.source().left()
    &&& after.source().remaining().len() <= after.source().left()
    &&& result matches Ok(Some(raw)) ==> raw@.bytes.len() + after.source().left()
        == before.source().left()
    &&& match result {
        Err(TraceError::Io(err)) => {
            &&& before.source().failure() == Some(err)
            &&& after.position() == before.position()
        },
        _ => {
            &&& viewed_option(result) == first_record(input, before.position())
            &&& after.position() == before.position() + advance(input, before.position())
            &&& !meets_end(input) ==> after.source().remaining() == input.skip(
                taken(input) as int,
            )
        },
    }
}

} // verus!
