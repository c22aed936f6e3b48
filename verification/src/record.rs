//! The trace record format: its types, its layout and its parser.
//!
//! Every record starts with a header of twenty-four bytes, all numbers being
//! little-endian. A submission goes on with the submission queue entry and the
//! sizes of the transfer, then with one entry for each descriptor; a completion
//! goes on with the completion queue entry.

use crate::bytes::{self, read_le16, read_le32, read_le64};
use crate::error::{Result, TraceError};
use vstd::prelude::*;

verus! {

pub const NVME_TRACE_MAGIC: u32 = 0x4e56_4d45;

pub const NVME_TRACE_VERSION: u8 = 1;

pub const NVME_TRACE_SUBMIT: u8 = 0;

pub const NVME_TRACE_COMPLETE: u8 = 1;

pub const HEADER_LEN: usize = 24;

pub const SUBMIT_FIXED_LEN: usize = 100;

pub const COMPLETE_LEN: usize = 40;

pub const SQE_LEN: usize = 64;

pub const PRP_ENTRY_LEN: usize = 8;

pub const SGL_DESC_LEN: usize = 16;

/// The controller page size. The trace does not store it; the Linux host driver
/// always programs four kibibytes.
pub const ASSUMED_NVME_CTRL_PAGE_SIZE: usize = 4096;

/// What every record starts with.
#[derive(Debug, Clone, Copy, PartialEq, Eq, Structural)]
pub struct Header {
    pub magic: u32,
    pub version: u8,
    pub record_type: u8,
    pub len: u16,
    pub timestamp_ns: u64,
    pub seq: u32,
    pub ctrl_id: u8,
    pub qid: u8,
    pub cid: u16,
}

/// One scatter-gather list descriptor.
#[derive(Debug, Clone, PartialEq, Eq)]
pub struct SglDesc {
    pub addr: u64,
    pub length: u32,
    pub reserved: [u8; 3],
    pub desc_type: u8,
}

/// The descriptors behind the fixed part of a submission.
#[derive(Debug, Clone, PartialEq, Eq)]
pub enum SubmitTail {
    Prp(Vec<u64>),
    Sgl(Vec<SglDesc>),
}

/// A command handed to a controller.
#[derive(Debug, Clone, PartialEq, Eq)]
pub struct SubmitRecord {
    pub header: Header,
    pub sqe: [u8; SQE_LEN],
    pub data_len: u32,
    pub meta_len: u32,
    pub use_sgl: bool,
    pub single_segment: bool,
    pub nr_entries: u16,
    pub tail: SubmitTail,
}

/// A command that a controller has finished.
#[derive(Debug, Clone, PartialEq, Eq)]
pub struct CompleteRecord {
    pub header: Header,
    pub result: u64,
    pub sq_head: u16,
    pub sq_id: u16,
    pub status: u16,
    pub retries: u8,
}

/// One record of a trace.
#[derive(Debug, Clone, PartialEq, Eq)]
pub enum TraceRecord {
    Submit(SubmitRecord),
    Complete(CompleteRecord),
}

/// A record with the bytes that it was read from and where they stood.
#[derive(Debug, Clone, PartialEq, Eq)]
pub struct RawRecord {
    pub header: Header,
    pub record: TraceRecord,
    pub bytes: Vec<u8>,
    pub offset: u64,
}

/// What a descriptor holds.
#[verifier::ext_equal]
pub struct SglDescView {
    pub addr: u64,
    pub length: u32,
    pub reserved: Seq<u8>,
    pub desc_type: u8,
}

/// What a tail holds.
#[verifier::ext_equal]
pub enum SubmitTailView {
    Prp(Seq<u64>),
    Sgl(Seq<SglDescView>),
}

/// What a submission holds.
#[verifier::ext_equal]
pub struct SubmitRecordView {
    pub header: Header,
    pub sqe: Seq<u8>,
    pub data_len: u32,
    pub meta_len: u32,
    pub use_sgl: bool,
    pub single_segment: bool,
    pub nr_entries: u16,
    pub tail: SubmitTailView,
}

/// What a record holds.
#[verifier::ext_equal]
pub enum TraceRecordView {
    Submit(SubmitRecordView),
    Complete(CompleteRecord),
}

/// What a record with its bytes holds.
#[verifier::ext_equal]
pub struct RawRecordView {
    pub header: Header,
    pub record: TraceRecordView,
    pub bytes: Seq<u8>,
    pub offset: u64,
}

impl View for SglDesc {
    type V = SglDescView;

    open spec fn view(&self) -> SglDescView {
        SglDescView {
            addr: self.addr,
            length: self.length,
            reserved: self.reserved@,
            desc_type: self.desc_type,
        }
    }
}

impl View for SubmitTail {
    type V = SubmitTailView;

    open spec fn view(&self) -> SubmitTailView {
        match self {
            SubmitTail::Prp(entries) => SubmitTailView::Prp(entries@),
            SubmitTail::Sgl(entries) => SubmitTailView::Sgl(
                entries@.map_values(|entry: SglDesc| entry@),
            ),
        }
    }
}

impl View for SubmitRecord {
    type V = SubmitRecordView;

    open spec fn view(&self) -> SubmitRecordView {
        SubmitRecordView {
            header: self.header,
            sqe: self.sqe@,
            data_len: self.data_len,
            meta_len: self.meta_len,
            use_sgl: self.use_sgl,
            single_segment: self.single_segment,
            nr_entries: self.nr_entries,
            tail: self.tail@,
        }
    }
}

impl View for TraceRecord {
    type V = TraceRecordView;

    open spec fn view(&self) -> TraceRecordView {
        match self {
            TraceRecord::Submit(record) => TraceRecordView::Submit(record@),
            TraceRecord::Complete(record) => TraceRecordView::Complete(*record),
        }
    }
}

impl View for RawRecord {
    type V = RawRecordView;

    open spec fn view(&self) -> RawRecordView {
        RawRecordView {
            header: self.header,
            record: self.record@,
            bytes: self.bytes@,
            offset: self.offset,
        }
    }
}

impl SubmitTailView {
    /// The number of entries.
    pub open spec fn entries(self) -> nat {
        match self {
            SubmitTailView::Prp(entries) => entries.len(),
            SubmitTailView::Sgl(entries) => entries.len(),
        }
    }
}

impl SubmitTail {
    /// The number of entries.
    pub fn len(&self) -> (count: usize)
        ensures
            count == self@.entries(),
    {
        match self {
            SubmitTail::Prp(entries) => entries.len(),
            SubmitTail::Sgl(entries) => entries.len(),
        }
    }

    /// Tells whether there are no entries.
    pub fn is_empty(&self) -> (empty: bool)
        ensures
            empty == (self@.entries() == 0),
    {
        self.len() == 0
    }
}

/// The header of a record.
pub open spec fn header_of(record: TraceRecord) -> Header {
    match record {
        TraceRecord::Submit(submit) => submit.header,
        TraceRecord::Complete(complete) => complete.header,
    }
}

impl TraceRecord {
    /// The header of the record.
    pub fn header(&self) -> (header: Header)
        ensures
            header == header_of(*self),
    {
        match self {
            TraceRecord::Submit(record) => record.header,
            TraceRecord::Complete(record) => record.header,
        }
    }
}

/// The header that the first bytes of a record hold.
pub open spec fn header_in(bytes: Seq<u8>) -> Header {
    Header {
        magic: bytes::le32(bytes, 0),
        version: bytes[4],
        record_type: bytes[5],
        len: bytes::le16(bytes, 6),
        timestamp_ns: bytes::le64(bytes, 8),
        seq: bytes::le32(bytes, 16),
        ctrl_id: bytes[20],
        qid: bytes[21],
        cid: bytes::le16(bytes, 22),
    }
}

/// The first twenty-four bytes decide the header.
pub proof fn lemma_header_in_front(s: Seq<u8>, t: Seq<u8>)
    requires
        24 <= s.len(),
        24 <= t.len(),
        s.take(24) == t.take(24),
    ensures
        header_in(s) == header_in(t),
{
    assert forall|i: int| 0 <= i < 24 implies s[i] == t[i] by {
        assert(s[i] == s.take(24)[i]);
        assert(t[i] == t.take(24)[i]);
    }
    assert(s.subrange(0, 4) =~= t.subrange(0, 4));
    assert(s.subrange(6, 8) =~= t.subrange(6, 8));
    assert(s.subrange(8, 16) =~= t.subrange(8, 16));
    assert(s.subrange(16, 20) =~= t.subrange(16, 20));
    assert(s.subrange(22, 24) =~= t.subrange(22, 24));
}

/// The header of a record at `offset`, or what is wrong with it.
pub open spec fn checked_header(bytes: Seq<u8>, offset: u64) -> Result<Header> {
    let header = header_in(bytes);
    if header.magic != NVME_TRACE_MAGIC {
        Err(TraceError::InvalidMagic { offset, magic: header.magic })
    } else if header.version != NVME_TRACE_VERSION {
        Err(TraceError::UnsupportedVersion { offset, version: header.version })
    } else {
        Ok(header)
    }
}

/// The descriptor at `at`.
pub open spec fn sgl_desc_in(bytes: Seq<u8>, at: int) -> SglDescView {
    SglDescView {
        addr: bytes::le64(bytes, at),
        length: bytes::le32(bytes, at + 8),
        reserved: bytes.subrange(at + 12, at + 15),
        desc_type: bytes[at + 15],
    }
}

/// The size of `count` tail entries.
pub open spec fn tail_len(use_sgl: bool, count: nat) -> nat {
    if use_sgl {
        SGL_DESC_LEN as nat * count
    } else {
        PRP_ENTRY_LEN as nat * count
    }
}

/// The `count` tail entries of a submission.
pub open spec fn tail_in(bytes: Seq<u8>, use_sgl: bool, count: nat) -> SubmitTailView {
    if use_sgl {
        SubmitTailView::Sgl(
            Seq::new(count, |i: int| sgl_desc_in(bytes, SUBMIT_FIXED_LEN + SGL_DESC_LEN * i)),
        )
    } else {
        SubmitTailView::Prp(
            Seq::new(count, |i: int| bytes::le64(bytes, SUBMIT_FIXED_LEN + PRP_ENTRY_LEN * i)),
        )
    }
}

/// The submission in `bytes`, whatever their length.
pub open spec fn submit_in(bytes: Seq<u8>) -> SubmitRecordView {
    SubmitRecordView {
        header: header_in(bytes),
        sqe: bytes.subrange(24, 88),
        data_len: bytes::le32(bytes, 88),
        meta_len: bytes::le32(bytes, 92),
        use_sgl: bytes[96] != 0,
        single_segment: bytes[97] != 0,
        nr_entries: bytes::le16(bytes, 98),
        tail: tail_in(bytes, bytes[96] != 0, bytes::le16(bytes, 98) as nat),
    }
}

/// The completion in `bytes`.
pub open spec fn complete_in(bytes: Seq<u8>) -> CompleteRecord {
    CompleteRecord {
        header: header_in(bytes),
        result: bytes::le64(bytes, 24),
        sq_head: bytes::le16(bytes, 32),
        sq_id: bytes::le16(bytes, 34),
        status: bytes::le16(bytes, 36),
        retries: bytes[38],
    }
}

/// The submission in `bytes` with the header `header`, or what is wrong with its
/// length.
pub open spec fn checked_submit(
    header: Header,
    bytes: Seq<u8>,
    offset: u64,
) -> Result<SubmitRecordView> {
    let record_type = header.record_type;
    if bytes.len() < SUBMIT_FIXED_LEN {
        Err(
            TraceError::InvalidLength {
                offset,
                record_type,
                len: bytes.len() as usize,
                reason: "submit record is smaller than the fixed struct",
            },
        )
    } else if bytes.len() - SUBMIT_FIXED_LEN != tail_len(
        submit_in(bytes).use_sgl,
        submit_in(bytes).nr_entries as nat,
    ) {
        Err(
            TraceError::InvalidLength {
                offset,
                record_type,
                len: bytes.len() as usize,
                reason: "submit tail length does not match nr_entries",
            },
        )
    } else {
        Ok(SubmitRecordView { header, ..submit_in(bytes) })
    }
}

/// The completion in `bytes` with the header `header`, or what is wrong with its
/// length.
pub open spec fn checked_complete(
    header: Header,
    bytes: Seq<u8>,
    offset: u64,
) -> Result<CompleteRecord> {
    if bytes.len() != COMPLETE_LEN {
        Err(
            TraceError::InvalidLength {
                offset,
                record_type: header.record_type,
                len: bytes.len() as usize,
                reason: "completion record must be exactly the fixed struct size",
            },
        )
    } else {
        Ok(CompleteRecord { header, ..complete_in(bytes) })
    }
}

/// The record that `bytes` are, `offset` telling where they stood, or what is
/// wrong with them.
pub open spec fn checked_record(bytes: Seq<u8>, offset: u64) -> Result<RawRecordView> {
    let header = header_in(bytes);
    if bytes.len() < HEADER_LEN {
        Err(TraceError::TruncatedHeader { offset, got: bytes.len() as usize })
    } else if checked_header(bytes, offset) is Err {
        Err(checked_header(bytes, offset)->Err_0)
    } else if header.len != bytes.len() {
        Err(
            TraceError::InvalidLength {
                offset,
                record_type: header.record_type,
                len: header.len as usize,
                reason: "header length does not match byte slice length",
            },
        )
    } else if header.record_type == NVME_TRACE_SUBMIT {
        match checked_submit(header, bytes, offset) {
            Ok(submit) => Ok(
                RawRecordView { header, record: TraceRecordView::Submit(submit), bytes, offset },
            ),
            Err(err) => Err(err),
        }
    } else if header.record_type == NVME_TRACE_COMPLETE {
        match checked_complete(header, bytes, offset) {
            Ok(complete) => Ok(
                RawRecordView {
                    header,
                    record: TraceRecordView::Complete(complete),
                    bytes,
                    offset,
                },
            ),
            Err(err) => Err(err),
        }
    } else {
        Err(TraceError::UnknownType { offset, record_type: header.record_type })
    }
}

/// What a result holds.
pub open spec fn viewed<T: View>(result: Result<T>) -> Result<T::V> {
    match result {
        Ok(value) => Ok(value@),
        Err(err) => Err(err),
    }
}

/// Reads and checks the header of the record at `offset`.
pub fn parse_header(bytes: &[u8], offset: u64) -> (result: Result<Header>)
    requires
        bytes.len() >= HEADER_LEN,
    ensures
        result == checked_header(bytes@, offset),
{
    let header = Header {
        magic: read_le32(bytes, 0),
        version: bytes[4],
        record_type: bytes[5],
        len: read_le16(bytes, 6),
        timestamp_ns: read_le64(bytes, 8),
        seq: read_le32(bytes, 16),
        ctrl_id: bytes[20],
        qid: bytes[21],
        cid: read_le16(bytes, 22),
    };
    if header.magic != NVME_TRACE_MAGIC {
        return Err(TraceError::InvalidMagic { offset, magic: header.magic });
    }
    if header.version != NVME_TRACE_VERSION {
        return Err(TraceError::UnsupportedVersion { offset, version: header.version });
    }
    Ok(header)
}

/// The fixed part of a submission behind the header.
struct SubmitFixed {
    sqe: [u8; SQE_LEN],
    data_len: u32,
    meta_len: u32,
    use_sgl: bool,
    single_segment: bool,
    nr_entries: u16,
}

impl SubmitFixed {
    fn expected_tail_len(&self) -> (len: usize)
        ensures
            len == tail_len(self.use_sgl, self.nr_entries as nat),
    {
        if self.use_sgl {
            self.nr_entries as usize * SGL_DESC_LEN
        } else {
            self.nr_entries as usize * PRP_ENTRY_LEN
        }
    }

    fn into_record(self, header: Header, tail: SubmitTail) -> (record: SubmitRecord)
        ensures
            record == (SubmitRecord {
                header,
                sqe: self.sqe,
                data_len: self.data_len,
                meta_len: self.meta_len,
                use_sgl: self.use_sgl,
                single_segment: self.single_segment,
                nr_entries: self.nr_entries,
                tail,
            }),
    {
        SubmitRecord {
            header,
            sqe: self.sqe,
            data_len: self.data_len,
            meta_len: self.meta_len,
            use_sgl: self.use_sgl,
            single_segment: self.single_segment,
            nr_entries: self.nr_entries,
            tail,
        }
    }
}

fn read_sqe(bytes: &[u8]) -> (sqe: [u8; SQE_LEN])
    requires
        bytes.len() >= SUBMIT_FIXED_LEN,
    ensures
        sqe@ == bytes@.subrange(24, 88),
{
    let mut sqe: [u8; SQE_LEN] = [0; SQE_LEN];
    let mut i: usize = 0;
    while i < SQE_LEN
        invariant
            i <= SQE_LEN,
            bytes.len() >= SUBMIT_FIXED_LEN,
            forall|j: int| 0 <= j < i ==> sqe@[j] == bytes@[24 + j],
        decreases SQE_LEN - i,
    {
        sqe[i] = bytes[HEADER_LEN + i];
        i = i + 1;
    }
    assert(sqe@ =~= bytes@.subrange(24, 88));
    sqe
}

fn read_tail(bytes: &[u8], fixed: &SubmitFixed) -> (tail: SubmitTail)
    requires
        bytes.len() == SUBMIT_FIXED_LEN + tail_len(fixed.use_sgl, fixed.nr_entries as nat),
    ensures
        tail@ == tail_in(bytes@, fixed.use_sgl, fixed.nr_entries as nat),
{
    let count: usize = fixed.nr_entries as usize;
    if fixed.use_sgl {
        let mut entries: Vec<SglDesc> = Vec::new();
        let mut i: usize = 0;
        while i < count
            invariant
                i <= count,
                i == entries.len(),
                bytes.len() == SUBMIT_FIXED_LEN + SGL_DESC_LEN * count,
                forall|j: int|
                    0 <= j < i ==> #[trigger] entries@[j]@ == sgl_desc_in(
                        bytes@,
                        SUBMIT_FIXED_LEN + SGL_DESC_LEN * j,
                    ),
            decreases count - i,
        {
            let at: usize = SUBMIT_FIXED_LEN + SGL_DESC_LEN * i;
            let entry = SglDesc {
                addr: read_le64(bytes, at),
                length: read_le32(bytes, at + 8),
                reserved: [bytes[at + 12], bytes[at + 13], bytes[at + 14]],
                desc_type: bytes[at + 15],
            };
            assert(entry.reserved@ =~= bytes@.subrange(at + 12, at + 15));
            assert(entry@ == sgl_desc_in(bytes@, at as int));
            entries.push(entry);
            i = i + 1;
        }
        let tail = SubmitTail::Sgl(entries);
        assert(tail@ =~= tail_in(bytes@, true, count as nat));
        tail
    } else {
        let mut entries: Vec<u64> = Vec::new();
        let mut i: usize = 0;
        while i < count
            invariant
                i <= count,
                i == entries.len(),
                bytes.len() == SUBMIT_FIXED_LEN + PRP_ENTRY_LEN * count,
                forall|j: int|
                    0 <= j < i ==> #[trigger] entries@[j] == bytes::le64(
                        bytes@,
                        SUBMIT_FIXED_LEN + PRP_ENTRY_LEN * j,
                    ),
            decreases count - i,
        {
            entries.push(read_le64(bytes, SUBMIT_FIXED_LEN + PRP_ENTRY_LEN * i));
            i = i + 1;
        }
        let tail = SubmitTail::Prp(entries);
        assert(tail@ =~= tail_in(bytes@, false, count as nat));
        tail
    }
}

/// Reads the submission in `bytes`, whose header is `header`.
pub fn parse_submit(header: Header, bytes: &[u8], offset: u64) -> (result: Result<SubmitRecord>)
    ensures
        viewed(result) == checked_submit(header, bytes@, offset),
{
    if bytes.len() < SUBMIT_FIXED_LEN {
        return Err(
            TraceError::InvalidLength {
                offset,
                record_type: header.record_type,
                len: bytes.len(),
                reason: "submit record is smaller than the fixed struct",
            },
        );
    }
    let fixed = SubmitFixed {
        sqe: read_sqe(bytes),
        data_len: read_le32(bytes, 88),
        meta_len: read_le32(bytes, 92),
        use_sgl: bytes[96] != 0,
        single_segment: bytes[97] != 0,
        nr_entries: read_le16(bytes, 98),
    };
    let tail_len = bytes.len() - SUBMIT_FIXED_LEN;
    if tail_len != fixed.expected_tail_len() {
        return Err(
            TraceError::InvalidLength {
                offset,
                record_type: header.record_type,
                len: bytes.len(),
                reason: "submit tail length does not match nr_entries",
            },
        );
    }
    let tail = read_tail(bytes, &fixed);
    Ok(fixed.into_record(header, tail))
}

/// Reads the completion in `bytes`, whose header is `header`.
pub fn parse_complete(header: Header, bytes: &[u8], offset: u64) -> (result: Result<CompleteRecord>)
    ensures
        result == checked_complete(header, bytes@, offset),
{
    if bytes.len() != COMPLETE_LEN {
        return Err(
            TraceError::InvalidLength {
                offset,
                record_type: header.record_type,
                len: bytes.len(),
                reason: "completion record must be exactly the fixed struct size",
            },
        );
    }
    Ok(
        CompleteRecord {
            header,
            result: read_le64(bytes, 24),
            sq_head: read_le16(bytes, 32),
            sq_id: read_le16(bytes, 34),
            status: read_le16(bytes, 36),
            retries: bytes[38],
        },
    )
}

/// Reads the record that `bytes` are; `offset` tells where they stood.
pub fn parse_record_bytes(bytes: Vec<u8>, offset: u64) -> (result: Result<RawRecord>)
    ensures
        viewed(result) == checked_record(bytes@, offset),
{
    if bytes.len() < HEADER_LEN {
        return Err(TraceError::TruncatedHeader { offset, got: bytes.len() });
    }
    let header = match parse_header(bytes.as_slice(), offset) {
        Ok(header) => header,
        Err(err) => {
            return Err(err);
        },
    };
    let len: usize = header.len as usize;
    if len != bytes.len() {
        return Err(
            TraceError::InvalidLength {
                offset,
                record_type: header.record_type,
                len,
                reason: "header length does not match byte slice length",
            },
        );
    }
    let record = if header.record_type == NVME_TRACE_SUBMIT {
        match parse_submit(header, bytes.as_slice(), offset) {
            Ok(submit) => TraceRecord::Submit(submit),
            Err(err) => {
                return Err(err);
            },
        }
    } else if header.record_type == NVME_TRACE_COMPLETE {
        match parse_complete(header, bytes.as_slice(), offset) {
            Ok(complete) => TraceRecord::Complete(complete),
            Err(err) => {
                return Err(err);
            },
        }
    } else {
        return Err(TraceError::UnknownType { offset, record_type: header.record_type });
    };
    Ok(RawRecord { header, record, bytes, offset })
}

} // verus!
