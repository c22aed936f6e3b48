//! Trace events of the kernel turned into records.
//!
//! An event is a blob of bytes. The kernel tells at run time where in the blob
//! each field stands; the blob starts with the number of the event.

use crate::bytes::{self, push_le16, push_le32, push_le64, read_le16, read_le32, read_le64};
use crate::encoding;
use crate::record::{
    self, CompleteRecord, Header, SubmitRecordView, SubmitTailView, TraceRecordView, COMPLETE_LEN, NVME_TRACE_COMPLETE, NVME_TRACE_MAGIC, NVME_TRACE_SUBMIT, NVME_TRACE_VERSION,
    PRP_ENTRY_LEN, SGL_DESC_LEN, SQE_LEN, SUBMIT_FIXED_LEN,
};
use vstd::prelude::*;
use vstd::slice::slice_subrange;

verus! {

broadcast use crate::bytes::lemma_le_bytes_len;

/// Where the fields of a submission event stand in its blob.
#[derive(Debug, Clone, Copy, PartialEq, Eq, Structural)]
pub struct SubmitFormat {
    pub ctrl_id: usize,
    pub qid: usize,
    pub cid: usize,
    pub data_len: usize,
    pub meta_len: usize,
    pub use_sgl: usize,
    pub single_segment: usize,
    pub sqe: usize,
    /// Where the word stands that tells the place and the length of the
    /// descriptors.
    pub descriptors_dataloc: usize,
}

/// Where the fields of a completion event stand in its blob.
#[derive(Debug, Clone, Copy, PartialEq, Eq, Structural)]
pub struct CompleteFormat {
    pub ctrl_id: usize,
    pub qid: usize,
    pub cid: usize,
    pub result: usize,
    pub sq_head: usize,
    pub sq_id: usize,
    pub status: usize,
    pub retries: usize,
}

/// Every field of a submission event lies within a blob of `len` bytes.
pub open spec fn submit_fits(len: nat, fmt: SubmitFormat) -> bool {
    &&& fmt.ctrl_id + 4 <= len
    &&& fmt.qid + 4 <= len
    &&& fmt.cid + 2 <= len
    &&& fmt.data_len + 4 <= len
    &&& fmt.meta_len + 4 <= len
    &&& fmt.use_sgl + 1 <= len
    &&& fmt.single_segment + 1 <= len
    &&& fmt.sqe + SQE_LEN <= len
    &&& fmt.descriptors_dataloc + 4 <= len
}

/// Every field of a completion event lies within a blob of `len` bytes.
pub open spec fn complete_fits(len: nat, fmt: CompleteFormat) -> bool {
    &&& fmt.ctrl_id + 4 <= len
    &&& fmt.qid + 4 <= len
    &&& fmt.cid + 2 <= len
    &&& fmt.result + 8 <= len
    &&& fmt.sq_head + 2 <= len
    &&& fmt.sq_id + 2 <= len
    &&& fmt.status + 2 <= len
    &&& fmt.retries + 1 <= len
}

/// The descriptors of a submission event. Their length stands in the upper half
/// of a word and their place in the lower half. Descriptors that do not lie
/// within the blob are left out.
pub open spec fn descriptors(data: Seq<u8>, fmt: SubmitFormat) -> Seq<u8> {
    let word = bytes::le32(data, fmt.descriptors_dataloc as int) as int;
    let at = word % 65536;
    let len = word / 65536;
    if at + len <= data.len() {
        data.subrange(at, at + len)
    } else {
        seq![]
    }
}

/// The header of a record made from an event. The kernel's events carry no
/// sequence number; it is zero. Of the controller and the queue the lowest byte
/// is kept, and of the length the lower sixteen bits.
pub open spec fn event_header(
    record_type: u8,
    len: int,
    timestamp_ns: u64,
    ctrl_id: u8,
    qid: u8,
    cid: u16,
) -> Header {
    Header {
        magic: NVME_TRACE_MAGIC,
        version: NVME_TRACE_VERSION,
        record_type,
        len: (len % 65536) as u16,
        timestamp_ns,
        seq: 0,
        ctrl_id,
        qid,
        cid,
    }
}

/// The fixed part of the record made from a submission event. The tail is left
/// empty.
pub open spec fn submit_event(data: Seq<u8>, timestamp_ns: u64, fmt: SubmitFormat) -> SubmitRecordView {
    let use_sgl = data[fmt.use_sgl as int] != 0;
    let size: int = if use_sgl {
        SGL_DESC_LEN as int
    } else {
        PRP_ENTRY_LEN as int
    };
    SubmitRecordView {
        header: event_header(
            NVME_TRACE_SUBMIT,
            SUBMIT_FIXED_LEN + descriptors(data, fmt).len(),
            timestamp_ns,
            data[fmt.ctrl_id as int],
            data[fmt.qid as int],
            bytes::le16(data, fmt.cid as int),
        ),
        sqe: data.subrange(fmt.sqe as int, fmt.sqe + SQE_LEN),
        data_len: bytes::le32(data, fmt.data_len as int),
        meta_len: bytes::le32(data, fmt.meta_len as int),
        use_sgl,
        single_segment: data[fmt.single_segment as int] != 0,
        nr_entries: (descriptors(data, fmt).len() as int / size) as u16,
        tail: SubmitTailView::Prp(seq![]),
    }
}

/// The record made from a completion event.
pub open spec fn complete_event(
    data: Seq<u8>,
    timestamp_ns: u64,
    fmt: CompleteFormat,
) -> CompleteRecord {
    CompleteRecord {
        header: event_header(
            NVME_TRACE_COMPLETE,
            COMPLETE_LEN as int,
            timestamp_ns,
            data[fmt.ctrl_id as int],
            data[fmt.qid as int],
            bytes::le16(data, fmt.cid as int),
        ),
        result: bytes::le64(data, fmt.result as int),
        sq_head: bytes::le16(data, fmt.sq_head as int),
        sq_id: bytes::le16(data, fmt.sq_id as int),
        status: bytes::le16(data, fmt.status as int),
        retries: data[fmt.retries as int],
    }
}

/// The bytes of the record made from a submission event, if all its fields are
/// there.
pub open spec fn submit_record(data: Seq<u8>, timestamp_ns: u64, fmt: SubmitFormat) -> Option<
    Seq<u8>,
> {
    if submit_fits(data.len(), fmt) {
        let submit = submit_event(data, timestamp_ns, fmt);
        Some(
            encoding::header_bytes(submit.header) + encoding::submit_fixed_bytes(submit)
                + descriptors(data, fmt),
        )
    } else {
        None
    }
}

/// The bytes of the record made from a completion event, if all its fields are
/// there.
pub open spec fn complete_record(data: Seq<u8>, timestamp_ns: u64, fmt: CompleteFormat) -> Option<
    Seq<u8>,
> {
    if complete_fits(data.len(), fmt) {
        Some(
            encoding::record_bytes(
                TraceRecordView::Complete(complete_event(data, timestamp_ns, fmt)),
            ),
        )
    } else {
        None
    }
}

/// What an optional string of bytes holds.
pub open spec fn viewed_bytes(bytes: Option<Vec<u8>>) -> Option<Seq<u8>> {
    match bytes {
        Some(bytes) => Some(bytes@),
        None => None,
    }
}

fn fits(at: usize, size: usize, len: usize) -> (yes: bool)
    ensures
        yes == (at + size <= len),
{
    size <= len && at <= len - size
}

fn push_header(out: &mut Vec<u8>, header: &Header)
    ensures
        final(out)@ == old(out)@ + encoding::header_bytes(*header),
{
    push_le32(out, header.magic);
    out.push(header.version);
    out.push(header.record_type);
    push_le16(out, header.len);
    push_le64(out, header.timestamp_ns);
    push_le32(out, header.seq);
    out.push(header.ctrl_id);
    out.push(header.qid);
    push_le16(out, header.cid);
    assert(out@ =~= old(out)@ + encoding::header_bytes(*header));
}

/// Turns a submission event into a record. Gives nothing where the blob is too
/// short for a field.
pub fn encode_submit(data: &[u8], timestamp_ns: u64, fmt: &SubmitFormat) -> (record: Option<
    Vec<u8>,
>)
    ensures
        viewed_bytes(record) == submit_record(data@, timestamp_ns, *fmt),
{
    let len: usize = data.len();
    if !(fits(fmt.descriptors_dataloc, 4, len) && fits(fmt.sqe, SQE_LEN, len) && fits(
        fmt.ctrl_id,
        4,
        len,
    ) && fits(fmt.qid, 4, len) && fits(fmt.cid, 2, len) && fits(fmt.data_len, 4, len) && fits(
        fmt.meta_len,
        4,
        len,
    ) && fits(fmt.use_sgl, 1, len) && fits(fmt.single_segment, 1, len)) {
        return None;
    }
    let ctrl_id = data[fmt.ctrl_id];
    let qid = data[fmt.qid];
    let cid = read_le16(data, fmt.cid);
    let data_len = read_le32(data, fmt.data_len);
    let meta_len = read_le32(data, fmt.meta_len);
    let use_sgl: bool = data[fmt.use_sgl] != 0;
    let single_segment: bool = data[fmt.single_segment] != 0;
    let sqe = slice_subrange(data, fmt.sqe, fmt.sqe + SQE_LEN);

    let dataloc: u32 = read_le32(data, fmt.descriptors_dataloc);
    let desc_off: usize = (dataloc % 65536) as usize;
    let desc_len: usize = (dataloc / 65536) as usize;
    let descriptors = if desc_len <= len && desc_off <= len - desc_len {
        slice_subrange(data, desc_off, desc_off + desc_len)
    } else {
        slice_subrange(data, 0, 0)
    };
    assert(descriptors@ =~= self::descriptors(data@, *fmt));

    let nr_entries: u16 = if use_sgl {
        (descriptors.len() / SGL_DESC_LEN) as u16
    } else {
        (descriptors.len() / PRP_ENTRY_LEN) as u16
    };
    let total_len: usize = SUBMIT_FIXED_LEN + descriptors.len();

    let mut rec: Vec<u8> = Vec::with_capacity(total_len);
    let header = Header {
        magic: NVME_TRACE_MAGIC,
        version: NVME_TRACE_VERSION,
        record_type: NVME_TRACE_SUBMIT,
        len: (total_len % 65536) as u16,
        timestamp_ns,
        seq: 0,
        ctrl_id,
        qid,
        cid,
    };
    push_header(&mut rec, &header);
    let ghost front = rec@;
    rec.extend_from_slice(sqe);
    push_le32(&mut rec, data_len);
    push_le32(&mut rec, meta_len);
    rec.push(if use_sgl {
        1
    } else {
        0
    });
    rec.push(if single_segment {
        1
    } else {
        0
    });
    push_le16(&mut rec, nr_entries);
    proof {
        let submit = submit_event(data@, timestamp_ns, *fmt);
        assert(front =~= encoding::header_bytes(submit.header));
        assert(rec@ =~= front + encoding::submit_fixed_bytes(submit));
    }
    rec.extend_from_slice(descriptors);
    Some(rec)
}

/// Turns a completion event into a record. Gives nothing where the blob is too
/// short for a field.
pub fn encode_complete(data: &[u8], timestamp_ns: u64, fmt: &CompleteFormat) -> (record: Option<
    Vec<u8>,
>)
    ensures
        viewed_bytes(record) == complete_record(data@, timestamp_ns, *fmt),
{
    let len: usize = data.len();
    if !(fits(fmt.retries, 1, len) && fits(fmt.ctrl_id, 4, len) && fits(fmt.qid, 4, len) && fits(
        fmt.cid,
        2,
        len,
    ) && fits(fmt.result, 8, len) && fits(fmt.sq_head, 2, len) && fits(fmt.sq_id, 2, len) && fits(
        fmt.status,
        2,
        len,
    )) {
        return None;
    }
    let header = Header {
        magic: NVME_TRACE_MAGIC,
        version: NVME_TRACE_VERSION,
        record_type: NVME_TRACE_COMPLETE,
        len: COMPLETE_LEN as u16,
        timestamp_ns,
        seq: 0,
        ctrl_id: data[fmt.ctrl_id],
        qid: data[fmt.qid],
        cid: read_le16(data, fmt.cid),
    };
    let mut rec: Vec<u8> = Vec::with_capacity(COMPLETE_LEN);
    push_header(&mut rec, &header);
    let ghost front = rec@;
    push_le64(&mut rec, read_le64(data, fmt.result));
    push_le16(&mut rec, read_le16(data, fmt.sq_head));
    push_le16(&mut rec, read_le16(data, fmt.sq_id));
    push_le16(&mut rec, read_le16(data, fmt.status));
    rec.push(data[fmt.retries]);
    rec.push(0);
    proof {
        let complete = complete_event(data@, timestamp_ns, *fmt);
        assert(front =~= encoding::header_bytes(complete.header));
        assert(rec@ =~= front + encoding::complete_payload_bytes(complete));
    }
    Some(rec)
}

/// A completion event always makes a record that parses, and the record holds
/// what the event said.
pub proof fn completion_events_parse(
    data: Seq<u8>,
    timestamp_ns: u64,
    fmt: CompleteFormat,
    offset: u64,
)
    ensures
        complete_record(data, timestamp_ns, fmt) matches Some(rec) ==> record::checked_record(
            rec,
            offset,
        ) matches Ok(raw) && raw.record == TraceRecordView::Complete(
            complete_event(data, timestamp_ns, fmt),
        ),
{
    if complete_fits(data.len(), fmt) {
        encoding::encoded_record_parses(
            TraceRecordView::Complete(complete_event(data, timestamp_ns, fmt)),
            offset,
        );
    }
}

/// The descriptors of a submission event are a whole number of entries, and the
/// record made from the event is short enough for its length to be told.
pub open spec fn whole_entries(data: Seq<u8>, fmt: SubmitFormat) -> bool {
    let len = descriptors(data, fmt).len();
    &&& if data[fmt.use_sgl as int] != 0 {
        len % 16 == 0
    } else {
        len % 8 == 0
    }
    &&& SUBMIT_FIXED_LEN + len <= u16::MAX
}

/// A submission event that makes a record, and whose descriptors are a whole
/// number of entries, makes one that parses. The record holds what the event
/// said, and its tail the descriptors.
pub proof fn submission_events_parse(
    data: Seq<u8>,
    timestamp_ns: u64,
    fmt: SubmitFormat,
    offset: u64,
)
    requires
        submit_fits(data.len(), fmt) ==> whole_entries(data, fmt),
    ensures
        submit_record(data, timestamp_ns, fmt) matches Some(rec) ==> {
            let event = submit_event(data, timestamp_ns, fmt);
            &&& record::checked_record(rec, offset) matches Ok(raw)
            &&& raw.record matches TraceRecordView::Submit(submit)
            &&& encoding::tail_bytes(submit.tail) == descriptors(data, fmt)
            &&& submit == (SubmitRecordView { tail: submit.tail, ..event })
        },
{
    if submit_fits(data.len(), fmt) {
        let event = submit_event(data, timestamp_ns, fmt);
        let desc = descriptors(data, fmt);
        let rec = submit_record(data, timestamp_ns, fmt)->Some_0;
        let tail = record::tail_in(rec, event.use_sgl, event.nr_entries as nat);
        assert(encoding::header_bytes(event.header).len() == 24);
        assert(encoding::submit_fixed_bytes(event).len() == 76);
        assert(desc.len() == record::tail_len(event.use_sgl, event.nr_entries as nat));
        encoding::lemma_tail_of_read(rec, event.use_sgl, event.nr_entries as nat);
        assert(rec.skip(100) =~= desc);
        let submit = SubmitRecordView { tail, ..event };
        assert(encoding::submit_fixed_bytes(submit) == encoding::submit_fixed_bytes(event));
        assert(rec == encoding::record_bytes(TraceRecordView::Submit(submit)));
        encoding::encoded_record_parses(TraceRecordView::Submit(submit), offset);
    }
}

} // verus!
