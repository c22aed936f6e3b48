//! What records made from events of the kernel's tracer say.

use crate::bytes;
use crate::commands;
use crate::encoding;
use crate::ftrace_event::{self, CompleteFormat, SubmitFormat};
use crate::record::{self, TraceRecordView};
use crate::record_laws;
use vstd::prelude::*;

verus! {

/// A completion event makes a record exactly where each of its fields lies within
/// the blob. The record parses, and says of the controller, the queue, the
/// command and the outcome what the blob says of them, at the time of the event.
pub proof fn completion_record_says_what_the_event_says(
    data: Seq<u8>,
    timestamp_ns: u64,
    fmt: CompleteFormat,
    offset: u64,
)
    ensures
        ftrace_event::complete_record(data, timestamp_ns, fmt) is Some <==> {
            &&& fmt.ctrl_id + 4 <= data.len() && fmt.qid + 4 <= data.len()
            &&& fmt.cid + 2 <= data.len() && fmt.result + 8 <= data.len()
            &&& fmt.sq_head + 2 <= data.len() && fmt.sq_id + 2 <= data.len()
            &&& fmt.status + 2 <= data.len() && fmt.retries + 1 <= data.len()
        },
        ftrace_event::complete_record(data, timestamp_ns, fmt) matches Some(rec) ==> {
            &&& record::checked_record(rec, offset) matches Ok(raw)
            &&& raw.record matches TraceRecordView::Complete(complete)
            &&& complete.header.timestamp_ns == timestamp_ns
            &&& complete.header.seq == 0
            &&& complete.header.ctrl_id == data[fmt.ctrl_id as int]
            &&& complete.header.qid == data[fmt.qid as int]
            &&& complete.header.cid == bytes::le16(data, fmt.cid as int)
            &&& complete.result == bytes::le64(data, fmt.result as int)
            &&& complete.sq_head == bytes::le16(data, fmt.sq_head as int)
            &&& complete.sq_id == bytes::le16(data, fmt.sq_id as int)
            &&& complete.status == bytes::le16(data, fmt.status as int)
            &&& complete.retries == data[fmt.retries as int]
            &&& rec.len() == 40
            &&& rec[5] == 1
            &&& rec[20] == data[fmt.ctrl_id as int]
            &&& rec[21] == data[fmt.qid as int]
            &&& rec[22] == data[fmt.cid as int]
            &&& rec[23] == data[fmt.cid + 1]
        },
{
    ftrace_event::completion_events_parse(data, timestamp_ns, fmt, offset);
    if let Some(rec) = ftrace_event::complete_record(data, timestamp_ns, fmt) {
        record_laws::header_stands_in_front(rec, offset);
        record_laws::completion_fields_stand_in_place(rec, offset);
        record_laws::le16_is_two_bytes(data, fmt.cid as int);
    }
}

/// Where the descriptors of a submission event lie: the lower half of a word
/// tells their place and the upper half their length.
pub open spec fn told_descriptors(data: Seq<u8>, at: int) -> (int, int) {
    (data[at] + 0x100 * data[at + 1], data[at + 2] + 0x100 * data[at + 3])
}

/// A submission event makes a record exactly where each of its fields lies within
/// the blob. The record says of the controller, the queue, the command and the
/// transfer what the blob says of them, at the time of the event; behind the fixed
/// part stand the bytes that the blob tells as its descriptors, or none where they
/// do not lie within it.
pub proof fn submission_record_says_what_the_event_says(
    data: Seq<u8>,
    timestamp_ns: u64,
    fmt: SubmitFormat,
)
    ensures
        ftrace_event::submit_record(data, timestamp_ns, fmt) is Some <==> {
            &&& fmt.ctrl_id + 4 <= data.len() && fmt.qid + 4 <= data.len()
            &&& fmt.cid + 2 <= data.len() && fmt.data_len + 4 <= data.len()
            &&& fmt.meta_len + 4 <= data.len() && fmt.use_sgl + 1 <= data.len()
            &&& fmt.single_segment + 1 <= data.len() && fmt.sqe + 64 <= data.len()
            &&& fmt.descriptors_dataloc + 4 <= data.len()
        },
        ftrace_event::submit_record(data, timestamp_ns, fmt) matches Some(rec) ==> {
            let (place, told) = told_descriptors(data, fmt.descriptors_dataloc as int);
            let len = if place + told <= data.len() {
                told
            } else {
                0
            };
            let count = len / (if data[fmt.use_sgl as int] != 0 {
                16int
            } else {
                8int
            });
            &&& rec.len() == 100 + len
            &&& rec[0] == 0x45 && rec[1] == 0x4d && rec[2] == 0x56 && rec[3] == 0x4e
            &&& rec[4] == 1 && rec[5] == 0
            &&& bytes::le16(rec, 6) == (100 + len) % 0x1_0000
            &&& bytes::le64(rec, 8) == timestamp_ns
            &&& bytes::le32(rec, 16) == 0
            &&& rec[20] == data[fmt.ctrl_id as int]
            &&& rec[21] == data[fmt.qid as int]
            &&& bytes::le16(rec, 22) == bytes::le16(data, fmt.cid as int)
            &&& rec.subrange(24, 88) == data.subrange(fmt.sqe as int, fmt.sqe + 64)
            &&& bytes::le32(rec, 88) == bytes::le32(data, fmt.data_len as int)
            &&& bytes::le32(rec, 92) == bytes::le32(data, fmt.meta_len as int)
            &&& rec[96] == 1 <==> data[fmt.use_sgl as int] != 0
            &&& rec[97] == 1 <==> data[fmt.single_segment as int] != 0
            &&& rec[96] <= 1 && rec[97] <= 1
            &&& bytes::le16(rec, 98) == count
            &&& len > 0 ==> rec.skip(100) == data.subrange(place, place + len)
        },
{
    broadcast use crate::bytes::lemma_le_bytes_len;

    if let Some(rec) = ftrace_event::submit_record(data, timestamp_ns, fmt) {
        let event = ftrace_event::submit_event(data, timestamp_ns, fmt);
        let header = event.header;
        let h = encoding::header_bytes(header);
        let f = encoding::submit_fixed_bytes(event);
        let d = ftrace_event::descriptors(data, fmt);
        record_laws::le32_is_four_bytes(data, fmt.descriptors_dataloc as int);
        assert(rec =~= h + f + d);
        assert(h.len() == 24 && f.len() == 76);
        assert(rec.subrange(0, 4) =~= bytes::le32_bytes(header.magic));
        bytes::lemma_le32_at(rec, 0, header.magic);
        record_laws::le32_is_four_bytes(rec, 0);
        assert(rec.subrange(6, 8) =~= bytes::le16_bytes(header.len));
        bytes::lemma_le16_at(rec, 6, header.len);
        assert(rec.subrange(8, 16) =~= bytes::le64_bytes(header.timestamp_ns));
        bytes::lemma_le64_at(rec, 8, header.timestamp_ns);
        assert(rec.subrange(16, 20) =~= bytes::le32_bytes(header.seq));
        bytes::lemma_le32_at(rec, 16, header.seq);
        assert(rec.subrange(22, 24) =~= bytes::le16_bytes(header.cid));
        bytes::lemma_le16_at(rec, 22, header.cid);
        assert(rec.subrange(24, 88) =~= event.sqe);
        assert(rec.subrange(88, 92) =~= bytes::le32_bytes(event.data_len));
        bytes::lemma_le32_at(rec, 88, event.data_len);
        assert(rec.subrange(92, 96) =~= bytes::le32_bytes(event.meta_len));
        bytes::lemma_le32_at(rec, 92, event.meta_len);
        assert(rec.subrange(98, 100) =~= bytes::le16_bytes(event.nr_entries));
        bytes::lemma_le16_at(rec, 98, event.nr_entries);
        assert(rec.skip(100) =~= d);
    }
}

/// A submission event and a completion event that carry the same controller, queue
/// and command number make records of the same command.
pub proof fn events_of_one_command_match(
    submitted: Seq<u8>,
    completed: Seq<u8>,
    submit_fmt: SubmitFormat,
    complete_fmt: CompleteFormat,
    submit_ns: u64,
    complete_ns: u64,
    offset: u64,
)
    requires
        ftrace_event::submit_record(submitted, submit_ns, submit_fmt) is Some,
        ftrace_event::complete_record(completed, complete_ns, complete_fmt) is Some,
        submitted[submit_fmt.ctrl_id as int] == completed[complete_fmt.ctrl_id as int],
        submitted[submit_fmt.qid as int] == completed[complete_fmt.qid as int],
        bytes::le16(submitted, submit_fmt.cid as int) == bytes::le16(
            completed,
            complete_fmt.cid as int,
        ),
        ftrace_event::whole_entries(submitted, submit_fmt),
    ensures
        ({
            let first = ftrace_event::submit_record(submitted, submit_ns, submit_fmt).unwrap();
            let second = ftrace_event::complete_record(
                completed,
                complete_ns,
                complete_fmt,
            ).unwrap();
            &&& record::checked_record(first, offset) matches Ok(a)
            &&& record::checked_record(second, offset) matches Ok(b)
            &&& a.header.ctrl_id == submitted[submit_fmt.ctrl_id as int]
            &&& a.header.qid == submitted[submit_fmt.qid as int]
            &&& a.header.cid == bytes::le16(submitted, submit_fmt.cid as int)
            &&& commands::command_of(a.header) == commands::command_of(b.header)
        }),
{
    ftrace_event::submission_events_parse(submitted, submit_ns, submit_fmt, offset);
    submission_record_says_what_the_event_says(submitted, submit_ns, submit_fmt);
    completion_record_says_what_the_event_says(completed, complete_ns, complete_fmt, offset);
    let first = ftrace_event::submit_record(submitted, submit_ns, submit_fmt).unwrap();
    record_laws::header_stands_in_front(first, offset);
    record_laws::le16_is_two_bytes(first, 22);
}

} // verus!
