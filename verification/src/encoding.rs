//! The bytes that stand for a record, and how they parse.

use crate::bytes;
use crate::record::{
    self, CompleteRecord, Header, RawRecordView, SglDescView, SubmitRecordView, SubmitTailView,
    TraceRecordView, COMPLETE_LEN, NVME_TRACE_COMPLETE, NVME_TRACE_MAGIC, NVME_TRACE_SUBMIT,
    NVME_TRACE_VERSION, SUBMIT_FIXED_LEN,
};
use vstd::prelude::*;

verus! {

broadcast use crate::bytes::lemma_le_bytes_len;

/// The twenty-four bytes of a header.
pub open spec fn header_bytes(header: Header) -> Seq<u8> {
    bytes::le32_bytes(header.magic) + seq![header.version, header.record_type] + bytes::le16_bytes(
        header.len,
    ) + bytes::le64_bytes(header.timestamp_ns) + bytes::le32_bytes(header.seq)
        + seq![header.ctrl_id, header.qid] + bytes::le16_bytes(header.cid)
}

/// A flag as a byte.
pub open spec fn flag_byte(flag: bool) -> u8 {
    if flag {
        1
    } else {
        0
    }
}

/// The fixed part of a submission behind the header.
pub open spec fn submit_fixed_bytes(submit: SubmitRecordView) -> Seq<u8> {
    submit.sqe + bytes::le32_bytes(submit.data_len) + bytes::le32_bytes(submit.meta_len)
        + seq![flag_byte(submit.use_sgl), flag_byte(submit.single_segment)] + bytes::le16_bytes(
        submit.nr_entries,
    )
}

/// The bytes of physical region page entries.
pub open spec fn prp_bytes(entries: Seq<u64>) -> Seq<u8>
    decreases entries.len(),
{
    if entries.len() == 0 {
        seq![]
    } else {
        prp_bytes(entries.drop_last()) + bytes::le64_bytes(entries.last())
    }
}

/// The sixteen bytes of a scatter-gather list descriptor.
pub open spec fn sgl_desc_bytes(desc: SglDescView) -> Seq<u8> {
    bytes::le64_bytes(desc.addr) + bytes::le32_bytes(desc.length) + desc.reserved
        + seq![desc.desc_type]
}

/// The bytes of scatter-gather list descriptors.
pub open spec fn sgl_bytes(entries: Seq<SglDescView>) -> Seq<u8>
    decreases entries.len(),
{
    if entries.len() == 0 {
        seq![]
    } else {
        sgl_bytes(entries.drop_last()) + sgl_desc_bytes(entries.last())
    }
}

/// The bytes of a tail.
pub open spec fn tail_bytes(tail: SubmitTailView) -> Seq<u8> {
    match tail {
        SubmitTailView::Prp(entries) => prp_bytes(entries),
        SubmitTailView::Sgl(entries) => sgl_bytes(entries),
    }
}

/// The part of a completion behind the header. The last byte pads.
pub open spec fn complete_payload_bytes(complete: CompleteRecord) -> Seq<u8> {
    bytes::le64_bytes(complete.result) + bytes::le16_bytes(complete.sq_head) + bytes::le16_bytes(
        complete.sq_id,
    ) + bytes::le16_bytes(complete.status) + seq![complete.retries, 0]
}

/// The bytes of a record.
pub open spec fn record_bytes(record: TraceRecordView) -> Seq<u8> {
    match record {
        TraceRecordView::Submit(submit) => header_bytes(submit.header) + submit_fixed_bytes(submit)
            + tail_bytes(submit.tail),
        TraceRecordView::Complete(complete) => header_bytes(complete.header)
            + complete_payload_bytes(complete),
    }
}

/// The header of a record.
pub open spec fn header_of_view(record: TraceRecordView) -> Header {
    match record {
        TraceRecordView::Submit(submit) => submit.header,
        TraceRecordView::Complete(complete) => complete.header,
    }
}

/// A tail of the kind that `use_sgl` tells, with three reserved bytes in each
/// descriptor.
pub open spec fn tail_well_formed(tail: SubmitTailView, use_sgl: bool) -> bool {
    match tail {
        SubmitTailView::Prp(_) => !use_sgl,
        SubmitTailView::Sgl(entries) => use_sgl && forall|i: int|
            0 <= i < entries.len() ==> (#[trigger] entries[i]).reserved.len() == 3,
    }
}

/// A record that is consistent with itself: the header carries the magic
/// number, the version and the kind, its length is that of the record, and the
/// tail is of the announced kind and length.
pub open spec fn well_formed(record: TraceRecordView) -> bool {
    let header = header_of_view(record);
    &&& header.magic == NVME_TRACE_MAGIC
    &&& header.version == NVME_TRACE_VERSION
    &&& match record {
        TraceRecordView::Submit(submit) => {
            &&& header.record_type == NVME_TRACE_SUBMIT
            &&& submit.sqe.len() == 64
            &&& submit.nr_entries == submit.tail.entries()
            &&& tail_well_formed(submit.tail, submit.use_sgl)
            &&& header.len == SUBMIT_FIXED_LEN + record::tail_len(
                submit.use_sgl,
                submit.nr_entries as nat,
            )
        },
        TraceRecordView::Complete(complete) => {
            &&& header.record_type == NVME_TRACE_COMPLETE
            &&& header.len == COMPLETE_LEN
        },
    }
}

proof fn lemma_header_bytes(header: Header, rest: Seq<u8>)
    ensures
        header_bytes(header).len() == 24,
        record::header_in(header_bytes(header) + rest) == header,
{
    let s = header_bytes(header) + rest;
    assert(s.subrange(0, 4) =~= bytes::le32_bytes(header.magic));
    assert(s.subrange(6, 8) =~= bytes::le16_bytes(header.len));
    assert(s.subrange(8, 16) =~= bytes::le64_bytes(header.timestamp_ns));
    assert(s.subrange(16, 20) =~= bytes::le32_bytes(header.seq));
    assert(s.subrange(22, 24) =~= bytes::le16_bytes(header.cid));
    bytes::lemma_le32_at(s, 0, header.magic);
    bytes::lemma_le16_at(s, 6, header.len);
    bytes::lemma_le64_at(s, 8, header.timestamp_ns);
    bytes::lemma_le32_at(s, 16, header.seq);
    bytes::lemma_le16_at(s, 22, header.cid);
}

proof fn lemma_submit_fixed_bytes(submit: SubmitRecordView, before: Seq<u8>, rest: Seq<u8>)
    requires
        submit.sqe.len() == 64,
        before.len() == 24,
    ensures
        submit_fixed_bytes(submit).len() == 76,
        ({
            let s = before + submit_fixed_bytes(submit) + rest;
            &&& s.subrange(24, 88) == submit.sqe
            &&& bytes::le32(s, 88) == submit.data_len
            &&& bytes::le32(s, 92) == submit.meta_len
            &&& (s[96] != 0) == submit.use_sgl
            &&& (s[97] != 0) == submit.single_segment
            &&& bytes::le16(s, 98) == submit.nr_entries
        }),
{
    let s = before + submit_fixed_bytes(submit) + rest;
    assert(s.subrange(24, 88) =~= submit.sqe);
    assert(s.subrange(88, 92) =~= bytes::le32_bytes(submit.data_len));
    assert(s.subrange(92, 96) =~= bytes::le32_bytes(submit.meta_len));
    assert(s.subrange(98, 100) =~= bytes::le16_bytes(submit.nr_entries));
    bytes::lemma_le32_at(s, 88, submit.data_len);
    bytes::lemma_le32_at(s, 92, submit.meta_len);
    bytes::lemma_le16_at(s, 98, submit.nr_entries);
}

/// Where each entry stands among the bytes of the entries.
proof fn lemma_prp_bytes(entries: Seq<u64>)
    ensures
        prp_bytes(entries).len() == 8 * entries.len(),
        forall|i: int|
            0 <= i < entries.len() ==> prp_bytes(entries).subrange(8 * i, 8 * i + 8)
                == bytes::le64_bytes(#[trigger] entries[i]),
    decreases entries.len(),
{
    if entries.len() > 0 {
        let front = entries.drop_last();
        lemma_prp_bytes(front);
        let s = prp_bytes(entries);
        assert forall|i: int| 0 <= i < entries.len() implies s.subrange(8 * i, 8 * i + 8)
            == bytes::le64_bytes(#[trigger] entries[i]) by {
            if i < front.len() {
                assert(entries[i] == front[i]);
                assert(s.subrange(8 * i, 8 * i + 8) =~= prp_bytes(front).subrange(
                    8 * i,
                    8 * i + 8,
                ));
            } else {
                assert(s.subrange(8 * i, 8 * i + 8) =~= bytes::le64_bytes(entries.last()));
            }
        }
    }
}

/// A descriptor stands at `at` exactly where its bytes do.
proof fn lemma_sgl_desc_at(s: Seq<u8>, at: int, desc: SglDescView)
    requires
        0 <= at,
        at + 16 <= s.len(),
        desc.reserved.len() == 3,
    ensures
        record::sgl_desc_in(s, at) == desc <==> s.subrange(at, at + 16) == sgl_desc_bytes(desc),
{
    let t = sgl_desc_bytes(desc);
    let u = s.subrange(at, at + 16);
    assert(t.len() == 16);
    bytes::lemma_le64_at(s, at, desc.addr);
    bytes::lemma_le32_at(s, at + 8, desc.length);
    assert(t.subrange(0, 8) =~= bytes::le64_bytes(desc.addr));
    assert(t.subrange(8, 12) =~= bytes::le32_bytes(desc.length));
    assert(t.subrange(12, 15) =~= desc.reserved);
    assert(u.subrange(0, 8) =~= s.subrange(at, at + 8));
    assert(u.subrange(8, 12) =~= s.subrange(at + 8, at + 12));
    assert(u.subrange(12, 15) =~= s.subrange(at + 12, at + 15));
    assert(u[15] == s[at + 15]);
    if record::sgl_desc_in(s, at) == desc {
        assert(u =~= u.subrange(0, 8) + u.subrange(8, 12) + u.subrange(12, 15) + seq![u[15]]);
        assert(u =~= t);
    }
}

/// Where each descriptor stands among the bytes of the descriptors.
proof fn lemma_sgl_bytes(entries: Seq<SglDescView>)
    requires
        forall|i: int| 0 <= i < entries.len() ==> (#[trigger] entries[i]).reserved.len() == 3,
    ensures
        sgl_bytes(entries).len() == 16 * entries.len(),
        forall|i: int|
            0 <= i < entries.len() ==> sgl_bytes(entries).subrange(16 * i, 16 * i + 16)
                == sgl_desc_bytes(#[trigger] entries[i]),
    decreases entries.len(),
{
    if entries.len() > 0 {
        let front = entries.drop_last();
        assert forall|i: int| 0 <= i < front.len() implies (#[trigger] front[i]).reserved.len()
            == 3 by {
            assert(front[i] == entries[i]);
        }
        lemma_sgl_bytes(front);
        let s = sgl_bytes(entries);
        assert(entries[entries.len() - 1].reserved.len() == 3);
        assert(sgl_desc_bytes(entries.last()).len() == 16);
        assert forall|i: int| 0 <= i < entries.len() implies s.subrange(16 * i, 16 * i + 16)
            == sgl_desc_bytes(#[trigger] entries[i]) by {
            if i < front.len() {
                assert(entries[i] == front[i]);
                assert(s.subrange(16 * i, 16 * i + 16) =~= sgl_bytes(front).subrange(
                    16 * i,
                    16 * i + 16,
                ));
            } else {
                assert(s.subrange(16 * i, 16 * i + 16) =~= sgl_desc_bytes(entries.last()));
            }
        }
    }
}

proof fn lemma_tail_bytes(tail: SubmitTailView, use_sgl: bool, before: Seq<u8>)
    requires
        before.len() == SUBMIT_FIXED_LEN,
        tail_well_formed(tail, use_sgl),
    ensures
        tail_bytes(tail).len() == record::tail_len(use_sgl, tail.entries()),
        record::tail_in(before + tail_bytes(tail), use_sgl, tail.entries()) == tail,
{
    let s = before + tail_bytes(tail);
    match tail {
        SubmitTailView::Prp(entries) => {
            lemma_prp_bytes(entries);
            let t = prp_bytes(entries);
            assert forall|i: int| 0 <= i < entries.len() implies bytes::le64(s, 100 + 8 * i)
                == entries[i] by {
                assert(s.subrange(100 + 8 * i, 100 + 8 * i + 8) =~= t.subrange(8 * i, 8 * i + 8));
                bytes::lemma_le64_at(s, 100 + 8 * i, entries[i]);
            }
            assert(record::tail_in(s, use_sgl, entries.len())->Prp_0 =~= entries);
        },
        SubmitTailView::Sgl(entries) => {
            lemma_sgl_bytes(entries);
            let t = sgl_bytes(entries);
            assert forall|i: int| 0 <= i < entries.len() implies record::sgl_desc_in(
                s,
                100 + 16 * i,
            ) == entries[i] by {
                assert(s.subrange(100 + 16 * i, 100 + 16 * i + 16) =~= t.subrange(
                    16 * i,
                    16 * i + 16,
                ));
                lemma_sgl_desc_at(s, 100 + 16 * i, entries[i]);
            }
            assert(record::tail_in(s, use_sgl, entries.len())->Sgl_0 =~= entries);
        },
    }
}

/// The bytes of a well-formed record are as many as its header says.
pub proof fn record_bytes_have_the_header_length(record: TraceRecordView)
    requires
        well_formed(record),
    ensures
        record_bytes(record).len() == header_of_view(record).len,
{
    match record {
        TraceRecordView::Submit(submit) => {
            lemma_header_bytes(submit.header, seq![]);
            let before = header_bytes(submit.header) + submit_fixed_bytes(submit);
            lemma_tail_bytes(submit.tail, submit.use_sgl, before);
        },
        TraceRecordView::Complete(complete) => {
            lemma_header_bytes(complete.header, seq![]);
        },
    }
}

proof fn lemma_complete_payload_bytes(complete: CompleteRecord, before: Seq<u8>)
    requires
        before.len() == 24,
    ensures
        complete_payload_bytes(complete).len() == 16,
        ({
            let s = before + complete_payload_bytes(complete);
            &&& bytes::le64(s, 24) == complete.result
            &&& bytes::le16(s, 32) == complete.sq_head
            &&& bytes::le16(s, 34) == complete.sq_id
            &&& bytes::le16(s, 36) == complete.status
            &&& s[38] == complete.retries
        }),
{
    let s = before + complete_payload_bytes(complete);
    assert(s.subrange(24, 32) =~= bytes::le64_bytes(complete.result));
    assert(s.subrange(32, 34) =~= bytes::le16_bytes(complete.sq_head));
    assert(s.subrange(34, 36) =~= bytes::le16_bytes(complete.sq_id));
    assert(s.subrange(36, 38) =~= bytes::le16_bytes(complete.status));
    bytes::lemma_le64_at(s, 24, complete.result);
    bytes::lemma_le16_at(s, 32, complete.sq_head);
    bytes::lemma_le16_at(s, 34, complete.sq_id);
    bytes::lemma_le16_at(s, 36, complete.status);
}

proof fn lemma_submit_bytes(submit: SubmitRecordView)
    requires
        submit.sqe.len() == 64,
        submit.nr_entries == submit.tail.entries(),
        tail_well_formed(submit.tail, submit.use_sgl),
    ensures
        record::submit_in(record_bytes(TraceRecordView::Submit(submit))) == submit,
{
    let header = header_bytes(submit.header);
    let fixed = submit_fixed_bytes(submit);
    let tail = tail_bytes(submit.tail);
    lemma_header_bytes(submit.header, fixed + tail);
    assert(header + (fixed + tail) =~= header + fixed + tail);
    lemma_submit_fixed_bytes(submit, header, tail);
    lemma_tail_bytes(submit.tail, submit.use_sgl, header + fixed);
}

proof fn lemma_complete_bytes(complete: CompleteRecord)
    ensures
        record::complete_in(record_bytes(TraceRecordView::Complete(complete))) == complete,
{
    let header = header_bytes(complete.header);
    let payload = complete_payload_bytes(complete);
    lemma_header_bytes(complete.header, payload);
    lemma_complete_payload_bytes(complete, header);
}

/// The bytes of a well-formed record parse, and give the record back.
pub proof fn encoded_record_parses(record: TraceRecordView, offset: u64)
    requires
        well_formed(record),
    ensures
        record::checked_record(record_bytes(record), offset) == Ok::<
            RawRecordView,
            crate::error::TraceError,
        >(
            RawRecordView {
                header: header_of_view(record),
                record,
                bytes: record_bytes(record),
                offset,
            },
        ),
{
    record_bytes_have_the_header_length(record);
    match record {
        TraceRecordView::Submit(submit) => {
            lemma_submit_bytes(submit);
        },
        TraceRecordView::Complete(complete) => {
            lemma_complete_bytes(complete);
        },
    }
}

/// Whatever parses is well-formed: its header carries the magic number, the
/// version and the kind, and its tail has as many entries as announced, of the
/// announced kind.
pub proof fn parsed_record_is_well_formed(bytes: Seq<u8>, offset: u64)
    ensures
        record::checked_record(bytes, offset) matches Ok(raw) ==> {
            &&& well_formed(raw.record)
            &&& raw.header == header_of_view(raw.record)
            &&& raw.header.len == bytes.len()
            &&& raw.bytes == bytes
            &&& raw.offset == offset
        },
{
}

proof fn lemma_header_of_read(s: Seq<u8>)
    requires
        s.len() >= 24,
    ensures
        header_bytes(record::header_in(s)) == s.take(24),
{
    let header = record::header_in(s);
    bytes::lemma_le32_at(s, 0, header.magic);
    bytes::lemma_le16_at(s, 6, header.len);
    bytes::lemma_le64_at(s, 8, header.timestamp_ns);
    bytes::lemma_le32_at(s, 16, header.seq);
    bytes::lemma_le16_at(s, 22, header.cid);
    assert(header_bytes(header) =~= s.take(24));
}

proof fn lemma_prp_of_read(s: Seq<u8>, count: nat)
    requires
        s.len() >= 100 + 8 * count,
    ensures
        prp_bytes(record::tail_in(s, false, count)->Prp_0) == s.subrange(100, 100int + 8 * count),
    decreases count,
{
    let entries = record::tail_in(s, false, count)->Prp_0;
    if count > 0 {
        let less = (count - 1) as nat;
        lemma_prp_of_read(s, less);
        assert(entries.drop_last() =~= record::tail_in(s, false, less)->Prp_0);
        bytes::lemma_le64_at(s, 100int + 8 * less, entries.last());
        assert(s.subrange(100, 100int + 8 * less) + s.subrange(
            100int + 8 * less,
            100int + 8 * less + 8,
        ) =~= s.subrange(100, 100int + 8 * count));
    } else {
        assert(prp_bytes(entries) =~= s.subrange(100, 100int + 8 * count));
    }
}

proof fn lemma_sgl_of_read(s: Seq<u8>, count: nat)
    requires
        s.len() >= 100 + 16 * count,
    ensures
        sgl_bytes(record::tail_in(s, true, count)->Sgl_0) == s.subrange(100, 100int + 16 * count),
    decreases count,
{
    let entries = record::tail_in(s, true, count)->Sgl_0;
    if count > 0 {
        let less = (count - 1) as nat;
        lemma_sgl_of_read(s, less);
        assert(entries.drop_last() =~= record::tail_in(s, true, less)->Sgl_0);
        lemma_sgl_desc_at(s, 100int + 16 * less, entries.last());
        assert(s.subrange(100, 100int + 16 * less) + s.subrange(
            100int + 16 * less,
            100int + 16 * less + 16,
        ) =~= s.subrange(100, 100int + 16 * count));
    } else {
        assert(sgl_bytes(entries) =~= s.subrange(100, 100int + 16 * count));
    }
}

/// The tail that was read has the bytes that it was read from.
pub proof fn lemma_tail_of_read(s: Seq<u8>, use_sgl: bool, count: nat)
    requires
        s.len() == SUBMIT_FIXED_LEN + record::tail_len(use_sgl, count),
    ensures
        tail_bytes(record::tail_in(s, use_sgl, count)) == s.skip(SUBMIT_FIXED_LEN as int),
{
    if use_sgl {
        lemma_sgl_of_read(s, count);
        assert(s.subrange(100, 100int + 16 * count) =~= s.skip(100));
    } else {
        lemma_prp_of_read(s, count);
        assert(s.subrange(100, 100int + 8 * count) =~= s.skip(100));
    }
}

/// Bytes in the form in which records are written: flags are zero or one, and
/// the byte that pads a completion is zero.
pub open spec fn canonical(s: Seq<u8>) -> bool {
    if record::header_in(s).record_type == NVME_TRACE_SUBMIT {
        s[96] <= 1 && s[97] <= 1
    } else {
        s[39] == 0
    }
}

/// A record that was parsed has the bytes that it was parsed from, provided
/// that they are in the form in which records are written.
pub proof fn parsed_record_encodes_back(s: Seq<u8>, offset: u64)
    requires
        canonical(s),
    ensures
        record::checked_record(s, offset) matches Ok(raw) ==> record_bytes(raw.record) == s,
{
    if let Ok(raw) = record::checked_record(s, offset) {
        lemma_header_of_read(s);
        match raw.record {
            TraceRecordView::Submit(submit) => {
                bytes::lemma_le32_at(s, 88, submit.data_len);
                bytes::lemma_le32_at(s, 92, submit.meta_len);
                bytes::lemma_le16_at(s, 98, submit.nr_entries);
                lemma_tail_of_read(s, submit.use_sgl, submit.nr_entries as nat);
                assert(submit_fixed_bytes(submit) =~= s.subrange(24, 100));
                assert(s.take(24) + s.subrange(24, 100) + s.skip(100) =~= s);
            },
            TraceRecordView::Complete(complete) => {
                bytes::lemma_le64_at(s, 24, complete.result);
                bytes::lemma_le16_at(s, 32, complete.sq_head);
                bytes::lemma_le16_at(s, 34, complete.sq_id);
                bytes::lemma_le16_at(s, 36, complete.status);
                assert(complete_payload_bytes(complete) =~= s.skip(24));
                assert(s.take(24) + s.skip(24) =~= s);
            },
        }
    }
}

} // verus!
