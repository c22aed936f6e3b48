//! Where the fields of records stand, byte by byte.

use crate::bytes;
use crate::error::TraceError;
use crate::record::{self, SubmitTailView, TraceRecordView};
use crate::stream;
use vstd::prelude::*;

verus! {

/// A number of two bytes, the lower one first.
pub proof fn le16_is_two_bytes(s: Seq<u8>, at: int)
    requires
        0 <= at,
        at + 2 <= s.len(),
    ensures
        bytes::le16(s, at) == s[at] + 0x100 * s[at + 1],
{
    let t = s.subrange(at, at + 2);
    reveal_with_fuel(bytes::le_value, 3);
    assert(t.drop_first().drop_first() =~= seq![]);
    assert(t[0] == s[at] && t.drop_first()[0] == s[at + 1]);
    assert(bytes::le_value(t) == s[at] + 0x100 * s[at + 1]);
}

/// A number of four bytes, the lowest one first.
pub proof fn le32_is_four_bytes(s: Seq<u8>, at: int)
    requires
        0 <= at,
        at + 4 <= s.len(),
    ensures
        bytes::le32(s, at) == s[at] + 0x100 * s[at + 1] + 0x1_0000 * s[at + 2] + 0x100_0000 * s[at
            + 3],
{
    let t = s.subrange(at, at + 4);
    reveal_with_fuel(bytes::le_value, 5);
    assert(t.drop_first().drop_first().drop_first().drop_first() =~= seq![]);
    assert(t[0] == s[at] && t.drop_first()[0] == s[at + 1]);
    assert(t.drop_first().drop_first()[0] == s[at + 2]);
    assert(t.drop_first().drop_first().drop_first()[0] == s[at + 3]);
    assert(bytes::le_value(t) == s[at] + 0x100 * s[at + 1] + 0x1_0000 * s[at + 2] + 0x100_0000
        * s[at + 3]);
}

/// A number of eight bytes: the lower four of them, then the upper four.
pub proof fn le64_is_two_halves(s: Seq<u8>, at: int)
    requires
        0 <= at,
        at + 8 <= s.len(),
    ensures
        bytes::le64(s, at) == bytes::le32(s, at) + 0x1_0000_0000 * bytes::le32(s, at + 4),
{
    le32_is_four_bytes(s, at);
    le32_is_four_bytes(s, at + 4);
    let t = s.subrange(at, at + 8);
    let u = s.subrange(at + 4, at + 8);
    let rest = t.drop_first().drop_first().drop_first().drop_first();
    reveal_with_fuel(bytes::le_value, 5);
    assert(rest =~= u);
    assert(t[0] == s[at] && t.drop_first()[0] == s[at + 1]);
    assert(t.drop_first().drop_first()[0] == s[at + 2]);
    assert(t.drop_first().drop_first().drop_first()[0] == s[at + 3]);
    assert(u.drop_first().drop_first().drop_first().drop_first() =~= seq![]);
    assert(u[0] == s[at + 4] && u.drop_first()[0] == s[at + 5]);
    assert(u.drop_first().drop_first()[0] == s[at + 6]);
    assert(u.drop_first().drop_first().drop_first()[0] == s[at + 7]);
    assert(bytes::le_value(u) == s[at + 4] + 0x100 * s[at + 5] + 0x1_0000 * s[at + 6] + 0x100_0000
        * s[at + 7]);
    assert(bytes::le_value(t) == s[at] + 0x100 * s[at + 1] + 0x1_0000 * s[at + 2] + 0x100_0000
        * s[at + 3] + 0x1_0000_0000 * bytes::le_value(u));
}

/// Bytes that parse as a record begin with the magic number, the letters `EMVN`
/// read forwards, and the version; then come the kind, the length of the whole
/// record, the time, the sequence number, the controller, the queue and the
/// command.
pub proof fn header_stands_in_front(s: Seq<u8>, offset: u64)
    ensures
        record::checked_record(s, offset) matches Ok(raw) ==> {
            let header = raw.header;
            &&& s.len() >= 24
            &&& s[0] == 0x45 && s[1] == 0x4d && s[2] == 0x56 && s[3] == 0x4e
            &&& s[4] == 1
            &&& header.record_type == s[5]
            &&& s[5] == 0 <==> raw.record is Submit
            &&& s[5] == 1 <==> raw.record is Complete
            &&& s.len() == s[6] + 0x100 * s[7]
            &&& header.len == s.len()
            &&& header.timestamp_ns == bytes::le64(s, 8)
            &&& header.seq == bytes::le32(s, 16)
            &&& header.ctrl_id == s[20]
            &&& header.qid == s[21]
            &&& header.cid == s[22] + 0x100 * s[23]
            &&& raw.bytes == s
            &&& raw.offset == offset
            &&& match raw.record {
                TraceRecordView::Submit(submit) => submit.header == header,
                TraceRecordView::Complete(complete) => complete.header == header,
            }
        },
{
    if s.len() >= 24 {
        le32_is_four_bytes(s, 0);
        le16_is_two_bytes(s, 6);
        le16_is_two_bytes(s, 22);
    }
}

/// A completion is forty bytes. Behind the header stand the result, the head and
/// the number of the submission queue, the status and the retries.
pub proof fn completion_fields_stand_in_place(s: Seq<u8>, offset: u64)
    ensures
        record::checked_record(s, offset) matches Ok(raw) ==> (raw.record
            matches TraceRecordView::Complete(complete) ==> {
            &&& s.len() == 40
            &&& complete.result == bytes::le64(s, 24)
            &&& complete.sq_head == s[32] + 0x100 * s[33]
            &&& complete.sq_id == s[34] + 0x100 * s[35]
            &&& complete.status == s[36] + 0x100 * s[37]
            &&& complete.retries == s[38]
        }),
{
    if s.len() == 40 {
        le16_is_two_bytes(s, 32);
        le16_is_two_bytes(s, 34);
        le16_is_two_bytes(s, 36);
    }
}

/// A submission is a hundred bytes and its descriptors. Behind the header stand
/// the queue entry, the lengths of data and metadata, the two flags and the
/// number of descriptors; then the descriptors, eight bytes each, or sixteen
/// where the first flag is set.
pub proof fn submission_fields_stand_in_place(s: Seq<u8>, offset: u64)
    ensures
        record::checked_record(s, offset) matches Ok(raw) ==> (raw.record
            matches TraceRecordView::Submit(submit) ==> {
            let count = s[98] + 0x100 * s[99];
            &&& s.len() >= 100
            &&& submit.sqe.len() == 64
            &&& forall|i: int| 0 <= i < 64 ==> #[trigger] submit.sqe[i] == s[24 + i]
            &&& submit.data_len == bytes::le32(s, 88)
            &&& submit.meta_len == bytes::le32(s, 92)
            &&& submit.use_sgl == (s[96] != 0)
            &&& submit.single_segment == (s[97] != 0)
            &&& submit.nr_entries == count
            &&& match submit.tail {
                SubmitTailView::Prp(entries) => {
                    &&& s[96] == 0
                    &&& s.len() == 100 + 8 * count
                    &&& entries.len() == count
                    &&& forall|i: int|
                        0 <= i < count ==> #[trigger] entries[i] == bytes::le64(s, 100 + 8 * i)
                },
                SubmitTailView::Sgl(entries) => {
                    &&& s[96] != 0
                    &&& s.len() == 100 + 16 * count
                    &&& entries.len() == count
                    &&& forall|i: int|
                        0 <= i < count ==> {
                            let at = 100 + 16 * i;
                            &&& (#[trigger] entries[i]).addr == bytes::le64(s, at)
                            &&& entries[i].length == bytes::le32(s, at + 8)
                            &&& entries[i].reserved == seq![s[at + 12], s[at + 13], s[at + 14]]
                            &&& entries[i].desc_type == s[at + 15]
                        }
                },
            }
        }),
{
    if s.len() >= 100 {
        le16_is_two_bytes(s, 98);
        let count = bytes::le16(s, 98) as nat;
        assert forall|i: int|
            s.len() == 100 + 16 * count && 0 <= i < count implies #[trigger] record::sgl_desc_in(
            s,
            100 + 16 * i,
        ).reserved == seq![s[100 + 16 * i + 12], s[100 + 16 * i + 13], s[100 + 16 * i + 14]] by {
            let at = 100 + 16 * i;
            assert(s.subrange(at + 12, at + 15) =~= seq![s[at + 12], s[at + 13], s[at + 14]]);
        }
    }
}

/// Bytes are a record exactly where they say so of themselves: magic number and
/// version, a length that is their own, and a kind whose fields fill that length.
pub proof fn records_are_recognised(s: Seq<u8>, offset: u64)
    ensures
        record::checked_record(s, offset) is Ok <==> {
            &&& s.len() >= 24
            &&& s[0] == 0x45 && s[1] == 0x4d && s[2] == 0x56 && s[3] == 0x4e
            &&& s[4] == 1
            &&& s.len() == s[6] + 0x100 * s[7]
            &&& {
                ||| s[5] == 0 && s.len() >= 100 && s.len() == 100 + (s[98] + 0x100 * s[99]) * (
                if s[96] != 0 {
                    16int
                } else {
                    8int
                })
                ||| s[5] == 1 && s.len() == 40
            }
        },
{
    if s.len() >= 24 {
        le32_is_four_bytes(s, 0);
        le16_is_two_bytes(s, 6);
        if s.len() >= 100 {
            le16_is_two_bytes(s, 98);
        }
    }
}

/// Bytes begin with the magic number and the version.
pub open spec fn begins_well(s: Seq<u8>) -> bool {
    s[0] == 0x45 && s[1] == 0x4d && s[2] == 0x56 && s[3] == 0x4e && s[4] == 1
}

/// What is wrong with a header comes before all else: too few bytes, another
/// magic number, another version. The error tells where the bytes stand and what
/// stands there.
pub proof fn damaged_headers_are_told_apart(s: Seq<u8>, offset: u64)
    requires
        s.len() <= usize::MAX,
    ensures
        s.len() < 24 <==> record::checked_record(s, offset) matches Err(
            TraceError::TruncatedHeader { .. },
        ),
        s.len() < 24 ==> record::checked_record(s, offset) == Err::<record::RawRecordView, _>(
            TraceError::TruncatedHeader { offset, got: s.len() as usize },
        ),
        s.len() >= 24 && !(s[0] == 0x45 && s[1] == 0x4d && s[2] == 0x56 && s[3] == 0x4e) ==> {
            &&& record::checked_record(s, offset) matches Err(TraceError::InvalidMagic {
                offset: at,
                magic,
            })
            &&& at == offset
            &&& magic == s[0] + 0x100 * s[1] + 0x1_0000 * s[2] + 0x100_0000 * s[3]
        },
        s.len() >= 24 && s[0] == 0x45 && s[1] == 0x4d && s[2] == 0x56 && s[3] == 0x4e && s[4] != 1
            ==> record::checked_record(s, offset) == Err::<record::RawRecordView, _>(
            TraceError::UnsupportedVersion { offset, version: s[4] },
        ),
{
    if s.len() >= 24 {
        le32_is_four_bytes(s, 0);
    }
}

/// Behind a good header, a length that is not that of the bytes is wrong first,
/// then a kind that is not known, then a length that the kind cannot have.
pub proof fn damaged_records_are_told_apart(s: Seq<u8>, offset: u64)
    requires
        24 <= s.len() <= usize::MAX,
        begins_well(s),
    ensures
        ({
            let told = s[6] + 0x100 * s[7];
            let parsed = record::checked_record(s, offset);
            &&& told != s.len() ==> {
                &&& parsed matches Err(TraceError::InvalidLength {
                    offset: at,
                    record_type,
                    len,
                    reason,
                })
                &&& at == offset
                &&& record_type == s[5]
                &&& len == told
                &&& reason == "header length does not match byte slice length"
            }
            &&& told == s.len() && s[5] > 1 ==> parsed == Err::<record::RawRecordView, _>(
                TraceError::UnknownType { offset, record_type: s[5] },
            )
            &&& told == s.len() && s[5] <= 1 && parsed is Err ==> {
                &&& parsed matches Err(TraceError::InvalidLength {
                    offset: at,
                    record_type,
                    len,
                    reason,
                })
                &&& at == offset
                &&& record_type == s[5]
                &&& len == s.len()
                &&& s[5] == 1 ==> reason
                    == "completion record must be exactly the fixed struct size"
                &&& s[5] == 0 && s.len() < 100 ==> reason
                    == "submit record is smaller than the fixed struct"
                &&& s[5] == 0 && s.len() >= 100 ==> reason
                    == "submit tail length does not match nr_entries"
            }
        }),
{
    le32_is_four_bytes(s, 0);
    le16_is_two_bytes(s, 6);
}

/// The first record of a stream is made of as many bytes as its header tells.
/// Nothing is the end of the stream; fewer bytes than a header or than the header
/// tells are cut short; a header must tell at least its own length.
pub proof fn header_tells_where_a_record_ends(input: Seq<u8>, offset: u64)
    requires
        input.len() <= usize::MAX,
    ensures
        input.len() == 0 <==> stream::first_record(input, offset) == Ok::<_, TraceError>(
            None::<record::RawRecordView>,
        ),
        0 < input.len() < 24 ==> stream::first_record(input, offset) == Err::<
            Option<record::RawRecordView>,
            _,
        >(TraceError::TruncatedHeader { offset, got: input.len() as usize }),
        input.len() >= 24 && begins_well(input) ==> {
            let told = input[6] + 0x100 * input[7];
            let first = stream::first_record(input, offset);
            &&& told < 24 ==> {
                &&& first matches Err(TraceError::InvalidLength {
                    offset: at,
                    record_type,
                    len,
                    reason,
                })
                &&& at == offset && record_type == input[5] && len == told
            }
            &&& 24 <= told && input.len() < told ==> {
                &&& first matches Err(TraceError::TruncatedPayload { offset: at, expected, got })
                &&& at == offset && expected == told - 24 && got == input.len() - 24
            }
            &&& 24 <= told <= input.len() ==> match record::checked_record(
                input.take(told),
                offset,
            ) {
                Ok(raw) => first == Ok::<_, TraceError>(Some(raw)) && stream::taken(input) == told
                    && stream::advance(input, offset) == told,
                Err(err) => first == Err::<Option<record::RawRecordView>, _>(err),
            }
        },
        match stream::first_record(input, offset) {
            Ok(Some(raw)) => stream::advance(input, offset) == raw.bytes.len(),
            Ok(None) => stream::advance(input, offset) == 0,
            Err(err) => stream::advance(input, offset) == if err is TruncatedHeader
                || err is TruncatedPayload {
                input.len()
            } else {
                0
            },
        },
        stream::taken(input) == if stream::meets_end(input) {
            input.len() as int
        } else if begins_well(input) && 24 <= input[6] + 0x100 * input[7] {
            input[6] + 0x100 * input[7]
        } else {
            24
        },
        stream::meets_end(input) <==> input.len() < 24 || begins_well(input) && 24 <= input[6]
            + 0x100 * input[7] && input.len() < input[6] + 0x100 * input[7],
{
    if input.len() >= 24 {
        le32_is_four_bytes(input, 0);
        le16_is_two_bytes(input, 6);
    }
}

} // verus!
