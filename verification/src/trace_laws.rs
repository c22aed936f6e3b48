//! What a stream reads back as up to what is wrong with it.

use crate::error::TraceError;
use crate::record;
use crate::record_laws;
use crate::stream;
use crate::trace;
use vstd::prelude::*;

verus! {

/// Records in front of anything else are read as they are, and what follows is
/// read as if it stood alone, at its own place: its records come behind them, and
/// what is wrong with it is what is wrong with the whole.
pub proof fn records_are_read_up_to_what_follows(
    parts: Seq<Seq<u8>>,
    rest: Seq<u8>,
    offset: u64,
)
    requires
        forall|i: int|
            0 <= i < parts.len() ==> record::checked_record(#[trigger] parts[i], 0) is Ok,
        offset + trace::joined(parts).len() <= u64::MAX,
    ensures
        ({
            let input = trace::joined(parts) + rest;
            let behind = (offset + trace::joined(parts).len()) as u64;
            &&& trace::bytes_of(trace::records_in(input, offset)) == parts + trace::bytes_of(
                trace::records_in(rest, behind),
            )
            &&& trace::ending(input, offset) == trace::ending(rest, behind)
        }),
    decreases parts.len(),
{
    let input = trace::joined(parts) + rest;
    let behind = (offset + trace::joined(parts).len()) as u64;
    if parts.len() == 0 {
        assert(input =~= rest);
        assert(parts + trace::bytes_of(trace::records_in(rest, behind)) =~= trace::bytes_of(
            trace::records_in(rest, behind),
        ));
    } else {
        let first = parts[0];
        let others = parts.drop_first();
        let n = first.len() as int;
        assert forall|i: int| 0 <= i < others.len() implies record::checked_record(
            #[trigger] others[i],
            0,
        ) is Ok by {
            assert(others[i] == parts[i + 1]);
        }
        assert(record::checked_record(parts[0], 0) is Ok);
        let more = trace::joined(others) + rest;
        assert(input =~= first + more);
        lemma_record_in_front(first, more, offset);
        let next = (offset + n) as u64;
        records_are_read_up_to_what_follows(others, rest, next);
        let tail = trace::records_in(more, next);
        let last = trace::bytes_of(trace::records_in(rest, behind));
        assert(trace::bytes_of(tail) == others + last);
        lemma_one_more(parts, last);
    }
}

proof fn lemma_one_more(parts: Seq<Seq<u8>>, last: Seq<Seq<u8>>)
    requires
        parts.len() > 0,
    ensures
        seq![parts[0]] + (parts.drop_first() + last) == parts + last,
{
    assert(seq![parts[0]] + (parts.drop_first() + last) =~= parts + last);
}

/// A record in front of more is the first record of the whole.
proof fn lemma_record_in_front(first: Seq<u8>, more: Seq<u8>, offset: u64)
    requires
        record::checked_record(first, 0) is Ok,
        offset + first.len() <= u64::MAX,
    ensures
        ({
            let input = first + more;
            let next = (offset + first.len()) as u64;
            &&& trace::bytes_of(trace::records_in(input, offset)) == seq![first] + trace::bytes_of(
                trace::records_in(more, next),
            )
            &&& trace::ending(input, offset) == trace::ending(more, next)
        }),
{
    let input = first + more;
    let n = first.len() as int;
    assert(input.take(24) =~= first.take(24));
    record::lemma_header_in_front(input, first);
    assert(input.take(n) =~= first);
    assert(input.skip(n) =~= more);
    assert(record::checked_record(first, offset) is Ok);
    let raw = record::checked_record(first, offset)->Ok_0;
    assert(stream::first_record(input, offset) == Ok::<_, TraceError>(Some(raw)));
    let tail = trace::records_in(more, (offset + n) as u64);
    assert(trace::records_in(input, offset) =~= seq![raw] + tail);
    assert(trace::bytes_of(trace::records_in(input, offset)) =~= seq![first] + trace::bytes_of(
        tail,
    ));
}

/// Bytes that start with something that is no record hold no records, and that is
/// what is wrong with them; nothing holds no records, and nothing is wrong with
/// it.
pub proof fn damage_ends_a_stream(input: Seq<u8>, offset: u64)
    ensures
        stream::first_record(input, offset) matches Err(err) ==> trace::records_in(
            input,
            offset,
        ).len() == 0 && trace::ending(input, offset) == Some(err),
        input.len() == 0 ==> trace::records_in(input, offset).len() == 0 && trace::ending(
            input,
            offset,
        ) is None,
        0 < input.len() < 24 ==> (trace::ending(input, offset) matches Some(err)
            && err is TruncatedHeader),
        input.len() >= 24 && !(input[0] == 0x45 && input[1] == 0x4d && input[2] == 0x56 && input[3]
            == 0x4e) ==> (trace::ending(input, offset) matches Some(err) && err is InvalidMagic),
{
    if input.len() >= 24 {
        record_laws::le32_is_four_bytes(input, 0);
    }
}

} // verus!
