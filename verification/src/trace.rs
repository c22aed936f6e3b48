//! Whole streams of records.

use crate::error::{Result, TraceError};
use crate::record::{self, RawRecord, RawRecordView, TraceRecord, TraceRecordView};
use crate::stream::{self, ByteSource, RecordReader};
use vstd::prelude::*;

verus! {

/// The records that `input` starts with, up to its end or to the first thing
/// wrong with it.
pub open spec fn records_in(input: Seq<u8>, offset: u64) -> Seq<RawRecordView>
    decreases input.len(),
{
    match stream::first_record(input, offset) {
        Ok(Some(raw)) => if 0 < raw.bytes.len() <= input.len() {
            seq![raw] + records_in(
                input.skip(raw.bytes.len() as int),
                (offset + raw.bytes.len()) as u64,
            )
        } else {
            seq![]
        },
        _ => seq![],
    }
}

/// What is wrong behind the records that `input` starts with, if anything is.
pub open spec fn ending(input: Seq<u8>, offset: u64) -> Option<TraceError>
    decreases input.len(),
{
    match stream::first_record(input, offset) {
        Ok(Some(raw)) => if 0 < raw.bytes.len() <= input.len() {
            ending(input.skip(raw.bytes.len() as int), (offset + raw.bytes.len()) as u64)
        } else {
            None
        },
        Ok(None) => None,
        Err(err) => Some(err),
    }
}

/// What records hold.
pub open spec fn contents(records: Seq<TraceRecord>) -> Seq<TraceRecordView> {
    records.map_values(|record: TraceRecord| record@)
}

/// What records with their bytes hold beside their bytes and places.
pub open spec fn raw_contents(records: Seq<RawRecordView>) -> Seq<TraceRecordView> {
    records.map_values(|raw: RawRecordView| raw.record)
}

/// The bytes of records, one after the other.
pub open spec fn joined(parts: Seq<Seq<u8>>) -> Seq<u8>
    decreases parts.len(),
{
    if parts.len() == 0 {
        seq![]
    } else {
        parts[0] + joined(parts.drop_first())
    }
}

/// The bytes of each record.
pub open spec fn bytes_of(records: Seq<RawRecordView>) -> Seq<Seq<u8>> {
    records.map_values(|raw: RawRecordView| raw.bytes)
}

/// The first record of a stream is its first bytes, as many as its header
/// says, and at least a header.
pub proof fn lemma_first_record(input: Seq<u8>, offset: u64)
    ensures
        stream::first_record(input, offset) matches Ok(Some(raw)) ==> {
            &&& 24 <= raw.bytes.len() <= input.len()
            &&& raw.bytes.len() == raw.header.len
            &&& raw.bytes == input.take(raw.bytes.len() as int)
            &&& raw.header == record::header_in(input)
            &&& raw.offset == offset
            &&& stream::taken(input) == raw.bytes.len()
            &&& !stream::meets_end(input)
        },
        stream::first_record(input, offset) matches Err(err) ==> !(err is Io),
{
    if stream::first_record(input, offset) is Ok && stream::first_record(
        input,
        offset,
    )->Ok_0 is Some {
        let len = record::header_in(input).len as int;
        assert(input.take(len).take(24) =~= input.take(24));
        record::lemma_header_in_front(input.take(len), input);
    }
}

/// Reads the records of a source up to its end.
pub fn read_records<R: ByteSource>(reader: &mut RecordReader<R>) -> (result: Result<
    Vec<TraceRecord>,
>)
    requires
        old(reader).wf(),
    ensures
        final(reader).wf(),
        final(reader).source().failure() == old(reader).source().failure(),
        ({
            let input = old(reader).source().remaining();
            match result {
                Ok(records) => {
                    &&& ending(input, old(reader).position()) is None
                    &&& contents(records@) == raw_contents(
                        records_in(input, old(reader).position()),
                    )
                },
                Err(TraceError::Io(err)) => old(reader).source().failure() == Some(err),
                Err(err) => ending(input, old(reader).position()) == Some(err),
            }
        }),
{
    let mut records: Vec<TraceRecord> = Vec::new();
    let ghost all = records_in(reader.source().remaining(), reader.position());
    let ghost end = ending(reader.source().remaining(), reader.position());
    proof {
        assert(contents(records@) + raw_contents(all) =~= raw_contents(all));
    }
    loop
        invariant
            reader.wf(),
            reader.source().failure() == old(reader).source().failure(),
            all == records_in(old(reader).source().remaining(), old(reader).position()),
            end == ending(old(reader).source().remaining(), old(reader).position()),
            end == ending(reader.source().remaining(), reader.position()),
            raw_contents(all) == contents(records@) + raw_contents(
                records_in(reader.source().remaining(), reader.position()),
            ),
        decreases reader.source().left(),
    {
        let ghost input = reader.source().remaining();
        let ghost at = reader.position();
        proof {
            lemma_first_record(input, at);
        }
        match reader.next_record() {
            Ok(Some(raw)) => {
                let ghost before = contents(records@);
                let ghost rest = records_in(reader.source().remaining(), reader.position());
                proof {
                    assert(records_in(input, at) == seq![raw@] + rest);
                    assert(raw_contents(records_in(input, at)) =~= seq![raw@.record]
                        + raw_contents(rest));
                }
                records.push(raw.record);
                proof {
                    assert(contents(records@) =~= before + seq![raw@.record]);
                    assert(raw_contents(all) =~= contents(records@) + raw_contents(rest));
                }
            },
            Ok(None) => {
                assert(raw_contents(records_in(input, at)) =~= seq![]);
                assert(contents(records@) =~= raw_contents(all));
                return Ok(records);
            },
            Err(err) => {
                return Err(err);
            },
        }
    }
}

/// Reading loses nothing: where a stream holds records up to its end, their
/// bytes are the whole of it.
pub proof fn records_cover_the_stream(input: Seq<u8>, offset: u64)
    requires
        ending(input, offset) is None,
    ensures
        joined(bytes_of(records_in(input, offset))) == input,
    decreases input.len(),
{
    lemma_first_record(input, offset);
    match stream::first_record(input, offset) {
        Ok(Some(raw)) => {
            let n = raw.bytes.len() as int;
            let rest = input.skip(n);
            let tail = records_in(rest, (offset + n) as u64);
            records_cover_the_stream(rest, (offset + n) as u64);
            assert(bytes_of(records_in(input, offset)).drop_first() =~= bytes_of(tail));
            assert(bytes_of(records_in(input, offset))[0] == raw.bytes);
            assert(input =~= input.take(n) + rest);
        },
        _ => {
            assert(input =~= seq![]);
        },
    }
}

/// Byte strings that parse as records, put one after the other, read back as
/// those records, in their order, and nothing is wrong with the stream. Each
/// record stands where those before it end.
pub proof fn joined_records_read_back(parts: Seq<Seq<u8>>, offset: u64)
    requires
        forall|i: int|
            0 <= i < parts.len() ==> record::checked_record(#[trigger] parts[i], 0) is Ok,
        offset + joined(parts).len() <= u64::MAX,
    ensures
        bytes_of(records_in(joined(parts), offset)) == parts,
        ending(joined(parts), offset) is None,
        forall|i: int|
            0 <= i < parts.len() ==> (#[trigger] records_in(joined(parts), offset)[i]).offset
                == offset + joined(parts.take(i)).len(),
    decreases parts.len(),
{
    let input = joined(parts);
    if parts.len() == 0 {
        assert(bytes_of(records_in(input, offset)) =~= parts);
    } else {
        let first = parts[0];
        let others = parts.drop_first();
        assert forall|i: int| 0 <= i < others.len() implies record::checked_record(
            #[trigger] others[i],
            0,
        ) is Ok by {
            assert(others[i] == parts[i + 1]);
        }
        let n = first.len() as int;
        assert(record::checked_record(parts[0], 0) is Ok);
        assert(input.take(24) =~= first.take(24));
        record::lemma_header_in_front(input, first);
        assert(input.take(n) =~= first);
        assert(input.skip(n) =~= joined(others));
        assert(record::checked_record(first, offset) is Ok);
        joined_records_read_back(others, (offset + n) as u64);
        let rest = records_in(joined(others), (offset + n) as u64);
        let raw = record::checked_record(first, offset)->Ok_0;
        assert(stream::first_record(input, offset) == Ok::<_, TraceError>(Some(raw)));
        assert(records_in(input, offset) =~= seq![raw] + rest);
        assert(bytes_of(records_in(input, offset)) =~= seq![first] + bytes_of(rest));
        assert(parts =~= seq![first] + others);
        assert forall|i: int| 0 <= i < parts.len() implies (#[trigger] records_in(
            input,
            offset,
        )[i]).offset == offset + joined(parts.take(i)).len() by {
            if i > 0 {
                assert(bytes_of(rest).len() == rest.len());
                assert(records_in(input, offset)[i] == rest[i - 1]);
                assert(parts.take(i).drop_first() =~= others.take(i - 1));
                assert(parts.take(i)[0] == first);
            } else {
                assert(parts.take(0) =~= seq![]);
            }
        }
    }
}

/// A reader goes through `readers` when it reads again and again, with these
/// results.
pub open spec fn reads_on<R: ByteSource>(
    readers: Seq<RecordReader<R>>,
    results: Seq<Result<Option<RawRecord>>>,
) -> bool {
    &&& readers.len() == results.len() + 1
    &&& forall|k: int|
        0 <= k < results.len() ==> stream::next_outcome(
            readers[k],
            #[trigger] results[k],
            readers[k + 1],
        )
}

/// A reader stands behind the first `k` of `parts`, or at the end of the source
/// where there are no more of them. Nothing comes after that end, and the source
/// does not fail.
pub open spec fn stands_behind<R: ByteSource>(
    reader: RecordReader<R>,
    parts: Seq<Seq<u8>>,
    k: int,
) -> bool {
    let n = if k < parts.len() {
        k
    } else {
        parts.len() as int
    };
    &&& reader.source().failure() is None
    &&& reader.source().remaining() == joined(parts.skip(n))
    &&& reader.source().left() == joined(parts.skip(n)).len()
    &&& reader.position() == joined(parts.take(n)).len()
}

/// What the `k`th reading of a stream that holds `parts` gives.
pub open spec fn gives_part(
    result: Result<Option<RawRecord>>,
    parts: Seq<Seq<u8>>,
    k: int,
) -> bool {
    if k < parts.len() {
        &&& result matches Ok(Some(raw))
        &&& raw@.bytes == parts[k]
        &&& raw@.offset == joined(parts.take(k)).len()
        &&& record::checked_record(parts[k], raw@.offset) == Ok::<_, TraceError>(raw@)
    } else {
        result matches Ok(None)
    }
}

proof fn lemma_joined_split(parts: Seq<Seq<u8>>, k: int)
    requires
        0 <= k <= parts.len(),
    ensures
        joined(parts) == joined(parts.take(k)) + joined(parts.skip(k)),
    decreases k,
{
    if k == 0 {
        assert(parts.take(0) =~= seq![]);
        assert(parts.skip(0) =~= parts);
        assert(joined(parts) =~= joined(parts.take(0)) + joined(parts));
    } else {
        lemma_joined_split(parts.drop_first(), k - 1);
        assert(parts.take(k).drop_first() =~= parts.drop_first().take(k - 1));
        assert(parts.skip(k) =~= parts.drop_first().skip(k - 1));
        assert(joined(parts) =~= joined(parts.take(k)) + joined(parts.skip(k)));
    }
}

proof fn lemma_reads_part<R: ByteSource>(
    before: RecordReader<R>,
    result: Result<Option<RawRecord>>,
    after: RecordReader<R>,
    parts: Seq<Seq<u8>>,
    k: int,
)
    requires
        0 <= k,
        forall|i: int|
            0 <= i < parts.len() ==> record::checked_record(#[trigger] parts[i], 0) is Ok,
        joined(parts).len() <= u64::MAX,
        stands_behind(before, parts, k),
        stream::next_outcome(before, result, after),
    ensures
        gives_part(result, parts, k),
        stands_behind(after, parts, k + 1),
{
    let input = before.source().remaining();
    let at = before.position();
    if k < parts.len() {
        let rest = parts.skip(k);
        lemma_joined_split(parts, k);
        lemma_joined_split(parts, k + 1);
        assert forall|i: int| 0 <= i < rest.len() implies record::checked_record(
            #[trigger] rest[i],
            0,
        ) is Ok by {
            assert(rest[i] == parts[k + i]);
        }
        joined_records_read_back(rest, at);
        let records = records_in(input, at);
        assert(bytes_of(records).len() == rest.len());
        assert(bytes_of(records)[0] == parts[k]);
        lemma_first_record(input, at);
        let raw = stream::first_record(input, at)->Ok_0.unwrap();
        assert(records[0] == raw);
        assert(rest.drop_first() =~= parts.skip(k + 1));
        assert(input =~= parts[k] + joined(parts.skip(k + 1)));
        assert(input.skip(raw.bytes.len() as int) =~= joined(parts.skip(k + 1)));
    } else {
        let none = parts.skip(parts.len() as int);
        assert(none =~= seq![]);
        assert(input =~= seq![]);
        assert(after.source().remaining() =~= seq![]);
        assert(joined(none) =~= seq![]);
    }
}

/// Reading a stream of records again and again gives each record once, in their
/// order, with its bytes and its place, then nothing, and nothing ever after. The
/// offset counts the bytes of the records that were read.
pub proof fn reading_drains_the_stream<R: ByteSource>(
    readers: Seq<RecordReader<R>>,
    results: Seq<Result<Option<RawRecord>>>,
    parts: Seq<Seq<u8>>,
    k: int,
)
    requires
        forall|i: int|
            0 <= i < parts.len() ==> record::checked_record(#[trigger] parts[i], 0) is Ok,
        joined(parts).len() <= u64::MAX,
        reads_on(readers, results),
        readers[0].position() == 0,
        readers[0].source().remaining() == joined(parts),
        readers[0].source().left() == joined(parts).len(),
        readers[0].source().failure() is None,
        0 <= k <= results.len(),
    ensures
        stands_behind(readers[k], parts, k),
        k < results.len() ==> gives_part(results[k], parts, k),
    decreases k,
{
    if k == 0 {
        assert(parts.skip(0) =~= parts);
        assert(parts.take(0) =~= seq![]);
    } else {
        reading_drains_the_stream(readers, results, parts, k - 1);
        assert(stream::next_outcome(readers[k - 1], results[k - 1], readers[k]));
        lemma_reads_part(readers[k - 1], results[k - 1], readers[k], parts, k - 1);
    }
    if k < results.len() {
        assert(stream::next_outcome(readers[k], results[k], readers[k + 1]));
        lemma_reads_part(readers[k], results[k], readers[k + 1], parts, k);
    }
}

} // verus!
