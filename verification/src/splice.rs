//! Splicing several streams of records into one.
//!
//! The streams stand side by side, each with its next record in front. The
//! record that comes first is written, and the stream that it came from moves
//! on to its next one.

use crate::error::{Result, TraceError};
use crate::order::{self, record_order, text_order};
use crate::record::{RawRecord, RawRecordView};
use crate::stream::{self, ByteSink, ByteSource, RecordReader, WarnSink};
use crate::text::{self, chars_of, push_decimal};
use crate::trace;
use std::cmp::Ordering;
use std::collections::HashMap;
use vstd::prelude::*;

verus! {

broadcast use vstd::std_specs::hash::group_hash_axioms;

/// A stream to be spliced: its name, its records, and what is wrong behind
/// them, if anything is.
#[verifier::ext_equal]
pub struct Stream {
    pub name: Seq<char>,
    pub records: Seq<RawRecordView>,
    pub ending: Option<TraceError>,
}

/// A record that was chosen, and the stream it came from.
#[verifier::ext_equal]
pub struct Pick {
    pub source: int,
    pub name: Seq<char>,
    pub record: RawRecordView,
}

/// Tells whether record `a` of the stream `a_name` is chosen before `b`. Where
/// the records tie, the names of the streams decide, and the offsets last.
pub open spec fn chosen_before(
    a_name: Seq<char>,
    a: RawRecordView,
    b_name: Seq<char>,
    b: RawRecordView,
) -> bool {
    ||| order::before(a.header, b.header)
    ||| !order::before(b.header, a.header) && (order::text_less(a_name, b_name) || a_name == b_name
        && a.offset < b.offset)
}

/// The record in front of each stream.
pub open spec fn fronts(streams: Seq<Stream>) -> Seq<Option<RawRecordView>> {
    streams.map_values(
        |s: Stream|
            if s.records.len() > 0 {
                Some(s.records[0])
            } else {
                None
            },
    )
}

/// The name of each stream.
pub open spec fn stream_names(streams: Seq<Stream>) -> Seq<Seq<char>> {
    streams.map_values(|s: Stream| s.name)
}

/// Which of the first `n` records in front is chosen.
pub open spec fn first_of(
    names: Seq<Seq<char>>,
    fronts: Seq<Option<RawRecordView>>,
    n: nat,
) -> Option<int>
    decreases n,
{
    if n == 0 {
        None
    } else {
        let i = n - 1;
        let best = first_of(names, fronts, (n - 1) as nat);
        match fronts[i] {
            None => best,
            Some(candidate) => match best {
                None => Some(i),
                Some(b) => if chosen_before(names[i], candidate, names[b], fronts[b].unwrap()) {
                    Some(i)
                } else {
                    best
                },
            },
        }
    }
}

/// Which stream gives the next record.
pub open spec fn choice(streams: Seq<Stream>) -> Option<int> {
    first_of(stream_names(streams), fronts(streams), streams.len())
}

/// The streams once stream `i` has moved on.
pub open spec fn moved_on(streams: Seq<Stream>, i: int) -> Seq<Stream> {
    streams.update(
        i,
        Stream {
            name: streams[i].name,
            records: streams[i].records.drop_first(),
            ending: streams[i].ending,
        },
    )
}

/// What is wrong with stream `i` where it has no record in front.
pub open spec fn stuck(streams: Seq<Stream>, i: int) -> Option<TraceError> {
    if streams[i].records.len() == 0 {
        streams[i].ending
    } else {
        None
    }
}

/// The number of records in all.
pub open spec fn total(streams: Seq<Stream>) -> nat
    decreases streams.len(),
{
    if streams.len() == 0 {
        0
    } else {
        total(streams.drop_last()) + streams.last().records.len()
    }
}

pub proof fn lemma_total_update(streams: Seq<Stream>, i: int, s: Stream)
    requires
        0 <= i < streams.len(),
    ensures
        total(streams.update(i, s)) + streams[i].records.len() == total(streams) + s.records.len(),
    decreases streams.len(),
{
    let n = streams.len() - 1;
    if i == n {
        assert(streams.update(i, s).drop_last() =~= streams.drop_last());
    } else {
        lemma_total_update(streams.drop_last(), i, s);
        assert(streams.update(i, s).drop_last() =~= streams.drop_last().update(i, s));
    }
}

/// The stream that is chosen has a record in front.
pub proof fn lemma_first_of(names: Seq<Seq<char>>, fronts: Seq<Option<RawRecordView>>, n: nat)
    requires
        n <= fronts.len(),
    ensures
        first_of(names, fronts, n) matches Some(i) ==> 0 <= i < n && fronts[i] is Some,
        first_of(names, fronts, n) is None ==> forall|i: int| 0 <= i < n ==> fronts[i] is None,
    decreases n,
{
    if n > 0 {
        lemma_first_of(names, fronts, (n - 1) as nat);
    }
}

/// The records in the order in which they are written. A stream that goes on
/// with something that is no record ends the splicing as soon as it is met.
pub open spec fn picks(streams: Seq<Stream>) -> Seq<Pick>
    decreases total(streams),
{
    match choice(streams) {
        None => seq![],
        Some(i) => {
            proof {
                lemma_first_of(stream_names(streams), fronts(streams), streams.len());
                lemma_total_update(streams, i, moved_on(streams, i)[i]);
            }
            let pick = Pick { source: i, name: streams[i].name, record: streams[i].records[0] };
            let rest = moved_on(streams, i);
            if stuck(rest, i) is Some {
                seq![pick]
            } else {
                seq![pick] + picks(rest)
            }
        },
    }
}

/// What ends the splicing before all records are written, if anything does.
pub open spec fn cut_short(streams: Seq<Stream>) -> Option<TraceError>
    decreases total(streams),
{
    match choice(streams) {
        None => None,
        Some(i) => {
            proof {
                lemma_first_of(stream_names(streams), fronts(streams), streams.len());
                lemma_total_update(streams, i, moved_on(streams, i)[i]);
            }
            let rest = moved_on(streams, i);
            if stuck(rest, i) is Some {
                stuck(rest, i)
            } else {
                cut_short(rest)
            }
        },
    }
}

/// What is wrong with the first of `streams` that starts with something that
/// is no record.
pub open spec fn bad_start(streams: Seq<Stream>) -> Option<TraceError>
    decreases streams.len(),
{
    if streams.len() == 0 {
        None
    } else if bad_start(streams.drop_last()) is Some {
        bad_start(streams.drop_last())
    } else {
        stuck(streams, streams.len() - 1)
    }
}

/// The records that splicing writes, in their order. Nothing is written unless
/// every stream starts with a record or is empty.
pub open spec fn spliced(streams: Seq<Stream>) -> Seq<Pick> {
    if bad_start(streams) is Some {
        seq![]
    } else {
        picks(streams)
    }
}

/// The error that splicing ends with, if it does.
pub open spec fn splice_error(streams: Seq<Stream>) -> Option<TraceError> {
    if bad_start(streams) is Some {
        bad_start(streams)
    } else {
        cut_short(streams)
    }
}

/// The bytes of chosen records.
pub open spec fn pick_bytes(picks: Seq<Pick>) -> Seq<u8>
    decreases picks.len(),
{
    if picks.len() == 0 {
        seq![]
    } else {
        pick_bytes(picks.drop_last()) + picks.last().record.bytes
    }
}

/// The sequence number of the last of `picks` that belongs to a controller.
pub open spec fn last_seq(picks: Seq<Pick>, ctrl_id: u8) -> Option<u32>
    decreases picks.len(),
{
    if picks.len() == 0 {
        None
    } else if picks.last().record.header.ctrl_id == ctrl_id {
        Some(picks.last().record.header.seq)
    } else {
        last_seq(picks.drop_last(), ctrl_id)
    }
}

/// The warning for a record whose sequence number does not exceed the one
/// before it.
pub open spec fn sequence_warning(previous: u32, pick: Pick) -> Seq<char> {
    "sequence is not increasing for ctrl "@ + text::decimal(pick.record.header.ctrl_id as nat)
        + ": previous="@ + text::decimal(previous as nat) + " current="@ + text::decimal(
        pick.record.header.seq as nat,
    ) + " source="@ + pick.name + " offset="@ + text::decimal(pick.record.offset as nat)
}

/// The warnings for chosen records.
pub open spec fn warnings(picks: Seq<Pick>) -> Seq<Seq<char>>
    decreases picks.len(),
{
    if picks.len() == 0 {
        seq![]
    } else {
        let front = picks.drop_last();
        let pick = picks.last();
        match last_seq(front, pick.record.header.ctrl_id) {
            Some(previous) => if pick.record.header.seq <= previous {
                warnings(front).push(sequence_warning(previous, pick))
            } else {
                warnings(front)
            },
            None => warnings(front),
        }
    }
}

/// The stream that a reader stands for.
pub open spec fn stream_of<R: ByteSource>(name: Seq<char>, reader: RecordReader<R>) -> Stream {
    Stream {
        name,
        records: trace::records_in(reader.source().remaining(), reader.position()),
        ending: trace::ending(reader.source().remaining(), reader.position()),
    }
}

/// The streams that readers stand for.
pub open spec fn streams_of<R: ByteSource>(
    names: Seq<String>,
    readers: Seq<RecordReader<R>>,
) -> Seq<Stream> {
    Seq::new(readers.len(), |i: int| stream_of(names[i]@, readers[i]))
}

/// How many bytes readers will still give in all.
pub open spec fn total_left<R: ByteSource>(readers: Seq<RecordReader<R>>) -> nat
    decreases readers.len(),
{
    if readers.len() == 0 {
        0
    } else {
        total_left(readers.drop_last()) + readers.last().source().left()
    }
}

/// The stream that a reader and the record already read from it stand for. A
/// reader with no such record is at its end.
spec fn stream_with_head<R: ByteSource>(
    name: Seq<char>,
    head: Option<RawRecord>,
    reader: RecordReader<R>,
) -> Stream {
    match head {
        Some(head) => Stream {
            name,
            records: seq![head@] + stream_of(name, reader).records,
            ending: stream_of(name, reader).ending,
        },
        None => Stream { name, records: seq![], ending: None },
    }
}

/// The streams that readers and the records already read from them stand for.
spec fn streams_with_heads<R: ByteSource>(
    names: Seq<String>,
    heads: Seq<Option<RawRecord>>,
    readers: Seq<RecordReader<R>>,
) -> Seq<Stream> {
    Seq::new(heads.len(), |i: int| stream_with_head(names[i]@, heads[i], readers[i]))
}

/// Reads the record in front of a stream.
fn read_head<R: ByteSource>(reader: &mut RecordReader<R>, name: &String) -> (result: Result<
    Option<RawRecord>,
>)
    requires
        old(reader).wf(),
    ensures
        final(reader).wf(),
        final(reader).source().failure() == old(reader).source().failure(),
        match result {
            Ok(head) => {
                &&& stream_with_head(name@, head, *final(reader)) == stream_of(
                    name@,
                    *old(reader),
                )
                &&& head_len(head) + final(reader).source().left() <= old(reader).source().left()
                &&& head matches Some(raw) ==> raw@.bytes.len() > 0
            },
            Err(TraceError::Io(err)) => old(reader).source().failure() == Some(err),
            Err(err) => {
                &&& stream_of(name@, *old(reader)).records.len() == 0
                &&& stream_of(name@, *old(reader)).ending == Some(err)
            },
        },
{
    proof {
        trace::lemma_first_record(reader.source().remaining(), reader.position());
    }
    reader.next_record()
}

spec fn head_len(head: Option<RawRecord>) -> nat {
    match head {
        Some(head) => head@.bytes.len(),
        None => 0,
    }
}

/// The bytes of the records already read.
spec fn total_heads(heads: Seq<Option<RawRecord>>) -> nat
    decreases heads.len(),
{
    if heads.len() == 0 {
        0
    } else {
        total_heads(heads.drop_last()) + head_len(heads.last())
    }
}

proof fn lemma_total_heads_update(heads: Seq<Option<RawRecord>>, i: int, head: Option<RawRecord>)
    requires
        0 <= i < heads.len(),
    ensures
        total_heads(heads.update(i, head)) + head_len(heads[i]) == total_heads(heads) + head_len(
            head,
        ),
    decreases heads.len(),
{
    if i == heads.len() - 1 {
        assert(heads.update(i, head).drop_last() =~= heads.drop_last());
    } else {
        lemma_total_heads_update(heads.drop_last(), i, head);
        assert(heads.update(i, head).drop_last() =~= heads.drop_last().update(i, head));
    }
}

proof fn lemma_total_left_update<R: ByteSource>(
    readers: Seq<RecordReader<R>>,
    i: int,
    reader: RecordReader<R>,
)
    requires
        0 <= i < readers.len(),
    ensures
        total_left(readers.update(i, reader)) + readers[i].source().left() == total_left(readers)
            + reader.source().left(),
    decreases readers.len(),
{
    if i == readers.len() - 1 {
        assert(readers.update(i, reader).drop_last() =~= readers.drop_last());
    } else {
        lemma_total_left_update(readers.drop_last(), i, reader);
        assert(readers.update(i, reader).drop_last() =~= readers.drop_last().update(i, reader));
    }
}

/// The errors that readers fail with, if any ever fails.
pub open spec fn failures<R: ByteSource>(readers: Seq<RecordReader<R>>) -> Seq<
    Option<std::io::Error>,
> {
    readers.map_values(|reader: RecordReader<R>| reader.source().failure())
}

/// What splicing does. Where no stream fails, what is written, the warnings and
/// the error are those of the streams' records. Where one fails, splicing ends
/// there with that failure, having written a first part of those records.
pub open spec fn splice_outcome(
    result: Result<u64>,
    streams: Seq<Stream>,
    source_failures: Seq<Option<std::io::Error>>,
    sink_failure: Option<std::io::Error>,
    written_before: Seq<u8>,
    written: Seq<u8>,
    warnings_before: Seq<Seq<char>>,
    warned: Seq<Seq<char>>,
) -> bool {
    let all = spliced(streams);
    match result {
        Ok(count) => {
            &&& splice_error(streams) is None
            &&& written == written_before + pick_bytes(all)
            &&& count == pick_bytes(all).len()
            &&& warned == warnings_before + warnings(all)
        },
        Err(TraceError::Io(err)) => {
            &&& sink_failure == Some(err) || source_failures.contains(Some(err))
            &&& written_before.is_prefix_of(written)
            &&& written.is_prefix_of(written_before + pick_bytes(all))
            &&& warnings_before.is_prefix_of(warned)
            &&& warned.is_prefix_of(warnings_before + warnings(all))
        },
        Err(err) => {
            &&& splice_error(streams) == Some(err)
            &&& written == written_before + pick_bytes(all)
            &&& warned == warnings_before + warnings(all)
        },
    }
}

fn is_chosen_before(a_name: &String, a: &RawRecord, b_name: &String, b: &RawRecord) -> (yes: bool)
    ensures
        yes == chosen_before(a_name@, a@, b_name@, b@),
{
    proof {
        order::order_is_asymmetric(a.header, b.header);
        order::text_order_is_total(a_name@, b_name@);
    }
    match record_order(&a.header, &b.header) {
        Ordering::Less => true,
        Ordering::Greater => false,
        Ordering::Equal => {
            let a_chars = chars_of(a_name.as_str());
            let b_chars = chars_of(b_name.as_str());
            match text_order(a_chars.as_slice(), b_chars.as_slice()) {
                Ordering::Less => true,
                Ordering::Greater => false,
                Ordering::Equal => a.offset < b.offset,
            }
        },
    }
}

/// What the records already read hold.
spec fn head_views(heads: Seq<Option<RawRecord>>) -> Seq<Option<RawRecordView>> {
    heads.map_values(
        |head: Option<RawRecord>|
            match head {
                Some(raw) => Some(raw@),
                None => None,
            },
    )
}

spec fn name_views(names: Seq<String>) -> Seq<Seq<char>> {
    names.map_values(|name: String| name@)
}

/// The first of `streams` that starts with something that is no record decides
/// the error.
proof fn lemma_bad_start(streams: Seq<Stream>, i: int)
    requires
        0 <= i <= streams.len(),
        forall|j: int| 0 <= j < i ==> stuck(streams, j) is None,
    ensures
        i == streams.len() ==> bad_start(streams) is None,
        i < streams.len() && stuck(streams, i) is Some ==> bad_start(streams) == stuck(streams, i),
    decreases streams.len(),
{
    if streams.len() > 0 {
        let front = streams.drop_last();
        assert forall|j: int| 0 <= j < i && j < front.len() implies stuck(front, j) is None by {
            assert(stuck(front, j) == stuck(streams, j));
        }
        if i < streams.len() {
            lemma_bad_start(front, i);
            if i < front.len() {
                assert(stuck(front, i) == stuck(streams, i));
            }
        } else {
            lemma_bad_start(front, front.len() as int);
            assert(stuck(streams, streams.len() - 1) is None);
        }
    }
}

/// Every reader can go on, and every record already read has bytes.
spec fn heads_ready<R: ByteSource>(
    names: Seq<String>,
    heads: Seq<Option<RawRecord>>,
    readers: Seq<RecordReader<R>>,
) -> bool {
    &&& names.len() == readers.len()
    &&& heads.len() == readers.len()
    &&& forall|i: int| 0 <= i < readers.len() ==> (#[trigger] readers[i]).wf()
    &&& forall|i: int|
        0 <= i < heads.len() ==> (#[trigger] heads[i] matches Some(raw) ==> raw@.bytes.len() > 0)
}

fn choose_head(names: &Vec<String>, heads: &Vec<Option<RawRecord>>) -> (chosen: Option<usize>)
    requires
        names@.len() == heads@.len(),
    ensures
        match chosen {
            Some(i) => first_of(name_views(names@), head_views(heads@), heads@.len()) == Some(
                i as int,
            ),
            None => first_of(name_views(names@), head_views(heads@), heads@.len()) is None,
        },
{
    let mut best: Option<usize> = None;
    let mut i: usize = 0;
    while i < heads.len()
        invariant
            i <= heads@.len(),
            names@.len() == heads@.len(),
            match best {
                Some(b) => {
                    &&& b < i
                    &&& heads@[b as int] is Some
                    &&& first_of(name_views(names@), head_views(heads@), i as nat) == Some(
                        b as int,
                    )
                },
                None => first_of(name_views(names@), head_views(heads@), i as nat) is None,
            },
        decreases heads@.len() - i,
    {
        if let Some(candidate) = &heads[i] {
            match best {
                None => {
                    best = Some(i);
                },
                Some(b) => {
                    if let Some(current) = &heads[b] {
                        if is_chosen_before(&names[i], candidate, &names[b], current) {
                            best = Some(i);
                        }
                    }
                },
            }
        }
        i = i + 1;
    }
    best
}

fn sequence_warning_text(previous: u32, name: &String, record: &RawRecord) -> (warning: String)
    ensures
        forall|source: int|
            warning@ == #[trigger] sequence_warning(
                previous,
                Pick { source, name: name@, record: record@ },
            ),
{
    let mut out = "sequence is not increasing for ctrl ".to_owned();
    push_decimal(&mut out, record.header.ctrl_id as u128);
    out.append(": previous=");
    push_decimal(&mut out, previous as u128);
    out.append(" current=");
    push_decimal(&mut out, record.header.seq as u128);
    out.append(" source=");
    out.append(name.as_str());
    out.append(" offset=");
    push_decimal(&mut out, record.offset as u128);
    out
}

/// Reads the record in front of each stream.
fn read_heads<R: ByteSource>(readers: &mut Vec<RecordReader<R>>, names: &Vec<String>) -> (result:
    Result<Vec<Option<RawRecord>>>)
    requires
        names@.len() == old(readers)@.len(),
        forall|i: int| 0 <= i < old(readers)@.len() ==> (#[trigger] old(readers)@[i]).wf(),
    ensures
        final(readers)@.len() == old(readers)@.len(),
        match result {
            Ok(heads) => {
                &&& heads@.len() == final(readers)@.len()
                &&& heads_ready(names@, heads@, final(readers)@)
                &&& failures(final(readers)@) == failures(old(readers)@)
                &&& bad_start(streams_of(names@, old(readers)@)) is None
                &&& streams_with_heads(names@, heads@, final(readers)@) == streams_of(
                    names@,
                    old(readers)@,
                )
                &&& total_left(final(readers)@) + total_heads(heads@) <= total_left(old(readers)@)
            },
            Err(TraceError::Io(err)) => failures(old(readers)@).contains(Some(err)),
            Err(err) => bad_start(streams_of(names@, old(readers)@)) == Some(err),
        },
{
    let ghost streams = streams_of(names@, readers@);
    let ghost broken = failures(readers@);
    let mut heads: Vec<Option<RawRecord>> = Vec::new();
    let mut i: usize = 0;
    while i < readers.len()
        invariant
            i <= readers@.len(),
            i == heads@.len(),
            readers@.len() == old(readers)@.len(),
            names@.len() == readers@.len(),
            streams == streams_of(names@, old(readers)@),
            broken == failures(old(readers)@),
            forall|j: int|
                0 <= j < readers@.len() ==> (#[trigger] readers@[j]).wf()
                    && readers@[j].source().failure() == broken[j],
            forall|j: int| i <= j < readers@.len() ==> #[trigger] readers@[j] == old(readers)@[j],
            forall|j: int|
                0 <= j < i ==> (#[trigger] heads@[j] matches Some(raw) ==> raw@.bytes.len() > 0),
            forall|j: int|
                0 <= j < i ==> stream_with_head(names@[j]@, heads@[j], readers@[j])
                    == #[trigger] streams[j],
            forall|j: int| 0 <= j < i ==> stuck(streams, j) is None,
            total_left(readers@) + total_heads(heads@) <= total_left(old(readers)@),
        decreases readers@.len() - i,
    {
        let ghost readers_before = readers@;
        let ghost heads_before = heads@;
        assert(stream_of(names@[i as int]@, readers@[i as int]) == streams[i as int]);
        let result = read_head(&mut readers[i], &names[i]);
        proof {
            assert(readers@ =~= readers_before.update(i as int, readers@[i as int]));
            lemma_total_left_update(readers_before, i as int, readers@[i as int]);
            lemma_bad_start(streams, i as int);
        }
        match result {
            Ok(head) => {
                heads.push(head);
                assert(heads@.drop_last() =~= heads_before);
                i = i + 1;
            },
            Err(err) => {
                assert(broken[i as int] == readers@[i as int].source().failure());
                return Err(err);
            },
        }
    }
    proof {
        assert(failures(readers@) =~= broken);
        assert(streams_with_heads(names@, heads@, readers@) =~= streams);
        lemma_bad_start(streams, streams.len() as int);
    }
    Ok(heads)
}

/// The bytes of chosen records, in two parts.
proof fn lemma_pick_bytes_split(a: Seq<Pick>, b: Seq<Pick>)
    ensures
        pick_bytes(a + b) == pick_bytes(a) + pick_bytes(b),
    decreases b.len(),
{
    if b.len() == 0 {
        assert(a + b =~= a);
    } else {
        lemma_pick_bytes_split(a, b.drop_last());
        assert((a + b).drop_last() =~= a + b.drop_last());
        assert(pick_bytes(a + b) =~= pick_bytes(a) + pick_bytes(b));
    }
}

/// Further records only add to the warnings.
proof fn lemma_warnings_grow(a: Seq<Pick>, b: Seq<Pick>)
    ensures
        warnings(a).is_prefix_of(warnings(a + b)),
    decreases b.len(),
{
    if b.len() == 0 {
        assert(a + b =~= a);
    } else {
        lemma_warnings_grow(a, b.drop_last());
        assert((a + b).drop_last() =~= a + b.drop_last());
    }
}

/// What is written and warned of after some of the records is part of what is
/// written and warned of after all of them.
proof fn lemma_partial(
    done: Seq<Pick>,
    rest: Seq<Pick>,
    written: Seq<u8>,
    warned: Seq<Seq<char>>,
)
    ensures
        written.is_prefix_of(written + pick_bytes(done)),
        (written + pick_bytes(done)).is_prefix_of(written + pick_bytes(done + rest)),
        warned.is_prefix_of(warned + warnings(done)),
        (warned + warnings(done)).is_prefix_of(warned + warnings(done + rest)),
{
    lemma_pick_bytes_split(done, rest);
    lemma_warnings_grow(done, rest);
    let w = warnings(done);
    let v = warnings(done + rest);
    assert(v.take(w.len() as int) =~= w);
    assert((warned + v).take((warned + w).len() as int) =~= warned + w);
    assert((written + pick_bytes(done + rest)).take((written + pick_bytes(done)).len() as int)
        =~= written + pick_bytes(done));
    assert((written + pick_bytes(done)).take(written.len() as int) =~= written);
    assert((warned + w).take(warned.len() as int) =~= warned);
}

/// What is left once the chosen record is written.
proof fn lemma_step<R: ByteSource>(
    names: Seq<String>,
    heads: Seq<Option<RawRecord>>,
    readers: Seq<RecordReader<R>>,
    i: int,
)
    requires
        heads_ready(names, heads, readers),
        0 <= i < heads.len(),
        heads[i] is Some,
        choice(streams_with_heads(names, heads, readers)) == Some(i),
    ensures
        ({
            let cur = streams_with_heads(names, heads, readers);
            let pick = Pick { source: i, name: names[i]@, record: heads[i].unwrap()@ };
            let moved = moved_on(cur, i);
            &&& moved[i] == stream_of(names[i]@, readers[i])
            &&& picks(cur) == if stuck(moved, i) is Some {
                seq![pick]
            } else {
                seq![pick] + picks(moved)
            }
            &&& cut_short(cur) == if stuck(moved, i) is Some {
                stuck(moved, i)
            } else {
                cut_short(moved)
            }
        }),
{
    let cur = streams_with_heads(names, heads, readers);
    assert(cur[i].records.drop_first() =~= stream_of(names[i]@, readers[i]).records);
}

/// The table of sequence numbers after some of the records.
spec fn table_of(table: Map<u8, u32>, done: Seq<Pick>) -> bool {
    forall|ctrl_id: u8|
        match #[trigger] last_seq(done, ctrl_id) {
            Some(seq) => table.contains_key(ctrl_id) && table[ctrl_id] == seq,
            None => !table.contains_key(ctrl_id),
        }
}

/// Gives the warning that a record deserves, if it does.
fn check_sequence<F: WarnSink>(
    table: &mut HashMap<u8, u32>,
    name: &String,
    record: &RawRecord,
    warn: &mut F,
    Ghost(done): Ghost<Seq<Pick>>,
    Ghost(source): Ghost<int>,
)
    requires
        table_of(old(table)@, done),
    ensures
        ({
            let after = done.push(Pick { source, name: name@, record: record@ });
            &&& table_of(final(table)@, after)
            &&& exists|more: Seq<Seq<char>>|
                {
                    &&& #[trigger] (warnings(done) + more) == warnings(after)
                    &&& final(warn).warnings() == old(warn).warnings() + more
                }
        }),
{
    let ghost pick = Pick { source, name: name@, record: record@ };
    let ghost after = done.push(pick);
    assert(after.drop_last() =~= done);
    let ctrl_id = record.header.ctrl_id;
    let seq = record.header.seq;
    assert(last_seq(done, ctrl_id) == last_seq(done, ctrl_id));
    let previous = table.insert(ctrl_id, seq);
    proof {
        assert forall|c: u8|
            match #[trigger] last_seq(after, c) {
                Some(q) => table@.contains_key(c) && table@[c] == q,
                None => !table@.contains_key(c),
            } by {
            assert(last_seq(done, c) == last_seq(done, c));
        }
    }
    if let Some(last) = previous {
        if seq <= last {
            warn.warn(sequence_warning_text(last, name, record));
            proof {
                let text = sequence_warning(last, pick);
                assert(warnings(done) + seq![text] =~= warnings(after));
                assert(warn.warnings() =~= old(warn).warnings() + seq![text]);
            }
            return;
        }
    }
    proof {
        assert(warnings(done) + Seq::<Seq<char>>::empty() =~= warnings(after));
        assert(warn.warnings() =~= old(warn).warnings() + Seq::<Seq<char>>::empty());
    }
}

/// Splices the records of `readers` into `output`. Gives a warning wherever a
/// sequence number does not exceed the one before it of the same controller.
/// Returns how many bytes were written.
#[verifier::rlimit(30)]
pub fn splice_streams_with_names<R: ByteSource, W: ByteSink, F: WarnSink>(
    readers: &mut Vec<RecordReader<R>>,
    names: Vec<String>,
    output: &mut W,
    warn: &mut F,
) -> (result: Result<u64>)
    requires
        names@.len() == old(readers)@.len(),
        forall|i: int| 0 <= i < old(readers)@.len() ==> (#[trigger] old(readers)@[i]).wf(),
        total_left(old(readers)@) <= u64::MAX,
    ensures
        splice_outcome(
            result,
            streams_of(names@, old(readers)@),
            failures(old(readers)@),
            old(output).failure(),
            old(output).written(),
            final(output).written(),
            old(warn).warnings(),
            final(warn).warnings(),
        ),
{
    let ghost streams = streams_of(names@, readers@);
    let ghost broken = failures(readers@);
    let mut heads = match read_heads(readers, &names) {
        Ok(heads) => heads,
        Err(err) => {
            proof {
                lemma_partial(seq![], spliced(streams), output.written(), warn.warnings());
                assert(Seq::<Pick>::empty() + spliced(streams) =~= spliced(streams));
                assert(output.written() + pick_bytes(seq![]) =~= output.written());
                assert(warn.warnings() + warnings(seq![]) =~= warn.warnings());
            }
            return Err(err);
        },
    };
    let mut written: u64 = 0;
    let mut last_seq_by_ctrl: HashMap<u8, u32> = HashMap::new();
    let ghost mut done: Seq<Pick> = seq![];
    proof {
        assert(done + picks(streams) =~= picks(streams));
        assert(output.written() + pick_bytes(done) =~= output.written());
        assert(warn.warnings() + warnings(done) =~= warn.warnings());
    }
    loop
        invariant
            streams == streams_of(names@, old(readers)@),
            broken == failures(old(readers)@),
            failures(readers@) == broken,
            output.failure() == old(output).failure(),
            heads_ready(names@, heads@, readers@),
            bad_start(streams) is None,
            picks(streams) == done + picks(streams_with_heads(names@, heads@, readers@)),
            cut_short(streams) == cut_short(streams_with_heads(names@, heads@, readers@)),
            output.written() == old(output).written() + pick_bytes(done),
            warn.warnings() == old(warn).warnings() + warnings(done),
            written == pick_bytes(done).len(),
            table_of(last_seq_by_ctrl@, done),
            written + total_left(readers@) + total_heads(heads@) <= u64::MAX,
        decreases total_left(readers@) + total_heads(heads@),
    {
        let ghost cur = streams_with_heads(names@, heads@, readers@);
        proof {
            assert(fronts(cur) =~= head_views(heads@));
            assert(stream_names(cur) =~= name_views(names@));
            lemma_first_of(stream_names(cur), fronts(cur), cur.len());
        }
        let i = match choose_head(&names, &heads) {
            Some(i) => i,
            None => {
                assert(done + picks(cur) =~= done);
                return Ok(written);
            },
        };
        let ghost (heads_before, readers_before) = (heads@, readers@);
        proof {
            lemma_step(names@, heads@, readers@, i as int);
        }
        let record = heads[i].take().unwrap();
        let ghost pick = Pick { source: i as int, name: names@[i as int]@, record: record@ };
        let ghost after = done.push(pick);
        let ghost moved = moved_on(cur, i as int);
        let ghost rest = if stuck(moved, i as int) is Some {
            seq![]
        } else {
            picks(moved)
        };
        proof {
            assert(after.drop_last() =~= done);
            assert(done + picks(cur) =~= after + rest);
            lemma_partial(after, rest, old(output).written(), old(warn).warnings());
            lemma_total_heads_update(heads_before, i as int, None);
            assert(heads@ =~= heads_before.update(i as int, None));
        }
        check_sequence(
            &mut last_seq_by_ctrl,
            &names[i],
            &record,
            warn,
            Ghost(done),
            Ghost(i as int),
        );
        proof {
            let more = choose|more: Seq<Seq<char>>|
                {
                    &&& #[trigger] (warnings(done) + more) == warnings(after)
                    &&& warn.warnings() == old(warn).warnings() + warnings(done) + more
                };
            assert(warn.warnings() =~= old(warn).warnings() + warnings(after));
        }
        if let Err(err) = output.write_all(record.bytes.as_slice()) {
            return Err(TraceError::from(err));
        }
        assert(output.written() =~= old(output).written() + pick_bytes(after));
        written = written + record.bytes.len() as u64;
        match read_head(&mut readers[i], &names[i]) {
            Ok(next) => {
                heads[i] = next;
                proof {
                    lemma_total_heads_update(heads_before, i as int, next);
                    assert(heads@ =~= heads_before.update(i as int, next));
                    lemma_total_left_update(readers_before, i as int, readers@[i as int]);
                    assert(readers@ =~= readers_before.update(i as int, readers@[i as int]));
                    assert(failures(readers@) =~= broken);
                    assert(streams_with_heads(names@, heads@, readers@) =~= moved);
                    done = after;
                }
            },
            Err(err) => {
                assert(failures(readers_before)[i as int]
                    == readers_before[i as int].source().failure());
                return Err(err);
            },
        }
    }
}

/// The streams that named sources stand for.
pub open spec fn named_streams<R: ByteSource>(inputs: Seq<(String, R)>) -> Seq<Stream> {
    inputs.map_values(
        |input: (String, R)|
            Stream {
                name: input.0@,
                records: trace::records_in(input.1.remaining(), 0),
                ending: trace::ending(input.1.remaining(), 0),
            },
    )
}

/// The errors that named sources fail with, if any ever fails.
pub open spec fn named_failures<R: ByteSource>(inputs: Seq<(String, R)>) -> Seq<
    Option<std::io::Error>,
> {
    inputs.map_values(|input: (String, R)| input.1.failure())
}

/// How many bytes named sources will still give in all.
pub open spec fn named_left<R: ByteSource>(inputs: Seq<(String, R)>) -> nat
    decreases inputs.len(),
{
    if inputs.len() == 0 {
        0
    } else {
        named_left(inputs.drop_last()) + inputs.last().1.left()
    }
}

/// Splices named streams into `output`.
pub fn splice_streams<R: ByteSource, W: ByteSink, F: WarnSink>(
    inputs: Vec<(String, R)>,
    output: &mut W,
    warn: &mut F,
) -> (result: Result<u64>)
    requires
        named_left(inputs@) <= u64::MAX,
    ensures
        splice_outcome(
            result,
            named_streams(inputs@),
            named_failures(inputs@),
            old(output).failure(),
            old(output).written(),
            final(output).written(),
            old(warn).warnings(),
            final(warn).warnings(),
        ),
{
    splice_named_streams(inputs, output, warn)
}

/// Splices named streams into `output`.
pub fn splice_named_streams<R: ByteSource, W: ByteSink, F: WarnSink>(
    inputs: Vec<(String, R)>,
    output: &mut W,
    warn: &mut F,
) -> (result: Result<u64>)
    requires
        named_left(inputs@) <= u64::MAX,
    ensures
        splice_outcome(
            result,
            named_streams(inputs@),
            named_failures(inputs@),
            old(output).failure(),
            old(output).written(),
            final(output).written(),
            old(warn).warnings(),
            final(warn).warnings(),
        ),
{
    let mut names: Vec<String> = Vec::new();
    let mut readers: Vec<RecordReader<R>> = Vec::new();
    let ghost all = inputs@;
    for input in it: inputs.into_iter()
        invariant
            it.seq() == all,
            named_left(all) <= u64::MAX,
            names@.len() == it.index(),
            readers@.len() == it.index(),
            total_left(readers@) == named_left(all.take(it.index() as int)),
            forall|i: int| 0 <= i < it.index() ==> names@[i] == #[trigger] all[i].0,
            forall|i: int|
                0 <= i < it.index() ==> {
                    &&& (#[trigger] readers@[i]).wf()
                    &&& readers@[i].source() == all[i].1
                    &&& readers@[i].position() == 0
                },
    {
        let (name, reader) = input;
        let ghost before = readers@;
        proof {
            lemma_named_left_grows(all, it.index() + 1);
            assert(all.take(it.index() + 1).drop_last() =~= all.take(it.index() as int));
        }
        names.push(name);
        readers.push(RecordReader::new(reader));
        assert(readers@.drop_last() =~= before);
    }
    proof {
        assert(all.take(all.len() as int) =~= all);
        assert(streams_of(names@, readers@) =~= named_streams(all));
        assert(failures(readers@) =~= named_failures(all));
    }
    splice_streams_with_names(&mut readers, names, output, warn)
}

proof fn lemma_named_left_grows<R: ByteSource>(inputs: Seq<(String, R)>, n: int)
    requires
        0 <= n <= inputs.len(),
    ensures
        named_left(inputs.take(n)) <= named_left(inputs),
        0 < n ==> inputs[n - 1].1.left() <= named_left(inputs),
    decreases inputs.len(),
{
    if n < inputs.len() {
        lemma_named_left_grows(inputs.drop_last(), n);
        assert(inputs.drop_last().take(n) =~= inputs.take(n));
    } else {
        assert(inputs.take(n) =~= inputs);
    }
}

} // verus!
