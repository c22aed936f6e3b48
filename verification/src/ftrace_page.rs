//! Pages of the kernel's ring buffer.
//!
//! A page starts with a timestamp of eight bytes and the number of bytes in
//! use, in the lower half of another eight. Events follow. Each starts with a
//! word whose lowest five bits tell its kind and whose others are the time that
//! has passed since the event before it:
//!
//! - 0: a word with the length of the data follows, then the data;
//! - 1 to 28: that many words of data follow;
//! - 29: a word follows with the upper bits of a longer time;
//! - 30: eight bytes follow with a new timestamp;
//! - 31: the rest of the page is padding.

use crate::bytes::{self, read_le16, read_le32, read_le64};
use crate::ftrace_event::{
    self, encode_complete, encode_submit, CompleteFormat, SubmitFormat,
};
use crate::record;
use crate::trace;
use vstd::prelude::*;
use vstd::slice::slice_subrange;

verus! {

/// The size of a page.
pub const PAGE_SIZE: usize = 4096;

/// Where the events of a page begin.
const PAGE_DATA_OFFSET: usize = 16;

const RINGBUF_TYPE_TIME_EXTEND: u32 = 29;

const RINGBUF_TYPE_TIME_STAMP: u32 = 30;

const RINGBUF_TYPE_PADDING: u32 = 31;

/// An event of a page: when it happened and what it holds.
#[verifier::ext_equal]
pub struct Event {
    pub timestamp_ns: u64,
    pub data: Seq<u8>,
}

/// A time, a while later. Times wrap around.
pub open spec fn later(ts: u64, delta: int) -> u64 {
    ((ts + delta) % 0x1_0000_0000_0000_0000) as u64
}

/// What stands at one place among the events.
pub enum Step {
    /// Padding, or something that the end of the data cuts short.
    End,
    /// A time alone.
    Time { next: int, ts: u64 },
    /// An event with its data.
    Data { from: int, to: int, ts: u64 },
}

/// What stands in `data` at `pos`, the last time seen being `ts`.
pub open spec fn step_at(data: Seq<u8>, pos: int, ts: u64) -> Step {
    let word = bytes::le32(data, pos);
    let kind = word % 32;
    let delta = (word / 32) as int;
    let at = pos + 4;
    if at > data.len() || kind == 31 {
        Step::End
    } else if kind == 30 {
        if at + 8 > data.len() {
            Step::End
        } else {
            Step::Time { next: at + 8, ts: bytes::le64(data, at) }
        }
    } else if kind == 29 {
        if at + 4 > data.len() {
            Step::End
        } else {
            Step::Time {
                next: at + 4,
                ts: later(ts, bytes::le32(data, at) * 0x800_0000 + delta),
            }
        }
    } else if kind == 0 {
        let len = bytes::le32(data, at) as int;
        if at + 4 > data.len() || len == 0 || at + 4 + len > data.len() {
            Step::End
        } else {
            Step::Data { from: at + 4, to: at + 4 + len, ts: later(ts, delta) }
        }
    } else {
        let len = 4 * kind;
        if at + len > data.len() {
            Step::End
        } else {
            Step::Data { from: at, to: at + len, ts: later(ts, delta) }
        }
    }
}

/// The events that stand in `data` from `pos` on, the last time seen being
/// `ts`. What is cut short by the end of the data is left out, with all that
/// follows it.
pub open spec fn events_from(data: Seq<u8>, pos: int, ts: u64) -> Seq<Event>
    decreases data.len() - pos,
{
    match step_at(data, pos, ts) {
        Step::End => seq![],
        Step::Time { next, ts } => events_from(data, next, ts),
        Step::Data { from, to, ts } => seq![
            Event { timestamp_ns: ts, data: data.subrange(from, to) },
        ] + events_from(data, to, ts),
    }
}

/// The events of a page. A page with more bytes in use than it has room for
/// holds none.
pub open spec fn page_events(page: Seq<u8>) -> Seq<Event> {
    let commit = bytes::le32(page, 8) as int;
    if commit > PAGE_SIZE - 16 {
        seq![]
    } else {
        events_from(page.subrange(16, 16 + commit), 0, bytes::le64(page, 0))
    }
}

/// How the events of interest are recognised and laid out.
#[verifier::ext_equal]
pub struct EventFormats {
    pub submit_id: u16,
    pub complete_id: u16,
    pub submit_fmt: SubmitFormat,
    pub complete_fmt: CompleteFormat,
}

/// The bytes of the record made from an event, if it is one of interest and all
/// its fields are there.
pub open spec fn event_record(event: Event, formats: EventFormats) -> Option<Seq<u8>> {
    if event.data.len() < 2 {
        None
    } else if bytes::le16(event.data, 0) == formats.submit_id {
        ftrace_event::submit_record(event.data, event.timestamp_ns, formats.submit_fmt)
    } else if bytes::le16(event.data, 0) == formats.complete_id {
        ftrace_event::complete_record(event.data, event.timestamp_ns, formats.complete_fmt)
    } else {
        None
    }
}

/// The bytes of the records made from events, in their order.
pub open spec fn event_records(events: Seq<Event>, formats: EventFormats) -> Seq<Seq<u8>>
    decreases events.len(),
{
    if events.len() == 0 {
        seq![]
    } else {
        let rest = event_records(events.drop_first(), formats);
        match event_record(events[0], formats) {
            Some(rec) => seq![rec] + rest,
            None => rest,
        }
    }
}

/// Turns an event into a record and appends it to `out`, if it is one of
/// interest. Returns the number of records made.
pub fn dispatch_event(
    event_data: &[u8],
    timestamp_ns: u64,
    submit_id: u16,
    complete_id: u16,
    submit_fmt: &SubmitFormat,
    complete_fmt: &CompleteFormat,
    out: &mut Vec<u8>,
) -> (count: usize)
    ensures
        ({
            let formats = EventFormats {
                submit_id,
                complete_id,
                submit_fmt: *submit_fmt,
                complete_fmt: *complete_fmt,
            };
            match event_record((Event { timestamp_ns, data: event_data@ }), formats) {
                Some(rec) => count == 1 && final(out)@ == old(out)@ + rec,
                None => count == 0 && final(out)@ == old(out)@,
            }
        }),
{
    if event_data.len() < 2 {
        return 0;
    }
    let event_type = read_le16(event_data, 0);
    if event_type == submit_id {
        if let Some(rec) = encode_submit(event_data, timestamp_ns, submit_fmt) {
            out.extend_from_slice(rec.as_slice());
            assert(out@ =~= old(out)@ + rec@);
            return 1;
        }
    } else if event_type == complete_id {
        if let Some(rec) = encode_complete(event_data, timestamp_ns, complete_fmt) {
            out.extend_from_slice(rec.as_slice());
            assert(out@ =~= old(out)@ + rec@);
            return 1;
        }
    }
    0
}

/// What stands at one place among the events, as the parser holds it.
enum Found {
    End,
    Time { next: usize, ts: u64 },
    Data { from: usize, to: usize, ts: u64 },
}

spec fn found_step(found: Found) -> Step {
    match found {
        Found::End => Step::End,
        Found::Time { next, ts } => Step::Time { next: next as int, ts },
        Found::Data { from, to, ts } => Step::Data { from: from as int, to: to as int, ts },
    }
}

fn find_step(data: &[u8], pos: usize, ts: u64) -> (found: Found)
    requires
        data.len() <= PAGE_SIZE,
        pos + 4 <= data.len(),
    ensures
        found_step(found) == step_at(data@, pos as int, ts),
{
    let hdr = read_le32(data, pos);
    let type_len: u32 = hdr % 32;
    let time_delta: u64 = (hdr / 32) as u64;
    let at: usize = pos + 4;
    let rest: usize = data.len() - at;
    if type_len == RINGBUF_TYPE_PADDING {
        return Found::End;
    }
    if type_len == RINGBUF_TYPE_TIME_STAMP {
        if rest < 8 {
            return Found::End;
        }
        return Found::Time { next: at + 8, ts: read_le64(data, at) };
    }
    if type_len == RINGBUF_TYPE_TIME_EXTEND {
        if rest < 4 {
            return Found::End;
        }
        let upper: u64 = read_le32(data, at) as u64;
        return Found::Time {
            next: at + 4,
            ts: ts.wrapping_add(upper * 0x800_0000 + time_delta),
        };
    }
    if type_len == 0 {
        if rest < 4 {
            return Found::End;
        }
        let len: usize = read_le32(data, at) as usize;
        if len == 0 || len > rest - 4 {
            return Found::End;
        }
        return Found::Data { from: at + 4, to: at + 4 + len, ts: ts.wrapping_add(time_delta) };
    }
    let len: usize = 4 * (type_len as usize);
    if len > rest {
        return Found::End;
    }
    Found::Data { from: at, to: at + len, ts: ts.wrapping_add(time_delta) }
}

/// Turns the events of a page into records and appends them to `out`. Returns
/// the number of records made.
#[verifier::rlimit(30)]
pub fn parse_page_events(
    page: &[u8; PAGE_SIZE],
    submit_id: u16,
    complete_id: u16,
    submit_fmt: &SubmitFormat,
    complete_fmt: &CompleteFormat,
    out: &mut Vec<u8>,
) -> (count: usize)
    ensures
        ({
            let formats = EventFormats {
                submit_id,
                complete_id,
                submit_fmt: *submit_fmt,
                complete_fmt: *complete_fmt,
            };
            let records = event_records(page_events(page@), formats);
            &&& count == records.len()
            &&& final(out)@ == old(out)@ + trace::joined(records)
        }),
{
    let ghost formats = EventFormats {
        submit_id,
        complete_id,
        submit_fmt: *submit_fmt,
        complete_fmt: *complete_fmt,
    };
    let bytes = page.as_slice();
    let page_ts = read_le64(bytes, 0);
    let commit: usize = read_le32(bytes, 8) as usize;
    if commit > PAGE_SIZE - PAGE_DATA_OFFSET {
        assert(out@ =~= old(out)@ + trace::joined(event_records(page_events(page@), formats)));
        return 0;
    }
    let data = slice_subrange(bytes, PAGE_DATA_OFFSET, PAGE_DATA_OFFSET + commit);
    let mut pos: usize = 0;
    let mut ts: u64 = page_ts;
    let mut count: usize = 0;
    let ghost all = event_records(page_events(page@), formats);
    let ghost mut done: Seq<Seq<u8>> = seq![];
    proof {
        assert(data@ =~= page@.subrange(16, 16 + commit));
        assert(done + event_records(events_from(data@, 0, ts), formats) =~= all);
        assert(out@ =~= old(out)@ + trace::joined(done));
    }
    let mut more = true;
    while more
        invariant
            data@.len() <= PAGE_SIZE,
            formats == (EventFormats {
                submit_id,
                complete_id,
                submit_fmt: *submit_fmt,
                complete_fmt: *complete_fmt,
            }),
            count == done.len(),
            count <= pos <= data@.len(),
            out@ == old(out)@ + trace::joined(done),
            more ==> all == done + event_records(events_from(data@, pos as int, ts), formats),
            !more ==> all == done,
        decreases data@.len() - pos + if more { 1int } else { 0int },
    {
        let ghost events = events_from(data@, pos as int, ts);
        if data.len() - pos < 4 {
            assert(done + event_records(events, formats) =~= done);
            more = false;
        } else {
            match find_step(data, pos, ts) {
                Found::End => {
                    assert(done + event_records(events, formats) =~= done);
                    more = false;
                },
                Found::Time { next, ts: time } => {
                    pos = next;
                    ts = time;
                },
                Found::Data { from, to, ts: time } => {
                    let event_data = slice_subrange(data, from, to);
                    let ghost event = Event { timestamp_ns: time, data: event_data@ };
                    let ghost rest = events_from(data@, to as int, time);
                    proof {
                        assert(events.drop_first() =~= rest);
                        assert(events[0] == event);
                    }
                    let made = dispatch_event(
                        event_data,
                        time,
                        submit_id,
                        complete_id,
                        submit_fmt,
                        complete_fmt,
                        out,
                    );
                    count = count + made;
                    proof {
                        match event_record(event, formats) {
                            Some(rec) => {
                                lemma_join_push(done, rec);
                                assert(done + event_records(events, formats) =~= done.push(rec)
                                    + event_records(rest, formats));
                                assert(out@ =~= old(out)@ + trace::joined(done.push(rec)));
                                done = done.push(rec);
                            },
                            None => {},
                        }
                    }
                    pos = to;
                    ts = time;
                },
            }
        }
    }
    count
}

proof fn lemma_join_push(parts: Seq<Seq<u8>>, part: Seq<u8>)
    ensures
        trace::joined(parts.push(part)) == trace::joined(parts) + part,
    decreases parts.len(),
{
    if parts.len() == 0 {
        assert(parts.push(part).drop_first() =~= seq![]);
        assert(trace::joined(seq![]) =~= Seq::<u8>::empty());
        assert(trace::joined(parts.push(part)) =~= trace::joined(parts) + part);
    } else {
        lemma_join_push(parts.drop_first(), part);
        assert(parts.push(part).drop_first() =~= parts.drop_first().push(part));
        assert(trace::joined(parts.push(part)) =~= trace::joined(parts) + part);
    }
}

/// An event is a submission with all its fields.
pub open spec fn is_submission(event: Event, formats: EventFormats) -> bool {
    &&& bytes::le16(event.data, 0) == formats.submit_id
    &&& ftrace_event::submit_fits(event.data.len(), formats.submit_fmt)
}

/// The submission events carry whole entries.
pub open spec fn whole_submissions(events: Seq<Event>, formats: EventFormats) -> bool {
    forall|i: int|
        0 <= i < events.len() && is_submission(#[trigger] events[i], formats)
            ==> ftrace_event::whole_entries(events[i].data, formats.submit_fmt)
}

/// The bytes of an event make a record of at most a hundred times their number.
proof fn lemma_event_record_len(event: Event, formats: EventFormats)
    ensures
        event_record(event, formats) matches Some(rec) ==> rec.len() <= 100 * event.data.len(),
{
    broadcast use crate::bytes::lemma_le_bytes_len;

}

proof fn lemma_event_records_len(data: Seq<u8>, pos: int, ts: u64, formats: EventFormats)
    requires
        0 <= pos,
    ensures
        trace::joined(event_records(events_from(data, pos, ts), formats)).len() <= if pos
            <= data.len() {
            100 * (data.len() - pos)
        } else {
            0
        },
    decreases data.len() - pos,
{
    match step_at(data, pos, ts) {
        Step::End => {},
        Step::Time { next, ts } => lemma_event_records_len(data, next, ts, formats),
        Step::Data { from, to, ts: time } => {
            let event = Event { timestamp_ns: time, data: data.subrange(from, to) };
            let events = events_from(data, pos, ts);
            let rest = events_from(data, to, time);
            lemma_event_records_len(data, to, time, formats);
            lemma_event_record_len(event, formats);
            assert(events.drop_first() =~= rest);
            let records = event_records(events, formats);
            if let Some(rec) = event_record(event, formats) {
                assert(records.drop_first() =~= event_records(rest, formats));
                assert(records[0] == rec);
            }
        },
    }
}

proof fn lemma_event_records_parse(events: Seq<Event>, formats: EventFormats)
    requires
        whole_submissions(events, formats),
    ensures
        forall|i: int|
            0 <= i < event_records(events, formats).len() ==> record::checked_record(
                #[trigger] event_records(events, formats)[i],
                0,
            ) is Ok,
    decreases events.len(),
{
    if events.len() > 0 {
        let rest = events.drop_first();
        assert forall|i: int|
            0 <= i < rest.len() && is_submission(
                #[trigger] rest[i],
                formats,
            ) implies ftrace_event::whole_entries(rest[i].data, formats.submit_fmt) by {
            assert(rest[i] == events[i + 1]);
        }
        lemma_event_records_parse(rest, formats);
        let event = events[0];
        if bytes::le16(event.data, 0) == formats.submit_id {
            ftrace_event::submission_events_parse(
                event.data,
                event.timestamp_ns,
                formats.submit_fmt,
                0,
            );
        } else {
            ftrace_event::completion_events_parse(
                event.data,
                event.timestamp_ns,
                formats.complete_fmt,
                0,
            );
        }
        let all = event_records(events, formats);
        let others = event_records(rest, formats);
        assert forall|i: int| 0 <= i < all.len() implies record::checked_record(
            #[trigger] all[i],
            0,
        ) is Ok by {
            if event_record(event, formats) is Some {
                if i > 0 {
                    assert(all[i] == others[i - 1]);
                }
            } else {
                assert(all[i] == others[i]);
            }
        }
    }
}

/// What is made from a page reads back as a stream of records, one for each
/// event of interest, and nothing is wrong with it.
pub proof fn page_records_read_back(page: Seq<u8>, formats: EventFormats)
    requires
        page.len() == PAGE_SIZE,
        whole_submissions(page_events(page), formats),
    ensures
        ({
            let records = event_records(page_events(page), formats);
            &&& trace::bytes_of(trace::records_in(trace::joined(records), 0)) == records
            &&& trace::ending(trace::joined(records), 0) is None
        }),
{
    let commit = bytes::le32(page, 8) as int;
    if commit <= PAGE_SIZE - 16 {
        lemma_event_records_len(
            page.subrange(16, 16 + commit),
            0,
            bytes::le64(page, 0),
            formats,
        );
    }
    lemma_event_records_parse(page_events(page), formats);
    trace::joined_records_read_back(event_records(page_events(page), formats), 0);
}

} // verus!
