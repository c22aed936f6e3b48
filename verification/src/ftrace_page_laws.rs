//! What a page that was filled with events reads back as.

use crate::bytes;
use crate::ftrace_event;
use crate::ftrace_page::{self, Event, EventFormats};
use crate::record_laws;
use vstd::prelude::*;

verus! {

/// What can stand among the events of a page: an event of a few words, an event
/// of any length, more time than fits an event, and a new time.
pub enum Item {
    Words { delta: u32, data: Seq<u8> },
    Long { delta: u32, data: Seq<u8> },
    Extend { delta: u32, upper: u32 },
    Stamp { delta: u32, ts: u64 },
}

/// An item that can be written: its time fits 27 bits, its words are one to
/// twenty-eight, and its data are not empty.
pub open spec fn writable(item: Item) -> bool {
    match item {
        Item::Words { delta, data } => delta < 0x800_0000 && data.len() % 4 == 0 && 4 <= data.len()
            <= 112,
        Item::Long { delta, data } => delta < 0x800_0000 && 0 < data.len() <= u32::MAX,
        Item::Extend { delta, upper } => delta < 0x800_0000,
        Item::Stamp { delta, ts } => delta < 0x800_0000,
    }
}

/// The word in front of an item: its kind in the lowest five bits, and the time
/// that has passed in the others.
pub open spec fn lead(delta: u32, kind: int) -> Seq<u8> {
    bytes::le32_bytes((delta * 32 + kind) as u32)
}

/// The bytes of an item.
pub open spec fn item_bytes(item: Item) -> Seq<u8> {
    match item {
        Item::Words { delta, data } => lead(delta, data.len() as int / 4) + data,
        Item::Long { delta, data } => lead(delta, 0) + bytes::le32_bytes(data.len() as u32) + data,
        Item::Extend { delta, upper } => lead(delta, 29) + bytes::le32_bytes(upper),
        Item::Stamp { delta, ts } => lead(delta, 30) + bytes::le64_bytes(ts),
    }
}

/// The bytes of items, one behind the other.
pub open spec fn items_bytes(items: Seq<Item>) -> Seq<u8>
    decreases items.len(),
{
    if items.len() == 0 {
        seq![]
    } else {
        item_bytes(items[0]) + items_bytes(items.drop_first())
    }
}

/// The time after an item.
pub open spec fn time_after(item: Item, ts: u64) -> u64 {
    match item {
        Item::Words { delta, data } => ((ts + delta) % 0x1_0000_0000_0000_0000) as u64,
        Item::Long { delta, data } => ((ts + delta) % 0x1_0000_0000_0000_0000) as u64,
        Item::Extend { delta, upper } => ((ts + delta + upper * 0x800_0000)
            % 0x1_0000_0000_0000_0000) as u64,
        Item::Stamp { delta, ts: new } => new,
    }
}

/// The events that items hold, with their times.
pub open spec fn events_of(items: Seq<Item>, ts: u64) -> Seq<Event>
    decreases items.len(),
{
    if items.len() == 0 {
        seq![]
    } else {
        let time = time_after(items[0], ts);
        let rest = events_of(items.drop_first(), time);
        match items[0] {
            Item::Words { delta, data } => seq![Event { timestamp_ns: time, data }] + rest,
            Item::Long { delta, data } => seq![Event { timestamp_ns: time, data }] + rest,
            _ => rest,
        }
    }
}

/// What ends the events of a page: too little for a word, padding, or an item that
/// the end cuts short or that has no data.
pub open spec fn ends_events(rest: Seq<u8>) -> bool {
    let kind = bytes::le32(rest, 0) % 32;
    let len = bytes::le32(rest, 4);
    ||| rest.len() < 4
    ||| kind == 31
    ||| kind == 30 && rest.len() < 12
    ||| kind == 29 && rest.len() < 8
    ||| kind == 0 && rest.len() < 8
    ||| kind == 0 && len == 0
    ||| kind == 0 && rest.len() < 8 + len
    ||| 1 <= kind <= 28 && rest.len() < 4 + 4 * kind
}

proof fn lemma_lead(data: Seq<u8>, pos: int, delta: u32, kind: int)
    requires
        0 <= pos,
        pos + 4 <= data.len(),
        delta < 0x800_0000,
        0 <= kind < 32,
        data.subrange(pos, pos + 4) == lead(delta, kind),
    ensures
        bytes::le32(data, pos) % 32 == kind,
        bytes::le32(data, pos) / 32 == delta,
{
    bytes::lemma_le32_at(data, pos, (delta * 32 + kind) as u32);
}

proof fn lemma_word_here(data: Seq<u8>, pos: int, whole: Seq<u8>, at: int)
    requires
        0 <= pos <= data.len(),
        data.skip(pos) == whole,
        0 <= at,
        at + 4 <= whole.len(),
    ensures
        data.subrange(pos + at, pos + at + 4) == whole.subrange(at, at + 4),
        bytes::le32(data, pos + at) == bytes::le32(whole, at),
{
    assert(data.subrange(pos + at, pos + at + 4) =~= data.skip(pos).subrange(at, at + 4));
}

/// An item in front of the rest is read as it was written.
#[verifier::rlimit(50)]
#[verifier::spinoff_prover]
proof fn lemma_item_step(data: Seq<u8>, pos: int, ts: u64, item: Item, rest: Seq<u8>)
    requires
        0 <= pos <= data.len(),
        writable(item),
        data.skip(pos) == item_bytes(item) + rest,
    ensures
        ({
            let next = pos + item_bytes(item).len();
            &&& pos < next <= data.len()
            &&& data.skip(next) == rest
            &&& match ftrace_page::step_at(data, pos, ts) {
                ftrace_page::Step::End => false,
                ftrace_page::Step::Time { next: to, ts: time } => {
                    &&& item is Extend || item is Stamp
                    &&& to == next
                    &&& time == time_after(item, ts)
                },
                ftrace_page::Step::Data { from, to, ts: time } => {
                    &&& to == next
                    &&& time == time_after(item, ts)
                    &&& match item {
                        Item::Words { delta, data: told } => data.subrange(from, to) == told,
                        Item::Long { delta, data: told } => data.subrange(from, to) == told,
                        _ => false,
                    }
                },
            }
        }),
{
    broadcast use crate::bytes::lemma_le_bytes_len;

    let whole = item_bytes(item) + rest;
    let next = pos + item_bytes(item).len();
    assert(data.skip(pos).len() == data.len() - pos);
    assert(data.skip(next) =~= data.skip(pos).skip(item_bytes(item).len() as int));
    assert(whole.skip(item_bytes(item).len() as int) =~= rest);
    assert(data.subrange(pos, pos + 4) =~= whole.subrange(0, 4));
    match item {
        Item::Words { delta, data: told } => {
            let kind = told.len() as int / 4;
            assert(whole.subrange(0, 4) =~= lead(delta, kind));
            lemma_lead(data, pos, delta, kind);
            assert(data.subrange(pos + 4, next) =~= told) by {
                assert(data.subrange(pos + 4, next) =~= whole.subrange(4, 4int + told.len()));
                assert(whole.subrange(4, 4int + told.len()) =~= told);
            }
        },
        Item::Long { delta, data: told } => {
            assert(whole.subrange(0, 4) =~= lead(delta, 0));
            lemma_lead(data, pos, delta, 0);
            assert(data.subrange(pos + 4, pos + 8) =~= whole.subrange(4, 8));
            assert(whole.subrange(4, 8) =~= bytes::le32_bytes(told.len() as u32));
            bytes::lemma_le32_at(data, pos + 4, told.len() as u32);
            assert(data.subrange(pos + 8, next) =~= told) by {
                assert(data.subrange(pos + 8, next) =~= whole.subrange(8, 8int + told.len()));
                assert(whole.subrange(8, 8int + told.len()) =~= told);
            }
        },
        Item::Extend { delta, upper } => {
            assert(whole.subrange(0, 4) =~= lead(delta, 29));
            lemma_lead(data, pos, delta, 29);
            assert(data.subrange(pos + 4, pos + 8) =~= whole.subrange(4, 8));
            assert(whole.subrange(4, 8) =~= bytes::le32_bytes(upper));
            bytes::lemma_le32_at(data, pos + 4, upper);
        },
        Item::Stamp { delta, ts: new } => {
            assert(whole.subrange(0, 4) =~= lead(delta, 30));
            lemma_lead(data, pos, delta, 30);
            assert(data.subrange(pos + 4, pos + 12) =~= whole.subrange(4, 12));
            assert(whole.subrange(4, 12) =~= bytes::le64_bytes(new));
            bytes::lemma_le64_at(data, pos + 4, new);
        },
    }
}

proof fn lemma_items(data: Seq<u8>, pos: int, ts: u64, items: Seq<Item>, rest: Seq<u8>)
    requires
        0 <= pos <= data.len(),
        forall|i: int| 0 <= i < items.len() ==> writable(#[trigger] items[i]),
        ends_events(rest),
        data.skip(pos) == items_bytes(items) + rest,
    ensures
        ftrace_page::events_from(data, pos, ts) == events_of(items, ts),
    decreases items.len(),
{
    if items.len() == 0 {
        assert(items_bytes(items) + rest =~= rest);
        assert(data.skip(pos).len() == data.len() - pos);
        if rest.len() >= 4 {
            lemma_word_here(data, pos, rest, 0);
            if rest.len() >= 8 {
                lemma_word_here(data, pos, rest, 4);
            }
        }
        assert(ftrace_page::step_at(data, pos, ts) is End);
    } else {
        let item = items[0];
        let others = items.drop_first();
        let time = time_after(item, ts);
        let behind = items_bytes(others) + rest;
        assert(items_bytes(items) + rest =~= item_bytes(item) + behind);
        assert(writable(items[0]));
        lemma_item_step(data, pos, ts, item, behind);
        assert forall|i: int| 0 <= i < others.len() implies writable(#[trigger] others[i]) by {
            assert(others[i] == items[i + 1]);
        }
        lemma_items(data, pos + item_bytes(item).len(), time, others, rest);
    }
}

/// A page reads back as the events that it was filled with, each with its own
/// bytes and at its own time: the time of the page and all that has passed since,
/// or what has passed since the last new time. What follows padding, or an item
/// cut short, is not read.
pub proof fn page_reads_back(page: Seq<u8>, items: Seq<Item>, rest: Seq<u8>)
    requires
        page.len() == 4096,
        forall|i: int| 0 <= i < items.len() ==> writable(#[trigger] items[i]),
        ends_events(rest),
        items_bytes(items).len() + rest.len() <= 4080,
        bytes::le32(page, 8) == items_bytes(items).len() + rest.len(),
        page.subrange(16, 16int + items_bytes(items).len() + rest.len()) == items_bytes(items) + rest,
    ensures
        ftrace_page::page_events(page) == events_of(items, bytes::le64(page, 0)),
{
    let data = page.subrange(16, 16int + items_bytes(items).len() + rest.len());
    assert(data.skip(0) =~= data);
    lemma_items(data, 0, bytes::le64(page, 0), items, rest);
}

/// A page that tells of more bytes in use than fit behind its first sixteen has no
/// events.
pub proof fn overfull_pages_have_no_events(page: Seq<u8>)
    requires
        bytes::le32(page, 8) > 4080,
    ensures
        ftrace_page::page_events(page).len() == 0,
{
}

/// The first two bytes of an event tell which it is: with the number of
/// submissions it makes the record of a submission, otherwise with the number of
/// completions that of a completion, and with any other number, or where it is
/// shorter, none.
pub proof fn first_two_bytes_tell_events_apart(event: Event, formats: EventFormats)
    ensures
        event.data.len() < 2 ==> ftrace_page::event_record(event, formats) is None,
        event.data.len() >= 2 ==> {
            let id = event.data[0] + 0x100 * event.data[1];
            &&& id == formats.submit_id ==> ftrace_page::event_record(event, formats)
                == ftrace_event::submit_record(
                event.data,
                event.timestamp_ns,
                formats.submit_fmt,
            )
            &&& id != formats.submit_id && id == formats.complete_id ==> ftrace_page::event_record(
                event,
                formats,
            ) == ftrace_event::complete_record(
                event.data,
                event.timestamp_ns,
                formats.complete_fmt,
            )
            &&& id != formats.submit_id && id != formats.complete_id ==> ftrace_page::event_record(
                event,
                formats,
            ) is None
        },
{
    if event.data.len() >= 2 {
        record_laws::le16_is_two_bytes(event.data, 0);
    }
}

/// The records of events come in the order of the events, one for each event that
/// makes one.
pub proof fn records_follow_their_events(events: Seq<Event>, event: Event, formats: EventFormats)
    ensures
        ftrace_page::event_records(seq![], formats).len() == 0,
        ftrace_page::event_records(events.push(event), formats) == match ftrace_page::event_record(
            event,
            formats,
        ) {
            Some(rec) => ftrace_page::event_records(events, formats).push(rec),
            None => ftrace_page::event_records(events, formats),
        },
    decreases events.len(),
{
    let all = events.push(event);
    if events.len() == 0 {
        assert(all.drop_first() =~= seq![]);
        assert(events =~= seq![]);
        assert(ftrace_page::event_records(seq![], formats) =~= seq![]);
    } else {
        let rest = events.drop_first();
        records_follow_their_events(rest, event, formats);
        assert(all.drop_first() =~= rest.push(event));
        assert(all[0] == events[0]);
        if let Some(first) = ftrace_page::event_record(events[0], formats) {
            if let Some(rec) = ftrace_page::event_record(event, formats) {
                assert(seq![first] + ftrace_page::event_records(rest, formats).push(rec) =~= (
                seq![first] + ftrace_page::event_records(rest, formats)).push(rec));
            }
        }
    }
}

} // verus!
