//! What holds of every splicing.

use crate::order;
use crate::record::{self, Header, RawRecordView, TraceRecordView};
use crate::splice::{self, Pick, Stream};
use crate::trace;
use vstd::prelude::*;

verus! {

/// The chosen records that came from one stream.
pub open spec fn of_source(picks: Seq<Pick>, source: int) -> Seq<RawRecordView>
    decreases picks.len(),
{
    if picks.len() == 0 {
        seq![]
    } else if picks[0].source == source {
        seq![picks[0].record] + of_source(picks.drop_first(), source)
    } else {
        of_source(picks.drop_first(), source)
    }
}

/// What splicing does first: it chooses a stream that has a record in front.
proof fn lemma_choice(streams: Seq<Stream>)
    ensures
        match splice::choice(streams) {
            Some(i) => {
                &&& 0 <= i < streams.len()
                &&& streams[i].records.len() > 0
                &&& splice::total(splice::moved_on(streams, i)) + 1 == splice::total(streams)
            },
            None => splice::total(streams) == 0 && forall|i: int|
                0 <= i < streams.len() ==> (#[trigger] streams[i]).records.len() == 0,
        },
{
    splice::lemma_first_of(
        splice::stream_names(streams),
        splice::fronts(streams),
        streams.len(),
    );
    match splice::choice(streams) {
        Some(i) => {
            assert(splice::fronts(streams)[i] is Some);
            splice::lemma_total_update(streams, i, splice::moved_on(streams, i)[i]);
        },
        None => {
            assert forall|i: int| 0 <= i < streams.len() implies (#[trigger] streams[i]).records.len()
                == 0 by {
                assert(splice::fronts(streams)[i] is None);
            }
            lemma_nothing_left(streams);
        },
    }
}

proof fn lemma_nothing_left(streams: Seq<Stream>)
    requires
        forall|i: int| 0 <= i < streams.len() ==> (#[trigger] streams[i]).records.len() == 0,
    ensures
        splice::total(streams) == 0,
    decreases streams.len(),
{
    if streams.len() > 0 {
        let front = streams.drop_last();
        assert forall|i: int| 0 <= i < front.len() implies (#[trigger] front[i]).records.len()
            == 0 by {
            assert(front[i] == streams[i]);
        }
        lemma_nothing_left(front);
    }
}

/// Splicing keeps the order within each stream: the records that it writes from
/// a stream are the first records of that stream, in their order, and all of
/// them unless something cuts the splicing short.
pub proof fn splicing_keeps_each_stream(streams: Seq<Stream>, i: int)
    requires
        0 <= i < streams.len(),
    ensures
        of_source(splice::picks(streams), i).is_prefix_of(streams[i].records),
        splice::cut_short(streams) is None ==> of_source(splice::picks(streams), i)
            == streams[i].records,
    decreases splice::total(streams),
{
    lemma_choice(streams);
    match splice::choice(streams) {
        None => {
            assert(streams[i].records =~= seq![]);
        },
        Some(c) => {
            let rest = splice::moved_on(streams, c);
            let all = splice::picks(streams);
            if splice::stuck(rest, c) is Some {
                assert(all.drop_first() =~= seq![]);
                assert(of_source(all.drop_first(), i) =~= seq![]);
            } else {
                splicing_keeps_each_stream(rest, i);
                assert(all.drop_first() =~= splice::picks(rest));
                if c == i {
                    assert(streams[i].records =~= seq![streams[i].records[0]]
                        + rest[i].records);
                }
            }
            if c == i {
                let front = seq![streams[i].records[0]];
                let taken = of_source(all.drop_first(), i);
                assert(taken.is_prefix_of(rest[i].records));
                assert(streams[i].records =~= front + rest[i].records);
                assert(rest[i].records.take(taken.len() as int) =~= taken);
                assert(streams[i].records.take(1int + taken.len()) =~= front + taken);
                assert(of_source(all, i) == front + taken);
            }
        },
    }
}

/// Unless something cuts it short, splicing writes as many records as the
/// streams hold.
pub proof fn splicing_writes_every_record(streams: Seq<Stream>)
    requires
        splice::cut_short(streams) is None,
    ensures
        splice::picks(streams).len() == splice::total(streams),
    decreases splice::total(streams),
{
    lemma_choice(streams);
    match splice::choice(streams) {
        None => {},
        Some(c) => {
            splicing_writes_every_record(splice::moved_on(streams, c));
        },
    }
}

/// Every chosen record is one of the records of the stream that it is said to
/// come from.
pub proof fn picks_come_from_their_streams(streams: Seq<Stream>)
    ensures
        forall|k: int|
            0 <= k < splice::picks(streams).len() ==> {
                let pick = #[trigger] splice::picks(streams)[k];
                &&& 0 <= pick.source < streams.len()
                &&& pick.name == streams[pick.source].name
                &&& streams[pick.source].records.contains(pick.record)
            },
    decreases splice::total(streams),
{
    lemma_choice(streams);
    match splice::choice(streams) {
        None => {},
        Some(c) => {
            let rest = splice::moved_on(streams, c);
            let all = splice::picks(streams);
            if splice::stuck(rest, c) is None {
                picks_come_from_their_streams(rest);
            }
            assert forall|k: int| 0 <= k < all.len() implies {
                let pick = #[trigger] all[k];
                &&& 0 <= pick.source < streams.len()
                &&& pick.name == streams[pick.source].name
                &&& streams[pick.source].records.contains(pick.record)
            } by {
                if k == 0 {
                    assert(streams[c].records[0] == all[0].record);
                } else {
                    let pick = splice::picks(rest)[k - 1];
                    assert(all[k] == pick);
                    let a = choose|a: int|
                        0 <= a < rest[pick.source].records.len()
                            && rest[pick.source].records[a] == pick.record;
                    if pick.source == c {
                        assert(streams[c].records[a + 1] == pick.record);
                    }
                }
            }
        },
    }
}

/// The timestamps of all records agree with the order within each controller.
pub open spec fn agreeing(streams: Seq<Stream>) -> bool {
    forall|i: int, j: int, a: int, b: int|
        #![trigger streams[i].records[a], streams[j].records[b]]
        0 <= i < streams.len() && 0 <= j < streams.len() && 0 <= a < streams[i].records.len() && 0
            <= b < streams[j].records.len() ==> order::timestamps_agree(
            streams[i].records[a].header,
            streams[j].records[b].header,
        )
}

/// The records of all streams belong to one controller.
pub open spec fn one_controller(streams: Seq<Stream>, ctrl_id: u8) -> bool {
    forall|i: int, a: int|
        #![trigger streams[i].records[a]]
        0 <= i < streams.len() && 0 <= a < streams[i].records.len()
            ==> streams[i].records[a].header.ctrl_id == ctrl_id
}

/// Tells whether a header is that of a record of the streams.
pub open spec fn occurs(streams: Seq<Stream>, header: Header) -> bool {
    exists|i: int, a: int|
        #![trigger streams[i].records[a]]
        0 <= i < streams.len() && 0 <= a < streams[i].records.len()
            && streams[i].records[a].header == header
}

/// Among the records of the streams, not to come later is transitive.
pub open spec fn transitive(streams: Seq<Stream>) -> bool {
    forall|a: Header, b: Header, c: Header|
        #![trigger occurs(streams, a), occurs(streams, b), occurs(streams, c)]
        occurs(streams, a) && occurs(streams, b) && occurs(streams, c) && !order::before(b, a)
            && !order::before(c, b) ==> !order::before(c, a)
}

/// The order is transitive where timestamps agree with the order within each
/// controller.
pub proof fn agreeing_streams_are_transitive(streams: Seq<Stream>)
    requires
        agreeing(streams),
    ensures
        transitive(streams),
{
    assert forall|a: Header, b: Header, c: Header|
        #![trigger occurs(streams, a), occurs(streams, b), occurs(streams, c)]
        occurs(streams, a) && occurs(streams, b) && occurs(streams, c) && !order::before(b, a)
            && !order::before(c, b) implies !order::before(c, a) by {
        order::order_is_transitive(a, b, c);
    }
}

/// The order is transitive where all records belong to one controller, whatever
/// their timestamps are.
pub proof fn streams_of_one_controller_are_transitive(streams: Seq<Stream>, ctrl_id: u8)
    requires
        one_controller(streams, ctrl_id),
    ensures
        transitive(streams),
{
    assert forall|a: Header, b: Header, c: Header|
        #![trigger occurs(streams, a), occurs(streams, b), occurs(streams, c)]
        occurs(streams, a) && occurs(streams, b) && occurs(streams, c) && !order::before(b, a)
            && !order::before(c, b) implies !order::before(c, a) by {
        order::order_in_controller_is_transitive(a, b, c);
    }
}

/// No record comes before an earlier one.
pub open spec fn in_order(records: Seq<RawRecordView>) -> bool {
    forall|a: int, b: int|
        #![trigger records[a], records[b]]
        0 <= a < b < records.len() ==> !order::before(records[b].header, records[a].header)
}

/// Every stream is in order.
pub open spec fn each_in_order(streams: Seq<Stream>) -> bool {
    forall|i: int| 0 <= i < streams.len() ==> in_order(#[trigger] streams[i].records)
}

/// The chosen records are in order.
pub open spec fn picks_in_order(picks: Seq<Pick>) -> bool {
    forall|a: int, b: int|
        #![trigger picks[a], picks[b]]
        0 <= a < b < picks.len() ==> !order::before(
            picks[b].record.header,
            picks[a].record.header,
        )
}

proof fn lemma_first_of_is_least(streams: Seq<Stream>, n: nat)
    requires
        n <= streams.len(),
        transitive(streams),
    ensures
        splice::first_of(
            splice::stream_names(streams),
            splice::fronts(streams),
            n,
        ) matches Some(i) ==> forall|j: int|
            0 <= j < n && streams[j].records.len() > 0 ==> !order::before(
                (#[trigger] streams[j]).records[0].header,
                streams[i].records[0].header,
            ),
    decreases n,
{
    let names = splice::stream_names(streams);
    let fronts = splice::fronts(streams);
    if n > 0 {
        let m = (n - 1) as nat;
        lemma_first_of_is_least(streams, m);
        splice::lemma_first_of(names, fronts, m);
        splice::lemma_first_of(names, fronts, n);
        let best = splice::first_of(names, fronts, m);
        match splice::first_of(names, fronts, n) {
            Some(i) => {
                assert(fronts[i] is Some);
                assert forall|j: int| 0 <= j < n && streams[j].records.len() > 0 implies
                    !order::before(
                    (#[trigger] streams[j]).records[0].header,
                    streams[i].records[0].header,
                ) by {
                    let last = n - 1;
                    order::order_is_asymmetric(
                        streams[j].records[0].header,
                        streams[j].records[0].header,
                    );
                    if j == last {
                        assert(fronts[j] is Some);
                        if i != last {
                            assert(best == Some(i));
                            assert(fronts[i] == Some(streams[i].records[0]));
                        }
                    } else {
                        assert(fronts[j] is Some);
                        let b = best.unwrap();
                        assert(fronts[b] == Some(streams[b].records[0]));
                        assert(!order::before(
                            streams[j].records[0].header,
                            streams[b].records[0].header,
                        ));
                        if i == last {
                            assert(fronts[i] == Some(streams[i].records[0]));
                            order::order_is_asymmetric(
                                streams[i].records[0].header,
                                streams[b].records[0].header,
                            );
                            assert(occurs(streams, streams[i].records[0].header));
                            assert(occurs(streams, streams[b].records[0].header));
                            assert(occurs(streams, streams[j].records[0].header));
                        }
                    }
                }
            },
            None => {},
        }
    }
}

/// Where the order of the records is transitive, splicing streams that are in
/// order gives a stream that is in order.
pub proof fn splicing_sorts(streams: Seq<Stream>)
    requires
        transitive(streams),
        each_in_order(streams),
    ensures
        picks_in_order(splice::picks(streams)),
    decreases splice::total(streams),
{
    lemma_choice(streams);
    match splice::choice(streams) {
        None => {},
        Some(c) => {
            let rest = splice::moved_on(streams, c);
            let all = splice::picks(streams);
            if splice::stuck(rest, c) is None {
                assert forall|i: int| 0 <= i < rest.len() implies in_order(
                    #[trigger] rest[i].records,
                ) by {
                    assert(in_order(streams[i].records));
                    if i == c {
                        assert forall|a: int, b: int|
                            0 <= a < b < rest[i].records.len() implies !order::before(
                            #[trigger] rest[i].records[b].header,
                            #[trigger] rest[i].records[a].header,
                        ) by {
                            assert(rest[i].records[a] == streams[i].records[a + 1]);
                            assert(rest[i].records[b] == streams[i].records[b + 1]);
                        }
                    }
                }
                assert(transitive(rest)) by {
                    assert forall|h: Header| #[trigger] occurs(rest, h) implies occurs(
                        streams,
                        h,
                    ) by {
                        let (i, a) = choose|i: int, a: int|
                            #![trigger rest[i].records[a]]
                            0 <= i < rest.len() && 0 <= a < rest[i].records.len()
                                && rest[i].records[a].header == h;
                        let x = if i == c {
                            a + 1
                        } else {
                            a
                        };
                        assert(rest[i].records[a] == streams[i].records[x]);
                    }
                }
                splicing_sorts(rest);
                picks_come_from_their_streams(rest);
                lemma_first_of_is_least(streams, streams.len());
                let first = streams[c].records[0];
                assert forall|a: int, b: int| 0 <= a < b < all.len() implies !order::before(
                    (#[trigger] all[b]).record.header,
                    (#[trigger] all[a]).record.header,
                ) by {
                    let pick = splice::picks(rest)[b - 1];
                    assert(all[b] == pick);
                    if a == 0 {
                        let j = pick.source;
                        let k = choose|k: int|
                            0 <= k < rest[j].records.len() && rest[j].records[k] == pick.record;
                        let at = if j == c {
                            k + 1
                        } else {
                            k
                        };
                        assert(streams[j].records[at] == pick.record);
                        assert(in_order(streams[j].records));
                        let front = streams[j].records[0];
                        assert(!order::before(front.header, first.header));
                        if at > 0 {
                            assert(!order::before(streams[j].records[at].header, front.header));
                        }
                        order::order_is_asymmetric(front.header, front.header);
                        assert(occurs(streams, first.header));
                        assert(occurs(streams, front.header));
                        assert(occurs(streams, pick.record.header));
                    } else {
                        assert(all[a] == splice::picks(rest)[a - 1]);
                    }
                }
            }
        },
    }
}

/// Within every controller the sequence numbers increase.
pub open spec fn sequences_increase(picks: Seq<Pick>) -> bool {
    forall|a: int, b: int|
        #![trigger picks[a], picks[b]]
        0 <= a < b < picks.len() && picks[a].record.header.ctrl_id
            == picks[b].record.header.ctrl_id ==> picks[a].record.header.seq
            < picks[b].record.header.seq
}

proof fn lemma_last_seq(picks: Seq<Pick>, ctrl_id: u8)
    ensures
        match splice::last_seq(picks, ctrl_id) {
            Some(seq) => exists|k: int|
                0 <= k < picks.len() && (#[trigger] picks[k]).record.header.ctrl_id == ctrl_id
                    && picks[k].record.header.seq == seq && forall|j: int|
                    k < j < picks.len() ==> (#[trigger] picks[j]).record.header.ctrl_id != ctrl_id,
            None => forall|k: int|
                0 <= k < picks.len() ==> (#[trigger] picks[k]).record.header.ctrl_id != ctrl_id,
        },
    decreases picks.len(),
{
    if picks.len() > 0 {
        let front = picks.drop_last();
        lemma_last_seq(front, ctrl_id);
        let last = picks.len() - 1;
        if picks[last].record.header.ctrl_id != ctrl_id {
            match splice::last_seq(front, ctrl_id) {
                Some(seq) => {
                    let k = choose|k: int|
                        0 <= k < front.len() && (#[trigger] front[k]).record.header.ctrl_id
                            == ctrl_id && front[k].record.header.seq == seq && forall|j: int|
                            k < j < front.len() ==> (#[trigger] front[j]).record.header.ctrl_id
                                != ctrl_id;
                    assert(picks[k] == front[k]);
                    assert forall|j: int| k < j < picks.len() implies (
                    #[trigger] picks[j]).record.header.ctrl_id != ctrl_id by {
                        if j < last {
                            assert(front[j] == picks[j]);
                        }
                    }
                },
                None => {
                    assert forall|k: int| 0 <= k < picks.len() implies (
                    #[trigger] picks[k]).record.header.ctrl_id != ctrl_id by {
                        if k < last {
                            assert(front[k] == picks[k]);
                        }
                    }
                },
            }
        } else {
            assert(picks[last].record.header.seq == splice::last_seq(picks, ctrl_id).unwrap());
        }
    }
}

/// Splicing is silent exactly when, within every controller, the sequence
/// numbers of the records that it writes increase.
pub proof fn silent_when_sequences_increase(picks: Seq<Pick>)
    ensures
        splice::warnings(picks).len() == 0 <==> sequences_increase(picks),
    decreases picks.len(),
{
    if picks.len() > 0 {
        let front = picks.drop_last();
        let last = picks.len() - 1;
        let ctrl_id = picks[last].record.header.ctrl_id;
        let seq = picks[last].record.header.seq;
        silent_when_sequences_increase(front);
        lemma_last_seq(front, ctrl_id);
        if sequences_increase(picks) {
            assert forall|a: int, b: int|
                #![trigger front[a], front[b]]
                0 <= a < b < front.len() && front[a].record.header.ctrl_id
                    == front[b].record.header.ctrl_id implies front[a].record.header.seq
                < front[b].record.header.seq by {
                assert(front[a] == picks[a] && front[b] == picks[b]);
            }
            match splice::last_seq(front, ctrl_id) {
                Some(previous) => {
                    let k = choose|k: int|
                        0 <= k < front.len() && (#[trigger] front[k]).record.header.ctrl_id
                            == ctrl_id && front[k].record.header.seq == previous;
                    assert(front[k] == picks[k]);
                },
                None => {},
            }
        }
        if splice::warnings(picks).len() == 0 {
            assert(splice::warnings(front).len() == 0);
            assert forall|a: int, b: int|
                #![trigger picks[a], picks[b]]
                0 <= a < b < picks.len() && picks[a].record.header.ctrl_id
                    == picks[b].record.header.ctrl_id implies picks[a].record.header.seq
                < picks[b].record.header.seq by {
                assert(front[a] == picks[a]);
                if b < last {
                    assert(front[b] == picks[b]);
                } else {
                    match splice::last_seq(front, ctrl_id) {
                        Some(previous) => {
                            let k = choose|k: int|
                                0 <= k < front.len() && (
                                #[trigger] front[k]).record.header.ctrl_id == ctrl_id
                                    && front[k].record.header.seq == previous && forall|j: int|
                                    k < j < front.len() ==> (
                                    #[trigger] front[j]).record.header.ctrl_id != ctrl_id;
                            assert(previous < seq);
                            if a < k {
                                assert(front[a].record.header.seq < front[k].record.header.seq);
                            }
                        },
                        None => {},
                    }
                }
            }
        }
    }
}

/// Records that stand for their own bytes.
pub open spec fn parsed(records: Seq<RawRecordView>) -> bool {
    forall|k: int|
        0 <= k < records.len() ==> record::checked_record(
            (#[trigger] records[k]).bytes,
            records[k].offset,
        ) == Ok::<RawRecordView, crate::error::TraceError>(records[k])
}

/// The records read from a stream stand for their own bytes.
pub proof fn records_in_are_parsed(input: Seq<u8>, offset: u64)
    ensures
        parsed(trace::records_in(input, offset)),
    decreases input.len(),
{
    trace::lemma_first_record(input, offset);
    match crate::stream::first_record(input, offset) {
        Ok(Some(raw)) => {
            let n = raw.bytes.len() as int;
            records_in_are_parsed(input.skip(n), (offset + n) as u64);
            let rest = trace::records_in(input.skip(n), (offset + n) as u64);
            let all = trace::records_in(input, offset);
            assert forall|k: int| 0 <= k < all.len() implies record::checked_record(
                (#[trigger] all[k]).bytes,
                all[k].offset,
            ) == Ok::<RawRecordView, crate::error::TraceError>(all[k]) by {
                if k > 0 {
                    assert(all[k] == rest[k - 1]);
                }
            }
        },
        _ => {},
    }
}

/// The bytes of each chosen record.
pub open spec fn picked_parts(picks: Seq<Pick>) -> Seq<Seq<u8>> {
    picks.map_values(|pick: Pick| pick.record.bytes)
}

/// What each chosen record holds.
pub open spec fn picked_contents(picks: Seq<Pick>) -> Seq<TraceRecordView> {
    picks.map_values(|pick: Pick| pick.record.record)
}

proof fn lemma_pick_bytes_join(picks: Seq<Pick>)
    ensures
        splice::pick_bytes(picks) == trace::joined(picked_parts(picks)),
    decreases picks.len(),
{
    if picks.len() > 0 {
        lemma_pick_bytes_join(picks.drop_last());
        lemma_join_last(picked_parts(picks));
        assert(picked_parts(picks).drop_last() =~= picked_parts(picks.drop_last()));
    }
}

proof fn lemma_join_last(parts: Seq<Seq<u8>>)
    requires
        parts.len() > 0,
    ensures
        trace::joined(parts) == trace::joined(parts.drop_last()) + parts.last(),
    decreases parts.len(),
{
    if parts.len() == 1 {
        assert(parts.drop_first() =~= seq![]);
        assert(parts.drop_last() =~= seq![]);
        assert(trace::joined(parts.drop_first()) =~= seq![]);
        assert(trace::joined(parts.drop_last()) =~= seq![]);
        assert(trace::joined(parts) =~= parts.last());
    } else {
        lemma_join_last(parts.drop_first());
        assert(parts.drop_first().drop_last() =~= parts.drop_last().drop_first());
        assert(parts.drop_last()[0] == parts[0]);
        assert(trace::joined(parts) =~= trace::joined(parts.drop_last()) + parts.last());
    }
}

proof fn lemma_picks_read_back(picks: Seq<Pick>)
    requires
        forall|k: int|
            0 <= k < picks.len() ==> record::checked_record(
                (#[trigger] picks[k]).record.bytes,
                picks[k].record.offset,
            ) == Ok::<RawRecordView, crate::error::TraceError>(picks[k].record),
        splice::pick_bytes(picks).len() <= u64::MAX,
    ensures
        trace::bytes_of(trace::records_in(splice::pick_bytes(picks), 0)) == picked_parts(picks),
        trace::raw_contents(trace::records_in(splice::pick_bytes(picks), 0)) == picked_contents(
            picks,
        ),
        trace::ending(splice::pick_bytes(picks), 0) is None,
{
    lemma_pick_bytes_join(picks);
    let parts = picked_parts(picks);
    assert forall|k: int| 0 <= k < parts.len() implies record::checked_record(
        #[trigger] parts[k],
        0,
    ) is Ok by {
        assert(record::checked_record(picks[k].record.bytes, picks[k].record.offset) is Ok);
    }
    trace::joined_records_read_back(parts, 0);
    let input = splice::pick_bytes(picks);
    let back = trace::records_in(input, 0);
    records_in_are_parsed(input, 0);
    assert(trace::bytes_of(back).len() == back.len());
    assert forall|k: int| 0 <= k < back.len() implies (#[trigger] back[k]).record
        == picks[k].record.record by {
        assert(trace::bytes_of(back)[k] == parts[k]);
        assert(record::checked_record(back[k].bytes, back[k].offset) == Ok::<
            RawRecordView,
            crate::error::TraceError,
        >(back[k]));
        assert(record::checked_record(picks[k].record.bytes, picks[k].record.offset) == Ok::<
            RawRecordView,
            crate::error::TraceError,
        >(picks[k].record));
    }
    assert(trace::raw_contents(back) =~= picked_contents(picks));
}

/// A spliced stream reads back: what splicing writes holds the chosen records,
/// in the order in which they were chosen, and nothing is wrong with it, even
/// where something cuts the splicing short.
pub proof fn spliced_stream_reads_back(streams: Seq<Stream>)
    requires
        forall|i: int| 0 <= i < streams.len() ==> parsed(#[trigger] streams[i].records),
        splice::pick_bytes(splice::picks(streams)).len() <= u64::MAX,
    ensures
        ({
            let picks = splice::picks(streams);
            let output = splice::pick_bytes(picks);
            &&& trace::bytes_of(trace::records_in(output, 0)) == picked_parts(picks)
            &&& trace::raw_contents(trace::records_in(output, 0)) == picked_contents(picks)
            &&& trace::ending(output, 0) is None
        }),
{
    let picks = splice::picks(streams);
    picks_come_from_their_streams(streams);
    assert forall|k: int| 0 <= k < picks.len() implies record::checked_record(
        (#[trigger] picks[k]).record.bytes,
        picks[k].record.offset,
    ) == Ok::<RawRecordView, crate::error::TraceError>(picks[k].record) by {
        let records = streams[picks[k].source].records;
        assert(records.contains(picks[k].record));
        let a = choose|a: int| 0 <= a < records.len() && records[a] == picks[k].record;
        assert(parsed(records));
        assert(records[a] == picks[k].record);
    }
    lemma_picks_read_back(picks);
}

} // verus!
