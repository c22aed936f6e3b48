//! What the rows of a throughput hold.

use crate::commands::{self, CommandKey};
use crate::encoding;
use crate::record::TraceRecordView;
use crate::sample_laws;
use crate::text;
use crate::text_laws;
use crate::throughput::{self, ThroughputRow};
use vstd::prelude::*;

verus! {

/// The time of a record.
pub open spec fn time_of(record: TraceRecordView) -> u64 {
    match record {
        TraceRecordView::Submit(submit) => submit.header.timestamp_ns,
        TraceRecordView::Complete(complete) => complete.header.timestamp_ns,
    }
}

/// The offset of a record is the time since the first one, and nothing for a
/// record before it.
pub proof fn offsets_count_from_the_first_record(
    records: Seq<TraceRecordView>,
    record: TraceRecordView,
)
    requires
        records.len() > 0,
    ensures
        time_of(record) >= time_of(records[0]) ==> time_of(records[0]) + throughput::offset_of(
            records,
            record,
        ) == time_of(record),
        time_of(record) < time_of(records[0]) ==> throughput::offset_of(records, record) == 0,
{
}

/// The data of the command that record `i` completes, if the command was
/// outstanding.
pub open spec fn completed_data(records: Seq<TraceRecordView>, i: int) -> Option<u32> {
    match records[i] {
        TraceRecordView::Complete(complete) => {
            let open = commands::outstanding(records.take(i));
            let key = CommandKey {
                ctrl_id: complete.header.ctrl_id,
                qid: complete.header.qid,
                cid: complete.header.cid,
            };
            if open.contains_key(key) {
                Some(open[key])
            } else {
                None
            }
        },
        TraceRecordView::Submit(_) => None,
    }
}

/// Record `i` falls into the stretch of time from `start` on.
pub open spec fn falls_in(
    records: Seq<TraceRecordView>,
    i: int,
    start: u64,
    scale_ns: u64,
) -> bool {
    let since = time_of(records[i]) - time_of(records[0]);
    if since < 0 {
        start == 0
    } else {
        start <= since < start + scale_ns
    }
}

/// Record `i` completes an outstanding command in the stretch of time from
/// `start` on.
pub open spec fn completes_in(
    records: Seq<TraceRecordView>,
    i: int,
    start: u64,
    scale_ns: u64,
) -> bool {
    &&& 0 <= i < records.len()
    &&& completed_data(records, i) is Some
    &&& falls_in(records, i, start, scale_ns)
}

/// The data of the commands that the first `n` records complete in the stretch
/// of time from `start` on.
pub open spec fn data_in(
    records: Seq<TraceRecordView>,
    start: u64,
    scale_ns: u64,
    n: nat,
) -> nat
    decreases n,
{
    if n == 0 {
        0
    } else {
        data_in(records, start, scale_ns, (n - 1) as nat) + if completes_in(
            records,
            n - 1,
            start,
            scale_ns,
        ) {
            completed_data(records, n - 1).unwrap() as nat
        } else {
            0nat
        }
    }
}

proof fn lemma_bucket(offset: u64, start: u64, scale_ns: u64)
    requires
        scale_ns > 0,
        start % scale_ns == 0,
    ensures
        (offset as int / scale_ns as int * scale_ns) as u64 == start <==> start <= offset < start
            + scale_ns,
{
    let o = offset as int;
    let s = scale_ns as int;
    let t = start as int;
    let q = o / s;
    let p = t / s;
    vstd::arithmetic::div_mod::lemma_fundamental_div_mod(o, s);
    vstd::arithmetic::div_mod::lemma_fundamental_div_mod(t, s);
    vstd::arithmetic::div_mod::lemma_mod_bound(o, s);
    assert(q * s == s * q) by (nonlinear_arith);
    assert(0 <= q) by (nonlinear_arith)
        requires
            q == o / s,
            s > 0,
            o >= 0,
    ;
    assert(0 <= s * q) by (nonlinear_arith)
        requires
            0 <= q,
            s > 0,
    ;
    assert(s * q <= o);
    assert(t == s * p);
    if t <= o < t + s {
        assert(q == p) by (nonlinear_arith)
            requires
                s * p <= o,
                o < s * p + s,
                s * q <= o,
                o < s * q + s,
                s > 0,
        ;
    }
}

proof fn lemma_bytes_in(records: Seq<TraceRecordView>, start: u64, scale_ns: u64, n: nat)
    requires
        scale_ns > 0,
        start % scale_ns == 0,
        n <= records.len(),
    ensures
        ({
            let bytes = throughput::bytes_in(records.take(n as int), scale_ns, start);
            &&& bytes is Some <==> exists|i: int| #[trigger]
                completes_in(records, i, start, scale_ns) && i < n
            &&& bytes is Some ==> bytes == Some(data_in(records, start, scale_ns, n))
            &&& bytes is None ==> data_in(records, start, scale_ns, n) == 0
        }),
    decreases n,
{
    let now = records.take(n as int);
    if n > 0 {
        let m = (n - 1) as nat;
        let front = records.take(m as int);
        lemma_bytes_in(records, start, scale_ns, m);
        assert(now.drop_last() =~= front);
        assert(now.last() == records[n - 1]);
        assert(now[0] == records[0]);
        offsets_count_from_the_first_record(now, now.last());
        lemma_bucket(throughput::offset_of(now, now.last()), start, scale_ns);
        let mine = completes_in(records, n - 1, start, scale_ns);
        let done = throughput::completed_last(now, scale_ns, start);
        match records[n - 1] {
            TraceRecordView::Complete(complete) => {
                let key = CommandKey {
                    ctrl_id: complete.header.ctrl_id,
                    qid: complete.header.qid,
                    cid: complete.header.cid,
                };
                assert(key == commands::command_of(encoding::header_of_view(now.last())));
            },
            TraceRecordView::Submit(_) => {},
        }
        assert(mine <==> done is Some);
        assert(mine ==> done == completed_data(records, n - 1));
        let before = throughput::bytes_in(front, scale_ns, start);
        if before is Some {
            let i = choose|i: int| #[trigger]
                completes_in(records, i, start, scale_ns) && i < m;
            assert(completes_in(records, i, start, scale_ns) && i < n);
        }
    }
}

/// A row starts at a whole number of scales after the first record and holds the
/// data of all commands completed from then on until the next row could start.
/// Every completion of an outstanding command falls into a row, and every row has
/// such a completion.
pub proof fn rows_hold_the_data_of_their_time(
    rows: Seq<ThroughputRow>,
    records: Seq<TraceRecordView>,
    scale_ns: u64,
)
    requires
        scale_ns > 0,
        throughput::throughput_of(rows, records, scale_ns),
    ensures
        forall|k: int|
            0 <= k < rows.len() ==> {
                let row = #[trigger] rows[k];
                &&& row.time_ns % scale_ns == 0
                &&& row.bytes == data_in(records, row.time_ns, scale_ns, records.len())
                &&& exists|i: int| #[trigger] completes_in(records, i, row.time_ns, scale_ns)
            },
        forall|i: int|
            0 <= i < records.len() && (#[trigger] completed_data(records, i)) is Some
                ==> exists|k: int|
                0 <= k < rows.len() && completes_in(
                    records,
                    i,
                    (#[trigger] rows[k]).time_ns,
                    scale_ns,
                ),
{
    assert(records.take(records.len() as int) =~= records);
    throughput::rows_start_on_the_scale(rows, records, scale_ns);
    assert forall|k: int| 0 <= k < rows.len() implies {
        let row = #[trigger] rows[k];
        &&& row.time_ns % scale_ns == 0
        &&& row.bytes == data_in(records, row.time_ns, scale_ns, records.len())
        &&& exists|i: int| #[trigger] completes_in(records, i, row.time_ns, scale_ns)
    } by {
        lemma_bytes_in(records, rows[k].time_ns, scale_ns, records.len());
    }
    assert forall|i: int|
        0 <= i < records.len() && (#[trigger] completed_data(records, i)) is Some implies exists|
        k: int,
    |
        0 <= k < rows.len() && completes_in(
            records,
            i,
            (#[trigger] rows[k]).time_ns,
            scale_ns,
        ) by {
        let offset = throughput::offset_of(records, records[i]);
        let start = throughput::bucket_of(records, records[i], scale_ns);
        lemma_start(offset, scale_ns);
        offsets_count_from_the_first_record(records, records[i]);
        lemma_bucket(offset, start, scale_ns);
        lemma_bytes_in(records, start, scale_ns, records.len());
        assert(completes_in(records, i, start, scale_ns));
        let k = choose|k: int| 0 <= k < rows.len() && (#[trigger] rows[k]).time_ns == start;
        assert(completes_in(records, i, rows[k].time_ns, scale_ns));
    }
}

proof fn lemma_start(offset: u64, scale_ns: u64)
    requires
        scale_ns > 0,
    ensures
        ((offset as int / scale_ns as int * scale_ns) as u64) % scale_ns == 0,
{
    let o = offset as int;
    let s = scale_ns as int;
    let q = o / s;
    vstd::arithmetic::div_mod::lemma_fundamental_div_mod(o, s);
    vstd::arithmetic::div_mod::lemma_mod_bound(o, s);
    assert(q * s == s * q) by (nonlinear_arith);
    assert(0 <= q) by (nonlinear_arith)
        requires
            q == o / s,
            s > 0,
            o >= 0,
    ;
    assert(0 <= s * q) by (nonlinear_arith)
        requires
            0 <= q,
            s > 0,
    ;
    vstd::arithmetic::div_mod::lemma_mod_multiples_basic(q, s);
}

/// A line tells the time of a row and a rate.
pub open spec fn tells_rate(line: Seq<char>, row: ThroughputRow, rate: Seq<char>) -> bool {
    let cols = sample_laws::columns(line);
    cols.len() == 2 && sample_laws::says(cols[0], row.time_ns as nat) && cols[1] == rate
}

/// What is written of rows reads back: a heading, and a line for each row with
/// its time and its rate.
pub proof fn lines_read_back(rows: Seq<ThroughputRow>, rates: Seq<String>)
    requires
        rows.len() <= rates.len(),
        forall|i: int|
            0 <= i < rates.len() ==> text_laws::lacks((#[trigger] rates[i])@, '\t')
                && text_laws::lacks(rates[i]@, '\n') && text_laws::lacks(rates[i]@, '\r'),
    ensures
        ({
            let written = throughput::lines_text(rows, rates);
            let lines = text::lines(written);
            &&& written.len() > 0 && written.last() == '\n'
            &&& lines.len() == 1 + rows.len()
            &&& sample_laws::columns(lines[0]) == seq!["time_ns"@, "bytes_per_second"@]
            &&& forall|k: int|
                0 <= k < rows.len() ==> tells_rate(
                    lines[k + 1],
                    #[trigger] rows[k],
                    rates[k]@,
                )
        }),
    decreases rows.len(),
{
    let written = throughput::lines_text(rows, rates);
    let lines = text::lines(written);
    reveal_strlit("\n");
    reveal_strlit("\t");
    assert(text::lines(seq![]) =~= seq![]);
    if rows.len() == 0 {
        reveal_strlit("time_ns\tbytes_per_second\n");
        reveal_strlit("time_ns");
        reveal_strlit("bytes_per_second");
        let row = "time_ns"@ + seq!['\t'] + "bytes_per_second"@;
        lemma_two_columns("time_ns"@, "bytes_per_second"@);
        text_laws::lemma_lines_cons(row, seq![]);
        assert(written =~= row.push('\n') + seq![]);
        assert(lines =~= seq![row]);
    } else {
        let front = rows.drop_last();
        let n = rows.len() - 1;
        let before = throughput::lines_text(front, rates);
        let time = text::decimal(rows[n].time_ns as nat);
        let rate = rates[n]@;
        let row = time + seq!['\t'] + rate;
        lines_read_back(front, rates);
        text_laws::decimal_reads_back(rows[n].time_ns as nat);
        text_laws::lemma_digits_lack(time, '\t');
        text_laws::lemma_digits_lack(time, '\n');
        text_laws::lemma_digits_lack(time, '\r');
        lemma_two_columns(time, rate);
        text_laws::lemma_lines_cons(row, seq![]);
        text_laws::lemma_lines_append(before, row.push('\n') + seq![]);
        assert(written =~= before + (row.push('\n') + seq![]));
        assert(lines =~= text::lines(before).push(row));
        assert(lines[0] == text::lines(before)[0]);
        assert(written.last() == '\n');
        assert forall|k: int| 0 <= k < rows.len() implies tells_rate(
            lines[k + 1],
            #[trigger] rows[k],
            rates[k]@,
        ) by {
            if k < n {
                assert(front[k] == rows[k]);
                assert(lines[k + 1] == text::lines(before)[k + 1]);
            }
        }
    }
}

proof fn lemma_two_columns(a: Seq<char>, b: Seq<char>)
    requires
        text_laws::lacks(a, '\t'),
        text_laws::lacks(b, '\t'),
        text_laws::lacks(a, '\n'),
        text_laws::lacks(b, '\n'),
        text_laws::lacks(a, '\r'),
        text_laws::lacks(b, '\r'),
    ensures
        sample_laws::columns(a + seq!['\t'] + b) == seq![a, b],
        text_laws::lacks(a + seq!['\t'] + b, '\n'),
        text_laws::lacks(a + seq!['\t'] + b, '\r'),
{
    let cols = seq![a, b];
    text_laws::joined_parts_read_back(cols, '\t');
    text_laws::lemma_joined_push(seq![a], b, '\t');
    assert(seq![a].push(b) =~= cols);
    assert(text_laws::joined_by(cols, '\t') == a + seq!['\t'] + b);
    text_laws::lemma_joined_lacks(cols, '\t', '\n');
    text_laws::lemma_joined_lacks(cols, '\t', '\r');
}

} // verus!
