//! How many bytes were completed in each stretch of time.

use crate::commands::{self, Effect, InFlight};
use crate::encoding;
use crate::record::{TraceRecord, TraceRecordView};
use crate::stream::WarnSink;
use crate::tables::{self, list_rows};
use crate::text::{self, push_decimal};
use crate::trace;
use std::collections::BTreeMap;
use vstd::prelude::*;

verus! {

broadcast use {vstd::std_specs::btree::group_btree_axioms, vstd::laws_cmp::group_laws_cmp};

/// The time that has passed between the first record and another one. It is
/// none where the other one is earlier.
pub open spec fn offset_of(records: Seq<TraceRecordView>, record: TraceRecordView) -> u64 {
    let start = encoding::header_of_view(records[0]).timestamp_ns;
    let time = encoding::header_of_view(record).timestamp_ns;
    if time < start {
        0
    } else {
        (time - start) as u64
    }
}

/// The start of the stretch of time that a record falls into.
pub open spec fn bucket_of(
    records: Seq<TraceRecordView>,
    record: TraceRecordView,
    scale_ns: u64,
) -> u64 {
    (offset_of(records, record) as int / scale_ns as int * scale_ns) as u64
}

/// How many bytes the last of `records` completes in a stretch of time, if it
/// completes any command then.
pub open spec fn completed_last(
    records: Seq<TraceRecordView>,
    scale_ns: u64,
    bucket: u64,
) -> Option<u32> {
    let last = records.last();
    match commands::effect(commands::outstanding(records.drop_last()), last) {
        Effect::Completed(data_len) => if bucket_of(records, last, scale_ns) == bucket {
            Some(data_len)
        } else {
            None
        },
        _ => None,
    }
}

/// How many bytes `records` complete in a stretch of time. Nothing where they
/// complete no command then.
pub open spec fn bytes_in(records: Seq<TraceRecordView>, scale_ns: u64, bucket: u64) -> Option<nat>
    decreases records.len(),
{
    if records.len() == 0 {
        None
    } else {
        let before = bytes_in(records.drop_last(), scale_ns, bucket);
        match completed_last(records, scale_ns, bucket) {
            Some(data_len) => match before {
                Some(bytes) => Some(bytes + data_len as nat),
                None => Some(data_len as nat),
            },
            None => before,
        }
    }
}

/// A stretch of time and the bytes that were completed in it.
#[derive(Debug, Clone, Copy, PartialEq, Eq, Structural)]
pub struct ThroughputRow {
    pub time_ns: u64,
    pub bytes: u128,
}

/// `rows` are the stretches of time in which `records` complete commands, in
/// their order, with the bytes completed.
pub open spec fn throughput_of(
    rows: Seq<ThroughputRow>,
    records: Seq<TraceRecordView>,
    scale_ns: u64,
) -> bool {
    &&& forall|i: int, j: int|
        #![trigger rows[i], rows[j]]
        0 <= i < j < rows.len() ==> rows[i].time_ns < rows[j].time_ns
    &&& forall|i: int|
        0 <= i < rows.len() ==> bytes_in(records, scale_ns, (#[trigger] rows[i]).time_ns) == Some(
            rows[i].bytes as nat,
        )
    &&& forall|bucket: u64|
        (#[trigger] bytes_in(records, scale_ns, bucket)) is Some ==> exists|i: int|
            0 <= i < rows.len() && (#[trigger] rows[i]).time_ns == bucket
}

/// The table holds the bytes of each stretch of time.
spec fn table_of(
    table: Map<u128, u128>,
    records: Seq<TraceRecordView>,
    scale_ns: u64,
) -> bool {
    &&& forall|key: u128| #[trigger] table.contains_key(key) ==> key <= u64::MAX
    &&& forall|bucket: u64|
        #![trigger bytes_in(records, scale_ns, bucket)]
        match bytes_in(records, scale_ns, bucket) {
            Some(bytes) => table.contains_key(bucket as u128) && table[bucket as u128] == bytes,
            None => !table.contains_key(bucket as u128),
        }
}

proof fn lemma_bytes_bounded(records: Seq<TraceRecordView>, scale_ns: u64, bucket: u64)
    ensures
        bytes_in(records, scale_ns, bucket) matches Some(bytes) ==> bytes <= records.len()
            * 0xffff_ffff,
    decreases records.len(),
{
    if records.len() > 0 {
        lemma_bytes_bounded(records.drop_last(), scale_ns, bucket);
    }
}

proof fn lemma_bucket_fits(offset: u64, scale_ns: u64)
    requires
        scale_ns > 0,
    ensures
        0 <= offset as int / scale_ns as int * scale_ns <= offset,
{
    vstd::arithmetic::div_mod::lemma_fundamental_div_mod(offset as int, scale_ns as int);
    let q = offset as int / scale_ns as int;
    assert(q * scale_ns == scale_ns * q) by (nonlinear_arith);
    assert(0 <= q) by (nonlinear_arith)
        requires
            q == offset as int / scale_ns as int,
            scale_ns > 0,
    ;
    assert(0 <= q * scale_ns) by (nonlinear_arith)
        requires
            0 <= q,
            scale_ns > 0,
    ;
}

/// Adds up the bytes of completed commands by the time of their completion, in
/// stretches of `scale_ns`. Gives a warning for every record that does not fit
/// the commands that are outstanding.
#[verifier::rlimit(30)]
pub fn analyze_throughput_records<F: WarnSink>(
    records: &Vec<TraceRecord>,
    scale_ns: u64,
    warn: &mut F,
) -> (rows: Vec<ThroughputRow>)
    requires
        scale_ns > 0,
    ensures
        throughput_of(rows@, trace::contents(records@), scale_ns),
        final(warn).warnings() == old(warn).warnings() + commands::warnings(
            trace::contents(records@),
        ),
{
    let ghost all = trace::contents(records@);
    let mut in_flight = InFlight::new();
    let mut bytes_by_bucket: BTreeMap<u128, u128> = BTreeMap::new();
    let mut i: usize = 0;
    proof {
        assert(all.take(0) =~= seq![]);
        assert(warn.warnings() + commands::warnings(seq![]) =~= warn.warnings());
    }
    while i < records.len()
        invariant
            i <= records@.len(),
            scale_ns > 0,
            all == trace::contents(records@),
            in_flight.wf(),
            in_flight@ == commands::outstanding(all.take(i as int)),
            table_of(bytes_by_bucket@, all.take(i as int), scale_ns),
            warn.warnings() == old(warn).warnings() + commands::warnings(all.take(i as int)),
        decreases records@.len() - i,
    {
        let ghost before = all.take(i as int);
        let ghost now = all.take(i + 1);
        let ghost warned = warn.warnings();
        proof {
            assert(now.drop_last() =~= before);
            assert(now.last() == records@[i as int]@);
            assert(now[0] == all[0]);
            assert(all[0] == records@[0]@);
        }
        let record = &records[i];
        let effect = in_flight.apply(record, warn);
        proof {
            assert(warn.warnings() =~= old(warn).warnings() + commands::warnings(now));
        }
        if let Effect::Completed(data_len) = effect {
            let time = record.header().timestamp_ns;
            let base_ts = records[0].header().timestamp_ns;
            let offset: u64 = time.saturating_sub(base_ts);
            proof {
                lemma_bucket_fits(offset, scale_ns);
            }
            let bucket: u64 = (offset / scale_ns) * scale_ns;
            proof {
                assert(bucket == bucket_of(now, now.last(), scale_ns));
                assert(bytes_in(now, scale_ns, bucket) is Some);
                lemma_bytes_bounded(before, scale_ns, bucket);
                assert(bytes_in(before, scale_ns, bucket) matches Some(bytes)
                    ==> bytes_by_bucket@[bucket as u128] == bytes);
            }
            let sum: u128 = match bytes_by_bucket.get(&(bucket as u128)) {
                Some(bytes) => *bytes + data_len as u128,
                None => data_len as u128,
            };
            let ghost table = bytes_by_bucket@;
            bytes_by_bucket.insert(bucket as u128, sum);
            proof {
                assert forall|b: u64|
                    #![trigger bytes_in(now, scale_ns, b)]
                    match bytes_in(now, scale_ns, b) {
                        Some(bytes) => bytes_by_bucket@.contains_key(b as u128)
                            && bytes_by_bucket@[b as u128] == bytes,
                        None => !bytes_by_bucket@.contains_key(b as u128),
                    } by {
                    assert(bytes_in(before, scale_ns, b) is Some == table.contains_key(b as u128));
                }
            }
        } else {
            proof {
                assert forall|b: u64|
                    #![trigger bytes_in(now, scale_ns, b)]
                    bytes_in(now, scale_ns, b) == bytes_in(before, scale_ns, b) by {}
            }
        }
        i = i + 1;
    }
    assert(all.take(all.len() as int) =~= all);
    let entries = list_rows(&bytes_by_bucket);
    let mut rows: Vec<ThroughputRow> = Vec::new();
    while rows.len() < entries.len()
        invariant
            rows@.len() <= entries@.len(),
            tables::rows_of(entries@, bytes_by_bucket@),
            table_of(bytes_by_bucket@, all, scale_ns),
            forall|k: int|
                0 <= k < rows@.len() ==> (#[trigger] rows@[k]).time_ns == entries@[k].0
                    && rows@[k].bytes == entries@[k].1,
        decreases entries@.len() - rows@.len(),
    {
        let (bucket, bytes) = entries[rows.len()];
        assert(bytes_by_bucket@.contains_key(entries@[rows@.len() as int].0));
        rows.push(ThroughputRow { time_ns: bucket as u64, bytes });
    }
    proof {
        assert forall|k: int| 0 <= k < rows@.len() implies bytes_in(
            all,
            scale_ns,
            (#[trigger] rows@[k]).time_ns,
        ) == Some(rows@[k].bytes as nat) by {
            assert(bytes_by_bucket@.contains_key(entries@[k].0));
        }
        assert forall|bucket: u64| (#[trigger] bytes_in(all, scale_ns, bucket)) is Some implies
            exists|k: int| 0 <= k < rows@.len() && (#[trigger] rows@[k]).time_ns == bucket by {
            assert(bytes_by_bucket@.contains_key(bucket as u128));
            let k = choose|k: int|
                0 <= k < entries@.len() && (#[trigger] entries@[k]).0 == bucket as u128;
            assert(rows@[k].time_ns == bucket);
        }
        assert forall|a: int, b: int|
            #![trigger rows@[a], rows@[b]]
            0 <= a < b < rows@.len() implies rows@[a].time_ns < rows@[b].time_ns by {
            assert(entries@[a].0 < entries@[b].0);
        }
    }
    rows
}

/// The lines for rows and the rates that were worked out for them.
pub open spec fn lines_text(rows: Seq<ThroughputRow>, rates: Seq<String>) -> Seq<char>
    decreases rows.len(),
{
    if rows.len() == 0 {
        "time_ns\tbytes_per_second\n"@
    } else {
        lines_text(rows.drop_last(), rates) + text::decimal(rows.last().time_ns as nat) + "\t"@
            + rates[rows.len() - 1]@ + "\n"@
    }
}

/// Writes out rows and the rates that were worked out for them, one for each
/// row.
pub fn format_throughput(rows: &Vec<ThroughputRow>, rates: &Vec<String>) -> (table: String)
    requires
        rows@.len() == rates@.len(),
    ensures
        table@ == lines_text(rows@, rates@),
{
    let mut out = "time_ns\tbytes_per_second\n".to_owned();
    let mut i: usize = 0;
    while i < rows.len()
        invariant
            i <= rows@.len(),
            rows@.len() == rates@.len(),
            out@ == lines_text(rows@.take(i as int), rates@),
        decreases rows@.len() - i,
    {
        assert(rows@.take(i + 1).drop_last() =~= rows@.take(i as int));
        push_decimal(&mut out, rows[i].time_ns as u128);
        out.append("\t");
        out.append(rates[i].as_str());
        out.append("\n");
        i = i + 1;
    }
    assert(rows@.take(rows@.len() as int) =~= rows@);
    out
}

/// How many bytes `records` complete in all.
pub open spec fn total_bytes(records: Seq<TraceRecordView>) -> nat
    decreases records.len(),
{
    if records.len() == 0 {
        0
    } else {
        let front = records.drop_last();
        match commands::effect(commands::outstanding(front), records.last()) {
            Effect::Completed(data_len) => total_bytes(front) + data_len as nat,
            _ => total_bytes(front),
        }
    }
}

/// The bytes of rows in all.
pub open spec fn sum_of_rows(rows: Seq<ThroughputRow>) -> nat
    decreases rows.len(),
{
    if rows.len() == 0 {
        0
    } else {
        sum_of_rows(rows.drop_last()) + rows.last().bytes as nat
    }
}

/// The bytes of some stretches of time.
spec fn sum_in(records: Seq<TraceRecordView>, scale_ns: u64, buckets: Seq<u64>) -> nat
    decreases buckets.len(),
{
    if buckets.len() == 0 {
        0
    } else {
        let last = match bytes_in(records, scale_ns, buckets.last()) {
            Some(bytes) => bytes,
            None => 0,
        };
        sum_in(records, scale_ns, buckets.drop_last()) + last
    }
}

/// One more record adds its bytes to one stretch of time.
proof fn lemma_sum_step(records: Seq<TraceRecordView>, scale_ns: u64, buckets: Seq<u64>)
    requires
        records.len() > 0,
        buckets.no_duplicates(),
    ensures
        ({
            let front = records.drop_last();
            let bucket = bucket_of(records, records.last(), scale_ns);
            sum_in(records, scale_ns, buckets) == sum_in(front, scale_ns, buckets) + match
                commands::effect(commands::outstanding(front), records.last()) {
                Effect::Completed(data_len) => if buckets.contains(bucket) {
                    data_len as nat
                } else {
                    0
                },
                _ => 0,
            }
        }),
    decreases buckets.len(),
{
    if buckets.len() > 0 {
        let others = buckets.drop_last();
        let bucket = bucket_of(records, records.last(), scale_ns);
        assert(others.no_duplicates());
        lemma_sum_step(records, scale_ns, others);
        if buckets.contains(bucket) {
            let k = choose|k: int| 0 <= k < buckets.len() && buckets[k] == bucket;
            if k < others.len() {
                assert(others[k] == bucket);
                assert(buckets.last() != bucket);
            } else {
                assert(buckets.last() == bucket);
            }
        }
        if others.contains(bucket) {
            let k = choose|k: int| 0 <= k < others.len() && others[k] == bucket;
            assert(buckets[k] == bucket);
            assert(buckets[buckets.len() - 1] != buckets[k]);
        }
        if buckets.last() == bucket {
            assert(buckets[buckets.len() - 1] == bucket);
        }
    }
}

proof fn lemma_sum_is_total(
    records: Seq<TraceRecordView>,
    scale_ns: u64,
    buckets: Seq<u64>,
    n: int,
)
    requires
        0 <= n <= records.len(),
        buckets.no_duplicates(),
        forall|b: u64| (#[trigger] bytes_in(records, scale_ns, b)) is Some ==> buckets.contains(b),
    ensures
        sum_in(records.take(n), scale_ns, buckets) == total_bytes(records.take(n)),
    decreases n,
{
    let now = records.take(n);
    if n == 0 {
        lemma_nothing_in(scale_ns, buckets);
        assert(now =~= seq![]);
    } else {
        let front = records.take(n - 1);
        assert(now.drop_last() =~= front);
        lemma_sum_is_total(records, scale_ns, buckets, n - 1);
        lemma_sum_step(now, scale_ns, buckets);
        let bucket = bucket_of(now, now.last(), scale_ns);
        if let Effect::Completed(data_len) = commands::effect(
            commands::outstanding(front),
            now.last(),
        ) {
            assert(bytes_in(now, scale_ns, bucket) is Some);
            lemma_bytes_stay(records, scale_ns, bucket, n);
        }
    }
}

proof fn lemma_nothing_in(scale_ns: u64, buckets: Seq<u64>)
    ensures
        sum_in(seq![], scale_ns, buckets) == 0,
    decreases buckets.len(),
{
    if buckets.len() > 0 {
        lemma_nothing_in(scale_ns, buckets.drop_last());
    }
}

proof fn lemma_bytes_stay(records: Seq<TraceRecordView>, scale_ns: u64, bucket: u64, n: int)
    requires
        0 <= n <= records.len(),
        bytes_in(records.take(n), scale_ns, bucket) is Some,
    ensures
        bytes_in(records, scale_ns, bucket) is Some,
    decreases records.len(),
{
    if n == records.len() {
        assert(records.take(n) =~= records);
    } else {
        assert(records.drop_last().take(n) =~= records.take(n));
        lemma_bytes_stay(records.drop_last(), scale_ns, bucket, n);
    }
}

/// No bytes are lost or counted twice: the rows add up to the data of all
/// commands that were completed, whatever the scale.
pub proof fn rows_add_up(
    rows: Seq<ThroughputRow>,
    records: Seq<TraceRecordView>,
    scale_ns: u64,
)
    requires
        throughput_of(rows, records, scale_ns),
    ensures
        sum_of_rows(rows) == total_bytes(records),
{
    let buckets = rows.map_values(|row: ThroughputRow| row.time_ns);
    assert forall|b: u64|
        (#[trigger] bytes_in(records, scale_ns, b)) is Some implies buckets.contains(b) by {
        let i = choose|i: int| 0 <= i < rows.len() && (#[trigger] rows[i]).time_ns == b;
        assert(buckets[i] == b);
    }
    assert(buckets.no_duplicates()) by {
        assert forall|i: int, j: int| 0 <= i < j < buckets.len() implies buckets[i]
            != buckets[j] by {
            assert(rows[i].time_ns < rows[j].time_ns);
        }
    }
    lemma_sum_is_total(records, scale_ns, buckets, records.len() as int);
    assert(records.take(records.len() as int) =~= records);
    lemma_rows_sum(rows, records, scale_ns);
}

proof fn lemma_rows_sum(rows: Seq<ThroughputRow>, records: Seq<TraceRecordView>, scale_ns: u64)
    requires
        forall|i: int|
            0 <= i < rows.len() ==> bytes_in(records, scale_ns, (#[trigger] rows[i]).time_ns)
                == Some(rows[i].bytes as nat),
    ensures
        sum_of_rows(rows) == sum_in(
            records,
            scale_ns,
            rows.map_values(|row: ThroughputRow| row.time_ns),
        ),
    decreases rows.len(),
{
    let buckets = rows.map_values(|row: ThroughputRow| row.time_ns);
    if rows.len() > 0 {
        let front = rows.drop_last();
        assert forall|i: int| 0 <= i < front.len() implies bytes_in(
            records,
            scale_ns,
            (#[trigger] front[i]).time_ns,
        ) == Some(front[i].bytes as nat) by {
            assert(front[i] == rows[i]);
        }
        lemma_rows_sum(front, records, scale_ns);
        assert(buckets.drop_last() =~= front.map_values(|row: ThroughputRow| row.time_ns));
        assert(rows[rows.len() - 1] == rows.last());
    }
}

/// Every row starts at a whole number of scales after the first record.
pub proof fn rows_start_on_the_scale(
    rows: Seq<ThroughputRow>,
    records: Seq<TraceRecordView>,
    scale_ns: u64,
)
    requires
        scale_ns > 0,
        throughput_of(rows, records, scale_ns),
    ensures
        forall|i: int| 0 <= i < rows.len() ==> (#[trigger] rows[i]).time_ns % scale_ns == 0,
{
    assert forall|i: int| 0 <= i < rows.len() implies (#[trigger] rows[i]).time_ns % scale_ns
        == 0 by {
        lemma_bucket_on_scale(records, scale_ns, rows[i].time_ns);
    }
}

proof fn lemma_bucket_on_scale(records: Seq<TraceRecordView>, scale_ns: u64, bucket: u64)
    requires
        scale_ns > 0,
        bytes_in(records, scale_ns, bucket) is Some,
    ensures
        bucket % scale_ns == 0,
    decreases records.len(),
{
    if completed_last(records, scale_ns, bucket) is Some {
        let offset = offset_of(records, records.last());
        lemma_bucket_fits(offset, scale_ns);
        vstd::arithmetic::div_mod::lemma_mod_multiples_basic(
            offset as int / scale_ns as int,
            scale_ns as int,
        );
    } else {
        lemma_bucket_on_scale(records.drop_last(), scale_ns, bucket);
    }
}

} // verus!
