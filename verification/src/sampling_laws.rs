//! What holds of samples.

use crate::record::TraceRecordView;
use crate::sampling::{self, Progress, Sample};
use crate::throughput;
use vstd::prelude::*;

verus! {

/// The times of the records do not decrease.
pub open spec fn in_time_order(records: Seq<TraceRecordView>) -> bool {
    forall|i: int, j: int|
        #![trigger records[i], records[j]]
        0 <= i <= j < records.len() ==> throughput::offset_of(records, records[i])
            <= throughput::offset_of(records, records[j])
}

/// A sample shows exactly the records up to its time.
pub open spec fn shows_its_time(sample: Sample, records: Seq<TraceRecordView>) -> bool {
    &&& sample.taken <= records.len()
    &&& forall|i: int|
        0 <= i < records.len() ==> (i < sample.taken <==> throughput::offset_of(
            records,
            #[trigger] records[i],
        ) <= sample.time_ns)
}

/// The first multiple of the scale that is not below `limit`.
pub open spec fn rounded_up(limit: u64, scale_ns: u64) -> int {
    (limit + scale_ns - 1) / (scale_ns as int) * scale_ns
}

proof fn lemma_rounded_up(limit: u64, scale_ns: u64)
    requires
        scale_ns > 0,
    ensures
        rounded_up(limit, scale_ns) >= limit,
{
    let top = limit + scale_ns - 1;
    let scale = scale_ns as int;
    assert(top / scale * scale > top - scale) by (nonlinear_arith)
        requires
            scale > 0,
    ;
}

/// A multiple below another one is at least one step below it.
proof fn lemma_step_below(m: nat, c: int, scale_ns: u64)
    requires
        m * scale_ns < c * scale_ns,
    ensures
        (m + 1) * scale_ns == m * scale_ns + scale_ns,
        m * scale_ns + scale_ns <= c * scale_ns,
{
    assert(m < c) by (nonlinear_arith)
        requires
            m * scale_ns < c * scale_ns,
    ;
    assert((m + 1) * scale_ns == m * scale_ns + scale_ns) by (nonlinear_arith);
    assert((m + 1) * scale_ns <= c * scale_ns) by (nonlinear_arith)
        requires
            m + 1 <= c,
    ;
}

/// The times that are due are successive multiples of the scale, as long as the
/// multiples up to `c`, which is not below the limit, fit.
proof fn lemma_due_multiples(
    m: nat,
    next: u64,
    limit: u64,
    include_limit: bool,
    scale_ns: u64,
    c: int,
)
    requires
        scale_ns > 0,
        next == m * scale_ns,
        limit <= c * scale_ns <= u64::MAX,
    ensures
        ({
            let times = sampling::due_times(next, limit, include_limit, scale_ns);
            let end = m + times.len();
            &&& end * scale_ns <= u64::MAX ==> sampling::next_due(
                next,
                limit,
                include_limit,
                scale_ns,
            ) == end * scale_ns
            &&& limit < c * scale_ns && next <= c * scale_ns ==> end * scale_ns <= c * scale_ns
            &&& !include_limit && next <= c * scale_ns ==> end * scale_ns <= c * scale_ns
            &&& end * scale_ns >= limit
            &&& include_limit ==> end * scale_ns > limit
            &&& forall|j: int|
                0 <= j < times.len() ==> {
                    &&& #[trigger] times[j] == (m + j) * scale_ns
                    &&& times[j] >= next
                    &&& times[j] <= limit
                    &&& !include_limit ==> times[j] < limit
                }
        }),
    decreases u64::MAX - next,
{
    if next < limit || include_limit && next == limit {
        assert((m + 1) * scale_ns == m * scale_ns + scale_ns) by (nonlinear_arith);
        let times = sampling::due_times(next, limit, include_limit, scale_ns);
        if next < c * scale_ns {
            lemma_step_below(m, c, scale_ns);
        }
        if next + scale_ns <= u64::MAX {
            let after = (next + scale_ns) as u64;
            lemma_due_multiples(m + 1, after, limit, include_limit, scale_ns, c);
            let rest = sampling::due_times(after, limit, include_limit, scale_ns);
            assert(times =~= seq![next] + rest);
            assert forall|j: int| 0 <= j < times.len() implies {
                &&& #[trigger] times[j] == (m + j) * scale_ns
                &&& times[j] >= next
                &&& times[j] <= limit
                &&& !include_limit ==> times[j] < limit
            } by {
                if j > 0 {
                    assert(times[j] == rest[j - 1]);
                    assert(m + 1 + (j - 1) == m + j);
                }
            }
        } else {
            assert(times =~= seq![next]);
        }
    }
}

/// Sampling in time order: the samples so far are the multiples of the scale
/// before the time of the last record, and each shows its time.
spec fn on_schedule(
    progress: Progress,
    records: Seq<TraceRecordView>,
    n: int,
    scale_ns: u64,
    c: int,
) -> bool {
    let m = progress.samples.len();
    &&& progress.offset == throughput::offset_of(records, records[n - 1])
    &&& progress.next == m * scale_ns
    &&& progress.offset <= progress.next <= c * scale_ns
    &&& forall|k: int|
        0 <= k < m ==> (#[trigger] progress.samples[k]).time_ns == k * scale_ns
            && progress.samples[k].time_ns < progress.offset && shows_its_time(
            progress.samples[k],
            records,
        )
}

proof fn lemma_on_schedule(records: Seq<TraceRecordView>, n: nat, scale_ns: u64, c: int)
    requires
        in_time_order(records),
        scale_ns > 0,
        0 < n <= records.len(),
        throughput::offset_of(records, records.last()) <= c * scale_ns <= u64::MAX,
    ensures
        on_schedule(sampling::progress(records, n, scale_ns), records, n as int, scale_ns, c),
    decreases n,
{
    reveal_with_fuel(sampling::progress, 2);
    if n > 1 {
        let before = sampling::progress(records, (n - 1) as nat, scale_ns);
        lemma_on_schedule(records, (n - 1) as nat, scale_ns, c);
        let offset = throughput::offset_of(records, records[n - 1]);
        assert(records[n - 2] == records[n - 2]);
        assert(records[records.len() - 1] == records.last());
        assert(before.offset <= offset);
        if offset != before.offset {
            let m = before.samples.len();
            let t1 = sampling::due_times(before.next, before.offset, true, scale_ns);
            let next = sampling::next_due(before.next, before.offset, true, scale_ns);
            let t2 = sampling::due_times(next, offset, false, scale_ns);
            let taken = (n - 1) as nat;
            lemma_due_multiples(m, before.next, before.offset, true, scale_ns, c);
            lemma_due_multiples(m + t1.len(), next, offset, false, scale_ns, c);
            let now = sampling::progress(records, n, scale_ns);
            let a = sampling::stamped(t1, taken);
            let b = sampling::stamped(t2, taken);
            assert(now.samples =~= before.samples + a + b);
            assert forall|k: int| 0 <= k < now.samples.len() implies (
            #[trigger] now.samples[k]).time_ns == k * scale_ns && now.samples[k].time_ns
                < now.offset && shows_its_time(now.samples[k], records) by {
                let sample = now.samples[k];
                if k < m {
                    assert(sample == before.samples[k]);
                } else {
                    if k < m + t1.len() {
                        assert(sample == a[k - m]);
                        assert(sample.time_ns == t1[k - m]);
                        assert(m + (k - m) == k);
                        assert(sample.time_ns == before.offset);
                    } else {
                        let j = k - m - t1.len();
                        assert(sample == b[j]);
                        assert(sample.time_ns == t2[j]);
                        assert(m + t1.len() + j == k);
                        assert(sample.time_ns > before.offset);
                    }
                    assert forall|i: int| 0 <= i < records.len() implies (i < sample.taken
                        <==> throughput::offset_of(records, #[trigger] records[i])
                        <= sample.time_ns) by {
                        if i < taken {
                            assert(throughput::offset_of(records, records[i])
                                <= throughput::offset_of(records, records[n - 2]));
                        } else {
                            assert(throughput::offset_of(records, records[n - 1])
                                <= throughput::offset_of(records, records[i]));
                        }
                    }
                }
            }
        }
    }
}

/// For records in time order there is one sample at every multiple of the scale
/// from the first record to the last, and each sample shows the depths after
/// exactly the records up to its time. A scale so large that the multiple behind
/// the last record does not fit is left out: its last sample is taken twice.
pub proof fn samples_show_their_times(records: Seq<TraceRecordView>, scale_ns: u64)
    requires
        in_time_order(records),
        records.len() > 0,
        scale_ns > 0,
        rounded_up(throughput::offset_of(records, records.last()), scale_ns) <= u64::MAX,
    ensures
        ({
            let all = sampling::samples(records, scale_ns);
            let end = throughput::offset_of(records, records.last());
            &&& forall|k: int|
                0 <= k < all.len() ==> (#[trigger] all[k]).time_ns == k * scale_ns
                    && all[k].time_ns <= end && shows_its_time(all[k], records)
            &&& all.len() * scale_ns > end
        }),
{
    let n = records.len();
    let last_offset = throughput::offset_of(records, records.last());
    let c = (last_offset + scale_ns - 1) / (scale_ns as int);
    lemma_rounded_up(last_offset, scale_ns);
    lemma_on_schedule(records, n, scale_ns, c);
    let end = sampling::progress(records, n, scale_ns);
    let m = end.samples.len();
    let times = sampling::due_times(end.next, end.offset, true, scale_ns);
    lemma_due_multiples(m, end.next, end.offset, true, scale_ns, c);
    let all = sampling::samples(records, scale_ns);
    let last = sampling::stamped(times, n);
    assert(records[n - 1] == records.last());
    assert forall|k: int| 0 <= k < all.len() implies (#[trigger] all[k]).time_ns == k * scale_ns
        && all[k].time_ns <= end.offset && shows_its_time(all[k], records) by {
        if k < m {
            assert(all[k] == end.samples[k]);
        } else {
            assert(all[k] == last[k - m]);
            assert(all[k].time_ns == times[k - m]);
            assert(m + (k - m) == k);
            assert(all[k].time_ns == end.offset);
            assert forall|i: int| 0 <= i < records.len() implies throughput::offset_of(
                records,
                #[trigger] records[i],
            ) <= all[k].time_ns by {
                assert(throughput::offset_of(records, records[i]) <= throughput::offset_of(
                    records,
                    records[n - 1],
                ));
            }
        }
    }
}

/// The time of record `i` since the first one.
pub open spec fn since_first(records: Seq<TraceRecordView>, i: int) -> u64 {
    throughput::offset_of(records, records[i])
}

/// A sample at time `t` is due before record `n` is taken: the record has another
/// time than the one before it, and either the one before it is not before the
/// sample or the record is behind it. At the end a sample is due that is not
/// behind the last record.
pub open spec fn due_before(records: Seq<TraceRecordView>, n: int, t: int) -> bool {
    let last = since_first(records, n - 1);
    if n < records.len() {
        let now = since_first(records, n);
        0 < n && now != last && (t <= last || t < now)
    } else {
        t <= last
    }
}

/// A sample is taken before the first record where it is due.
pub open spec fn taken_when_due(sample: Sample, records: Seq<TraceRecordView>) -> bool {
    let t = sample.time_ns as int;
    &&& 0 < sample.taken <= records.len()
    &&& due_before(records, sample.taken as int, t)
    &&& forall|n: int| 0 < n < sample.taken ==> !#[trigger] due_before(records, n, t)
}

spec fn keeps_pace(
    progress: Progress,
    records: Seq<TraceRecordView>,
    n: int,
    scale_ns: u64,
    c: int,
) -> bool {
    let m = progress.samples.len();
    &&& progress.offset == since_first(records, n - 1)
    &&& progress.next == m * scale_ns
    &&& progress.next <= c * scale_ns
    &&& forall|k: int|
        0 <= k < m ==> (#[trigger] progress.samples[k]).time_ns == k * scale_ns && taken_when_due(
            progress.samples[k],
            records,
        )
    &&& forall|i: int| 0 < i < n ==> !#[trigger] due_before(records, i, m * scale_ns)
}

proof fn lemma_keeps_pace(records: Seq<TraceRecordView>, n: nat, scale_ns: u64, c: int)
    requires
        scale_ns > 0,
        0 < n <= records.len(),
        0 < c * scale_ns <= u64::MAX,
        forall|i: int| 0 <= i < records.len() ==> #[trigger] since_first(records, i) < c * scale_ns,
    ensures
        keeps_pace(sampling::progress(records, n, scale_ns), records, n as int, scale_ns, c),
    decreases n,
{
    reveal_with_fuel(sampling::progress, 2);
    let now = sampling::progress(records, n, scale_ns);
    if n == 1 {
        assert(since_first(records, 0) == 0);
    } else {
        let before = sampling::progress(records, (n - 1) as nat, scale_ns);
        lemma_keeps_pace(records, (n - 1) as nat, scale_ns, c);
        let last = since_first(records, n - 2);
        let offset = since_first(records, n - 1);
        let m = before.samples.len();
        if offset == last {
            assert(now == before);
            assert forall|i: int| 0 < i < n implies !#[trigger] due_before(
                records,
                i,
                m * scale_ns,
            ) by {}
        } else {
            let t1 = sampling::due_times(before.next, last, true, scale_ns);
            let next = sampling::next_due(before.next, last, true, scale_ns);
            let t2 = sampling::due_times(next, offset, false, scale_ns);
            let taken = (n - 1) as nat;
            lemma_due_multiples(m, before.next, last, true, scale_ns, c);
            lemma_due_multiples(m + t1.len(), next, offset, false, scale_ns, c);
            let a = sampling::stamped(t1, taken);
            let b = sampling::stamped(t2, taken);
            assert(now.samples =~= before.samples + a + b);
            let end = now.samples.len();
            assert(end == m + t1.len() + t2.len());
            lemma_later(m, m + t1.len(), scale_ns);
            lemma_later(m + t1.len(), end, scale_ns);
            assert forall|k: int| 0 <= k < end implies (#[trigger] now.samples[k]).time_ns == k
                * scale_ns && taken_when_due(now.samples[k], records) by {
                let sample = now.samples[k];
                if k < m {
                    assert(sample == before.samples[k]);
                } else {
                    if k < m + t1.len() {
                        assert(sample == a[k - m]);
                        assert(sample.time_ns == t1[k - m]);
                        assert(m + (k - m) == k);
                    } else {
                        let j = k - m - t1.len();
                        assert(sample == b[j]);
                        assert(sample.time_ns == t2[j]);
                        assert(m + t1.len() + j == k);
                    }
                    lemma_later(m, k as nat, scale_ns);
                    assert forall|i: int| 0 < i < taken implies !#[trigger] due_before(
                        records,
                        i,
                        sample.time_ns as int,
                    ) by {
                        assert(!due_before(records, i, m * scale_ns));
                    }
                }
            }
            assert forall|i: int| 0 < i < n implies !#[trigger] due_before(
                records,
                i,
                end * scale_ns,
            ) by {
                if i < n - 1 {
                    assert(!due_before(records, i, m * scale_ns));
                }
            }
        }
    }
}

proof fn lemma_later(m: nat, k: nat, scale_ns: u64)
    requires
        m <= k,
    ensures
        m * scale_ns <= k * scale_ns,
{
    assert(m * scale_ns <= k * scale_ns) by (nonlinear_arith)
        requires
            m <= k,
            scale_ns >= 0,
    ;
}

/// Whatever the order of the records, the samples stand at the successive
/// multiples of the scale, from nothing on. Each is taken before the first record
/// where it is due, and the first multiple behind them is due nowhere. Records so
/// late that the multiple behind them does not fit are left out.
pub proof fn samples_are_taken_when_due(
    records: Seq<TraceRecordView>,
    scale_ns: u64,
    latest: u64,
)
    requires
        records.len() > 0,
        scale_ns > 0,
        forall|i: int| 0 <= i < records.len() ==> #[trigger] since_first(records, i) <= latest,
        latest + scale_ns <= u64::MAX,
    ensures
        ({
            let all = sampling::samples(records, scale_ns);
            &&& forall|k: int|
                0 <= k < all.len() ==> (#[trigger] all[k]).time_ns == k * scale_ns
                    && taken_when_due(all[k], records)
            &&& forall|n: int|
                0 < n <= records.len() ==> !#[trigger] due_before(
                    records,
                    n,
                    all.len() * scale_ns,
                )
        }),
{
    let n = records.len();
    let scale = scale_ns as int;
    let q = latest as int / scale;
    let c = q + 1;
    vstd::arithmetic::div_mod::lemma_fundamental_div_mod(latest as int, scale);
    vstd::arithmetic::div_mod::lemma_mod_bound(latest as int, scale);
    assert(c * scale == scale * q + scale) by (nonlinear_arith)
        requires
            c == q + 1,
    ;
    assert forall|i: int| 0 <= i < records.len() implies #[trigger] since_first(records, i) < c
        * scale_ns by {
        assert(since_first(records, i) <= latest);
    }
    assert(since_first(records, 0) < c * scale_ns);
    lemma_keeps_pace(records, n, scale_ns, c);
    let end = sampling::progress(records, n, scale_ns);
    let m = end.samples.len();
    let times = sampling::due_times(end.next, end.offset, true, scale_ns);
    assert(since_first(records, n - 1) < c * scale_ns);
    lemma_due_multiples(m, end.next, end.offset, true, scale_ns, c);
    let all = sampling::samples(records, scale_ns);
    let last = sampling::stamped(times, n);
    assert(all =~= end.samples + last);
    lemma_later(m, all.len(), scale_ns);
    assert forall|k: int| 0 <= k < all.len() implies (#[trigger] all[k]).time_ns == k * scale_ns
        && taken_when_due(all[k], records) by {
        if k < m {
            assert(all[k] == end.samples[k]);
        } else {
            assert(all[k] == last[k - m]);
            assert(all[k].time_ns == times[k - m]);
            assert(m + (k - m) == k);
            lemma_later(m, k as nat, scale_ns);
            assert forall|i: int| 0 < i < n implies !#[trigger] due_before(
                records,
                i,
                all[k].time_ns as int,
            ) by {
                assert(!due_before(records, i, m * scale_ns));
            }
        }
    }
    assert forall|i: int| 0 < i <= n implies !#[trigger] due_before(
        records,
        i,
        all.len() * scale_ns,
    ) by {
        if i < n {
            assert(!due_before(records, i, m * scale_ns));
        }
    }
}

} // verus!
