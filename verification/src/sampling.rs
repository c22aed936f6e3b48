//! The depths of queues sampled at regular times.

use crate::commands;
use crate::depth::{self, QueueDepthState};
use crate::record::{TraceRecord, TraceRecordView};
use crate::stream::{TextSink, WarnSink};
use crate::throughput;
use crate::trace;
use vstd::prelude::*;

verus! {

/// A sample: its time, and how many records had been taken before it.
#[verifier::ext_equal]
pub struct Sample {
    pub time_ns: u64,
    pub taken: nat,
}

/// The times of the samples that are due before `limit`, or up to it, the first
/// of them being `next`. Times that do not fit end the samples.
pub open spec fn due_times(next: u64, limit: u64, include_limit: bool, scale_ns: u64) -> Seq<u64>
    decreases u64::MAX - next,
{
    if scale_ns > 0 && (next < limit || include_limit && next == limit) {
        if next + scale_ns > u64::MAX {
            seq![next]
        } else {
            seq![next] + due_times((next + scale_ns) as u64, limit, include_limit, scale_ns)
        }
    } else {
        seq![]
    }
}

/// The time of the next sample once those that are due are taken. A time whose
/// successor does not fit stays the next one.
pub open spec fn next_due(next: u64, limit: u64, include_limit: bool, scale_ns: u64) -> u64
    decreases u64::MAX - next,
{
    if scale_ns > 0 && (next < limit || include_limit && next == limit) && next + scale_ns
        <= u64::MAX {
        next_due((next + scale_ns) as u64, limit, include_limit, scale_ns)
    } else {
        next
    }
}

/// Samples at some times, after so many records.
pub open spec fn stamped(times: Seq<u64>, taken: nat) -> Seq<Sample> {
    times.map_values(|time_ns: u64| Sample { time_ns, taken })
}

/// How far sampling has come: the time of the last record, the time of the next
/// sample, and the samples so far.
#[verifier::ext_equal]
pub struct Progress {
    pub offset: u64,
    pub next: u64,
    pub samples: Seq<Sample>,
}

/// Sampling before record `n` is taken. A record with a new time brings the
/// samples up to the time before it, and those after that time and before its
/// own.
pub open spec fn before_record(
    progress: Progress,
    records: Seq<TraceRecordView>,
    n: nat,
    scale_ns: u64,
) -> Progress {
    let offset = throughput::offset_of(records, records[n as int]);
    if offset == progress.offset {
        progress
    } else {
        let next = next_due(progress.next, progress.offset, true, scale_ns);
        Progress {
            offset,
            next: next_due(next, offset, false, scale_ns),
            samples: progress.samples + stamped(
                due_times(progress.next, progress.offset, true, scale_ns),
                n,
            ) + stamped(due_times(next, offset, false, scale_ns), n),
        }
    }
}

/// Sampling after the first `n` records.
pub open spec fn progress(records: Seq<TraceRecordView>, n: nat, scale_ns: u64) -> Progress
    decreases n,
{
    if n == 0 {
        Progress { offset: 0, next: 0, samples: seq![] }
    } else {
        before_record(
            progress(records, (n - 1) as nat, scale_ns),
            records,
            (n - 1) as nat,
            scale_ns,
        )
    }
}

/// All samples. The last ones are taken up to the time of the last record.
pub open spec fn samples(records: Seq<TraceRecordView>, scale_ns: u64) -> Seq<Sample> {
    if records.len() == 0 {
        seq![]
    } else {
        let end = progress(records, records.len(), scale_ns);
        end.samples + stamped(due_times(end.next, end.offset, true, scale_ns), records.len())
    }
}

/// The lines of samples.
pub open spec fn samples_text(samples: Seq<Sample>, records: Seq<TraceRecordView>) -> Seq<char>
    decreases samples.len(),
{
    if samples.len() == 0 {
        seq![]
    } else {
        let last = samples.last();
        samples_text(samples.drop_last(), records) + depth::sample_text(
            last.time_ns,
            records.take(last.taken as int),
        )
    }
}

/// All that is written: a heading and the lines of all samples.
pub open spec fn depth_text(records: Seq<TraceRecordView>, scale_ns: u64) -> Seq<char> {
    "time_ns\tscope\tctrl_id\tqid\tqueue_depth\n"@ + samples_text(
        samples(records, scale_ns),
        records,
    )
}

proof fn lemma_samples_text_split(a: Seq<Sample>, b: Seq<Sample>, records: Seq<TraceRecordView>)
    ensures
        samples_text(a + b, records) == samples_text(a, records) + samples_text(b, records),
    decreases b.len(),
{
    if b.len() == 0 {
        assert(a + b =~= a);
        assert(samples_text(a, records) + samples_text(b, records) =~= samples_text(a, records));
    } else {
        lemma_samples_text_split(a, b.drop_last(), records);
        assert((a + b).drop_last() =~= a + b.drop_last());
        assert(samples_text(a + b, records) =~= samples_text(a, records) + samples_text(
            b,
            records,
        ));
    }
}

/// Takes the samples that are due before `limit`, or up to it.
#[verifier::rlimit(30)]
fn emit_due_samples<W: TextSink>(
    output: &mut W,
    state: &QueueDepthState,
    scale_ns: u64,
    next_sample: &mut u64,
    limit: u64,
    include_limit: bool,
    Ghost(records): Ghost<Seq<TraceRecordView>>,
) -> (result: std::result::Result<(), std::io::Error>)
    requires
        scale_ns > 0,
        state.wf(),
        state@.len() <= records.len(),
        state@ == records.take(state@.len() as int),
    ensures
        final(output).failure() == old(output).failure(),
        ({
            let text = samples_text(
                stamped(
                    due_times(*old(next_sample), limit, include_limit, scale_ns),
                    state@.len(),
                ),
                records,
            );
            match result {
                Ok(()) => {
                    &&& final(output).written() == old(output).written() + text
                    &&& *final(next_sample) == next_due(
                        *old(next_sample),
                        limit,
                        include_limit,
                        scale_ns,
                    )
                },
                Err(err) => {
                    &&& old(output).failure() == Some(err)
                    &&& old(output).written().is_prefix_of(final(output).written())
                    &&& final(output).written().is_prefix_of(old(output).written() + text)
                },
            }
        }),
{
    let ghost start = *next_sample;
    let ghost taken = state@.len();
    let ghost all = stamped(due_times(start, limit, include_limit, scale_ns), taken);
    let ghost mut done: Seq<Sample> = seq![];
    let ghost before = output.written();
    let mut more = true;
    proof {
        assert(done + all =~= all);
        assert(before + samples_text(done, records) =~= before);
    }
    while more && (*next_sample < limit || (include_limit && *next_sample == limit))
        invariant
            scale_ns > 0,
            state.wf(),
            taken == state@.len(),
            state@.len() <= records.len(),
            state@ == records.take(state@.len() as int),
            before == old(output).written(),
            start == *old(next_sample),
            output.failure() == old(output).failure(),
            output.written() == before + samples_text(done, records),
            all == stamped(due_times(start, limit, include_limit, scale_ns), taken),
            next_due(*next_sample, limit, include_limit, scale_ns) == next_due(
                start,
                limit,
                include_limit,
                scale_ns,
            ),
            more ==> all == done + stamped(
                due_times(*next_sample, limit, include_limit, scale_ns),
                taken,
            ),
            !more ==> all == done && next_due(*next_sample, limit, include_limit, scale_ns)
                == *next_sample,
        decreases u64::MAX - *next_sample + if more { 1int } else { 0int },
    {
        let ghost times = due_times(*next_sample, limit, include_limit, scale_ns);
        let ghost sample = Sample { time_ns: *next_sample, taken };
        let ghost after = done.push(sample);
        let ghost rest = stamped(times.drop_first(), taken);
        proof {
            assert(times[0] == *next_sample);
            assert(done + stamped(times, taken) =~= after + rest);
            assert(after.drop_last() =~= done);
            lemma_samples_text_split(after, rest, records);
        }
        let line = state.format_sample(*next_sample);
        if let Err(err) = output.write_text(line.as_str()) {
            assert(before + samples_text(after, records) =~= before + samples_text(done, records)
                + line@);
            return Err(err);
        }
        proof {
            assert(output.written() =~= before + samples_text(after, records));
            done = after;
        }
        match next_sample.checked_add(scale_ns) {
            Some(next) => {
                proof {
                    assert(times.drop_first() =~= due_times(next, limit, include_limit, scale_ns));
                }
                *next_sample = next;
            },
            None => {
                proof {
                    assert(times.drop_first() =~= seq![]);
                    assert(after + rest =~= after);
                }
                more = false;
            },
        }
    }
    proof {
        if more {
            assert(done + stamped(seq![], taken) =~= done);
        }
    }
    Ok(())
}

/// The lines of the samples before record `n`, where it has a new time.
spec fn step_text(
    progress: Progress,
    records: Seq<TraceRecordView>,
    n: nat,
    scale_ns: u64,
) -> Seq<char> {
    let offset = throughput::offset_of(records, records[n as int]);
    let next = next_due(progress.next, progress.offset, true, scale_ns);
    samples_text(
        stamped(due_times(progress.next, progress.offset, true, scale_ns), n),
        records,
    ) + samples_text(stamped(due_times(next, offset, false, scale_ns), n), records)
}

proof fn lemma_step_text(
    progress: Progress,
    records: Seq<TraceRecordView>,
    n: nat,
    scale_ns: u64,
)
    requires
        throughput::offset_of(records, records[n as int]) != progress.offset,
    ensures
        samples_text(before_record(progress, records, n, scale_ns).samples, records)
            == samples_text(progress.samples, records) + step_text(progress, records, n, scale_ns),
{
    let offset = throughput::offset_of(records, records[n as int]);
    let next = next_due(progress.next, progress.offset, true, scale_ns);
    let a = stamped(due_times(progress.next, progress.offset, true, scale_ns), n);
    let b = stamped(due_times(next, offset, false, scale_ns), n);
    lemma_samples_text_split(progress.samples, a, records);
    lemma_samples_text_split(progress.samples + a, b, records);
    assert(samples_text(progress.samples, records) + samples_text(a, records) + samples_text(
        b,
        records,
    ) =~= samples_text(progress.samples, records) + step_text(progress, records, n, scale_ns));
}

/// Takes the samples that are due before a record with a new time.
fn emit_before_record<W: TextSink>(
    output: &mut W,
    state: &QueueDepthState,
    scale_ns: u64,
    next_sample: &mut u64,
    current_offset: u64,
    offset: u64,
    Ghost(progress): Ghost<Progress>,
    Ghost(records): Ghost<Seq<TraceRecordView>>,
) -> (result: std::result::Result<(), std::io::Error>)
    requires
        scale_ns > 0,
        state.wf(),
        state@.len() < records.len(),
        state@ == records.take(state@.len() as int),
        *old(next_sample) == progress.next,
        current_offset == progress.offset,
        offset == throughput::offset_of(records, records[state@.len() as int]),
        offset != progress.offset,
    ensures
        final(output).failure() == old(output).failure(),
        ({
            let text = step_text(progress, records, state@.len(), scale_ns);
            match result {
                Ok(()) => {
                    &&& final(output).written() == old(output).written() + text
                    &&& *final(next_sample) == before_record(
                        progress,
                        records,
                        state@.len(),
                        scale_ns,
                    ).next
                },
                Err(err) => {
                    &&& old(output).failure() == Some(err)
                    &&& old(output).written().is_prefix_of(final(output).written())
                    &&& final(output).written().is_prefix_of(old(output).written() + text)
                },
            }
        }),
{
    let ghost start = output.written();
    let ghost n = state@.len();
    let ghost next = next_due(progress.next, progress.offset, true, scale_ns);
    let ghost a = samples_text(
        stamped(due_times(progress.next, progress.offset, true, scale_ns), n),
        records,
    );
    let ghost b = samples_text(stamped(due_times(next, offset, false, scale_ns), n), records);
    proof {
        assert(start + step_text(progress, records, n, scale_ns) =~= start + a + b);
    }
    emit_due_samples(output, state, scale_ns, next_sample, current_offset, true, Ghost(records))?;
    emit_due_samples(output, state, scale_ns, next_sample, offset, false, Ghost(records))
}

/// Samples only add up: those of a first part of the records come first.
proof fn lemma_progress_grows(records: Seq<TraceRecordView>, n: nat, m: nat, scale_ns: u64)
    requires
        n <= m <= records.len(),
    ensures
        exists|more: Seq<Sample>|
            #[trigger] (progress(records, n, scale_ns).samples + more) == progress(
                records,
                m,
                scale_ns,
            ).samples,
    decreases m,
{
    let a = progress(records, n, scale_ns).samples;
    if n == m {
        assert(a + Seq::<Sample>::empty() =~= a);
    } else {
        lemma_progress_grows(records, n, (m - 1) as nat, scale_ns);
        let before = progress(records, (m - 1) as nat, scale_ns);
        let more = choose|more: Seq<Sample>| #[trigger] (a + more) == before.samples;
        let offset = throughput::offset_of(records, records[m - 1]);
        if offset == before.offset {
            assert(a + more == progress(records, m, scale_ns).samples);
        } else {
            let next = next_due(before.next, before.offset, true, scale_ns);
            let x = stamped(due_times(before.next, before.offset, true, scale_ns), (m - 1) as nat);
            let y = stamped(due_times(next, offset, false, scale_ns), (m - 1) as nat);
            assert(a + (more + x + y) =~= progress(records, m, scale_ns).samples);
        }
    }
}

/// What is written up to some record is part of what is written in all.
proof fn lemma_partial_text(
    records: Seq<TraceRecordView>,
    n: nat,
    scale_ns: u64,
    start: Seq<char>,
    part: Seq<char>,
)
    requires
        n <= records.len(),
        records.len() > 0,
        part.is_prefix_of(start + samples_text(progress(records, n, scale_ns).samples, records)),
    ensures
        part.is_prefix_of(start + samples_text(samples(records, scale_ns), records)),
{
    let all = samples(records, scale_ns);
    let end = progress(records, records.len(), scale_ns);
    lemma_progress_grows(records, n, records.len(), scale_ns);
    let a = progress(records, n, scale_ns).samples;
    let more = choose|more: Seq<Sample>| #[trigger] (a + more) == end.samples;
    let last = stamped(due_times(end.next, end.offset, true, scale_ns), records.len());
    assert(all =~= a + (more + last));
    lemma_samples_text_split(a, more + last, records);
    let x = start + samples_text(a, records);
    let y = start + samples_text(all, records);
    assert(y =~= x + samples_text(more + last, records));
    assert(part =~= y.take(part.len() as int)) by {
        assert(part =~= x.take(part.len() as int));
    }
}

proof fn lemma_warnings_grow(records: Seq<TraceRecordView>, n: int)
    requires
        0 <= n <= records.len(),
    ensures
        commands::warnings(records.take(n)).is_prefix_of(commands::warnings(records)),
    decreases records.len(),
{
    if n == records.len() {
        assert(records.take(n) =~= records);
    } else {
        lemma_warnings_grow(records.drop_last(), n);
        assert(records.drop_last().take(n) =~= records.take(n));
    }
}

proof fn lemma_warned_part(before: Seq<Seq<char>>, part: Seq<Seq<char>>, all: Seq<Seq<char>>)
    requires
        part.is_prefix_of(all),
    ensures
        before.is_prefix_of(before + part),
        (before + part).is_prefix_of(before + all),
{
    assert((before + part).take(before.len() as int) =~= before);
    assert(all.take(part.len() as int) =~= part);
    assert((before + all).take((before + part).len() as int) =~= before + part);
}

/// What was written when a write fails is part of what is written in all.
proof fn lemma_failed(
    records: Seq<TraceRecordView>,
    n: nat,
    scale_ns: u64,
    before: Seq<char>,
    start: Seq<char>,
    done: Seq<char>,
    text: Seq<char>,
    written: Seq<char>,
)
    requires
        n <= records.len(),
        records.len() > 0,
        before.is_prefix_of(start),
        start.is_prefix_of(done),
        done.is_prefix_of(written),
        written.is_prefix_of(done + text),
        (done + text).is_prefix_of(
            start + samples_text(progress(records, n, scale_ns).samples, records),
        ),
    ensures
        before.is_prefix_of(written),
        written.is_prefix_of(start + samples_text(samples(records, scale_ns), records)),
{
    let all = start + samples_text(progress(records, n, scale_ns).samples, records);
    assert(written =~= all.take(written.len() as int)) by {
        assert(written =~= (done + text).take(written.len() as int));
        assert(done + text =~= all.take((done + text).len() as int));
    }
    lemma_partial_text(records, n, scale_ns, start, written);
    assert(before =~= written.take(before.len() as int)) by {
        assert(before =~= start.take(before.len() as int));
        assert(start =~= done.take(start.len() as int));
        assert(done =~= written.take(done.len() as int));
    }
}

/// Samples the depths of queues every `scale_ns`. Gives a warning for every
/// record that does not fit the commands that are outstanding.
#[verifier::spinoff_prover]
#[verifier::rlimit(30)]
pub fn analyze_queue_depth_records<W: TextSink, F: WarnSink>(
    records: &Vec<TraceRecord>,
    scale_ns: u64,
    output: &mut W,
    warn: &mut F,
) -> (result: std::result::Result<(), std::io::Error>)
    requires
        scale_ns > 0,
    ensures
        ({
            let all = trace::contents(records@);
            let text = depth_text(all, scale_ns);
            match result {
                Ok(()) => {
                    &&& final(output).written() == old(output).written() + text
                    &&& final(warn).warnings() == old(warn).warnings() + commands::warnings(all)
                },
                Err(err) => {
                    &&& old(output).failure() == Some(err)
                    &&& old(output).written().is_prefix_of(final(output).written())
                    &&& final(output).written().is_prefix_of(old(output).written() + text)
                    &&& old(warn).warnings().is_prefix_of(final(warn).warnings())
                    &&& final(warn).warnings().is_prefix_of(
                        old(warn).warnings() + commands::warnings(all),
                    )
                },
            }
        }),
{
    let ghost all = trace::contents(records@);
    let ghost head = "time_ns\tscope\tctrl_id\tqid\tqueue_depth\n"@;
    let ghost start = output.written() + head;
    let ghost everything = samples_text(samples(all, scale_ns), all);
    let mut state = QueueDepthState::new();
    proof {
        assert(all.take(0) =~= seq![]);
        lemma_warnings_grow(all, 0);
        lemma_warned_part(warn.warnings(), seq![], commands::warnings(all));
        assert(warn.warnings() + Seq::<Seq<char>>::empty() =~= warn.warnings());
        assert(output.written() + depth_text(all, scale_ns) =~= start + everything);
        assert((start + everything).take(start.len() as int) =~= start);
    }
    if let Err(err) = output.write_text("time_ns\tscope\tctrl_id\tqid\tqueue_depth\n") {
        return Err(err);
    }
    if records.len() == 0 {
        assert(start + everything =~= start);
        assert(commands::warnings(all) =~= seq![]);
        return Ok(());
    }
    let base_ts = records[0].header().timestamp_ns;
    let mut current_offset: u64 = 0;
    let mut next_sample: u64 = 0;
    let mut i: usize = 0;
    proof {
        assert(start + samples_text(seq![], all) =~= start);
        assert(warn.warnings() + commands::warnings(all.take(0)) =~= warn.warnings());
    }
    while i < records.len()
        invariant
            i <= records@.len(),
            0 < records@.len(),
            scale_ns > 0,
            all == trace::contents(records@),
            head == "time_ns\tscope\tctrl_id\tqid\tqueue_depth\n"@,
            start == old(output).written() + head,
            everything == samples_text(samples(all, scale_ns), all),
            base_ts == crate::encoding::header_of_view(all[0]).timestamp_ns,
            output.failure() == old(output).failure(),
            state.wf(),
            state@ == all.take(i as int),
            ({
                let now = progress(all, i as nat, scale_ns);
                &&& current_offset == now.offset
                &&& next_sample == now.next
                &&& output.written() == start + samples_text(now.samples, all)
            }),
            warn.warnings() == old(warn).warnings() + commands::warnings(all.take(i as int)),
            old(output).written() + depth_text(all, scale_ns) == start + everything,
        decreases records@.len() - i,
    {
        let ghost now = progress(all, i as nat, scale_ns);
        let ghost after = progress(all, (i + 1) as nat, scale_ns);
        let record = &records[i];
        let offset: u64 = record.header().timestamp_ns.saturating_sub(base_ts);
        assert(offset == throughput::offset_of(all, all[i as int]));
        if offset != current_offset {
            proof {
                lemma_step_text(now, all, i as nat, scale_ns);
                assert(start + samples_text(after.samples, all) =~= start + samples_text(
                    now.samples,
                    all,
                ) + step_text(now, all, i as nat, scale_ns));
            }
            if let Err(err) = emit_before_record(
                output,
                &state,
                scale_ns,
                &mut next_sample,
                current_offset,
                offset,
                Ghost(now),
                Ghost(all),
            ) {
                proof {
                    lemma_warnings_grow(all, i as int);
                    lemma_warned_part(
                        old(warn).warnings(),
                        commands::warnings(all.take(i as int)),
                        commands::warnings(all),
                    );
                    lemma_failed(
                        all,
                        (i + 1) as nat,
                        scale_ns,
                        old(output).written(),
                        start,
                        start + samples_text(now.samples, all),
                        step_text(now, all, i as nat, scale_ns),
                        output.written(),
                    );
                }
                return Err(err);
            }
            current_offset = offset;
        }
        let _effect = state.apply_record(record, warn);
        proof {
            assert(all.take(i + 1) =~= all.take(i as int).push(all[i as int]));
            assert(all.take(i + 1).drop_last() =~= all.take(i as int));
            assert(warn.warnings() =~= old(warn).warnings() + commands::warnings(
                all.take(i + 1),
            )) by {
                assert(commands::warnings(all.take(i + 1)) == commands::warnings(
                    all.take(i as int),
                ) + commands::warnings_for(
                    commands::outstanding(all.take(i as int)),
                    all[i as int],
                ));
            }
        }
        i = i + 1;
    }
    let ghost end = progress(all, records@.len() as nat, scale_ns);
    let ghost last = stamped(due_times(end.next, end.offset, true, scale_ns), all.len());
    proof {
        assert(all.take(all.len() as int) =~= all);
        lemma_samples_text_split(end.samples, last, all);
        assert(start + everything =~= start + samples_text(end.samples, all) + samples_text(
            last,
            all,
        ));
        lemma_warned_part(
            old(warn).warnings(),
            commands::warnings(all),
            commands::warnings(all),
        );
    }
    if let Err(err) = emit_due_samples(
        output,
        &state,
        scale_ns,
        &mut next_sample,
        current_offset,
        true,
        Ghost(all),
    ) {
        proof {
            assert(old(output).written().is_prefix_of(start + samples_text(end.samples, all)));
        }
        return Err(err);
    }
    Ok(())
}

} // verus!
