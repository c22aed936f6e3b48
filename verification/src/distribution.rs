//! How often each depth was met when a command was submitted.

use crate::commands::{self, QueueKey};
use crate::depth::{self, QueueDepthState};
use crate::record::{TraceRecord, TraceRecordView};
use crate::stream::WarnSink;
use crate::tables::{self, list_rows};
use crate::text::{self, push_decimal};
use crate::trace;
use std::collections::BTreeMap;
use vstd::prelude::*;

verus! {

broadcast use {vstd::std_specs::btree::group_btree_axioms, vstd::laws_cmp::group_laws_cmp};

/// Tells whether the last of `records` is a submission that counts for a queue,
/// or for all queues together.
pub open spec fn counts_for(records: Seq<TraceRecordView>, queue: Option<QueueKey>) -> bool {
    &&& records.last() is Submit
    &&& queue matches Some(q) ==> depth::record_queue(records.last()) == q
}

/// The depth of a queue, or of all queues together.
pub open spec fn depth_of(records: Seq<TraceRecordView>, queue: Option<QueueKey>) -> nat {
    match queue {
        Some(q) => depth::queue_depth(records, q),
        None => depth::global_depth(records),
    }
}

/// How many of `records` are submissions to a queue, or to any.
pub open spec fn total_for(records: Seq<TraceRecordView>, queue: Option<QueueKey>) -> nat
    decreases records.len(),
{
    if records.len() == 0 {
        0
    } else {
        total_for(records.drop_last(), queue) + if counts_for(records, queue) {
            1nat
        } else {
            0nat
        }
    }
}

/// How many of `records` are submissions that met a depth. A submission meets
/// the depth before it counts itself.
pub open spec fn times_met(
    records: Seq<TraceRecordView>,
    queue: Option<QueueKey>,
    met: u64,
) -> nat
    decreases records.len(),
{
    if records.len() == 0 {
        0
    } else {
        let front = records.drop_last();
        times_met(front, queue, met) + if counts_for(records, queue) && depth_of(front, queue)
            == met {
            1nat
        } else {
            0nat
        }
    }
}

/// A depth of a queue, or of all queues together: how often it was met, of how
/// many times.
#[derive(Debug, Clone, Copy, PartialEq, Eq, Structural)]
pub struct DistributionRow {
    pub queue: Option<QueueKey>,
    pub depth: u64,
    pub count: u64,
    pub total: u64,
}

/// The rows of all queues together come first, then those of the queues by
/// controller and number.
pub open spec fn scope_code(queue: Option<QueueKey>) -> u128 {
    match queue {
        Some(q) => (1 + commands::queue_code(q)) as u128,
        None => 0,
    }
}

/// A number for each row, by which rows are ordered.
pub open spec fn row_code(queue: Option<QueueKey>, met: u64) -> u128 {
    (scope_code(queue) * 0x1_0000_0000_0000_0000 + met) as u128
}

/// `rows` are the depths that were met, in their order, with how often each was
/// met.
pub open spec fn distribution_of(
    rows: Seq<DistributionRow>,
    records: Seq<TraceRecordView>,
) -> bool {
    &&& forall|i: int, j: int|
        #![trigger rows[i], rows[j]]
        0 <= i < j < rows.len() ==> row_code(rows[i].queue, rows[i].depth) < row_code(
            rows[j].queue,
            rows[j].depth,
        )
    &&& forall|i: int|
        0 <= i < rows.len() ==> {
            let row = #[trigger] rows[i];
            &&& row.count > 0
            &&& row.count == times_met(records, row.queue, row.depth)
            &&& row.total == total_for(records, row.queue)
        }
    &&& forall|queue: Option<QueueKey>, met: u64|
        (#[trigger] times_met(records, queue, met)) > 0 ==> exists|i: int|
            0 <= i < rows.len() && (#[trigger] rows[i]).queue == queue && rows[i].depth == met
}

/// A table holds how often each depth was met.
spec fn counts_of(table: Map<u128, u64>, records: Seq<TraceRecordView>) -> bool {
    &&& forall|key: u128| #[trigger]
        table.contains_key(key) ==> key < 0x1_0001 * 0x1_0000_0000_0000_0000
    &&& forall|queue: Option<QueueKey>, met: u64|
        #![trigger times_met(records, queue, met)]
        #![trigger row_code(queue, met)]
        {
            let count = times_met(records, queue, met);
            let key = row_code(queue, met);
            &&& table.contains_key(key) <==> count > 0
            &&& count > 0 ==> table[key] == count
        }
}

/// A table holds how many submissions there were.
spec fn totals_of(table: Map<u128, u64>, records: Seq<TraceRecordView>) -> bool {
    forall|queue: Option<QueueKey>|
        #![trigger total_for(records, queue)]
        #![trigger scope_code(queue)]
        {
            let total = total_for(records, queue);
            let key = scope_code(queue);
            &&& table.contains_key(key) <==> total > 0
            &&& total > 0 ==> table[key] == total
        }
}

proof fn lemma_row_codes_unique()
    ensures
        forall|a: Option<QueueKey>, b: Option<QueueKey>|
            #![trigger scope_code(a), scope_code(b)]
            scope_code(a) == scope_code(b) ==> a == b,
        forall|a: Option<QueueKey>, x: u64, b: Option<QueueKey>, y: u64|
            #![trigger row_code(a, x), row_code(b, y)]
            row_code(a, x) == row_code(b, y) ==> a == b && x == y,
        forall|a: Option<QueueKey>, x: u64|
            #![trigger row_code(a, x)]
            row_code(a, x) < 0x1_0001 * 0x1_0000_0000_0000_0000,
{
    commands::codes_are_unique();
}

proof fn lemma_counts_bounded(records: Seq<TraceRecordView>, queue: Option<QueueKey>, met: u64)
    ensures
        times_met(records, queue, met) <= records.len(),
        total_for(records, queue) <= records.len(),
    decreases records.len(),
{
    if records.len() > 0 {
        lemma_counts_bounded(records.drop_last(), queue, met);
    }
}

fn add_one(table: &mut BTreeMap<u128, u64>, key: u128)
    requires
        old(table)@.contains_key(key) ==> old(table)@[key] < u64::MAX,
    ensures
        final(table)@ == old(table)@.insert(
            key,
            if old(table)@.contains_key(key) {
                (old(table)@[key] + 1) as u64
            } else {
                1
            },
        ),
{
    let count: u64 = match table.get(&key) {
        Some(count) => *count + 1,
        None => 1,
    };
    table.insert(key, count);
}

fn code_of_row(queue: Option<QueueKey>, met: u64) -> (code: u128)
    ensures
        code == row_code(queue, met),
{
    code_of_scope(queue) * 0x1_0000_0000_0000_0000 + met as u128
}

fn code_of_scope(queue: Option<QueueKey>) -> (code: u128)
    ensures
        code == scope_code(queue),
        code <= 0x1_0000,
{
    proof {
        commands::codes_are_unique();
    }
    match queue {
        Some(q) => 1 + q.code() as u128,
        None => 0,
    }
}

/// Counts a submission with the depths that it meets.
fn count_submission(
    counts: &mut BTreeMap<u128, u64>,
    totals: &mut BTreeMap<u128, u64>,
    queue: QueueKey,
    global_met: u64,
    queue_met: u64,
    Ghost(now): Ghost<Seq<TraceRecordView>>,
)
    requires
        0 < now.len() <= u64::MAX,
        now.last() is Submit,
        depth::record_queue(now.last()) == queue,
        global_met == depth::global_depth(now.drop_last()),
        queue_met == depth::queue_depth(now.drop_last(), queue),
        counts_of(old(counts)@, now.drop_last()),
        totals_of(old(totals)@, now.drop_last()),
    ensures
        counts_of(final(counts)@, now),
        totals_of(final(totals)@, now),
{
    let ghost before = now.drop_last();
    let mine = Some(queue);
    let global_row = code_of_row(None, global_met);
    let queue_row = code_of_row(mine, queue_met);
    let global_scope = code_of_scope(None);
    let queue_scope = code_of_scope(mine);
    proof {
        lemma_row_codes_unique();
        lemma_counts_bounded(before, None, global_met);
        lemma_counts_bounded(before, mine, queue_met);
        assert(counts@.contains_key(row_code(None, global_met)) <==> times_met(
            before,
            None,
            global_met,
        ) > 0);
        assert(counts@.contains_key(row_code(mine, queue_met)) <==> times_met(
            before,
            mine,
            queue_met,
        ) > 0);
        assert(totals@.contains_key(scope_code(None)) <==> total_for(before, None) > 0);
        assert(totals@.contains_key(scope_code(mine)) <==> total_for(before, mine) > 0);
        assert(row_code(None, global_met) != row_code(mine, queue_met));
        assert(scope_code(None) != scope_code(mine));
    }
    let ghost (counts_before, totals_before) = (counts@, totals@);
    add_one(counts, global_row);
    add_one(counts, queue_row);
    add_one(totals, global_scope);
    add_one(totals, queue_scope);
    proof {
        assert forall|q: Option<QueueKey>, met: u64|
            #![trigger times_met(now, q, met)]
            #![trigger row_code(q, met)]
            {
                let count = times_met(now, q, met);
                let key = row_code(q, met);
                &&& counts@.contains_key(key) <==> count > 0
                &&& count > 0 ==> counts@[key] == count
            } by {
            let code = row_code(q, met);
            assert(times_met(before, q, met) >= 0);
            assert(counts_before.contains_key(code) <==> times_met(before, q, met) > 0);
            if q is None && met == global_met {
                assert(code == global_row);
            } else if q == mine && met == queue_met {
                assert(code == queue_row);
            } else {
                assert(code != global_row) by {
                    assert(code != row_code(None, global_met));
                }
                assert(code != queue_row) by {
                    assert(code != row_code(mine, queue_met));
                }
            }
        }
        assert forall|q: Option<QueueKey>|
            #![trigger total_for(now, q)]
            #![trigger scope_code(q)]
            {
                let total = total_for(now, q);
                let key = scope_code(q);
                &&& totals@.contains_key(key) <==> total > 0
                &&& total > 0 ==> totals@[key] == total
            } by {
            let code = scope_code(q);
            assert(totals_before.contains_key(code) <==> total_for(before, q) > 0);
            if q is None {
                assert(code == global_scope);
            } else if q == mine {
                assert(code == queue_scope);
            } else {
                assert(code != scope_code(None));
                assert(code != scope_code(mine));
            }
        }
    }
}

proof fn lemma_completion_counts_nothing(
    counts: Map<u128, u64>,
    totals: Map<u128, u64>,
    now: Seq<TraceRecordView>,
)
    requires
        now.len() > 0,
        now.last() is Complete,
        counts_of(counts, now.drop_last()),
        totals_of(totals, now.drop_last()),
    ensures
        counts_of(counts, now),
        totals_of(totals, now),
{
    let before = now.drop_last();
    assert forall|q: Option<QueueKey>, met: u64|
        #![trigger times_met(now, q, met)]
        #![trigger row_code(q, met)]
        times_met(now, q, met) == times_met(before, q, met) by {}
    assert forall|q: Option<QueueKey>|
        #![trigger total_for(now, q)]
        #![trigger scope_code(q)]
        total_for(now, q) == total_for(before, q) by {}
}

/// Makes the rows of a table of counts.
#[verifier::rlimit(30)]
fn make_rows(
    counts: &BTreeMap<u128, u64>,
    totals: &BTreeMap<u128, u64>,
    Ghost(records): Ghost<Seq<TraceRecordView>>,
) -> (rows: Vec<DistributionRow>)
    requires
        counts_of(counts@, records),
        totals_of(totals@, records),
    ensures
        distribution_of(rows@, records),
{
    let entries = list_rows(counts);
    let mut rows: Vec<DistributionRow> = Vec::new();
    while rows.len() < entries.len()
        invariant
            rows@.len() <= entries@.len(),
            tables::rows_of(entries@, counts@),
            counts_of(counts@, records),
            totals_of(totals@, records),
            forall|k: int|
                0 <= k < rows@.len() ==> {
                    let row = #[trigger] rows@[k];
                    &&& row_code(row.queue, row.depth) == entries@[k].0
                    &&& row.count == entries@[k].1
                    &&& row.total == total_for(records, row.queue)
                },
        decreases entries@.len() - rows@.len(),
    {
        let (key, count) = entries[rows.len()];
        assert(counts@.contains_key(entries@[rows@.len() as int].0));
        let scope: u128 = key / 0x1_0000_0000_0000_0000;
        let met: u64 = (key % 0x1_0000_0000_0000_0000) as u64;
        let queue: Option<QueueKey> = if scope == 0 {
            None
        } else {
            Some(QueueKey::from_code((scope - 1) as u64))
        };
        proof {
            commands::codes_are_unique();
            assert(scope <= 0x1_0000);
            assert(scope_code(queue) == scope);
            assert(row_code(queue, met) == key);
        }
        let total: u64 = match totals.get(&scope) {
            Some(total) => *total,
            None => 0,
        };
        assert(total == total_for(records, queue));
        rows.push(DistributionRow { queue, depth: met, count, total });
    }
    proof {
        lemma_row_codes_unique();
        assert forall|k: int| 0 <= k < rows@.len() implies {
            let row = #[trigger] rows@[k];
            &&& row.count > 0
            &&& row.count == times_met(records, row.queue, row.depth)
            &&& row.total == total_for(records, row.queue)
        } by {
            let row = rows@[k];
            assert(counts@.contains_key(entries@[k].0));
            assert(counts@.contains_key(row_code(row.queue, row.depth)));
        }
        assert forall|queue: Option<QueueKey>, met: u64|
            (#[trigger] times_met(records, queue, met)) > 0 implies exists|i: int|
            0 <= i < rows@.len() && (#[trigger] rows@[i]).queue == queue && rows@[i].depth
                == met by {
            let key = row_code(queue, met);
            assert(counts@.contains_key(key));
            let i = choose|i: int| 0 <= i < entries@.len() && (#[trigger] entries@[i]).0 == key;
            let row = rows@[i];
            assert(row_code(row.queue, row.depth) == key);
        }
        assert forall|i: int, j: int|
            #![trigger rows@[i], rows@[j]]
            0 <= i < j < rows@.len() implies row_code(rows@[i].queue, rows@[i].depth) < row_code(
            rows@[j].queue,
            rows@[j].depth,
        ) by {
            assert(entries@[i].0 < entries@[j].0);
        }
    }
    rows
}

/// Counts how often each depth was met when a command was submitted. Gives a
/// warning for every record that does not fit the commands that are
/// outstanding.
#[verifier::rlimit(30)]
pub fn analyze_queue_depth_percent_records<F: WarnSink>(
    records: &Vec<TraceRecord>,
    warn: &mut F,
) -> (rows: Vec<DistributionRow>)
    ensures
        distribution_of(rows@, trace::contents(records@)),
        final(warn).warnings() == old(warn).warnings() + commands::warnings(
            trace::contents(records@),
        ),
{
    let ghost all = trace::contents(records@);
    let mut state = QueueDepthState::new();
    let mut counts: BTreeMap<u128, u64> = BTreeMap::new();
    let mut totals: BTreeMap<u128, u64> = BTreeMap::new();
    let mut i: usize = 0;
    proof {
        assert(all.take(0) =~= seq![]);
        assert(warn.warnings() + commands::warnings(seq![]) =~= warn.warnings());
    }
    while i < records.len()
        invariant
            i <= records@.len(),
            all == trace::contents(records@),
            state.wf(),
            state@ == all.take(i as int),
            counts_of(counts@, all.take(i as int)),
            totals_of(totals@, all.take(i as int)),
            warn.warnings() == old(warn).warnings() + commands::warnings(all.take(i as int)),
        decreases records@.len() - i,
    {
        let ghost before = all.take(i as int);
        let ghost now = all.take(i + 1);
        let record = &records[i];
        proof {
            assert(now.drop_last() =~= before);
            assert(now =~= before.push(record@));
            assert(now.last() == record@);
        }
        match record {
            TraceRecord::Submit(submit) => {
                let queue = commands::CommandKey::from_header(submit.header).queue();
                let global_met = state.global();
                let queue_met = state.of_queue(queue);
                count_submission(
                    &mut counts,
                    &mut totals,
                    queue,
                    global_met,
                    queue_met,
                    Ghost(now),
                );
            },
            TraceRecord::Complete(_) => {
                proof {
                    lemma_completion_counts_nothing(counts@, totals@, now);
                }
            },
        }
        let _effect = state.apply_record(record, warn);
        proof {
            assert(warn.warnings() =~= old(warn).warnings() + commands::warnings(now));
        }
        i = i + 1;
    }
    assert(all.take(all.len() as int) =~= all);
    make_rows(&counts, &totals, Ghost(all))
}

/// The line for a row and the percentage that was worked out for it.
pub open spec fn row_line(row: DistributionRow, percent: Seq<char>) -> Seq<char> {
    match row.queue {
        Some(queue) => "queue\t"@ + text::decimal(queue.ctrl_id as nat) + "\t"@ + text::decimal(
            queue.qid as nat,
        ) + "\t"@ + text::decimal(row.depth as nat) + "\t"@ + text::decimal(row.count as nat)
            + "\t"@ + percent + "\n"@,
        None => "global\t\t\t"@ + text::decimal(row.depth as nat) + "\t"@ + text::decimal(
            row.count as nat,
        ) + "\t"@ + percent + "\n"@,
    }
}

/// The lines for rows and the percentages that were worked out for them.
pub open spec fn lines_text(rows: Seq<DistributionRow>, percents: Seq<String>) -> Seq<char>
    decreases rows.len(),
{
    if rows.len() == 0 {
        "scope\tctrl_id\tqid\tqueue_depth\tcount\tpercent\n"@
    } else {
        lines_text(rows.drop_last(), percents) + row_line(rows.last(), percents[rows.len() - 1]@)
    }
}

fn format_row(row: &DistributionRow, percent: &str) -> (line: String)
    ensures
        line@ == row_line(*row, percent@),
{
    match row.queue {
        Some(queue) => {
            let mut line = "queue\t".to_owned();
            push_decimal(&mut line, queue.ctrl_id as u128);
            line.append("\t");
            push_decimal(&mut line, queue.qid as u128);
            line.append("\t");
            push_decimal(&mut line, row.depth as u128);
            line.append("\t");
            push_decimal(&mut line, row.count as u128);
            line.append("\t");
            line.append(percent);
            line.append("\n");
            line
        },
        None => {
            let mut line = "global\t\t\t".to_owned();
            push_decimal(&mut line, row.depth as u128);
            line.append("\t");
            push_decimal(&mut line, row.count as u128);
            line.append("\t");
            line.append(percent);
            line.append("\n");
            line
        },
    }
}

/// Writes out rows and the percentages that were worked out for them, one for
/// each row.
pub fn format_distribution(rows: &Vec<DistributionRow>, percents: &Vec<String>) -> (table: String)
    requires
        rows@.len() == percents@.len(),
    ensures
        table@ == lines_text(rows@, percents@),
{
    let mut out = "scope\tctrl_id\tqid\tqueue_depth\tcount\tpercent\n".to_owned();
    let mut i: usize = 0;
    while i < rows.len()
        invariant
            i <= rows@.len(),
            rows@.len() == percents@.len(),
            out@ == lines_text(rows@.take(i as int), percents@),
        decreases rows@.len() - i,
    {
        assert(rows@.take(i + 1).drop_last() =~= rows@.take(i as int));
        let line = format_row(&rows[i], percents[i].as_str());
        out.append(line.as_str());
        i = i + 1;
    }
    assert(rows@.take(rows@.len() as int) =~= rows@);
    out
}

} // verus!
