//! What holds of depths and of how often they are met.

use crate::commands::{self, Effect, QueueKey};
use crate::depth;
use crate::distribution::{self, DistributionRow};
use crate::encoding;
use crate::record::TraceRecordView;
use vstd::prelude::*;

verus! {

/// How many of `records` make a command outstanding.
pub open spec fn submitted(records: Seq<TraceRecordView>) -> nat
    decreases records.len(),
{
    if records.len() == 0 {
        0
    } else {
        let front = records.drop_last();
        submitted(front) + if commands::effect(commands::outstanding(front), records.last())
            is Submitted {
            1nat
        } else {
            0nat
        }
    }
}

/// How many of `records` complete a command that was outstanding.
pub open spec fn completed(records: Seq<TraceRecordView>) -> nat
    decreases records.len(),
{
    if records.len() == 0 {
        0
    } else {
        let front = records.drop_last();
        completed(front) + if commands::effect(commands::outstanding(front), records.last())
            is Completed {
            1nat
        } else {
            0nat
        }
    }
}

/// The depth is the number of commands that became outstanding, less those that
/// were completed. It never falls below zero: a completion that matches nothing
/// changes nothing, and neither does a submission of an outstanding command.
pub proof fn depth_is_the_balance(records: Seq<TraceRecordView>)
    ensures
        depth::global_depth(records) + completed(records) == submitted(records),
    decreases records.len(),
{
    if records.len() > 0 {
        let front = records.drop_last();
        depth_is_the_balance(front);
        assert(records =~= front.push(records.last()));
        depth::lemma_depth_step(front, records.last(), depth::record_queue(records.last()));
    }
}

/// The depths of the first `n` queues together.
pub open spec fn sum_of_depths(records: Seq<TraceRecordView>, n: nat) -> nat
    decreases n,
{
    if n == 0 {
        0
    } else {
        sum_of_depths(records, (n - 1) as nat) + depth::queue_depth(
            records,
            commands::queue_of_code(n - 1),
        )
    }
}

proof fn lemma_sum_step(records: Seq<TraceRecordView>, record: TraceRecordView, n: nat)
    requires
        n <= 0x1_0000,
    ensures
        ({
            let now = records.push(record);
            let here: nat = if commands::queue_code(depth::record_queue(record)) < n {
                1
            } else {
                0
            };
            match commands::effect(commands::outstanding(records), record) {
                Effect::Submitted => sum_of_depths(now, n) == sum_of_depths(records, n) + here,
                Effect::Completed(_) => sum_of_depths(now, n) + here == sum_of_depths(records, n),
                _ => sum_of_depths(now, n) == sum_of_depths(records, n),
            }
        }),
    decreases n,
{
    if n > 0 {
        commands::codes_are_unique();
        lemma_sum_step(records, record, (n - 1) as nat);
        let queue = commands::queue_of_code(n - 1);
        depth::lemma_depth_step(records, record, queue);
        let mine = depth::record_queue(record);
        assert(commands::queue_code(queue) == n - 1);
        assert(commands::queue_code(mine) == n - 1 <==> mine == queue);
    }
}

/// The depth of all queues together is the sum of the depths of the queues.
pub proof fn depths_add_up(records: Seq<TraceRecordView>)
    ensures
        sum_of_depths(records, 0x1_0000) == depth::global_depth(records),
    decreases records.len(),
{
    if records.len() == 0 {
        assert(records =~= seq![]);
        lemma_no_depths(0x1_0000);
    } else {
        let front = records.drop_last();
        depths_add_up(front);
        assert(records =~= front.push(records.last()));
        commands::codes_are_unique();
        lemma_sum_step(front, records.last(), 0x1_0000);
        let queue = depth::record_queue(records.last());
        assert(commands::queue_code(queue) < 0x1_0000);
        depth::lemma_depth_step(front, records.last(), queue);
    }
}

proof fn lemma_no_depths(n: nat)
    ensures
        sum_of_depths(seq![], n) == 0,
    decreases n,
{
    if n > 0 {
        lemma_no_depths((n - 1) as nat);
        let none: Seq<TraceRecordView> = seq![];
        assert(depth::in_queue(
            commands::outstanding(none).dom(),
            commands::queue_of_code(n - 1),
        ) =~= Set::empty());
    }
}

/// How often the rows of a queue, or of all queues together, say that their
/// depths were met.
pub open spec fn counted(rows: Seq<DistributionRow>, queue: Option<QueueKey>) -> nat
    decreases rows.len(),
{
    if rows.len() == 0 {
        0
    } else {
        counted(rows.drop_last(), queue) + if rows.last().queue == queue {
            rows.last().count as nat
        } else {
            0
        }
    }
}

/// How often the depths in `rows` of a queue were met by `records`.
spec fn met_in(
    rows: Seq<DistributionRow>,
    records: Seq<TraceRecordView>,
    queue: Option<QueueKey>,
) -> nat
    decreases rows.len(),
{
    if rows.len() == 0 {
        0
    } else {
        met_in(rows.drop_last(), records, queue) + if rows.last().queue == queue {
            distribution::times_met(records, queue, rows.last().depth)
        } else {
            0
        }
    }
}

/// Rows of which no two are about the same depth of the same queue.
spec fn distinct(rows: Seq<DistributionRow>) -> bool {
    forall|i: int, j: int|
        #![trigger rows[i], rows[j]]
        0 <= i < j < rows.len() ==> !(rows[i].queue == rows[j].queue && rows[i].depth
            == rows[j].depth)
}

/// Tells whether a depth of a queue has a row.
spec fn has_row(rows: Seq<DistributionRow>, queue: Option<QueueKey>, met: u64) -> bool {
    exists|i: int|
        0 <= i < rows.len() && (#[trigger] rows[i]).queue == queue && rows[i].depth == met
}

proof fn lemma_met_step(
    rows: Seq<DistributionRow>,
    records: Seq<TraceRecordView>,
    queue: Option<QueueKey>,
    met: u64,
)
    requires
        records.len() > 0,
        distinct(rows),
        distribution::counts_for(records, queue) ==> met == distribution::depth_of(
            records.drop_last(),
            queue,
        ),
    ensures
        met_in(rows, records, queue) == met_in(rows, records.drop_last(), queue)
            + if distribution::counts_for(records, queue) && has_row(rows, queue, met) {
            1nat
        } else {
            0nat
        },
    decreases rows.len(),
{
    if rows.len() > 0 {
        let front = rows.drop_last();
        let last = rows.last();
        let n = rows.len() - 1;
        assert(distinct(front)) by {
            assert forall|i: int, j: int|
                #![trigger front[i], front[j]]
                0 <= i < j < front.len() implies !(front[i].queue == front[j].queue
                && front[i].depth == front[j].depth) by {
                assert(front[i] == rows[i] && front[j] == rows[j]);
            }
        }
        lemma_met_step(front, records, queue, met);
        if has_row(front, queue, met) {
            let i = choose|i: int|
                0 <= i < front.len() && (#[trigger] front[i]).queue == queue && front[i].depth
                    == met;
            assert(rows[i].queue == queue && rows[i].depth == met);
            assert(!(rows[i].queue == rows[n].queue && rows[i].depth == rows[n].depth));
        }
        if has_row(rows, queue, met) {
            let i = choose|i: int|
                0 <= i < rows.len() && (#[trigger] rows[i]).queue == queue && rows[i].depth == met;
            if i < n {
                assert(front[i] == rows[i]);
            }
        }
        if last.queue == queue && last.depth == met {
            assert(rows[n] == last);
            assert(has_row(rows, queue, met));
        }
    }
}

proof fn lemma_met_in_all(
    rows: Seq<DistributionRow>,
    records: Seq<TraceRecordView>,
    queue: Option<QueueKey>,
    n: int,
)
    requires
        0 <= n <= records.len(),
        distinct(rows),
        forall|met: u64|
            (#[trigger] distribution::times_met(records, queue, met)) > 0 ==> has_row(
                rows,
                queue,
                met,
            ),
    ensures
        met_in(rows, records.take(n), queue) == distribution::total_for(records.take(n), queue),
    decreases n,
{
    let now = records.take(n);
    if n == 0 {
        assert(now =~= seq![]);
        lemma_nothing_met(rows, queue);
    } else {
        let front = records.take(n - 1);
        assert(now.drop_last() =~= front);
        lemma_met_in_all(rows, records, queue, n - 1);
        let deep = distribution::depth_of(front, queue);
        match queue {
            Some(q) => depth::depths_are_bounded(front, q),
            None => depth::depths_are_bounded(front, QueueKey { ctrl_id: 0, qid: 0 }),
        }
        let met = deep as u64;
        lemma_met_step(rows, now, queue, met);
        if distribution::counts_for(now, queue) {
            assert(distribution::times_met(now, queue, met) > 0);
            lemma_times_stay(records, queue, met, n);
        }
    }
}

proof fn lemma_times_stay(
    records: Seq<TraceRecordView>,
    queue: Option<QueueKey>,
    met: u64,
    n: int,
)
    requires
        0 <= n <= records.len(),
    ensures
        distribution::times_met(records.take(n), queue, met) <= distribution::times_met(
            records,
            queue,
            met,
        ),
    decreases records.len(),
{
    if n == records.len() {
        assert(records.take(n) =~= records);
    } else {
        assert(records.drop_last().take(n) =~= records.take(n));
        lemma_times_stay(records.drop_last(), queue, met, n);
    }
}

proof fn lemma_nothing_met(rows: Seq<DistributionRow>, queue: Option<QueueKey>)
    ensures
        met_in(rows, seq![], queue) == 0,
    decreases rows.len(),
{
    if rows.len() > 0 {
        lemma_nothing_met(rows.drop_last(), queue);
    }
}

proof fn lemma_counted(
    rows: Seq<DistributionRow>,
    records: Seq<TraceRecordView>,
    queue: Option<QueueKey>,
)
    requires
        forall|i: int|
            0 <= i < rows.len() ==> (#[trigger] rows[i]).count == distribution::times_met(
                records,
                rows[i].queue,
                rows[i].depth,
            ),
    ensures
        counted(rows, queue) == met_in(rows, records, queue),
    decreases rows.len(),
{
    if rows.len() > 0 {
        let front = rows.drop_last();
        assert forall|i: int| 0 <= i < front.len() implies (#[trigger] front[i]).count
            == distribution::times_met(records, front[i].queue, front[i].depth) by {
            assert(front[i] == rows[i]);
        }
        lemma_counted(front, records, queue);
        assert(rows[rows.len() - 1] == rows.last());
    }
}

/// The counts of a queue, or of all queues together, add up to the number of
/// its submissions: the percentages add up to a hundred.
pub proof fn counts_add_up(
    rows: Seq<DistributionRow>,
    records: Seq<TraceRecordView>,
    queue: Option<QueueKey>,
)
    requires
        distribution::distribution_of(rows, records),
    ensures
        counted(rows, queue) == distribution::total_for(records, queue),
{
    assert(distinct(rows)) by {
        assert forall|i: int, j: int|
            #![trigger rows[i], rows[j]]
            0 <= i < j < rows.len() implies !(rows[i].queue == rows[j].queue && rows[i].depth
            == rows[j].depth) by {
            assert(distribution::row_code(rows[i].queue, rows[i].depth) < distribution::row_code(
                rows[j].queue,
                rows[j].depth,
            ));
        }
    }
    lemma_counted(rows, records, queue);
    lemma_met_in_all(rows, records, queue, records.len() as int);
    assert(records.take(records.len() as int) =~= records);
}

/// What one more record does to the depths. A submission makes its command
/// outstanding and its queue known; a completion ends its command and makes no
/// queue known. There is one warning where the command of a submission was
/// outstanding already or that of a completion was not, and no commands and no
/// depths change then; otherwise there is none.
pub proof fn one_record_moves_the_depths(
    records: Seq<TraceRecordView>,
    record: TraceRecordView,
    queue: QueueKey,
)
    ensures
        ({
            let now = records.push(record);
            let key = commands::command_of(encoding::header_of_view(record));
            let before = commands::outstanding(records).dom();
            let after = commands::outstanding(now).dom();
            let warned = commands::warnings_for(commands::outstanding(records), record).len();
            let here = commands::queue_of(key) == queue;
            &&& commands::warnings(now) == commands::warnings(records) + commands::warnings_for(
                commands::outstanding(records),
                record,
            )
            &&& after == if record is Submit {
                before.insert(key)
            } else {
                before.remove(key)
            }
            &&& warned == if (record is Submit) == before.contains(key) {
                1nat
            } else {
                0nat
            }
            &&& warned == 1 ==> {
                &&& after == before
                &&& depth::global_depth(now) == depth::global_depth(records)
                &&& depth::queue_depth(now, queue) == depth::queue_depth(records, queue)
            }
            &&& warned == 0 && record is Submit ==> {
                &&& depth::global_depth(now) == depth::global_depth(records) + 1
                &&& depth::queue_depth(now, queue) == depth::queue_depth(records, queue) + if here {
                    1nat
                } else {
                    0nat
                }
            }
            &&& warned == 0 && record is Complete ==> {
                &&& depth::global_depth(now) + 1 == depth::global_depth(records)
                &&& depth::queue_depth(now, queue) + (if here {
                    1nat
                } else {
                    0nat
                }) == depth::queue_depth(records, queue)
            }
            &&& depth::known(now, queue) == (depth::known(records, queue) || record is Submit
                && here)
        }),
{
    let now = records.push(record);
    let key = commands::command_of(encoding::header_of_view(record));
    let before = commands::outstanding(records).dom();
    let after = commands::outstanding(now).dom();
    assert(now.drop_last() =~= records);
    depth::lemma_depth_step(records, record, queue);
    match record {
        TraceRecordView::Submit(_) => {
            assert(after =~= before.insert(key));
            if before.contains(key) {
                assert(after =~= before);
            }
        },
        TraceRecordView::Complete(_) => {
            assert(after =~= before.remove(key));
            if !before.contains(key) {
                assert(after =~= before);
            }
        },
    }
}

} // verus!
