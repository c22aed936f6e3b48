//! What the rows of a distribution count.

use crate::commands::{self, CommandKey, QueueKey};
use crate::commands_laws;
use crate::depth;
use crate::distribution::{self, DistributionRow};
use crate::record::TraceRecordView;
use crate::sample_laws;
use crate::text;
use crate::text_laws;
use vstd::prelude::*;

verus! {

/// Record `i` is a submission to a queue, or to any.
pub open spec fn is_submission_to(
    records: Seq<TraceRecordView>,
    queue: Option<QueueKey>,
    i: int,
) -> bool {
    &&& 0 <= i < records.len()
    &&& records[i] matches TraceRecordView::Submit(submit)
    &&& queue matches Some(q) ==> submit.header.ctrl_id == q.ctrl_id && submit.header.qid == q.qid
}

/// How many commands of a queue, or of any, are outstanding after the first `i`
/// records.
pub open spec fn open_after(
    records: Seq<TraceRecordView>,
    queue: Option<QueueKey>,
    i: int,
) -> nat {
    match queue {
        Some(q) => commands_laws::open_in_queue(records.take(i), q).len(),
        None => commands::outstanding(records.take(i)).dom().len(),
    }
}

/// The places of the submissions to a queue, or to any.
pub open spec fn submissions(records: Seq<TraceRecordView>, queue: Option<QueueKey>) -> Set<int> {
    Set::new(|i: int| is_submission_to(records, queue, i))
}

/// The places of the submissions to a queue, or to any, before which exactly so
/// many commands were outstanding there.
pub open spec fn meetings(
    records: Seq<TraceRecordView>,
    queue: Option<QueueKey>,
    met: nat,
) -> Set<int> {
    Set::new(
        |i: int| is_submission_to(records, queue, i) && open_after(records, queue, i) == met,
    )
}

proof fn lemma_depth_is_open(records: Seq<TraceRecordView>, queue: Option<QueueKey>, i: int)
    requires
        0 <= i <= records.len(),
    ensures
        distribution::depth_of(records.take(i), queue) == open_after(records, queue, i),
{
    if let Some(q) = queue {
        let now = records.take(i);
        assert(depth::in_queue(commands::outstanding(now).dom(), q)
            =~= commands_laws::open_in_queue(now, q));
    }
}

proof fn lemma_meetings(records: Seq<TraceRecordView>, queue: Option<QueueKey>, met: u64)
    ensures
        meetings(records, queue, met as nat).finite(),
        meetings(records, queue, met as nat).len() == distribution::times_met(records, queue, met),
        submissions(records, queue).finite(),
        submissions(records, queue).len() == distribution::total_for(records, queue),
    decreases records.len(),
{
    let all = meetings(records, queue, met as nat);
    let subs = submissions(records, queue);
    if records.len() == 0 {
        assert(all =~= Set::empty());
        assert(subs =~= Set::empty());
    } else {
        let front = records.drop_last();
        let n = records.len() - 1;
        lemma_meetings(front, queue, met);
        assert(records.take(n) =~= front);
        lemma_depth_is_open(records, queue, n);
        let before = meetings(front, queue, met as nat);
        let subs_before = submissions(front, queue);
        assert forall|i: int| i != n implies #[trigger] all.contains(i) == before.contains(i) by {
            if 0 <= i < n {
                assert(front[i] == records[i]);
                assert(front.take(i) =~= records.take(i));
            }
        }
        assert forall|i: int| i != n implies #[trigger] subs.contains(i) == subs_before.contains(
            i,
        ) by {
            if 0 <= i < n {
                assert(front[i] == records[i]);
            }
        }
        assert(records.last() == records[n]);
        if is_submission_to(records, queue, n) {
            assert(distribution::counts_for(records, queue));
            assert(subs =~= subs_before.insert(n));
            if open_after(records, queue, n) == met {
                assert(all =~= before.insert(n));
            } else {
                assert(all =~= before);
            }
        } else {
            assert(!distribution::counts_for(records, queue));
            assert(subs =~= subs_before);
            assert(all =~= before);
        }
    }
}

/// A row of a queue, or of all queues together, counts exactly the submissions to
/// it before which as many commands were outstanding there as the row says, and
/// its total is the number of all submissions to it. Every depth that was met has
/// its row, and no other has. The rows of all queues together come first, then
/// those of each queue by controller and number, each by depth.
pub proof fn rows_count_their_submissions(
    rows: Seq<DistributionRow>,
    records: Seq<TraceRecordView>,
)
    requires
        distribution::distribution_of(rows, records),
    ensures
        forall|k: int|
            0 <= k < rows.len() ==> {
                let row = #[trigger] rows[k];
                &&& row.count == meetings(records, row.queue, row.depth as nat).len()
                &&& row.count > 0
                &&& row.total == submissions(records, row.queue).len()
            },
        forall|queue: Option<QueueKey>, i: int| #[trigger]
            is_submission_to(records, queue, i) ==> exists|k: int|
                0 <= k < rows.len() && (#[trigger] rows[k]).queue == queue && rows[k].depth
                    == open_after(records, queue, i),
        forall|a: int, b: int|
            #![trigger rows[a], rows[b]]
            0 <= a < b < rows.len() ==> match (rows[a].queue, rows[b].queue) {
                (None, None) => rows[a].depth < rows[b].depth,
                (None, Some(_)) => true,
                (Some(_), None) => false,
                (Some(p), Some(q)) => {
                    ||| p.ctrl_id < q.ctrl_id
                    ||| p.ctrl_id == q.ctrl_id && p.qid < q.qid
                    ||| p == q && rows[a].depth < rows[b].depth
                },
            },
{
    assert forall|k: int| 0 <= k < rows.len() implies {
        let row = #[trigger] rows[k];
        &&& row.count == meetings(records, row.queue, row.depth as nat).len()
        &&& row.count > 0
        &&& row.total == submissions(records, row.queue).len()
    } by {
        lemma_meetings(records, rows[k].queue, rows[k].depth);
    }
    assert forall|queue: Option<QueueKey>, i: int| #[trigger]
        is_submission_to(records, queue, i) implies exists|k: int|
        0 <= k < rows.len() && (#[trigger] rows[k]).queue == queue && rows[k].depth
            == open_after(records, queue, i) by {
        lemma_depth_is_open(records, queue, i);
        let q = match queue {
            Some(q) => q,
            None => QueueKey { ctrl_id: 0, qid: 0 },
        };
        depth::depths_are_bounded(records.take(i), q);
        let met = open_after(records, queue, i) as u64;
        lemma_meetings(records, queue, met);
        assert(meetings(records, queue, met as nat).contains(i));
        vstd::set_lib::lemma_len_subset(
            set![i],
            meetings(records, queue, met as nat),
        );
        assert(set![i].len() == 1);
        assert(distribution::times_met(records, queue, met) > 0);
    }
    assert forall|a: int, b: int|
        #![trigger rows[a], rows[b]]
        0 <= a < b < rows.len() implies match (rows[a].queue, rows[b].queue) {
        (None, None) => rows[a].depth < rows[b].depth,
        (None, Some(_)) => true,
        (Some(_), None) => false,
        (Some(p), Some(q)) => {
            ||| p.ctrl_id < q.ctrl_id
            ||| p.ctrl_id == q.ctrl_id && p.qid < q.qid
            ||| p == q && rows[a].depth < rows[b].depth
        },
    } by {
        assert(distribution::row_code(rows[a].queue, rows[a].depth) < distribution::row_code(
            rows[b].queue,
            rows[b].depth,
        ));
    }
}

/// All records belong to one queue.
pub open spec fn of_one_queue(records: Seq<TraceRecordView>, queue: QueueKey) -> bool {
    forall|i: int|
        0 <= i < records.len() ==> {
            let header = match #[trigger] records[i] {
                TraceRecordView::Submit(submit) => submit.header,
                TraceRecordView::Complete(complete) => complete.header,
            };
            header.ctrl_id == queue.ctrl_id && header.qid == queue.qid
        }
}

/// Where all records belong to one queue, its rows have the depths, counts and
/// totals of the rows of all queues together, and there are no other rows.
pub proof fn rows_of_an_only_queue_are_the_global_rows(
    rows: Seq<DistributionRow>,
    records: Seq<TraceRecordView>,
    queue: QueueKey,
)
    requires
        distribution::distribution_of(rows, records),
        of_one_queue(records, queue),
    ensures
        forall|k: int|
            0 <= k < rows.len() ==> (#[trigger] rows[k]).queue is None || rows[k].queue == Some(
                queue,
            ),
        forall|k: int|
            0 <= k < rows.len() && (#[trigger] rows[k]).queue is None ==> exists|j: int|
                0 <= j < rows.len() && #[trigger] rows[j] == (DistributionRow {
                    queue: Some(queue),
                    ..rows[k]
                }),
        forall|k: int|
            0 <= k < rows.len() && (#[trigger] rows[k]).queue == Some(queue) ==> exists|j: int|
                0 <= j < rows.len() && #[trigger] rows[j] == (DistributionRow {
                    queue: None,
                    ..rows[k]
                }),
{
    rows_count_their_submissions(rows, records);
    let mine = Some(queue);
    assert forall|i: int| 0 <= i <= records.len() implies #[trigger] open_after(records, None, i)
        == open_after(records, mine, i) by {
        let now = records.take(i);
        assert(commands_laws::open_in_queue(now, queue) =~= commands::outstanding(now).dom()) by {
            assert forall|key: CommandKey| commands::outstanding(now).contains_key(
                key,
            ) implies key.ctrl_id == queue.ctrl_id && key.qid == queue.qid by {
                commands_laws::outstanding_commands_were_submitted(now, key);
                let j = choose|j: int| #[trigger] commands_laws::stays_open(now, key, j);
                assert(commands_laws::stays_open(now, key, j));
                assert(now[j] == records[j]);
            }
        }
    }
    assert forall|i: int| #[trigger] is_submission_to(records, None, i) == is_submission_to(
        records,
        mine,
        i,
    ) by {
        if 0 <= i < records.len() {
            assert(records[i] == records[i]);
        }
    }
    assert(submissions(records, None) =~= submissions(records, mine));
    assert forall|met: nat| #[trigger] meetings(records, None, met) == meetings(
        records,
        mine,
        met,
    ) by {
        assert(meetings(records, None, met) =~= meetings(records, mine, met));
    }
    assert forall|k: int| 0 <= k < rows.len() implies (#[trigger] rows[k]).queue is None
        || rows[k].queue == mine by {
        let row = rows[k];
        let set = meetings(records, row.queue, row.depth as nat);
        lemma_meetings(records, row.queue, row.depth);
        let i = set.choose();
        assert(set.contains(i));
        assert(records[i] == records[i]);
    }
    assert forall|k: int| 0 <= k < rows.len() && (#[trigger] rows[k]).queue is None implies exists|
        j: int,
    |
        0 <= j < rows.len() && #[trigger] rows[j] == (DistributionRow {
            queue: Some(queue),
            ..rows[k]
        }) by {
        lemma_twin_row(rows, records, k, mine);
    }
    assert forall|k: int| 0 <= k < rows.len() && (#[trigger] rows[k]).queue == mine implies exists|
        j: int,
    |
        0 <= j < rows.len() && #[trigger] rows[j] == (DistributionRow { queue: None, ..rows[k] }) by {
        lemma_twin_row(rows, records, k, None);
    }
}

/// A row of one scope has a twin in another where both meet the same depths.
proof fn lemma_twin_row(
    rows: Seq<DistributionRow>,
    records: Seq<TraceRecordView>,
    k: int,
    other: Option<QueueKey>,
)
    requires
        distribution::distribution_of(rows, records),
        0 <= k < rows.len(),
        submissions(records, rows[k].queue) == submissions(records, other),
        meetings(records, rows[k].queue, rows[k].depth as nat) == meetings(
            records,
            other,
            rows[k].depth as nat,
        ),
    ensures
        exists|j: int|
            0 <= j < rows.len() && #[trigger] rows[j] == (DistributionRow {
                queue: other,
                ..rows[k]
            }),
{
    rows_count_their_submissions(rows, records);
    let row = rows[k];
    let set = meetings(records, other, row.depth as nat);
    lemma_meetings(records, row.queue, row.depth);
    let i = set.choose();
    assert(set.contains(i));
    assert(is_submission_to(records, other, i));
    let j = choose|j: int|
        0 <= j < rows.len() && (#[trigger] rows[j]).queue == other && rows[j].depth == open_after(
            records,
            other,
            i,
        );
    assert(rows[j] == (DistributionRow { queue: other, ..rows[k] }));
}

/// A line tells a row and a percentage.
pub open spec fn tells_row(line: Seq<char>, row: DistributionRow, percent: Seq<char>) -> bool {
    let cols = sample_laws::columns(line);
    &&& cols.len() == 6
    &&& match row.queue {
        Some(queue) => {
            &&& cols[0] == "queue"@
            &&& sample_laws::says(cols[1], queue.ctrl_id as nat)
            &&& sample_laws::says(cols[2], queue.qid as nat)
        },
        None => cols[0] == "global"@ && cols[1].len() == 0 && cols[2].len() == 0,
    }
    &&& sample_laws::says(cols[3], row.depth as nat)
    &&& sample_laws::says(cols[4], row.count as nat)
    &&& cols[5] == percent
}

spec fn row_columns(row: DistributionRow, percent: Seq<char>) -> Seq<Seq<char>> {
    seq![
        if row.queue is Some {
            "queue"@
        } else {
            "global"@
        },
        match row.queue {
            Some(queue) => text::decimal(queue.ctrl_id as nat),
            None => seq![],
        },
        match row.queue {
            Some(queue) => text::decimal(queue.qid as nat),
            None => seq![],
        },
        text::decimal(row.depth as nat),
        text::decimal(row.count as nat),
        percent,
    ]
}

proof fn lemma_number(n: nat)
    ensures
        sample_laws::says(text::decimal(n), n),
        text_laws::lacks(text::decimal(n), '\t'),
        text_laws::lacks(text::decimal(n), '\n'),
        text_laws::lacks(text::decimal(n), '\r'),
{
    text_laws::decimal_reads_back(n);
    text_laws::lemma_digits_lack(text::decimal(n), '\t');
    text_laws::lemma_digits_lack(text::decimal(n), '\n');
    text_laws::lemma_digits_lack(text::decimal(n), '\r');
}

/// Six columns make a line that reads back.
proof fn lemma_six_columns(cols: Seq<Seq<char>>)
    requires
        cols.len() == 6,
        text_laws::all_lack(cols, '\t'),
        text_laws::all_lack(cols, '\n'),
        text_laws::all_lack(cols, '\r'),
    ensures
        ({
            let tab = seq!['\t'];
            let line = cols[0] + tab + cols[1] + tab + cols[2] + tab + cols[3] + tab + cols[4]
                + tab + cols[5];
            &&& sample_laws::columns(line) == cols
            &&& text_laws::lacks(line, '\n')
            &&& text_laws::lacks(line, '\r')
        }),
{
    let w1 = seq![cols[0]];
    let w2 = w1.push(cols[1]);
    let w3 = w2.push(cols[2]);
    let w4 = w3.push(cols[3]);
    let w5 = w4.push(cols[4]);
    let w6 = w5.push(cols[5]);
    text_laws::lemma_joined_push(w1, cols[1], '\t');
    text_laws::lemma_joined_push(w2, cols[2], '\t');
    text_laws::lemma_joined_push(w3, cols[3], '\t');
    text_laws::lemma_joined_push(w4, cols[4], '\t');
    text_laws::lemma_joined_push(w5, cols[5], '\t');
    assert(w6 =~= cols);
    text_laws::joined_parts_read_back(cols, '\t');
    text_laws::lemma_joined_lacks(cols, '\t', '\n');
    text_laws::lemma_joined_lacks(cols, '\t', '\r');
}

#[verifier::rlimit(50)]
#[verifier::spinoff_prover]
proof fn lemma_row_line(row: DistributionRow, percent: Seq<char>) -> (line: Seq<char>)
    requires
        text_laws::lacks(percent, '\t'),
        text_laws::lacks(percent, '\n'),
        text_laws::lacks(percent, '\r'),
    ensures
        distribution::row_line(row, percent) == line.push('\n'),
        text_laws::lacks(line, '\n'),
        text_laws::lacks(line, '\r'),
        tells_row(line, row, percent),
{
    let cols = row_columns(row, percent);
    let tab = seq!['\t'];
    let line = cols[0] + tab + cols[1] + tab + cols[2] + tab + cols[3] + tab + cols[4] + tab
        + cols[5];
    reveal_strlit("queue\t");
    reveal_strlit("queue");
    reveal_strlit("global\t\t\t");
    reveal_strlit("global");
    reveal_strlit("\t");
    reveal_strlit("\n");
    lemma_number(row.depth as nat);
    lemma_number(row.count as nat);
    if let Some(queue) = row.queue {
        lemma_number(queue.ctrl_id as nat);
        lemma_number(queue.qid as nat);
    }
    assert forall|i: int| 0 <= i < 6 implies text_laws::lacks(#[trigger] cols[i], '\t')
        && text_laws::lacks(cols[i], '\n') && text_laws::lacks(cols[i], '\r') by {
        if i == 0 {
        } else if i == 1 {
        } else if i == 2 {
        } else if i == 3 {
        } else if i == 4 {
        } else {
            assert(cols[i] == percent);
        }
    }
    lemma_six_columns(cols);
    assert("\t"@ =~= tab);
    assert("\n"@ =~= seq!['\n']);
    if row.queue is Some {
        assert("queue\t"@ =~= "queue"@ + tab);
    } else {
        let none = Seq::<char>::empty();
        assert("global\t\t\t"@ =~= "global"@ + tab + none + tab + none + tab);
    }
    assert(distribution::row_line(row, percent) =~= line.push('\n'));
    line
}

/// What is written of rows reads back: a heading, and a line for each row with
/// its queue, its depth, its count and its percentage.
pub proof fn lines_read_back(rows: Seq<DistributionRow>, percents: Seq<String>)
    requires
        rows.len() <= percents.len(),
        forall|i: int|
            0 <= i < percents.len() ==> text_laws::lacks((#[trigger] percents[i])@, '\t')
                && text_laws::lacks(percents[i]@, '\n') && text_laws::lacks(percents[i]@, '\r'),
    ensures
        ({
            let written = distribution::lines_text(rows, percents);
            let lines = text::lines(written);
            &&& written.len() > 0 && written.last() == '\n'
            &&& lines.len() == 1 + rows.len()
            &&& sample_laws::columns(lines[0]) == seq![
                "scope"@,
                "ctrl_id"@,
                "qid"@,
                "queue_depth"@,
                "count"@,
                "percent"@,
            ]
            &&& forall|k: int|
                0 <= k < rows.len() ==> tells_row(
                    lines[k + 1],
                    #[trigger] rows[k],
                    percents[k]@,
                )
        }),
    decreases rows.len(),
{
    let written = distribution::lines_text(rows, percents);
    let lines = text::lines(written);
    assert(text::lines(seq![]) =~= seq![]);
    if rows.len() == 0 {
        let cols = seq![
            "scope"@,
            "ctrl_id"@,
            "qid"@,
            "queue_depth"@,
            "count"@,
            "percent"@,
        ];
        let tab = seq!['\t'];
        let row = cols[0] + tab + cols[1] + tab + cols[2] + tab + cols[3] + tab + cols[4] + tab
            + cols[5];
        reveal_strlit("scope\tctrl_id\tqid\tqueue_depth\tcount\tpercent\n");
        reveal_strlit("scope");
        reveal_strlit("ctrl_id");
        reveal_strlit("qid");
        reveal_strlit("queue_depth");
        reveal_strlit("count");
        reveal_strlit("percent");
        lemma_six_columns(cols);
        text_laws::lemma_lines_cons(row, seq![]);
        assert(written =~= row.push('\n') + seq![]);
        assert(lines =~= seq![row]);
    } else {
        let front = rows.drop_last();
        let n = rows.len() - 1;
        let before = distribution::lines_text(front, percents);
        lines_read_back(front, percents);
        let row = lemma_row_line(rows[n], percents[n]@);
        text_laws::lemma_lines_cons(row, seq![]);
        text_laws::lemma_lines_append(before, row.push('\n') + seq![]);
        assert(written =~= before + (row.push('\n') + seq![]));
        assert(lines =~= text::lines(before).push(row));
        assert(lines[0] == text::lines(before)[0]);
        assert(written.last() == '\n');
        assert forall|k: int| 0 <= k < rows.len() implies tells_row(
            lines[k + 1],
            #[trigger] rows[k],
            percents[k]@,
        ) by {
            if k < n {
                assert(front[k] == rows[k]);
                assert(lines[k + 1] == text::lines(before)[k + 1]);
            }
        }
    }
}

} // verus!
