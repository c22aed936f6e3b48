//! What the lines of a sample say when they are read back.

use crate::commands::{self, CommandKey, QueueKey};
use crate::commands_laws;
use crate::depth;
use crate::depth_laws;
use crate::distribution_laws;
use crate::record::TraceRecordView;
use crate::sampling::{self, Sample};
use crate::text;
use crate::text_laws;
use vstd::prelude::*;

verus! {

/// The columns of a line.
pub open spec fn columns(line: Seq<char>) -> Seq<Seq<char>> {
    text::parts(line, '\t')
}

/// A text is the number `n`, written out.
pub open spec fn says(column: Seq<char>, n: nat) -> bool {
    text::number(column, n) == Some(n)
}

/// The number in the last column of a line.
pub open spec fn last_column(line: Seq<char>) -> nat {
    text::number(columns(line).last(), u64::MAX as nat).unwrap()
}

/// A line tells the depth of all queues together at a time.
pub open spec fn tells_global(line: Seq<char>, time_ns: u64, depth: nat) -> bool {
    let cols = columns(line);
    &&& cols.len() == 5
    &&& says(cols[0], time_ns as nat)
    &&& cols[1] == "global"@
    &&& cols[2].len() == 0
    &&& cols[3].len() == 0
    &&& says(cols[4], depth)
}

/// A line tells the depth of a queue at a time.
pub open spec fn tells_queue(line: Seq<char>, time_ns: u64, queue: QueueKey, depth: nat) -> bool {
    let cols = columns(line);
    &&& cols.len() == 5
    &&& says(cols[0], time_ns as nat)
    &&& cols[1] == "queue"@
    &&& says(cols[2], queue.ctrl_id as nat)
    &&& says(cols[3], queue.qid as nat)
    &&& says(cols[4], depth)
}

/// The numbers in the last columns of lines together.
pub open spec fn sum_of_last_columns(lines: Seq<Seq<char>>) -> nat
    decreases lines.len(),
{
    if lines.len() == 0 {
        0
    } else {
        sum_of_last_columns(lines.drop_last()) + last_column(lines.last())
    }
}

/// Queues by controller, then by number.
pub open spec fn queue_before(a: QueueKey, b: QueueKey) -> bool {
    a.ctrl_id < b.ctrl_id || a.ctrl_id == b.ctrl_id && a.qid < b.qid
}

spec fn global_columns(time_ns: u64, depth: nat) -> Seq<Seq<char>> {
    seq![text::decimal(time_ns as nat), "global"@, seq![], seq![], text::decimal(depth)]
}

spec fn queue_columns(time_ns: u64, queue: QueueKey, depth: nat) -> Seq<Seq<char>> {
    seq![
        text::decimal(time_ns as nat),
        "queue"@,
        text::decimal(queue.ctrl_id as nat),
        text::decimal(queue.qid as nat),
        text::decimal(depth),
    ]
}

spec fn queue_row(time_ns: u64, records: Seq<TraceRecordView>, queue: QueueKey) -> Seq<char> {
    text_laws::joined_by(
        queue_columns(time_ns, queue, depth::queue_depth(records, queue)),
        '\t',
    )
}

/// Columns that hold no tab and no end of a line make a line that reads back.
proof fn lemma_row(cols: Seq<Seq<char>>)
    requires
        cols.len() == 5,
        text_laws::all_lack(cols, '\t'),
        text_laws::all_lack(cols, '\n'),
        text_laws::all_lack(cols, '\r'),
    ensures
        text_laws::joined_by(cols, '\t') == cols[0] + seq!['\t'] + cols[1] + seq!['\t'] + cols[2]
            + seq!['\t'] + cols[3] + seq!['\t'] + cols[4],
        columns(text_laws::joined_by(cols, '\t')) == cols,
        text_laws::lacks(text_laws::joined_by(cols, '\t'), '\n'),
        text_laws::lacks(text_laws::joined_by(cols, '\t'), '\r'),
{
    text_laws::joined_parts_read_back(cols, '\t');
    reveal_with_fuel(text_laws::joined_by, 6);
    let joined = text_laws::joined_by(cols, '\t');
    let d4 = cols.drop_last();
    let d3 = d4.drop_last();
    let d2 = d3.drop_last();
    let d1 = d2.drop_last();
    assert(text_laws::joined_by(d1, '\t') == cols[0]);
    assert(text_laws::joined_by(d2, '\t') =~= cols[0] + seq!['\t'] + cols[1]);
    assert(text_laws::joined_by(d3, '\t') =~= cols[0] + seq!['\t'] + cols[1] + seq!['\t']
        + cols[2]);
    assert(text_laws::joined_by(d4, '\t') =~= cols[0] + seq!['\t'] + cols[1] + seq!['\t'] + cols[2]
        + seq!['\t'] + cols[3]);
    assert(joined =~= cols[0] + seq!['\t'] + cols[1] + seq!['\t'] + cols[2] + seq!['\t'] + cols[3]
        + seq!['\t'] + cols[4]);
    assert forall|c: char| c == '\n' || c == '\r' implies #[trigger] text_laws::lacks(
        joined,
        c,
    ) by {
        assert(text_laws::lacks(cols[0], c) && text_laws::lacks(cols[1], c));
        assert(text_laws::lacks(cols[2], c) && text_laws::lacks(cols[3], c));
        assert(text_laws::lacks(cols[4], c));
        lemma_lacks_sum(cols[0], cols[1], c);
        lemma_lacks_sum(cols[0] + seq!['\t'] + cols[1], cols[2], c);
        lemma_lacks_sum(cols[0] + seq!['\t'] + cols[1] + seq!['\t'] + cols[2], cols[3], c);
        lemma_lacks_sum(
            cols[0] + seq!['\t'] + cols[1] + seq!['\t'] + cols[2] + seq!['\t'] + cols[3],
            cols[4],
            c,
        );
    }
    assert(text_laws::lacks(joined, '\n'));
    assert(text_laws::lacks(joined, '\r'));
}

proof fn lemma_lacks_sum(a: Seq<char>, b: Seq<char>, c: char)
    requires
        text_laws::lacks(a, c),
        text_laws::lacks(b, c),
        c != '\t',
    ensures
        text_laws::lacks(a + seq!['\t'] + b, c),
{
    let s = a + seq!['\t'] + b;
    assert forall|i: int| 0 <= i < s.len() implies #[trigger] s[i] != c by {
        if i < a.len() {
            assert(s[i] == a[i]);
        } else if i > a.len() {
            assert(s[i] == b[i - a.len() - 1]);
        }
    }
}

proof fn lemma_number_columns(n: nat)
    ensures
        says(text::decimal(n), n),
        text_laws::lacks(text::decimal(n), '\t'),
        text_laws::lacks(text::decimal(n), '\n'),
        text_laws::lacks(text::decimal(n), '\r'),
{
    text_laws::decimal_reads_back(n);
    text_laws::lemma_digits_lack(text::decimal(n), '\t');
    text_laws::lemma_digits_lack(text::decimal(n), '\n');
    text_laws::lemma_digits_lack(text::decimal(n), '\r');
}

proof fn lemma_queue_row(time_ns: u64, records: Seq<TraceRecordView>, queue: QueueKey)
    ensures
        ({
            let row = queue_row(time_ns, records, queue);
            &&& depth::queue_line(time_ns, records, queue) == row.push('\n')
            &&& text_laws::lacks(row, '\n')
            &&& text_laws::lacks(row, '\r')
            &&& tells_queue(row, time_ns, queue, depth::queue_depth(records, queue))
            &&& last_column(row) == depth::queue_depth(records, queue)
        }),
{
    let d = depth::queue_depth(records, queue);
    let cols = queue_columns(time_ns, queue, d);
    reveal_strlit("\tqueue\t");
    reveal_strlit("queue");
    reveal_strlit("\t");
    reveal_strlit("\n");
    lemma_number_columns(time_ns as nat);
    lemma_number_columns(queue.ctrl_id as nat);
    lemma_number_columns(queue.qid as nat);
    lemma_number_columns(d);
    depth::depths_are_bounded(records, queue);
    text_laws::decimal_reads_back(d);
    assert(text_laws::lacks("queue"@, '\t') && text_laws::lacks("queue"@, '\n')
        && text_laws::lacks("queue"@, '\r'));
    lemma_row(cols);
    assert("\tqueue\t"@ =~= seq!['\t'] + "queue"@ + seq!['\t']);
    assert("\t"@ =~= seq!['\t']);
    assert("\n"@ =~= seq!['\n']);
    assert(depth::queue_line(time_ns, records, queue) =~= queue_row(
        time_ns,
        records,
        queue,
    ).push('\n'));
}

proof fn lemma_global_row(time_ns: u64, records: Seq<TraceRecordView>)
    ensures
        ({
            let d = depth::global_depth(records);
            let row = text_laws::joined_by(global_columns(time_ns, d), '\t');
            &&& depth::sample_text(time_ns, records) == row.push('\n') + depth::queue_lines(
                time_ns,
                records,
                0x1_0000,
            )
            &&& text_laws::lacks(row, '\n')
            &&& text_laws::lacks(row, '\r')
            &&& tells_global(row, time_ns, d)
            &&& last_column(row) == d
        }),
{
    let d = depth::global_depth(records);
    let cols = global_columns(time_ns, d);
    let row = text_laws::joined_by(cols, '\t');
    reveal_strlit("\tglobal\t\t\t");
    reveal_strlit("global");
    reveal_strlit("\n");
    lemma_number_columns(time_ns as nat);
    lemma_number_columns(d);
    depth::depths_are_bounded(records, QueueKey { ctrl_id: 0, qid: 0 });
    text_laws::decimal_reads_back(d);
    assert(text_laws::lacks("global"@, '\t') && text_laws::lacks("global"@, '\n')
        && text_laws::lacks("global"@, '\r'));
    lemma_row(cols);
    assert("\tglobal\t\t\t"@ =~= seq!['\t'] + "global"@ + seq!['\t', '\t', '\t']);
    assert("\n"@ =~= seq!['\n']);
    assert(depth::sample_text(time_ns, records) =~= row.push('\n') + depth::queue_lines(
        time_ns,
        records,
        0x1_0000,
    ));
}

/// A queue is known exactly where a record submits a command to it.
pub proof fn known_queues_had_submissions(records: Seq<TraceRecordView>, queue: QueueKey)
    ensures
        depth::known(records, queue) <==> exists|i: int| #[trigger]
            distribution_laws::is_submission_to(records, Some(queue), i),
        !depth::known(records, queue) ==> depth::queue_depth(records, queue) == 0,
    decreases records.len(),
{
    let mine = Some(queue);
    if records.len() > 0 {
        let front = records.drop_last();
        let n = records.len() - 1;
        known_queues_had_submissions(front, queue);
        if depth::known(front, queue) {
            let i = choose|i: int| #[trigger]
                distribution_laws::is_submission_to(front, mine, i);
            assert(distribution_laws::is_submission_to(front, mine, i));
            assert(front[i] == records[i]);
            assert(distribution_laws::is_submission_to(records, mine, i));
        } else if distribution_laws::is_submission_to(records, mine, n) {
        } else {
            assert forall|i: int| !#[trigger] distribution_laws::is_submission_to(
                records,
                mine,
                i,
            ) by {
                if 0 <= i < n {
                    assert(front[i] == records[i]);
                    assert(!distribution_laws::is_submission_to(front, mine, i));
                }
            }
        }
    }
    if !depth::known(records, queue) {
        let all = commands::outstanding(records).dom();
        assert(depth::in_queue(all, queue) =~= Set::empty()) by {
            assert forall|key: CommandKey| !depth::in_queue(all, queue).contains(key) by {
                if depth::in_queue(all, queue).contains(key) {
                    commands_laws::outstanding_commands_were_submitted(records, key);
                    let i = choose|i: int| #[trigger] commands_laws::stays_open(records, key, i);
                    assert(commands_laws::stays_open(records, key, i));
                    assert(distribution_laws::is_submission_to(records, mine, i));
                }
            }
        }
    }
}

/// The known queues among the first `n`, by controller and number.
spec fn known_queues(records: Seq<TraceRecordView>, n: nat) -> Seq<QueueKey>
    decreases n,
{
    if n == 0 {
        seq![]
    } else {
        let queue = commands::queue_of_code(n - 1);
        let front = known_queues(records, (n - 1) as nat);
        if depth::known(records, queue) {
            front.push(queue)
        } else {
            front
        }
    }
}

proof fn lemma_queue_lines(time_ns: u64, records: Seq<TraceRecordView>, n: nat)
    requires
        n <= 0x1_0000,
    ensures
        ({
            let queues = known_queues(records, n);
            let written = depth::queue_lines(time_ns, records, n);
            let lines = text::lines(written);
            &&& written.len() == 0 || written.last() == '\n'
            &&& lines.len() == queues.len()
            &&& forall|k: int|
                0 <= k < lines.len() ==> #[trigger] lines[k] == queue_row(
                    time_ns,
                    records,
                    queues[k],
                )
            &&& forall|k: int|
                0 <= k < queues.len() ==> depth::known(records, #[trigger] queues[k])
                    && commands::queue_code(queues[k]) < n
            &&& forall|a: int, b: int|
                #![trigger queues[a], queues[b]]
                0 <= a < b < queues.len() ==> commands::queue_code(queues[a])
                    < commands::queue_code(queues[b])
            &&& forall|queue: QueueKey|
                commands::queue_code(queue) < n && #[trigger] depth::known(records, queue)
                    ==> queues.contains(queue)
            &&& sum_of_last_columns(lines) == depth_laws::sum_of_depths(records, n)
        }),
    decreases n,
{
    commands::codes_are_unique();
    if n == 0 {
        assert(text::lines(seq![]) =~= seq![]);
    } else {
        let m = (n - 1) as nat;
        let queue = commands::queue_of_code(n - 1);
        lemma_queue_lines(time_ns, records, m);
        let before = known_queues(records, m);
        let queues = known_queues(records, n);
        let front = depth::queue_lines(time_ns, records, m);
        known_queues_had_submissions(records, queue);
        assert(commands::queue_code(queue) == n - 1);
        assert forall|q: QueueKey|
            commands::queue_code(q) < n && #[trigger] depth::known(
                records,
                q,
            ) implies queues.contains(q) by {
            if commands::queue_code(q) < m {
                assert(before.contains(q));
                let k = choose|k: int| 0 <= k < before.len() && before[k] == q;
                assert(queues[k] == q);
            } else {
                assert(q == queue);
                assert(queues[before.len() as int] == q);
            }
        }
        if depth::known(records, queue) {
            let row = queue_row(time_ns, records, queue);
            lemma_queue_row(time_ns, records, queue);
            text_laws::lemma_lines_append(front, row.push('\n'));
            text_laws::lemma_lines_cons(row, seq![]);
            assert(row.push('\n') + Seq::<char>::empty() =~= row.push('\n'));
            assert(text::lines(seq![]) =~= seq![]);
            assert(text::lines(row.push('\n')) =~= seq![row]);
            let lines = text::lines(depth::queue_lines(time_ns, records, n));
            assert(lines =~= text::lines(front).push(row));
            assert(lines.drop_last() =~= text::lines(front));
        }
    }
}

/// A sample reads back line by line. The first line tells its time and how many
/// commands are outstanding. Each other line tells its time, a queue to which a
/// record submits a command, and how many commands of that queue are outstanding;
/// every such queue has its line, and the lines are in order of the queues. The
/// last columns of the queues add up to the last column of the first line.
pub proof fn sample_reads_back(time_ns: u64, records: Seq<TraceRecordView>) -> (queues: Seq<
    QueueKey,
>)
    ensures
        ({
            let lines = text::lines(depth::sample_text(time_ns, records));
            &&& lines.len() == 1 + queues.len()
            &&& tells_global(lines[0], time_ns, commands::outstanding(records).dom().len())
            &&& forall|k: int|
                0 <= k < queues.len() ==> tells_queue(
                    lines[k + 1],
                    time_ns,
                    #[trigger] queues[k],
                    commands_laws::open_in_queue(records, queues[k]).len(),
                )
            &&& forall|a: int, b: int|
                #![trigger queues[a], queues[b]]
                0 <= a < b < queues.len() ==> queue_before(queues[a], queues[b])
            &&& forall|queue: QueueKey| #[trigger]
                queues.contains(queue) <==> exists|i: int| #[trigger]
                    distribution_laws::is_submission_to(records, Some(queue), i)
            &&& sum_of_last_columns(lines.skip(1)) == last_column(lines[0])
        }),
{
    let queues = known_queues(records, 0x1_0000);
    let written = depth::queue_lines(time_ns, records, 0x1_0000);
    let row = text_laws::joined_by(
        global_columns(time_ns, depth::global_depth(records)),
        '\t',
    );
    let lines = text::lines(depth::sample_text(time_ns, records));
    commands::codes_are_unique();
    lemma_queue_lines(time_ns, records, 0x1_0000);
    lemma_global_row(time_ns, records);
    text_laws::lemma_lines_cons(row, written);
    assert(lines =~= seq![row] + text::lines(written));
    assert(lines.skip(1) =~= text::lines(written));
    depth_laws::depths_add_up(records);
    assert forall|k: int| 0 <= k < queues.len() implies tells_queue(
        lines[k + 1],
        time_ns,
        #[trigger] queues[k],
        commands_laws::open_in_queue(records, queues[k]).len(),
    ) by {
        lemma_queue_row(time_ns, records, queues[k]);
        assert(depth::in_queue(commands::outstanding(records).dom(), queues[k])
            =~= commands_laws::open_in_queue(records, queues[k]));
        assert(lines[k + 1] == text::lines(written)[k]);
    }
    assert forall|a: int, b: int|
        #![trigger queues[a], queues[b]]
        0 <= a < b < queues.len() implies queue_before(queues[a], queues[b]) by {
        assert(commands::queue_code(queues[a]) < commands::queue_code(queues[b]));
    }
    assert forall|queue: QueueKey| #[trigger] queues.contains(queue) <==> exists|i: int| #[trigger]
        distribution_laws::is_submission_to(records, Some(queue), i) by {
        known_queues_had_submissions(records, queue);
        if queues.contains(queue) {
            let k = choose|k: int| 0 <= k < queues.len() && queues[k] == queue;
            assert(depth::known(records, queues[k]));
        }
        assert(commands::queue_code(queue) < 0x1_0000);
    }
    queues
}

/// What is written of all samples has a heading of five columns, and then the
/// lines of each sample after those of the samples before it.
pub proof fn samples_stand_below_the_heading(
    samples: Seq<Sample>,
    records: Seq<TraceRecordView>,
    scale_ns: u64,
)
    ensures
        ({
            let lines = text::lines(sampling::depth_text(records, scale_ns));
            &&& lines.len() > 0
            &&& columns(lines[0]) == seq![
                "time_ns"@,
                "scope"@,
                "ctrl_id"@,
                "qid"@,
                "queue_depth"@,
            ]
            &&& lines.skip(1) == text::lines(
                sampling::samples_text(sampling::samples(records, scale_ns), records),
            )
        }),
        samples.len() == 0 ==> text::lines(sampling::samples_text(samples, records)).len() == 0,
        samples.len() > 0 ==> text::lines(sampling::samples_text(samples, records)) == text::lines(
            sampling::samples_text(samples.drop_last(), records),
        ) + text::lines(
            depth::sample_text(samples.last().time_ns, records.take(samples.last().taken as int)),
        ),
{
    let all = sampling::samples_text(sampling::samples(records, scale_ns), records);
    let heading = "time_ns\tscope\tctrl_id\tqid\tqueue_depth\n"@;
    let cols = seq!["time_ns"@, "scope"@, "ctrl_id"@, "qid"@, "queue_depth"@];
    reveal_strlit("time_ns\tscope\tctrl_id\tqid\tqueue_depth\n");
    reveal_strlit("time_ns");
    reveal_strlit("scope");
    reveal_strlit("ctrl_id");
    reveal_strlit("qid");
    reveal_strlit("queue_depth");
    assert(text_laws::all_lack(cols, '\t'));
    assert(text_laws::all_lack(cols, '\n'));
    assert(text_laws::all_lack(cols, '\r'));
    lemma_row(cols);
    let row = text_laws::joined_by(cols, '\t');
    assert(heading =~= row.push('\n'));
    text_laws::lemma_lines_cons(row, all);
    let lines = text::lines(sampling::depth_text(records, scale_ns));
    assert(lines =~= seq![row] + text::lines(all));
    assert(lines.skip(1) =~= text::lines(all));
    if samples.len() > 0 {
        lemma_samples_end_a_line(samples.drop_last(), records);
        text_laws::lemma_lines_append(
            sampling::samples_text(samples.drop_last(), records),
            depth::sample_text(samples.last().time_ns, records.take(samples.last().taken as int)),
        );
    }
}

proof fn lemma_samples_end_a_line(samples: Seq<Sample>, records: Seq<TraceRecordView>)
    ensures
        ({
            let written = sampling::samples_text(samples, records);
            written.len() == 0 || written.last() == '\n'
        }),
{
    if samples.len() > 0 {
        let last = samples.last();
        let now = records.take(last.taken as int);
        let row = text_laws::joined_by(
            global_columns(last.time_ns, depth::global_depth(now)),
            '\t',
        );
        lemma_global_row(last.time_ns, now);
        lemma_queue_lines(last.time_ns, now, 0x1_0000);
        let below = depth::queue_lines(last.time_ns, now, 0x1_0000);
        let written = sampling::samples_text(samples, records);
        assert(written == sampling::samples_text(samples.drop_last(), records) + (row.push('\n')
            + below));
        if below.len() > 0 {
            assert(written.last() == below.last());
        } else {
            assert(written.last() == row.push('\n').last());
        }
    }
}

} // verus!
