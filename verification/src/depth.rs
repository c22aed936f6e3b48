//! How many commands are outstanding, in all and in each queue.

use crate::commands::{self, CommandKey, Effect, InFlight, QueueKey};
use crate::encoding;
use crate::record::{TraceRecord, TraceRecordView};
use crate::stream::WarnSink;
use crate::tables::{self, list_rows};
use crate::text::{self, push_decimal};
use std::collections::BTreeMap;
use vstd::prelude::*;

verus! {

broadcast use {vstd::std_specs::btree::group_btree_axioms, vstd::laws_cmp::group_laws_cmp};

/// How many commands are outstanding after records.
pub open spec fn global_depth(records: Seq<TraceRecordView>) -> nat {
    commands::outstanding(records).dom().len()
}

/// The commands of a queue among `keys`.
pub open spec fn in_queue(keys: Set<CommandKey>, queue: QueueKey) -> Set<CommandKey> {
    keys.filter(|key: CommandKey| commands::queue_of(key) == queue)
}

/// How many commands of a queue are outstanding after records.
pub open spec fn queue_depth(records: Seq<TraceRecordView>, queue: QueueKey) -> nat {
    in_queue(commands::outstanding(records).dom(), queue).len()
}

/// The queue that a record speaks of.
pub open spec fn record_queue(record: TraceRecordView) -> QueueKey {
    commands::queue_of(commands::command_of(encoding::header_of_view(record)))
}

/// Tells whether any of `records` submits a command to a queue.
pub open spec fn known(records: Seq<TraceRecordView>, queue: QueueKey) -> bool
    decreases records.len(),
{
    records.len() > 0 && (records.last() is Submit && record_queue(records.last()) == queue
        || known(records.drop_last(), queue))
}

/// The outstanding commands are finitely many.
pub proof fn lemma_outstanding_finite(records: Seq<TraceRecordView>)
    ensures
        commands::outstanding(records).dom().finite(),
    decreases records.len(),
{
    if records.len() > 0 {
        lemma_outstanding_finite(records.drop_last());
    }
}

/// However many records there are, no more commands are outstanding than there
/// are commands to be told apart, and no more of a queue than in all.
pub proof fn depths_are_bounded(records: Seq<TraceRecordView>, queue: QueueKey)
    ensures
        global_depth(records) <= 0x1_0000_0000,
        queue_depth(records, queue) <= global_depth(records),
{
    let keys = commands::outstanding(records).dom();
    let number = |key: CommandKey| commands::command_code(key) as int;
    let numbers = keys.map(number);
    let range = vstd::set_lib::set_int_range(0, 0x1_0000_0000);
    lemma_outstanding_finite(records);
    commands::codes_are_unique();
    assert(vstd::relations::injective_on(number, keys)) by {
        assert forall|a: CommandKey, b: CommandKey|
            keys.contains(a) && keys.contains(b) && #[trigger] number(a) == #[trigger] number(
                b,
            ) implies a == b by {
            assert(commands::command_code(a) == commands::command_code(b));
        }
    }
    vstd::set_lib::lemma_map_size(keys, numbers, number);
    assert(numbers.subset_of(range));
    vstd::set_lib::lemma_int_range(0, 0x1_0000_0000);
    vstd::set_lib::lemma_len_subset(numbers, range);
    vstd::set_lib::lemma_len_subset(in_queue(keys, queue), keys);
}

/// The depths after one more record.
pub proof fn lemma_depth_step(records: Seq<TraceRecordView>, record: TraceRecordView, queue: QueueKey)
    ensures
        ({
            let now = records.push(record);
            let here = record_queue(record) == queue;
            match commands::effect(commands::outstanding(records), record) {
                Effect::Submitted => {
                    &&& global_depth(now) == global_depth(records) + 1
                    &&& queue_depth(now, queue) == queue_depth(records, queue) + if here {
                        1nat
                    } else {
                        0nat
                    }
                },
                Effect::Completed(_) => {
                    &&& global_depth(now) + 1 == global_depth(records)
                    &&& queue_depth(now, queue) + (if here {
                        1nat
                    } else {
                        0nat
                    }) == queue_depth(records, queue)
                },
                _ => {
                    &&& global_depth(now) == global_depth(records)
                    &&& queue_depth(now, queue) == queue_depth(records, queue)
                },
            }
        }),
        known(records.push(record), queue) == (record is Submit && record_queue(record) == queue
            || known(records, queue)),
{
    let now = records.push(record);
    assert(now.drop_last() =~= records);
    lemma_outstanding_finite(records);
    let key = commands::command_of(encoding::header_of_view(record));
    let before = commands::outstanding(records).dom();
    let after = commands::outstanding(now).dom();
    let mine = in_queue(before, queue);
    assert(mine.subset_of(before));
    vstd::set_lib::lemma_len_subset(mine, before);
    match record {
        TraceRecordView::Submit(_) => {
            assert(after =~= before.insert(key));
            if commands::queue_of(key) == queue {
                assert(in_queue(after, queue) =~= mine.insert(key));
            } else {
                assert(in_queue(after, queue) =~= mine);
            }
        },
        TraceRecordView::Complete(_) => {
            assert(after =~= before.remove(key));
            if commands::queue_of(key) == queue {
                assert(in_queue(after, queue) =~= mine.remove(key));
            } else {
                assert(in_queue(after, queue) =~= mine);
            }
        },
    }
}

/// The depth of each queue that is known, and of all queues together.
pub struct QueueDepthState {
    in_flight: InFlight,
    queue_depths: BTreeMap<u128, u64>,
    global_depth: u64,
    records: Ghost<Seq<TraceRecordView>>,
}

/// A table holds the depth of each known queue.
pub open spec fn depths_of(table: Map<u128, u64>, records: Seq<TraceRecordView>) -> bool {
    &&& forall|key: u128| #[trigger] table.contains_key(key) ==> key < 0x1_0000
    &&& forall|queue: QueueKey|
        #![trigger commands::queue_code(queue)]
        {
            let key = commands::queue_code(queue) as u128;
            &&& table.contains_key(key) <==> known(records, queue)
            &&& table.contains_key(key) ==> table[key] == queue_depth(records, queue)
            &&& !table.contains_key(key) ==> queue_depth(records, queue) == 0
        }
}

impl View for QueueDepthState {
    type V = Seq<TraceRecordView>;

    /// The records that were taken.
    closed spec fn view(&self) -> Seq<TraceRecordView> {
        self.records@
    }
}

impl QueueDepthState {
    /// The state holds the depths after the records that were taken.
    pub closed spec fn wf(&self) -> bool {
        &&& self.in_flight.wf()
        &&& self.in_flight@ == commands::outstanding(self.records@)
        &&& self.global_depth == global_depth(self.records@)
        &&& depths_of(self.queue_depths@, self.records@)
    }

    /// The depths before any record.
    pub fn new() -> (state: Self)
        ensures
            state.wf(),
            state@ == Seq::<TraceRecordView>::empty(),
    {
        let state = QueueDepthState {
            in_flight: InFlight::new(),
            queue_depths: BTreeMap::new(),
            global_depth: 0,
            records: Ghost(Seq::empty()),
        };
        proof {
            assert forall|queue: QueueKey| #![trigger commands::queue_code(queue)]
                queue_depth(seq![], queue) == 0 by {
                assert(in_queue(commands::outstanding(seq![]).dom(), queue) =~= Set::empty());
            }
        }
        state
    }

    /// Takes one more record, and gives a warning where it does not fit the
    /// commands that are outstanding.
    pub fn apply_record<F: WarnSink>(&mut self, record: &TraceRecord, warn: &mut F) -> (effect:
        Effect)
        requires
            old(self).wf(),
        ensures
            final(self).wf(),
            final(self)@ == old(self)@.push(record@),
            effect == commands::effect(commands::outstanding(old(self)@), record@),
            final(warn).warnings() == old(warn).warnings() + commands::warnings_for(
                commands::outstanding(old(self)@),
                record@,
            ),
    {
        let ghost before = self.records@;
        let ghost now = before.push(record@);
        let ghost table = self.queue_depths@;
        let queue = CommandKey::from_header(record.header()).queue();
        let key: u128 = queue.code() as u128;
        proof {
            commands::codes_are_unique();
            depths_are_bounded(before, queue);
            assert(now.drop_last() =~= before);
            lemma_depth_step(before, record@, queue);
            assert forall|q: QueueKey| #![trigger commands::queue_code(q)] {
                &&& queue != q ==> queue_depth(now, q) == queue_depth(before, q)
                &&& known(now, q) == (record@ is Submit && queue == q || known(before, q))
            } by {
                lemma_depth_step(before, record@, q);
            }
            assert(queue == record_queue(record@));
            assert(commands::queue_code(queue) as u128 == key);
        }
        let effect = self.in_flight.apply(record, warn);
        let depth: u64 = match self.queue_depths.get(&key) {
            Some(depth) => *depth,
            None => 0,
        };
        assert(depth == queue_depth(before, queue));
        match effect {
            Effect::Submitted => {
                self.global_depth = self.global_depth + 1;
                self.queue_depths.insert(key, depth + 1);
            },
            Effect::Resubmitted => {
                self.queue_depths.insert(key, depth);
            },
            Effect::Completed(_) => {
                self.global_depth = self.global_depth.saturating_sub(1);
                if self.queue_depths.contains_key(&key) {
                    self.queue_depths.insert(key, depth.saturating_sub(1));
                }
            },
            Effect::Unmatched => {},
        }
        proof {
            self.records@ = now;
            assert(depths_of(self.queue_depths@, now));
        }
        effect
    }

    /// How many commands are outstanding.
    pub fn global(&self) -> (depth: u64)
        requires
            self.wf(),
        ensures
            depth == global_depth(self@),
    {
        self.global_depth
    }

    /// How many commands of a queue are outstanding.
    pub fn of_queue(&self, queue: QueueKey) -> (depth: u64)
        requires
            self.wf(),
        ensures
            depth == queue_depth(self@, queue),
    {
        let key: u128 = queue.code() as u128;
        assert(commands::queue_code(queue) as u128 == key);
        match self.queue_depths.get(&key) {
            Some(depth) => *depth,
            None => 0,
        }
    }
}

/// The line of a queue in a sample.
pub open spec fn queue_line(time_ns: u64, records: Seq<TraceRecordView>, queue: QueueKey) -> Seq<
    char,
> {
    text::decimal(time_ns as nat) + "\tqueue\t"@ + text::decimal(queue.ctrl_id as nat) + "\t"@
        + text::decimal(queue.qid as nat) + "\t"@ + text::decimal(queue_depth(records, queue))
        + "\n"@
}

/// The lines of the known queues among the first `n`, by controller and number.
pub open spec fn queue_lines(time_ns: u64, records: Seq<TraceRecordView>, n: nat) -> Seq<char>
    decreases n,
{
    if n == 0 {
        seq![]
    } else {
        let queue = commands::queue_of_code(n - 1);
        let front = queue_lines(time_ns, records, (n - 1) as nat);
        if known(records, queue) {
            front + queue_line(time_ns, records, queue)
        } else {
            front
        }
    }
}

/// The lines of a sample: the depth of all queues together and that of each
/// queue that is known, also where it is zero.
pub open spec fn sample_text(time_ns: u64, records: Seq<TraceRecordView>) -> Seq<char> {
    text::decimal(time_ns as nat) + "\tglobal\t\t\t"@ + text::decimal(global_depth(records))
        + "\n"@ + queue_lines(time_ns, records, 0x1_0000)
}

proof fn lemma_queue_lines_skip(time_ns: u64, records: Seq<TraceRecordView>, a: nat, b: nat)
    requires
        a <= b,
        forall|c: int| a <= c < b ==> !known(records, #[trigger] commands::queue_of_code(c)),
    ensures
        queue_lines(time_ns, records, b) == queue_lines(time_ns, records, a),
    decreases b,
{
    if a < b {
        lemma_queue_lines_skip(time_ns, records, a, (b - 1) as nat);
        assert(!known(records, commands::queue_of_code(b - 1)));
    }
}

/// Between two rows of the table, and behind the last, no queue is known.
proof fn lemma_gap(
    rows: Seq<(u128, u64)>,
    table: Map<u128, u64>,
    records: Seq<TraceRecordView>,
    k: int,
    c: int,
)
    requires
        tables::rows_of(rows, table),
        depths_of(table, records),
        0 <= k <= rows.len(),
        0 <= c < 0x1_0000,
        k > 0 ==> rows[k - 1].0 < c,
        k < rows.len() ==> c < rows[k].0,
    ensures
        !known(records, commands::queue_of_code(c)),
{
    commands::codes_are_unique();
    let queue = commands::queue_of_code(c);
    let code = commands::queue_code(queue);
    assert(code == c);
    if known(records, queue) {
        assert(table.contains_key(code as u128));
        let i = choose|i: int| 0 <= i < rows.len() && (#[trigger] rows[i]).0 == code as u128;
        if i < k - 1 {
            assert(rows[i].0 < rows[k - 1].0);
        } else if i > k {
            assert(rows[k].0 < rows[i].0);
        }
    }
}

impl QueueDepthState {
    fn format_queue(&self, time_ns: u64, queue: QueueKey, depth: u64) -> (line: String)
        requires
            depth == queue_depth(self@, queue),
        ensures
            line@ == queue_line(time_ns, self@, queue),
    {
        let mut line = String::new();
        push_decimal(&mut line, time_ns as u128);
        assert(line@ =~= text::decimal(time_ns as nat));
        line.append("\tqueue\t");
        push_decimal(&mut line, queue.ctrl_id as u128);
        line.append("\t");
        push_decimal(&mut line, queue.qid as u128);
        line.append("\t");
        push_decimal(&mut line, depth as u128);
        line.append("\n");
        line
    }

    /// Writes a sample out.
    pub fn format_sample(&self, time_ns: u64) -> (sample: String)
        requires
            self.wf(),
        ensures
            sample@ == sample_text(time_ns, self@),
    {
        let mut sample = String::new();
        push_decimal(&mut sample, time_ns as u128);
        assert(sample@ =~= text::decimal(time_ns as nat));
        sample.append("\tglobal\t\t\t");
        push_decimal(&mut sample, self.global_depth as u128);
        sample.append("\n");
        let ghost head = sample@;
        let rows = list_rows(&self.queue_depths);
        let ghost table = self.queue_depths@;
        let mut k: usize = 0;
        assert(head + queue_lines(time_ns, self@, 0) =~= head);
        while k < rows.len()
            invariant
                k <= rows@.len(),
                table == self.queue_depths@,
                tables::rows_of(rows@, table),
                depths_of(table, self@),
                sample@ == head + queue_lines(
                    time_ns,
                    self@,
                    if k == 0 {
                        0
                    } else {
                        (rows@[k - 1].0 + 1) as nat
                    },
                ),
            decreases rows@.len() - k,
        {
            let (key, depth) = rows[k];
            let ghost from: nat = if k == 0 {
                0
            } else {
                (rows@[k - 1].0 + 1) as nat
            };
            proof {
                commands::codes_are_unique();
                assert(table.contains_key(rows@[k as int].0));
                if k > 0 {
                    assert(rows@[k - 1].0 < rows@[k as int].0);
                }
                assert forall|c: int| from <= c < key implies !known(
                    self@,
                    #[trigger] commands::queue_of_code(c),
                ) by {
                    lemma_gap(rows@, table, self@, k as int, c);
                }
                lemma_queue_lines_skip(time_ns, self@, from, key as nat);
            }
            let queue = QueueKey::from_code(key as u64);
            assert(commands::queue_code(queue) as u128 == key);
            let line = self.format_queue(time_ns, queue, depth);
            sample.append(line.as_str());
            assert(sample@ =~= head + queue_lines(time_ns, self@, (key + 1) as nat));
            k = k + 1;
        }
        proof {
            let from: nat = if k == 0 {
                0
            } else {
                (rows@[k - 1].0 + 1) as nat
            };
            if k > 0 {
                assert(table.contains_key(rows@[k - 1].0));
            }
            assert forall|c: int| from <= c < 0x1_0000 implies !known(
                self@,
                #[trigger] commands::queue_of_code(c),
            ) by {
                lemma_gap(rows@, table, self@, k as int, c);
            }
            lemma_queue_lines_skip(time_ns, self@, from, 0x1_0000);
        }
        sample
    }
}

} // verus!
