//! Which commands are outstanding.
//!
//! A submission and a completion belong together where controller, queue and
//! command number agree.

use crate::encoding;
use crate::record::{Header, TraceRecord, TraceRecordView};
use crate::stream::WarnSink;
use crate::text::{self, push_decimal};
use std::collections::HashMap;
use vstd::prelude::*;

verus! {

broadcast use vstd::std_specs::hash::group_hash_axioms;

/// What a command is recognised by.
#[derive(Debug, Clone, Copy, PartialEq, Eq, Hash, Structural)]
pub struct CommandKey {
    pub ctrl_id: u8,
    pub qid: u8,
    pub cid: u16,
}

/// What a queue is recognised by.
#[derive(Debug, Clone, Copy, PartialEq, Eq, Hash, Structural)]
pub struct QueueKey {
    pub ctrl_id: u8,
    pub qid: u8,
}

/// The command that a header speaks of.
pub open spec fn command_of(header: Header) -> CommandKey {
    CommandKey { ctrl_id: header.ctrl_id, qid: header.qid, cid: header.cid }
}

/// The queue of a command.
pub open spec fn queue_of(key: CommandKey) -> QueueKey {
    QueueKey { ctrl_id: key.ctrl_id, qid: key.qid }
}

/// A number for each command.
pub open spec fn command_code(key: CommandKey) -> u64 {
    (key.ctrl_id * 0x100_0000 + key.qid * 0x1_0000 + key.cid) as u64
}

/// A number for each queue. Queues are ordered by controller, then by number.
pub open spec fn queue_code(queue: QueueKey) -> u64 {
    (queue.ctrl_id * 0x100 + queue.qid) as u64
}

/// The queue of a number.
pub open spec fn queue_of_code(code: int) -> QueueKey {
    QueueKey { ctrl_id: (code / 0x100) as u8, qid: (code % 0x100) as u8 }
}

/// No two commands, and no two queues, have the same number.
pub proof fn codes_are_unique()
    ensures
        forall|a: CommandKey, b: CommandKey|
            #![trigger command_code(a), command_code(b)]
            command_code(a) == command_code(b) ==> a == b,
        forall|a: QueueKey, b: QueueKey|
            #![trigger queue_code(a), queue_code(b)]
            queue_code(a) == queue_code(b) ==> a == b,
        forall|a: QueueKey|
            #![trigger queue_code(a)]
            queue_code(a) < 0x1_0000 && queue_of_code(queue_code(a) as int) == a,
        forall|code: int|
            #![trigger queue_of_code(code)]
            0 <= code < 0x1_0000 ==> queue_code(queue_of_code(code)) == code,
{
}

impl CommandKey {
    /// The command that a header speaks of.
    pub fn from_header(header: Header) -> (key: Self)
        ensures
            key == command_of(header),
    {
        CommandKey { ctrl_id: header.ctrl_id, qid: header.qid, cid: header.cid }
    }

    /// The queue of the command.
    pub fn queue(self) -> (queue: QueueKey)
        ensures
            queue == queue_of(self),
    {
        QueueKey { ctrl_id: self.ctrl_id, qid: self.qid }
    }

    fn code(self) -> (code: u64)
        ensures
            code == command_code(self),
    {
        self.ctrl_id as u64 * 0x100_0000 + self.qid as u64 * 0x1_0000 + self.cid as u64
    }
}

impl QueueKey {
    /// The number of the queue.
    pub fn code(self) -> (code: u64)
        ensures
            code == queue_code(self),
    {
        self.ctrl_id as u64 * 0x100 + self.qid as u64
    }

    /// The queue of a number.
    pub fn from_code(code: u64) -> (queue: Self)
        requires
            code < 0x1_0000,
        ensures
            queue == queue_of_code(code as int),
    {
        QueueKey { ctrl_id: (code / 0x100) as u8, qid: (code % 0x100) as u8 }
    }
}

/// The outstanding commands after one more record, with the lengths of their
/// data. A command that is submitted again keeps the newer length.
pub open spec fn after(outstanding: Map<CommandKey, u32>, record: TraceRecordView) -> Map<
    CommandKey,
    u32,
> {
    let key = command_of(encoding::header_of_view(record));
    match record {
        TraceRecordView::Submit(submit) => outstanding.insert(key, submit.data_len),
        TraceRecordView::Complete(_) => outstanding.remove(key),
    }
}

/// The outstanding commands after records, with the lengths of their data.
pub open spec fn outstanding(records: Seq<TraceRecordView>) -> Map<CommandKey, u32>
    decreases records.len(),
{
    if records.len() == 0 {
        Map::empty()
    } else {
        after(outstanding(records.drop_last()), records.last())
    }
}

/// What a record does to the outstanding commands.
#[derive(Debug, Clone, Copy, PartialEq, Eq, Structural)]
pub enum Effect {
    /// The command is outstanding now.
    Submitted,
    /// The command was outstanding already.
    Resubmitted,
    /// The command is done; it had so many bytes of data.
    Completed(u32),
    /// No such command was outstanding.
    Unmatched,
}

/// What a record does to outstanding commands.
pub open spec fn effect(outstanding: Map<CommandKey, u32>, record: TraceRecordView) -> Effect {
    let key = command_of(encoding::header_of_view(record));
    match record {
        TraceRecordView::Submit(_) => if outstanding.contains_key(key) {
            Effect::Resubmitted
        } else {
            Effect::Submitted
        },
        TraceRecordView::Complete(_) => if outstanding.contains_key(key) {
            Effect::Completed(outstanding[key])
        } else {
            Effect::Unmatched
        },
    }
}

/// The warning for a command that is submitted while it is outstanding.
pub open spec fn duplicate_submit_text(key: CommandKey) -> Seq<char> {
    "duplicate outstanding submit for ctrl=nvme"@ + text::decimal(key.ctrl_id as nat) + " qid="@
        + text::decimal(key.qid as nat) + " cid="@ + text::decimal(key.cid as nat)
}

/// The warning for a completion of a command that is not outstanding.
pub open spec fn unmatched_completion_text(key: CommandKey) -> Seq<char> {
    "completion without matching submit for ctrl=nvme"@ + text::decimal(key.ctrl_id as nat)
        + " qid="@ + text::decimal(key.qid as nat) + " cid="@ + text::decimal(key.cid as nat)
}

/// The warnings for one more record.
pub open spec fn warnings_for(
    outstanding: Map<CommandKey, u32>,
    record: TraceRecordView,
) -> Seq<Seq<char>> {
    let key = command_of(encoding::header_of_view(record));
    match effect(outstanding, record) {
        Effect::Resubmitted => seq![duplicate_submit_text(key)],
        Effect::Unmatched => seq![unmatched_completion_text(key)],
        _ => seq![],
    }
}

/// The warnings for records, in their order.
pub open spec fn warnings(records: Seq<TraceRecordView>) -> Seq<Seq<char>>
    decreases records.len(),
{
    if records.len() == 0 {
        seq![]
    } else {
        let front = records.drop_last();
        warnings(front) + warnings_for(outstanding(front), records.last())
    }
}

/// Writes the warning for a command that is submitted while it is outstanding.
pub fn duplicate_submit_warning(key: CommandKey) -> (warning: String)
    ensures
        warning@ == duplicate_submit_text(key),
{
    let mut out = "duplicate outstanding submit for ctrl=nvme".to_owned();
    push_decimal(&mut out, key.ctrl_id as u128);
    out.append(" qid=");
    push_decimal(&mut out, key.qid as u128);
    out.append(" cid=");
    push_decimal(&mut out, key.cid as u128);
    out
}

/// Writes the warning for a completion of a command that is not outstanding.
pub fn unmatched_completion_warning(key: CommandKey) -> (warning: String)
    ensures
        warning@ == unmatched_completion_text(key),
{
    let mut out = "completion without matching submit for ctrl=nvme".to_owned();
    push_decimal(&mut out, key.ctrl_id as u128);
    out.append(" qid=");
    push_decimal(&mut out, key.qid as u128);
    out.append(" cid=");
    push_decimal(&mut out, key.cid as u128);
    out
}

/// The outstanding commands.
pub struct InFlight {
    table: HashMap<u64, u32>,
    model: Ghost<Map<CommandKey, u32>>,
}

impl View for InFlight {
    type V = Map<CommandKey, u32>;

    closed spec fn view(&self) -> Map<CommandKey, u32> {
        self.model@
    }
}

impl InFlight {
    /// The table holds what the model says.
    pub closed spec fn wf(&self) -> bool {
        forall|key: CommandKey|
            #![trigger command_code(key)]
            #![trigger self.model@.contains_key(key)]
            {
                &&& self.table@.contains_key(command_code(key)) <==> self.model@.contains_key(key)
                &&& self.model@.contains_key(key) ==> self.table@[command_code(key)]
                    == self.model@[key]
            }
    }

    /// No commands are outstanding.
    pub fn new() -> (in_flight: Self)
        ensures
            in_flight.wf(),
            in_flight@ == outstanding(seq![]),
    {
        InFlight { table: HashMap::new(), model: Ghost(Map::empty()) }
    }

    /// Takes one more record, and gives a warning where it does not fit the
    /// commands that are outstanding.
    pub fn apply<F: WarnSink>(&mut self, record: &TraceRecord, warn: &mut F) -> (result: Effect)
        requires
            old(self).wf(),
        ensures
            final(self).wf(),
            final(self)@ == after(old(self)@, record@),
            result == effect(old(self)@, record@),
            final(warn).warnings() == old(warn).warnings() + warnings_for(old(self)@, record@),
    {
        proof {
            codes_are_unique();
        }
        match record {
            TraceRecord::Submit(submit) => {
                let key = CommandKey::from_header(submit.header);
                let previous = self.table.insert(key.code(), submit.data_len);
                proof {
                    self.model@ = self.model@.insert(key, submit.data_len);
                }
                if previous.is_some() {
                    warn.warn(duplicate_submit_warning(key));
                    assert(warn.warnings() =~= old(warn).warnings() + warnings_for(
                        old(self)@,
                        record@,
                    ));
                    Effect::Resubmitted
                } else {
                    assert(warn.warnings() =~= old(warn).warnings() + warnings_for(
                        old(self)@,
                        record@,
                    ));
                    Effect::Submitted
                }
            },
            TraceRecord::Complete(complete) => {
                let key = CommandKey::from_header(complete.header);
                let previous = self.table.remove(&key.code());
                proof {
                    self.model@ = self.model@.remove(key);
                }
                match previous {
                    Some(data_len) => {
                        assert(warn.warnings() =~= old(warn).warnings() + warnings_for(
                            old(self)@,
                            record@,
                        ));
                        Effect::Completed(data_len)
                    },
                    None => {
                        warn.warn(unmatched_completion_warning(key));
                        assert(warn.warnings() =~= old(warn).warnings() + warnings_for(
                            old(self)@,
                            record@,
                        ));
                        Effect::Unmatched
                    },
                }
            },
        }
    }
}

/// Every submission makes its command outstanding, and every completion is that
/// of an outstanding command.
pub open spec fn all_match(records: Seq<TraceRecordView>) -> bool
    decreases records.len(),
{
    records.len() == 0 || {
        let front = records.drop_last();
        let effect = effect(outstanding(front), records.last());
        all_match(front) && (effect is Submitted || effect is Completed)
    }
}

/// There are no warnings exactly where submissions and completions match, and
/// never more warnings than records.
pub proof fn silent_when_commands_match(records: Seq<TraceRecordView>)
    ensures
        warnings(records).len() == 0 <==> all_match(records),
        warnings(records).len() <= records.len(),
    decreases records.len(),
{
    if records.len() > 0 {
        silent_when_commands_match(records.drop_last());
    }
}

} // verus!
