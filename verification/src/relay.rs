//! Reading from relay files: what a reader does next.
//!
//! Nothing here touches a file: the functions tell what is to be done, and take
//! what came of it.

use vstd::prelude::*;

verus! {

/// How long a poll waits, in milliseconds.
pub const POLL_TIMEOUT_MS: u16 = 100;

/// How many bytes a reader asks for.
pub const CAPTURE_BUF: usize = 131_072;

/// What came of a poll.
#[derive(Debug, Clone, Copy, PartialEq, Eq, Structural)]
pub enum PollOutcome {
    TimedOut,
    Ready { readable: bool },
    Interrupted,
    Failed,
}

/// What came of a read.
#[derive(Debug, Clone, Copy, PartialEq, Eq, Structural)]
pub enum ReadOutcome {
    Data { len: usize },
    WouldBlock,
    Interrupted,
    Failed,
}

/// What a reader is to do next.
#[derive(Debug, Clone, Copy, PartialEq, Eq, Structural)]
pub enum ReaderStage {
    /// See whether it is to stop.
    CheckStop,
    /// Wait until there is something to read.
    Poll,
    /// Read.
    Read,
    /// Write what it has read.
    Write { len: usize },
    /// Flush what it has written.
    Flush,
    /// Nothing more.
    Finished,
    /// Nothing more, since something failed.
    Failed { at: ReaderFailure },
}

/// What failed.
#[derive(Debug, Clone, Copy, PartialEq, Eq, Structural)]
pub enum ReaderFailure {
    Polling,
    Reading,
    Writing,
    Flushing,
}

/// What came of what a reader did.
#[derive(Debug, Clone, Copy, PartialEq, Eq, Structural)]
pub enum ReaderEvent {
    StopChecked { stop: bool },
    Polled { poll: PollOutcome },
    Read { read: ReadOutcome },
    Written { ok: bool },
    Flushed { ok: bool },
}

/// A reader: what it is to do next, and how many bytes it has written. A reader
/// that does not poll reads at once.
#[derive(Debug, Clone, Copy, PartialEq, Eq, Structural)]
pub struct RelayReader {
    pub polls: bool,
    pub stage: ReaderStage,
    pub bytes: u64,
}

/// The event that a stage waits for.
pub open spec fn fits_stage(stage: ReaderStage, event: ReaderEvent) -> bool {
    match stage {
        ReaderStage::CheckStop => event is StopChecked,
        ReaderStage::Poll => event is Polled,
        ReaderStage::Read => event is Read,
        ReaderStage::Write { .. } => event is Written,
        ReaderStage::Flush => event is Flushed,
        ReaderStage::Finished => false,
        ReaderStage::Failed { .. } => false,
    }
}

/// What a reader is to do after an event. It stops only where it checks whether
/// it is to; what interrupts it, and what gives no data, sends it back there.
pub open spec fn stage_after(reader: RelayReader, event: ReaderEvent) -> ReaderStage {
    match event {
        ReaderEvent::StopChecked { stop } => if stop {
            ReaderStage::Flush
        } else if reader.polls {
            ReaderStage::Poll
        } else {
            ReaderStage::Read
        },
        ReaderEvent::Polled { poll } => match poll {
            PollOutcome::Ready { readable } => if readable {
                ReaderStage::Read
            } else {
                ReaderStage::CheckStop
            },
            PollOutcome::Failed => ReaderStage::Failed { at: ReaderFailure::Polling },
            _ => ReaderStage::CheckStop,
        },
        ReaderEvent::Read { read } => match read {
            ReadOutcome::Data { len } => if len == 0 {
                ReaderStage::CheckStop
            } else {
                ReaderStage::Write { len }
            },
            ReadOutcome::Failed => ReaderStage::Failed { at: ReaderFailure::Reading },
            _ => ReaderStage::CheckStop,
        },
        ReaderEvent::Written { ok } => if ok {
            ReaderStage::CheckStop
        } else {
            ReaderStage::Failed { at: ReaderFailure::Writing }
        },
        ReaderEvent::Flushed { ok } => if ok {
            ReaderStage::Finished
        } else {
            ReaderStage::Failed { at: ReaderFailure::Flushing }
        },
    }
}

/// How many bytes an event adds to those written.
pub open spec fn bytes_added(reader: RelayReader, event: ReaderEvent) -> nat {
    match (reader.stage, event) {
        (ReaderStage::Write { len }, ReaderEvent::Written { ok }) => if ok {
            len as nat
        } else {
            0
        },
        _ => 0,
    }
}

/// A reader after an event.
pub open spec fn reader_after(reader: RelayReader, event: ReaderEvent) -> RelayReader {
    RelayReader {
        polls: reader.polls,
        stage: stage_after(reader, event),
        bytes: (reader.bytes + bytes_added(reader, event)) as u64,
    }
}

impl RelayReader {
    /// A reader that has done nothing yet.
    pub fn new(polls: bool) -> (reader: Self)
        ensures
            reader == (RelayReader { polls, stage: ReaderStage::CheckStop, bytes: 0 }),
    {
        RelayReader { polls, stage: ReaderStage::CheckStop, bytes: 0 }
    }

    /// Takes what came of what the reader did.
    pub fn step(&mut self, event: ReaderEvent)
        requires
            fits_stage(old(self).stage, event),
            old(self).bytes + bytes_added(*old(self), event) <= u64::MAX,
        ensures
            *final(self) == reader_after(*old(self), event),
    {
        if let ReaderStage::Write { len } = self.stage {
            if let ReaderEvent::Written { ok } = event {
                if ok {
                    self.bytes = self.bytes + len as u64;
                }
            }
        }
        self.stage = match event {
            ReaderEvent::StopChecked { stop } => {
                if stop {
                    ReaderStage::Flush
                } else if self.polls {
                    ReaderStage::Poll
                } else {
                    ReaderStage::Read
                }
            },
            ReaderEvent::Polled { poll } => match poll {
                PollOutcome::Ready { readable } => {
                    if readable {
                        ReaderStage::Read
                    } else {
                        ReaderStage::CheckStop
                    }
                },
                PollOutcome::Failed => ReaderStage::Failed { at: ReaderFailure::Polling },
                PollOutcome::TimedOut => ReaderStage::CheckStop,
                PollOutcome::Interrupted => ReaderStage::CheckStop,
            },
            ReaderEvent::Read { read } => match read {
                ReadOutcome::Data { len } => {
                    if len == 0 {
                        ReaderStage::CheckStop
                    } else {
                        ReaderStage::Write { len }
                    }
                },
                ReadOutcome::Failed => ReaderStage::Failed { at: ReaderFailure::Reading },
                ReadOutcome::WouldBlock => ReaderStage::CheckStop,
                ReadOutcome::Interrupted => ReaderStage::CheckStop,
            },
            ReaderEvent::Written { ok } => {
                if ok {
                    ReaderStage::CheckStop
                } else {
                    ReaderStage::Failed { at: ReaderFailure::Writing }
                }
            },
            ReaderEvent::Flushed { ok } => {
                if ok {
                    ReaderStage::Finished
                } else {
                    ReaderStage::Failed { at: ReaderFailure::Flushing }
                }
            },
        };
    }
}

/// A reader after events, if it waited for each of them.
pub open spec fn reader_runs(start: RelayReader, events: Seq<ReaderEvent>) -> Option<RelayReader>
    decreases events.len(),
{
    if events.len() == 0 {
        Some(start)
    } else {
        let event = events.last();
        match reader_runs(start, events.drop_last()) {
            Some(reader) => if fits_stage(reader.stage, event) && reader.bytes + bytes_added(
                reader,
                event,
            ) <= u64::MAX {
                Some(reader_after(reader, event))
            } else {
                None
            },
            None => None,
        }
    }
}

/// How many bytes were read and then written.
pub open spec fn bytes_through(events: Seq<ReaderEvent>) -> nat
    decreases events.len(),
{
    if events.len() == 0 {
        0
    } else {
        let front = events.drop_last();
        bytes_through(front) + match events.last() {
            ReaderEvent::Written { ok } => if ok && front.len() > 0 {
                match front.last() {
                    ReaderEvent::Read { read } => match read {
                        ReadOutcome::Data { len } => len as nat,
                        _ => 0,
                    },
                    _ => 0,
                }
            } else {
                0
            },
            _ => 0,
        }
    }
}

/// A reader counts exactly the bytes that were read and then written: what it
/// writes is what it read just before.
pub proof fn reader_counts_what_it_writes(start: RelayReader, events: Seq<ReaderEvent>)
    requires
        start.stage == ReaderStage::CheckStop,
    ensures
        reader_runs(start, events) matches Some(end) ==> {
            &&& end.bytes == start.bytes + bytes_through(events)
            &&& end.stage matches ReaderStage::Write { len } ==> events.len() > 0 && events.last()
                == (ReaderEvent::Read { read: ReadOutcome::Data { len } }) && len > 0
        },
    decreases events.len(),
{
    if events.len() > 0 {
        reader_counts_what_it_writes(start, events.drop_last());
    }
}

/// A reader finishes only when it was told to stop and what it wrote is flushed.
pub proof fn reader_finishes_when_told(start: RelayReader, events: Seq<ReaderEvent>)
    requires
        start.stage == ReaderStage::CheckStop,
    ensures
        reader_runs(start, events) matches Some(end) && end.stage == ReaderStage::Finished ==> {
            &&& events.len() >= 2
            &&& events[events.len() - 2] == (ReaderEvent::StopChecked { stop: true })
            &&& events.last() == (ReaderEvent::Flushed { ok: true })
        },
{
    if events.len() > 0 {
        let front = events.drop_last();
        reveal_with_fuel(reader_runs, 3);
        if front.len() > 0 {
            assert(front.last() == events[events.len() - 2]);
        }
    }
}

/// The warning that a read deserves where nothing should have kept it from
/// giving data.
pub fn read_warning(outcome: ReadOutcome) -> (warning: Option<&'static str>)
    ensures
        warning == match outcome {
            ReadOutcome::WouldBlock => Some("warning: read returned WouldBlock unexpectedly"),
            ReadOutcome::Interrupted => Some("warning: read interrupted"),
            _ => None,
        },
{
    match outcome {
        ReadOutcome::WouldBlock => Some("warning: read returned WouldBlock unexpectedly"),
        ReadOutcome::Interrupted => Some("warning: read interrupted"),
        ReadOutcome::Data { len: _ } => None,
        ReadOutcome::Failed => None,
    }
}

} // verus!
