//! What sends a reader from one stage to another.

use crate::relay::{
    self, PollOutcome, ReadOutcome, ReaderEvent, ReaderFailure, ReaderStage, RelayReader,
};
use vstd::prelude::*;

verus! {

/// A reader fails exactly where what it tried failed, and tells what that was:
/// neither an interruption nor a lack of data is a failure.
pub proof fn only_failures_fail_a_reader(reader: RelayReader, event: ReaderEvent)
    ensures
        ({
            let next = relay::reader_after(reader, event).stage;
            let failed = |at: ReaderFailure| next == ReaderStage::Failed { at };
            &&& failed(ReaderFailure::Polling) <==> event == ReaderEvent::Polled {
                poll: PollOutcome::Failed,
            }
            &&& failed(ReaderFailure::Reading) <==> event == ReaderEvent::Read {
                read: ReadOutcome::Failed,
            }
            &&& failed(ReaderFailure::Writing) <==> event == ReaderEvent::Written { ok: false }
            &&& failed(ReaderFailure::Flushing) <==> event == ReaderEvent::Flushed { ok: false }
        }),
{
}

/// A reader reads where there is something to read, or where it does not poll; it
/// writes exactly what it has read; it stops exactly where it is told to; and
/// whatever else happens sends it back to see whether it is to stop.
pub proof fn readers_go_on_until_told_to_stop(reader: RelayReader, event: ReaderEvent)
    ensures
        ({
            let next = relay::reader_after(reader, event).stage;
            &&& next == ReaderStage::Poll <==> reader.polls && event == ReaderEvent::StopChecked {
                stop: false,
            }
            &&& next == ReaderStage::Read <==> {
                ||| !reader.polls && event == ReaderEvent::StopChecked { stop: false }
                ||| event == ReaderEvent::Polled { poll: PollOutcome::Ready { readable: true } }
            }
            &&& forall|len: usize| #[trigger]
                at_write(next, len) <==> len > 0 && event == ReaderEvent::Read {
                    read: ReadOutcome::Data { len },
                }
            &&& next == ReaderStage::Flush <==> event == ReaderEvent::StopChecked { stop: true }
            &&& next == ReaderStage::Finished <==> event == ReaderEvent::Flushed { ok: true }
            &&& next == ReaderStage::CheckStop <==> {
                ||| event == ReaderEvent::Polled { poll: PollOutcome::TimedOut }
                ||| event == ReaderEvent::Polled { poll: PollOutcome::Interrupted }
                ||| event == ReaderEvent::Polled { poll: PollOutcome::Ready { readable: false } }
                ||| event == ReaderEvent::Read { read: ReadOutcome::WouldBlock }
                ||| event == ReaderEvent::Read { read: ReadOutcome::Interrupted }
                ||| event == ReaderEvent::Read { read: ReadOutcome::Data { len: 0 } }
                ||| event == ReaderEvent::Written { ok: true }
            }
            &&& relay::reader_after(reader, event).polls == reader.polls
        }),
{
}

/// A reader is to write so many bytes.
pub open spec fn at_write(stage: ReaderStage, len: usize) -> bool {
    stage == ReaderStage::Write { len }
}

/// A stage waits for exactly one kind of event, and a reader that is done waits
/// for none.
pub proof fn stages_wait_for_their_events(stage: ReaderStage, event: ReaderEvent)
    ensures
        event is StopChecked ==> (relay::fits_stage(stage, event) <==> stage
            == ReaderStage::CheckStop),
        event is Polled ==> (relay::fits_stage(stage, event) <==> stage == ReaderStage::Poll),
        event is Read ==> (relay::fits_stage(stage, event) <==> stage == ReaderStage::Read),
        event is Written ==> (relay::fits_stage(stage, event) <==> stage is Write),
        event is Flushed ==> (relay::fits_stage(stage, event) <==> stage == ReaderStage::Flush),
{
}

/// A poll waits a tenth of a second, and a reader asks for thirty-two pages of
/// 4096 bytes at a time.
pub proof fn readers_wait_and_ask_for_so_much()
    ensures
        10 * relay::POLL_TIMEOUT_MS == 1000,
        relay::CAPTURE_BUF == 32 * 4096,
{
}

} // verus!
