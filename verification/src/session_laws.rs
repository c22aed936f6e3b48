//! What a capture passes through and what it concludes.

use crate::names;
use crate::session::{self, CaptureStage, CaptureStats};
use crate::text;
use crate::text_laws;
use vstd::prelude::*;

verus! {

/// How many steps a capture that goes well is from its conclusion.
pub open spec fn steps_left(stage: CaptureStage) -> int {
    match stage {
        CaptureStage::Discover => 10,
        CaptureStage::CreateOutput => 9,
        CaptureStage::WatchSignals => 8,
        CaptureStage::SpawnReaders => 7,
        CaptureStage::Enable => 6,
        CaptureStage::Wait => 5,
        CaptureStage::Disable => 4,
        CaptureStage::Drain => 3,
        CaptureStage::StopReaders => 2,
        CaptureStage::Join => 1,
        CaptureStage::Conclude => 0,
        CaptureStage::Aborted => 0,
    }
}

/// Every step of a capture brings it one step nearer to its conclusion, leaving
/// none out. It is given up exactly where it cannot begin: where it finds no
/// files, cannot make its output, cannot watch for signals or cannot turn tracing
/// on. Once tracing is on, nothing keeps it from its end.
pub proof fn captures_take_every_step(stage: CaptureStage, ok: bool)
    ensures
        ({
            let next = session::stage_after(stage, ok);
            let beginning = stage == CaptureStage::Discover || stage == CaptureStage::CreateOutput
                || stage == CaptureStage::WatchSignals || stage == CaptureStage::Enable;
            &&& next == CaptureStage::Aborted <==> stage == CaptureStage::Aborted || !ok
                && beginning
            &&& next != CaptureStage::Aborted && stage != CaptureStage::Conclude ==> steps_left(
                next,
            ) == steps_left(stage) - 1
            &&& stage == CaptureStage::Conclude ==> next == CaptureStage::Conclude
        }),
{
}

/// Reader `i` is the first that failed, with an error.
pub open spec fn fails_first<E>(
    readers: Seq<Result<CaptureStats, E>>,
    i: int,
    err: E,
) -> bool {
    &&& 0 <= i < readers.len()
    &&& readers[i] == Err::<CaptureStats, E>(err)
    &&& forall|j: int| 0 <= j < i ==> #[trigger] readers[j] is Ok
}

/// The error of a capture is that of the first reader that failed, and there is
/// none exactly where all went well.
pub proof fn first_failure_is_told<E>(readers: Seq<Result<CaptureStats, E>>)
    ensures
        session::first_error(readers) is None <==> forall|i: int|
            0 <= i < readers.len() ==> #[trigger] readers[i] is Ok,
        session::first_error(readers) matches Some(err) ==> exists|i: int| #[trigger]
            fails_first(readers, i, err),
    decreases readers.len(),
{
    if readers.len() > 0 {
        let rest = readers.drop_first();
        first_failure_is_told(rest);
        assert(forall|i: int| 0 <= i < rest.len() ==> #[trigger] rest[i] == readers[i + 1]);
        if readers[0] is Ok {
            if let Some(err) = session::first_error(readers) {
                assert(session::first_error(rest) == Some(err));
                let i = choose|i: int| #[trigger] fails_first(rest, i, err);
                assert(fails_first(rest, i, err));
                assert(readers[i + 1] == rest[i]);
                assert forall|j: int| 0 <= j < i + 1 implies #[trigger] readers[j] is Ok by {
                    if j > 0 {
                        assert(rest[j - 1] is Ok);
                    }
                }
                assert(fails_first(readers, i + 1, err));
                assert(!(readers[i + 1] is Ok));
            } else {
                assert forall|i: int| 0 <= i < readers.len() implies #[trigger] readers[i] is Ok by {
                    if i > 0 {
                        assert(rest[i - 1] is Ok);
                    }
                }
            }
        } else {
            let err = session::first_error(readers).unwrap();
            assert(readers[0] == Err::<CaptureStats, E>(err));
            assert(fails_first(readers, 0, err));
        }
    }
}

/// What one more reader captured is placed behind all that is not of a larger
/// processor, so that what two readers of one processor captured stays in the
/// order of the readers.
pub proof fn reports_are_placed_behind_their_equals(
    stats: Seq<CaptureStats>,
    stat: CaptureStats,
) -> (at: int)
    requires
        forall|i: int, j: int|
            #![trigger stats[i], stats[j]]
            0 <= i < j < stats.len() ==> stats[i].cpu <= stats[j].cpu,
    ensures
        0 <= at <= stats.len(),
        session::placed(stats, stat) == stats.insert(at, stat),
        forall|i: int| 0 <= i < at ==> (#[trigger] stats[i]).cpu <= stat.cpu,
        forall|i: int| at <= i < stats.len() ==> stat.cpu < (#[trigger] stats[i]).cpu,
    decreases stats.len(),
{
    if stats.len() == 0 || stats.last().cpu <= stat.cpu {
        assert(stats.push(stat) =~= stats.insert(stats.len() as int, stat));
        assert forall|i: int| 0 <= i < stats.len() implies (#[trigger] stats[i]).cpu
            <= stat.cpu by {
            assert(stats[i].cpu <= stats[stats.len() - 1].cpu || i == stats.len() - 1);
        }
        stats.len() as int
    } else {
        let front = stats.drop_last();
        assert(forall|i: int| 0 <= i < front.len() ==> #[trigger] front[i] == stats[i]);
        assert forall|i: int, j: int|
            #![trigger front[i], front[j]]
            0 <= i < j < front.len() implies front[i].cpu <= front[j].cpu by {
            assert(stats[i].cpu <= stats[j].cpu);
        }
        let at = reports_are_placed_behind_their_equals(front, stat);
        assert(front.insert(at, stat).push(stats.last()) =~= stats.insert(at, stat));
        assert forall|i: int| 0 <= i < at implies (#[trigger] stats[i]).cpu <= stat.cpu by {
            assert(front[i].cpu <= stat.cpu);
        }
        assert forall|i: int| at <= i < stats.len() implies stat.cpu < (
        #[trigger] stats[i]).cpu by {
            if i < front.len() {
                assert(stat.cpu < front[i].cpu);
            }
        }
        at
    }
}

/// The relay files of a controller stand below the directory of the tracer, in
/// one of the name of the controller; a whole path stands for itself.
pub proof fn controllers_have_their_directories(controller: Seq<char>)
    ensures
        controller.len() > 0 && controller[0] == '/' ==> session::trace_dir_of(controller)
            == controller,
        controller.len() == 0 || controller[0] != '/' ==> session::trace_dir_of(controller)
            == "/sys/kernel/debug/nvme_trace"@ + "/"@ + controller,
        (controller.len() == 0 || controller[0] != '/') && text_laws::lacks(controller, '/')
            ==> text::parts(session::trace_dir_of(controller), '/') == text::parts(
            "/sys/kernel/debug/nvme_trace"@,
            '/',
        ).push(controller),
{
    let dir = "/sys/kernel/debug/nvme_trace"@;
    reveal_strlit("/sys/kernel/debug/nvme_trace");
    reveal_strlit("/");
    if (controller.len() == 0 || controller[0] != '/') && text_laws::lacks(controller, '/') {
        assert(names::below(dir, controller) =~= dir.push('/') + controller);
        text_laws::lemma_parts_snoc(dir, controller, '/');
    }
}

/// The line about a reader tells its processor, how many bytes it captured and
/// where they are.
pub proof fn reports_tell_their_numbers(stats: CaptureStats) -> (told: Seq<Seq<char>>)
    ensures
        told.len() == 2,
        session::stats_text(stats) == "cpu"@ + told[0] + ": wrote "@ + told[1] + " bytes to "@
            + stats.path@,
        text::number(told[0], u32::MAX as nat) == Some(stats.cpu as nat),
        text::number(told[1], u64::MAX as nat) == Some(stats.bytes as nat),
{
    text_laws::decimal_reads_back(stats.cpu as nat);
    text_laws::decimal_reads_back(stats.bytes as nat);
    seq![text::decimal(stats.cpu as nat), text::decimal(stats.bytes as nat)]
}

} // verus!
