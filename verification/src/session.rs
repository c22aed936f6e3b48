//! A capture from its start to its end.
//!
//! Readers must be there before tracing is turned on, or early records are
//! lost; tracing must be turned off before they stop, or records are cut.

use crate::names::{self, join_path};
use crate::text::{self, chars_of, push_decimal};
use vstd::prelude::*;

verus! {

/// What a capture is to do next.
#[derive(Debug, Clone, Copy, PartialEq, Eq, Structural)]
pub enum CaptureStage {
    Discover,
    CreateOutput,
    WatchSignals,
    SpawnReaders,
    Enable,
    Wait,
    Disable,
    Drain,
    StopReaders,
    Join,
    Conclude,
    Aborted,
}

/// What a capture is to do after something went well or not. A capture that
/// cannot begin is given up; one that has begun goes on to its end.
pub open spec fn stage_after(stage: CaptureStage, ok: bool) -> CaptureStage {
    match stage {
        CaptureStage::Discover => if ok {
            CaptureStage::CreateOutput
        } else {
            CaptureStage::Aborted
        },
        CaptureStage::CreateOutput => if ok {
            CaptureStage::WatchSignals
        } else {
            CaptureStage::Aborted
        },
        CaptureStage::WatchSignals => if ok {
            CaptureStage::SpawnReaders
        } else {
            CaptureStage::Aborted
        },
        CaptureStage::SpawnReaders => CaptureStage::Enable,
        CaptureStage::Enable => if ok {
            CaptureStage::Wait
        } else {
            CaptureStage::Aborted
        },
        CaptureStage::Wait => CaptureStage::Disable,
        CaptureStage::Disable => CaptureStage::Drain,
        CaptureStage::Drain => CaptureStage::StopReaders,
        CaptureStage::StopReaders => CaptureStage::Join,
        CaptureStage::Join => CaptureStage::Conclude,
        CaptureStage::Conclude => CaptureStage::Conclude,
        CaptureStage::Aborted => CaptureStage::Aborted,
    }
}

/// Tells what a capture is to do after something went well or not.
pub fn next_stage(stage: CaptureStage, ok: bool) -> (next: CaptureStage)
    ensures
        next == stage_after(stage, ok),
{
    match stage {
        CaptureStage::Discover => {
            if ok {
                CaptureStage::CreateOutput
            } else {
                CaptureStage::Aborted
            }
        },
        CaptureStage::CreateOutput => {
            if ok {
                CaptureStage::WatchSignals
            } else {
                CaptureStage::Aborted
            }
        },
        CaptureStage::WatchSignals => {
            if ok {
                CaptureStage::SpawnReaders
            } else {
                CaptureStage::Aborted
            }
        },
        CaptureStage::SpawnReaders => CaptureStage::Enable,
        CaptureStage::Enable => {
            if ok {
                CaptureStage::Wait
            } else {
                CaptureStage::Aborted
            }
        },
        CaptureStage::Wait => CaptureStage::Disable,
        CaptureStage::Disable => CaptureStage::Drain,
        CaptureStage::Drain => CaptureStage::StopReaders,
        CaptureStage::StopReaders => CaptureStage::Join,
        CaptureStage::Join => CaptureStage::Conclude,
        CaptureStage::Conclude => CaptureStage::Conclude,
        CaptureStage::Aborted => CaptureStage::Aborted,
    }
}

/// Where a capture is once some things went well or not.
pub open spec fn stage_of(outcomes: Seq<bool>) -> CaptureStage
    decreases outcomes.len(),
{
    if outcomes.len() == 0 {
        CaptureStage::Discover
    } else {
        stage_after(stage_of(outcomes.drop_last()), outcomes.last())
    }
}

/// A capture has been at a stage.
pub open spec fn has_been_at(outcomes: Seq<bool>, stage: CaptureStage) -> bool {
    exists|n: int| 0 <= n < outcomes.len() && #[trigger] stage_of(outcomes.take(n)) == stage
}

proof fn lemma_been_before(outcomes: Seq<bool>)
    requires
        outcomes.len() > 0,
    ensures
        has_been_at(outcomes, stage_of(outcomes.drop_last())),
        forall|stage: CaptureStage| #[trigger]
            has_been_at(outcomes.drop_last(), stage) ==> has_been_at(outcomes, stage),
{
    let front = outcomes.drop_last();
    assert(outcomes.take(outcomes.len() - 1) =~= front);
    assert forall|stage: CaptureStage| #[trigger] has_been_at(front, stage) implies has_been_at(
        outcomes,
        stage,
    ) by {
        let n = choose|n: int| 0 <= n < front.len() && #[trigger] stage_of(front.take(n)) == stage;
        assert(front.take(n) =~= outcomes.take(n));
        assert(stage_of(outcomes.take(n)) == stage);
    }
}

/// Whatever happens, tracing is turned on only after the readers were started,
/// and the readers are stopped only after tracing was turned off and the
/// buffers were given time to drain.
pub proof fn readers_outlast_tracing(outcomes: Seq<bool>)
    ensures
        stage_of(outcomes) == CaptureStage::Enable ==> has_been_at(
            outcomes,
            CaptureStage::SpawnReaders,
        ),
        stage_of(outcomes) == CaptureStage::Drain ==> has_been_at(outcomes, CaptureStage::Disable),
        stage_of(outcomes) == CaptureStage::StopReaders ==> has_been_at(
            outcomes,
            CaptureStage::Disable,
        ) && has_been_at(outcomes, CaptureStage::Drain),
        stage_of(outcomes) == CaptureStage::Conclude ==> has_been_at(
            outcomes,
            CaptureStage::Join,
        ),
    decreases outcomes.len(),
{
    if outcomes.len() > 0 {
        let front = outcomes.drop_last();
        readers_outlast_tracing(front);
        lemma_been_before(outcomes);
        assert(has_been_at(front, CaptureStage::Disable) ==> has_been_at(
            outcomes,
            CaptureStage::Disable,
        ));
        assert(has_been_at(front, CaptureStage::Join) ==> has_been_at(
            outcomes,
            CaptureStage::Join,
        ));
    }
}

/// Where the relay files of a controller are.
pub open spec fn trace_dir_of(controller: Seq<char>) -> Seq<char> {
    if controller.len() > 0 && controller[0] == '/' {
        controller
    } else {
        names::below("/sys/kernel/debug/nvme_trace"@, controller)
    }
}

/// Tells where the relay files of a controller are.
pub fn default_trace_dir(controller: &str) -> (dir: String)
    ensures
        dir@ == trace_dir_of(controller@),
{
    let chars = chars_of(controller);
    if chars.len() > 0 && chars[0] == '/' {
        controller.to_owned()
    } else {
        join_path("/sys/kernel/debug/nvme_trace", controller)
    }
}

/// What is written to turn tracing on or off.
pub fn enable_text(enabled: bool) -> (text: &'static str)
    ensures
        text == if enabled {
            "1\n"
        } else {
            "0\n"
        },
{
    if enabled {
        "1\n"
    } else {
        "0\n"
    }
}

/// What a reader has captured.
#[derive(Debug, Clone, PartialEq, Eq)]
pub struct CaptureStats {
    pub cpu: u32,
    pub path: String,
    pub bytes: u64,
}

/// What a reader has captured, in words.
pub open spec fn stats_text(stats: CaptureStats) -> Seq<char> {
    "cpu"@ + text::decimal(stats.cpu as nat) + ": wrote "@ + text::decimal(stats.bytes as nat)
        + " bytes to "@ + stats.path@
}

impl CaptureStats {
    /// Writes out what a reader has captured.
    pub fn line(&self) -> (line: String)
        ensures
            line@ == stats_text(*self),
    {
        let mut line = "cpu".to_owned();
        push_decimal(&mut line, self.cpu as u128);
        line.append(": wrote ");
        push_decimal(&mut line, self.bytes as u128);
        line.append(" bytes to ");
        line.append(self.path.as_str());
        line
    }
}

/// `stats` with one more, behind all those whose processor is not larger.
pub open spec fn placed(stats: Seq<CaptureStats>, stat: CaptureStats) -> Seq<CaptureStats>
    decreases stats.len(),
{
    if stats.len() == 0 || stats.last().cpu <= stat.cpu {
        stats.push(stat)
    } else {
        placed(stats.drop_last(), stat).push(stats.last())
    }
}

/// What the readers that went well have captured, by processor.
pub open spec fn stats_of<E>(readers: Seq<Result<CaptureStats, E>>) -> Seq<CaptureStats>
    decreases readers.len(),
{
    if readers.len() == 0 {
        seq![]
    } else {
        match readers.last() {
            Ok(stat) => placed(stats_of(readers.drop_last()), stat),
            Err(_) => stats_of(readers.drop_last()),
        }
    }
}

/// The error of the first reader that failed.
pub open spec fn first_error<E>(readers: Seq<Result<CaptureStats, E>>) -> Option<E>
    decreases readers.len(),
{
    if readers.len() == 0 {
        None
    } else {
        match readers[0] {
            Ok(_) => first_error(readers.drop_first()),
            Err(err) => Some(err),
        }
    }
}

proof fn lemma_first_error_front<E>(readers: Seq<Result<CaptureStats, E>>)
    requires
        readers.len() > 0,
    ensures
        first_error(readers) == match first_error(readers.drop_last()) {
            Some(err) => Some(err),
            None => match readers.last() {
                Ok(_) => None,
                Err(err) => Some(err),
            },
        },
    decreases readers.len(),
{
    if readers.len() > 1 && readers[0] is Ok {
        lemma_first_error_front(readers.drop_first());
        assert(readers.drop_first().drop_last() =~= readers.drop_last().drop_first());
        assert(readers.drop_first().last() == readers.last());
    } else if readers.len() == 1 {
        assert(readers.drop_first() =~= seq![]);
        assert(first_error(readers.drop_first()) is None);
        assert(first_error(readers.drop_last()) is None);
    }
}

fn place(stats: &mut Vec<CaptureStats>, stat: CaptureStats)
    ensures
        final(stats)@ == placed(old(stats)@, stat),
{
    let mut at: usize = stats.len();
    let ghost all = stats@;
    assert(all.take(at as int) =~= all);
    assert(placed(all, stat) =~= placed(all.take(at as int), stat) + all.skip(at as int));
    while at > 0 && stats[at - 1].cpu > stat.cpu
        invariant
            all == stats@,
            at <= all.len(),
            placed(all, stat) == placed(all.take(at as int), stat) + all.skip(at as int),
        decreases at,
    {
        proof {
            assert(all.take(at as int).drop_last() =~= all.take(at - 1));
            assert(placed(all.take(at as int), stat) =~= placed(all.take(at - 1), stat).push(
                all[at - 1],
            ));
            assert(placed(all, stat) =~= placed(all.take(at - 1), stat) + all.skip(at - 1));
        }
        at = at - 1;
    }
    assert(placed(all.take(at as int), stat) =~= all.take(at as int).push(stat));
    stats.insert(at, stat);
    assert(stats@ =~= placed(all, stat));
}

/// Concludes a capture. Where tracing could not be turned off, that is the
/// error; otherwise the error of the first reader that failed is, if any did.
pub fn conclude<E>(disabled: Result<(), E>, readers: Vec<Result<CaptureStats, E>>) -> (result:
    Result<Vec<CaptureStats>, E>)
    ensures
        match result {
            Ok(stats) => {
                &&& disabled is Ok
                &&& first_error(readers@) is None
                &&& stats@ == stats_of(readers@)
            },
            Err(err) => match disabled {
                Err(e) => err == e,
                Ok(()) => first_error(readers@) == Some(err),
            },
        },
{
    let mut stats: Vec<CaptureStats> = Vec::new();
    let mut failed: Option<E> = None;
    let ghost all = readers@;
    for reader in it: readers.into_iter()
        invariant
            it.seq() == all,
            stats@ == stats_of(all.take(it.index() as int)),
            failed == first_error(all.take(it.index() as int)),
    {
        proof {
            let now = all.take(it.index() + 1);
            assert(now.drop_last() =~= all.take(it.index() as int));
            lemma_first_error_front(now);
        }
        match reader {
            Ok(stat) => {
                place(&mut stats, stat);
            },
            Err(err) => {
                if failed.is_none() {
                    failed = Some(err);
                }
            },
        }
    }
    assert(all.take(all.len() as int) =~= all);
    match disabled {
        Ok(()) => match failed {
            Some(err) => Err(err),
            None => Ok(stats),
        },
        Err(err) => Err(err),
    }
}

/// What a capture reports is in order of the processors, and holds what each
/// reader captured, once.
pub proof fn reports_are_in_order<E>(readers: Seq<Result<CaptureStats, E>>)
    requires
        first_error(readers) is None,
    ensures
        forall|i: int, j: int|
            #![trigger stats_of(readers)[i], stats_of(readers)[j]]
            0 <= i < j < stats_of(readers).len() ==> stats_of(readers)[i].cpu <= stats_of(
                readers,
            )[j].cpu,
        stats_of(readers).to_multiset() == Seq::new(
            readers.len(),
            |i: int| readers[i]->Ok_0,
        ).to_multiset(),
    decreases readers.len(),
{
    let all = Seq::new(readers.len(), |i: int| readers[i]->Ok_0);
    if readers.len() == 0 {
        assert(all =~= stats_of(readers));
    } else {
        let front = readers.drop_last();
        lemma_first_error_front(readers);
        reports_are_in_order(front);
        let stat = readers.last()->Ok_0;
        lemma_placed(stats_of(front), stat);
        let before = Seq::new(front.len(), |i: int| front[i]->Ok_0);
        assert(all =~= before.push(stat));
        vstd::seq_lib::to_multiset_build(before, stat);
    }
}

proof fn lemma_placed(stats: Seq<CaptureStats>, stat: CaptureStats)
    requires
        forall|i: int, j: int|
            #![trigger stats[i], stats[j]]
            0 <= i < j < stats.len() ==> stats[i].cpu <= stats[j].cpu,
    ensures
        forall|i: int, j: int|
            #![trigger placed(stats, stat)[i], placed(stats, stat)[j]]
            0 <= i < j < placed(stats, stat).len() ==> placed(stats, stat)[i].cpu <= placed(
                stats,
                stat,
            )[j].cpu,
        placed(stats, stat).to_multiset() == stats.to_multiset().insert(stat),
        forall|i: int|
            0 <= i < placed(stats, stat).len() ==> (#[trigger] placed(stats, stat)[i]) == stat
                || stats.contains(placed(stats, stat)[i]),
    decreases stats.len(),
{
    let after = placed(stats, stat);
    if stats.len() == 0 || stats.last().cpu <= stat.cpu {
        vstd::seq_lib::to_multiset_build(stats, stat);
        assert forall|i: int, j: int|
            #![trigger after[i], after[j]]
            0 <= i < j < after.len() implies after[i].cpu <= after[j].cpu by {
            if j == stats.len() {
                assert(stats[i].cpu <= stats[stats.len() - 1].cpu);
            }
        }
        assert forall|i: int| 0 <= i < after.len() implies (#[trigger] after[i]) == stat
            || stats.contains(after[i]) by {
            if i < stats.len() {
                assert(stats[i] == after[i]);
            }
        }
    } else {
        let front = stats.drop_last();
        let last = stats.last();
        lemma_placed(front, stat);
        let middle = placed(front, stat);
        vstd::seq_lib::to_multiset_build(middle, last);
        vstd::seq_lib::to_multiset_build(front, last);
        assert(stats =~= front.push(last));
        assert(after.to_multiset() =~= stats.to_multiset().insert(stat));
        assert forall|i: int| 0 <= i < after.len() implies (#[trigger] after[i]) == stat
            || stats.contains(after[i]) by {
            if i < middle.len() {
                assert(after[i] == middle[i]);
                if front.contains(middle[i]) {
                    let k = choose|k: int| 0 <= k < front.len() && front[k] == middle[i];
                    assert(stats[k] == middle[i]);
                }
            } else {
                assert(stats[stats.len() - 1] == after[i]);
            }
        }
        assert forall|i: int, j: int|
            #![trigger after[i], after[j]]
            0 <= i < j < after.len() implies after[i].cpu <= after[j].cpu by {
            if j == middle.len() {
                if middle[i] != stat {
                    assert(front.contains(middle[i]));
                    let k = choose|k: int| 0 <= k < front.len() && front[k] == middle[i];
                    assert(stats[k].cpu <= stats[stats.len() - 1].cpu);
                }
            } else {
                assert(after[i] == middle[i] && after[j] == middle[j]);
            }
        }
    }
}

} // verus!
