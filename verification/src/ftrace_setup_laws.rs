//! What is written to the kernel's tracer to set it up.

use crate::ftrace::{self, FileActionView, FtraceSetup, SetupStage};
use crate::ftrace_format::{self, FtraceError};
use crate::names;
use crate::text;
use crate::text_laws;
use vstd::prelude::*;

verus! {

/// An action writes a text to a file of the tracer.
pub open spec fn writes(
    action: Option<FileActionView>,
    dir: Seq<char>,
    file: Seq<char>,
    value: Seq<char>,
) -> bool {
    action == Some(FileActionView::Write { path: names::below(dir, file), value })
}

/// The size of the buffers is written as a number, and the filter as a comparison
/// of the controller with a number; both filters are the same, and each kind of
/// event is turned on by itself.
pub proof fn setup_writes_what_it_was_asked_for(
    dir: Seq<char>,
    id: u32,
    per_cpu_kb: u64,
) -> (told: (Seq<char>, Seq<char>))
    ensures
        ({
            let (size, number) = told;
            let action = |stage: SetupStage|
                ftrace::stage_action(stage, dir, Some(id), per_cpu_kb);
            let filter = "ctrl_id=="@ + number;
            &&& text::number(size, u64::MAX as nat) == Some(per_cpu_kb as nat)
            &&& text::number(number, u32::MAX as nat) == Some(id as nat)
            &&& writes(action(SetupStage::SizeBuffers), dir, "buffer_size_kb"@, size)
            &&& writes(
                action(SetupStage::FilterSubmit),
                dir,
                "events/nvme/nvme_pci_submit/filter"@,
                filter,
            )
            &&& writes(
                action(SetupStage::FilterComplete),
                dir,
                "events/nvme/nvme_pci_complete/filter"@,
                filter,
            )
            &&& writes(
                action(SetupStage::EnableSubmit),
                dir,
                "events/nvme/nvme_pci_submit/enable"@,
                "1"@,
            )
            &&& writes(
                action(SetupStage::EnableComplete),
                dir,
                "events/nvme/nvme_pci_complete/enable"@,
                "1"@,
            )
            &&& writes(action(SetupStage::TurnOff), dir, "tracing_on"@, "0"@)
        }),
{
    text_laws::decimal_reads_back(per_cpu_kb as nat);
    text_laws::decimal_reads_back(id as nat);
    (text::decimal(per_cpu_kb as nat), text::decimal(id as nat))
}

/// The buffers of all processors together are no larger than what was asked for,
/// and no buffer could be larger by a kilobyte.
pub proof fn buffers_are_split_evenly(setup: FtraceSetup, names: Seq<String>)
    requires
        setup.buffer_mb * 1024 <= u64::MAX,
    ensures
        ftrace::listed_setup(setup, names) is Some <==> ftrace_format::listed_cpus(names).len() > 0,
        ftrace::listed_setup(setup, names) matches Some(next) ==> {
            let cpus = ftrace_format::listed_cpus(names).len();
            &&& next.per_cpu_kb * cpus <= setup.buffer_mb * 1024
            &&& setup.buffer_mb * 1024 < (next.per_cpu_kb + 1) * cpus
            &&& next.tracing_dir == setup.tracing_dir
            &&& next.ctrl_id_filter == setup.ctrl_id_filter
        },
{
    let cpus = ftrace_format::listed_cpus(names).len() as int;
    let all = setup.buffer_mb as int * 1024;
    if cpus > 0 {
        let each = all / cpus;
        vstd::arithmetic::div_mod::lemma_fundamental_div_mod(all, cpus);
        vstd::arithmetic::div_mod::lemma_mod_bound(all, cpus);
        assert(each * cpus == cpus * each) by (nonlinear_arith);
        assert((each + 1) * cpus == cpus * each + cpus) by (nonlinear_arith);
        assert(0 <= each <= all) by (nonlinear_arith)
            requires
                each * cpus <= all,
                all < (each + 1) * cpus,
                cpus > 0,
                all >= 0,
        ;
    }
}

/// The number of an event stands in its file, with white space around it.
pub proof fn event_numbers_read_back(before: Seq<char>, id: nat, after: Seq<char>)
    requires
        text_laws::blank(before),
        text_laws::blank(after),
    ensures
        id <= u16::MAX ==> ftrace::event_id(before + text::decimal(id) + after) == Some(id),
        id > u16::MAX ==> ftrace::event_id(before + text::decimal(id) + after) is None,
{
    let digits = text::decimal(id);
    text_laws::decimal_reads_back(id);
    text_laws::decimal_is_solid(id);
    text_laws::trimmed_text_is_what_space_surrounds(before, digits, after);
    assert(text::is_digit(digits[0]));
}

/// Tracing is turned on in the file that it was turned off in when it was set up,
/// and stopping turns it off again before anything else. Stopping turns off each
/// kind of event that the setup turned on.
pub proof fn stopping_undoes_starting(dir: Seq<char>, filter: Option<u32>, per_cpu_kb: u64)
    ensures
        ({
            let action = |stage: SetupStage| ftrace::stage_action(stage, dir, filter, per_cpu_kb);
            let stop = ftrace::stop_actions(dir);
            let start = ftrace::start_actions(dir);
            &&& stop.len() == 3
            &&& start.len() == 1
            &&& same_file(Some(start[0]), action(SetupStage::TurnOff))
            &&& written(start[0]) == "1"@
            &&& Some(stop[0]) == action(SetupStage::TurnOff)
            &&& same_file(Some(stop[1]), action(SetupStage::EnableSubmit))
            &&& written(stop[1]) == "0"@
            &&& same_file(Some(stop[2]), action(SetupStage::EnableComplete))
            &&& written(stop[2]) == "0"@
        }),
{
}

/// Cleaning up writes to the files of the options, of the buffers and of the
/// filters that the setup wrote to, and clears the trace as the setup did.
pub proof fn cleaning_up_undoes_the_setup(dir: Seq<char>, filter: Option<u32>, per_cpu_kb: u64)
    ensures
        ({
            let action = |stage: SetupStage| ftrace::stage_action(stage, dir, filter, per_cpu_kb);
            let cleanup = ftrace::cleanup_actions(dir);
            &&& cleanup.len() == 5
            &&& same_file(Some(cleanup[0]), action(SetupStage::KeepOldEvents))
            &&& written(cleanup[0]) == "overwrite"@
            &&& same_file(Some(cleanup[1]), action(SetupStage::SizeBuffers))
            &&& text::number(written(cleanup[1]), u64::MAX as nat) == Some(1408nat)
            &&& same_file(Some(cleanup[2]), action(SetupStage::FilterSubmit))
            &&& written(cleanup[2]) == "0"@
            &&& same_file(Some(cleanup[3]), action(SetupStage::FilterComplete))
            &&& written(cleanup[3]) == "0"@
            &&& Some(cleanup[4]) == action(SetupStage::ClearTrace)
        }),
{
    reveal_strlit("1408");
    let s = "1408"@;
    reveal_with_fuel(text::digits_value, 5);
    assert(s.drop_last().last() == '0');
    assert(s.drop_last().drop_last().last() == '4');
    assert(s.drop_last().drop_last().drop_last().last() == '1');
    assert(text::digits_value(s) == 1408);
}

/// Two actions write to the same file.
pub open spec fn same_file(a: Option<FileActionView>, b: Option<FileActionView>) -> bool {
    match (a, b) {
        (
            Some(FileActionView::Write { path: p, .. }),
            Some(FileActionView::Write { path: q, .. }),
        ) => p == q,
        _ => false,
    }
}

/// The text that an action writes.
pub open spec fn written(action: FileActionView) -> Seq<char> {
    match action {
        FileActionView::Write { value, .. } => value,
        _ => seq![],
    }
}

/// The pipe of a processor stands in the directory that stands for the processor,
/// below the one that lists the processors.
pub proof fn pipes_stand_in_the_directories_of_processors(dir: Seq<char>, cpu: u32)
    ensures
        ({
            let parts = text::parts(ftrace::pipe_of(dir, cpu), '/');
            let n = parts.len();
            &&& n >= 3
            &&& parts[n - 1] == "trace_pipe_raw"@
            &&& ftrace_format::cpu_dir(parts[n - 2]) == Some(cpu as nat)
            &&& parts[n - 3] == "per_cpu"@
        }),
{
    let digits = text::decimal(cpu as nat);
    let name = "cpu"@ + digits;
    let file = "per_cpu/cpu"@ + digits + "/trace_pipe_raw"@;
    reveal_strlit("per_cpu/cpu");
    reveal_strlit("per_cpu");
    reveal_strlit("cpu");
    reveal_strlit("/trace_pipe_raw");
    reveal_strlit("trace_pipe_raw");
    reveal_strlit("/");
    text_laws::decimal_reads_back(cpu as nat);
    assert(text_laws::lacks(name, '/')) by {
        assert forall|i: int| 0 <= i < name.len() implies #[trigger] name[i] != '/' by {
            if i >= 3 {
                assert(name[i] == digits[i - 3]);
                assert(text::is_digit(digits[i - 3]));
            }
        }
    }
    assert(name.take(3) =~= "cpu"@);
    assert(name.skip(3) =~= digits);
    assert(file =~= ("per_cpu"@.push('/') + name).push('/') + "trace_pipe_raw"@);
    text_laws::lemma_parts_cons("per_cpu"@, "per_cpu"@, '/');
    text_laws::lemma_parts_snoc("per_cpu"@, name, '/');
    text_laws::lemma_parts_snoc("per_cpu"@.push('/') + name, "trace_pipe_raw"@, '/');
    if dir.len() > 0 {
        let front = if dir.last() == '/' {
            dir.drop_last()
        } else {
            dir
        };
        let a = front.push('/') + "per_cpu"@;
        let b = a.push('/') + name;
        text_laws::lemma_parts_snoc(front, "per_cpu"@, '/');
        text_laws::lemma_parts_snoc(a, name, '/');
        text_laws::lemma_parts_snoc(b, "trace_pipe_raw"@, '/');
        assert(ftrace::pipe_of(dir, cpu) =~= b.push('/') + "trace_pipe_raw"@);
    } else {
        assert(ftrace::pipe_of(dir, cpu) =~= file);
    }
}

/// The path of the file that a setup is to read.
pub open spec fn file_to_read(setup: FtraceSetup) -> Seq<char> {
    match setup.action() {
        Some(FileActionView::Read { path }) => path,
        _ => seq![],
    }
}

/// An error about a file that was read is about that very file: it names its path,
/// or the event in whose directory it stands.
pub proof fn errors_are_about_the_file_that_was_read(
    setup: FtraceSetup,
    content: Seq<char>,
    err: FtraceError,
)
    requires
        ftrace::read_error(setup, content, err),
        setup.stage == SetupStage::ReadSubmitId || setup.stage == SetupStage::ReadCompleteId
            || setup.stage == SetupStage::ReadSubmitFormat || setup.stage
            == SetupStage::ReadCompleteFormat,
    ensures
        match err {
            FtraceError::BadEventId { path } => path@ == file_to_read(setup),
            FtraceError::MissingField { field, event } => {
                let parts = text::parts(file_to_read(setup), '/');
                &&& parts.len() >= 2
                &&& parts[parts.len() - 2] == event@
                &&& ftrace_format::field_offset(content, field@) is None
            },
            FtraceError::NoCpus { .. } => false,
        },
        err is BadEventId <==> setup.stage == SetupStage::ReadSubmitId || setup.stage
            == SetupStage::ReadCompleteId,
{
    let dir = setup.tracing_dir@;
    if setup.stage == SetupStage::ReadSubmitFormat {
        lemma_event_of_path(dir, "nvme_pci_submit"@, "events/nvme/nvme_pci_submit/format"@);
    }
    if setup.stage == SetupStage::ReadCompleteFormat {
        lemma_event_of_path(dir, "nvme_pci_complete"@, "events/nvme/nvme_pci_complete/format"@);
    }
}

proof fn lemma_event_of_path(dir: Seq<char>, event: Seq<char>, file: Seq<char>)
    requires
        event == "nvme_pci_submit"@ && file == "events/nvme/nvme_pci_submit/format"@ || event
            == "nvme_pci_complete"@ && file == "events/nvme/nvme_pci_complete/format"@,
    ensures
        ({
            let parts = text::parts(names::below(dir, file), '/');
            parts.len() >= 2 && parts[parts.len() - 2] == event
        }),
{
    reveal_strlit("nvme_pci_submit");
    reveal_strlit("nvme_pci_complete");
    reveal_strlit("events/nvme/nvme_pci_submit/format");
    reveal_strlit("events/nvme/nvme_pci_complete/format");
    reveal_strlit("events/nvme");
    reveal_strlit("format");
    reveal_strlit("/");
    let front = "events/nvme"@;
    assert(file =~= (front.push('/') + event).push('/') + "format"@);
    let path = names::below(dir, file);
    let start = if dir.len() == 0 || dir.last() == '/' {
        dir + front
    } else {
        dir + "/"@ + front
    };
    assert(path =~= (start.push('/') + event).push('/') + "format"@);
    text_laws::lemma_parts_snoc(start, event, '/');
    text_laws::lemma_parts_snoc(start.push('/') + event, "format"@, '/');
}

} // verus!
