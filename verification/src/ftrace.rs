//! Capturing with the kernel's tracer.
//!
//! To set tracing up: no tracer, all events off and tracing off; then the size
//! of the buffers, which keep old events and drop new ones when they are full;
//! then what is left over is cleared. The numbers and the layouts of the two
//! events are read, the events are filtered where one controller is asked for,
//! and they are turned on. Tracing itself starts once all readers are there.
//!
//! Afterwards tracing and the events are turned off, the readers drain the
//! buffers, the lost events are counted, and the tracer is put back as it was.
//!
//! Nothing here touches a file: the functions tell what is to be listed, read
//! and written, and take what came of it.

use crate::ftrace_event::{CompleteFormat, SubmitFormat};
use crate::ftrace_format::{
    self, discover_cpus, parse_complete_format, parse_event_id, parse_submit_format, sum_overruns,
    FtraceError,
};
use crate::ftrace_page::{self, parse_page_events, EventFormats, PAGE_SIZE};
use crate::names::{self, join_path};
use crate::text::{self, push_decimal};
use crate::trace;
use vstd::prelude::*;

verus! {

/// Something to be done with a file or a directory.
#[derive(Debug, Clone, PartialEq, Eq)]
pub enum FileAction {
    /// List the names in a directory.
    List { path: String },
    /// Write a text to a file, in place of what it holds.
    Write { path: String, value: String },
    /// Read a file as text.
    Read { path: String },
}

/// What an action says.
#[verifier::ext_equal]
pub enum FileActionView {
    List { path: Seq<char> },
    Write { path: Seq<char>, value: Seq<char> },
    Read { path: Seq<char> },
}

impl View for FileAction {
    type V = FileActionView;

    open spec fn view(&self) -> FileActionView {
        match self {
            FileAction::List { path } => FileActionView::List { path: path@ },
            FileAction::Write { path, value } => FileActionView::Write {
                path: path@,
                value: value@,
            },
            FileAction::Read { path } => FileActionView::Read { path: path@ },
        }
    }
}

/// What a list of actions says.
pub open spec fn action_views(actions: Seq<FileAction>) -> Seq<FileActionView> {
    actions.map_values(|action: FileAction| action@)
}

/// A file of the tracer that is to be listed.
pub open spec fn to_list(dir: Seq<char>, file: Seq<char>) -> FileActionView {
    FileActionView::List { path: names::below(dir, file) }
}

/// A file of the tracer that is to be written.
pub open spec fn to_write(dir: Seq<char>, file: Seq<char>, value: Seq<char>) -> FileActionView {
    FileActionView::Write { path: names::below(dir, file), value }
}

/// A file of the tracer that is to be read.
pub open spec fn to_read(dir: Seq<char>, file: Seq<char>) -> FileActionView {
    FileActionView::Read { path: names::below(dir, file) }
}

fn write_action(dir: &str, file: &str, value: &str) -> (action: FileAction)
    ensures
        action@ == to_write(dir@, file@, value@),
{
    FileAction::Write { path: join_path(dir, file), value: value.to_owned() }
}

fn read_action(dir: &str, file: &str) -> (action: FileAction)
    ensures
        action@ == to_read(dir@, file@),
{
    FileAction::Read { path: join_path(dir, file) }
}

/// How far the setup has come: what is to be done next.
#[derive(Debug, Clone, Copy, PartialEq, Eq, Structural)]
pub enum SetupStage {
    ListCpus,
    ClearTracer,
    DisableEvents,
    TurnOff,
    SizeBuffers,
    KeepOldEvents,
    ClearTrace,
    ReadSubmitId,
    ReadCompleteId,
    ReadSubmitFormat,
    ReadCompleteFormat,
    FilterSubmit,
    FilterComplete,
    EnableSubmit,
    EnableComplete,
    Ready,
}

/// The stage that follows. Only where one controller is asked for are the
/// events filtered.
pub open spec fn stage_after(stage: SetupStage, filtered: bool) -> SetupStage {
    match stage {
        SetupStage::ListCpus => SetupStage::ClearTracer,
        SetupStage::ClearTracer => SetupStage::DisableEvents,
        SetupStage::DisableEvents => SetupStage::TurnOff,
        SetupStage::TurnOff => SetupStage::SizeBuffers,
        SetupStage::SizeBuffers => SetupStage::KeepOldEvents,
        SetupStage::KeepOldEvents => SetupStage::ClearTrace,
        SetupStage::ClearTrace => SetupStage::ReadSubmitId,
        SetupStage::ReadSubmitId => SetupStage::ReadCompleteId,
        SetupStage::ReadCompleteId => SetupStage::ReadSubmitFormat,
        SetupStage::ReadSubmitFormat => SetupStage::ReadCompleteFormat,
        SetupStage::ReadCompleteFormat => if filtered {
            SetupStage::FilterSubmit
        } else {
            SetupStage::EnableSubmit
        },
        SetupStage::FilterSubmit => SetupStage::FilterComplete,
        SetupStage::FilterComplete => SetupStage::EnableSubmit,
        SetupStage::EnableSubmit => SetupStage::EnableComplete,
        SetupStage::EnableComplete => SetupStage::Ready,
        SetupStage::Ready => SetupStage::Ready,
    }
}

/// The filter that lets one controller through.
pub open spec fn filter_text(ctrl_id_filter: Option<u32>) -> Seq<char> {
    match ctrl_id_filter {
        Some(id) => "ctrl_id=="@ + text::decimal(id as nat),
        None => seq![],
    }
}

/// What is to be done at a stage.
pub open spec fn stage_action(
    stage: SetupStage,
    dir: Seq<char>,
    ctrl_id_filter: Option<u32>,
    per_cpu_kb: u64,
) -> Option<FileActionView> {
    match stage {
        SetupStage::ListCpus => Some(to_list(dir, "per_cpu"@)),
        SetupStage::ClearTracer => Some(to_write(dir, "current_tracer"@, "nop"@)),
        SetupStage::DisableEvents => Some(to_write(dir, "events/enable"@, "0"@)),
        SetupStage::TurnOff => Some(to_write(dir, "tracing_on"@, "0"@)),
        SetupStage::SizeBuffers => Some(
            to_write(dir, "buffer_size_kb"@, text::decimal(per_cpu_kb as nat)),
        ),
        SetupStage::KeepOldEvents => Some(to_write(dir, "trace_options"@, "nooverwrite"@)),
        SetupStage::ClearTrace => Some(to_write(dir, "trace"@, ""@)),
        SetupStage::ReadSubmitId => Some(to_read(dir, "events/nvme/nvme_pci_submit/id"@)),
        SetupStage::ReadCompleteId => Some(to_read(dir, "events/nvme/nvme_pci_complete/id"@)),
        SetupStage::ReadSubmitFormat => Some(to_read(dir, "events/nvme/nvme_pci_submit/format"@)),
        SetupStage::ReadCompleteFormat => Some(
            to_read(dir, "events/nvme/nvme_pci_complete/format"@),
        ),
        SetupStage::FilterSubmit => Some(
            to_write(
                dir,
                "events/nvme/nvme_pci_submit/filter"@,
                filter_text(ctrl_id_filter),
            ),
        ),
        SetupStage::FilterComplete => Some(
            to_write(
                dir,
                "events/nvme/nvme_pci_complete/filter"@,
                filter_text(ctrl_id_filter),
            ),
        ),
        SetupStage::EnableSubmit => Some(
            to_write(dir, "events/nvme/nvme_pci_submit/enable"@, "1"@),
        ),
        SetupStage::EnableComplete => Some(
            to_write(dir, "events/nvme/nvme_pci_complete/enable"@, "1"@),
        ),
        SetupStage::Ready => None,
    }
}

/// A setup under way.
#[derive(Debug, Clone, PartialEq, Eq)]
pub struct FtraceSetup {
    pub stage: SetupStage,
    pub tracing_dir: String,
    pub ctrl_id_filter: Option<u32>,
    pub buffer_mb: u64,
    pub per_cpu_kb: u64,
    pub submit_id: u16,
    pub complete_id: u16,
    pub submit_fmt: SubmitFormat,
    pub complete_fmt: CompleteFormat,
}

/// A setup that has moved on and is otherwise the same.
pub open spec fn at_next_stage(setup: FtraceSetup) -> FtraceSetup {
    FtraceSetup { stage: stage_after(setup.stage, setup.ctrl_id_filter is Some), ..setup }
}

impl FtraceSetup {
    /// What is to be done next.
    pub open spec fn action(&self) -> Option<FileActionView> {
        stage_action(self.stage, self.tracing_dir@, self.ctrl_id_filter, self.per_cpu_kb)
    }

    /// Tells what is to be done next. Nothing more is to be done once the setup
    /// is ready.
    pub fn next_action(&self) -> (action: Option<FileAction>)
        ensures
            match action {
                Some(action) => self.action() == Some(action@),
                None => self.action() is None,
            },
    {
        let dir = self.tracing_dir.as_str();
        match self.stage {
            SetupStage::ListCpus => Some(FileAction::List { path: join_path(dir, "per_cpu") }),
            SetupStage::ClearTracer => Some(write_action(dir, "current_tracer", "nop")),
            SetupStage::DisableEvents => Some(write_action(dir, "events/enable", "0")),
            SetupStage::TurnOff => Some(write_action(dir, "tracing_on", "0")),
            SetupStage::SizeBuffers => {
                let mut size = String::new();
                push_decimal(&mut size, self.per_cpu_kb as u128);
                assert(size@ =~= text::decimal(self.per_cpu_kb as nat));
                Some(write_action(dir, "buffer_size_kb", size.as_str()))
            },
            SetupStage::KeepOldEvents => Some(write_action(dir, "trace_options", "nooverwrite")),
            SetupStage::ClearTrace => Some(write_action(dir, "trace", "")),
            SetupStage::ReadSubmitId => Some(read_action(dir, "events/nvme/nvme_pci_submit/id")),
            SetupStage::ReadCompleteId => Some(
                read_action(dir, "events/nvme/nvme_pci_complete/id"),
            ),
            SetupStage::ReadSubmitFormat => Some(
                read_action(dir, "events/nvme/nvme_pci_submit/format"),
            ),
            SetupStage::ReadCompleteFormat => Some(
                read_action(dir, "events/nvme/nvme_pci_complete/format"),
            ),
            SetupStage::FilterSubmit => Some(
                write_action(
                    dir,
                    "events/nvme/nvme_pci_submit/filter",
                    self.filter().as_str(),
                ),
            ),
            SetupStage::FilterComplete => Some(
                write_action(
                    dir,
                    "events/nvme/nvme_pci_complete/filter",
                    self.filter().as_str(),
                ),
            ),
            SetupStage::EnableSubmit => Some(
                write_action(dir, "events/nvme/nvme_pci_submit/enable", "1"),
            ),
            SetupStage::EnableComplete => Some(
                write_action(dir, "events/nvme/nvme_pci_complete/enable", "1"),
            ),
            SetupStage::Ready => None,
        }
    }

    fn filter(&self) -> (filter: String)
        ensures
            filter@ == filter_text(self.ctrl_id_filter),
    {
        match self.ctrl_id_filter {
            Some(id) => {
                let mut filter = "ctrl_id==".to_owned();
                push_decimal(&mut filter, id as u128);
                filter
            },
            None => {
                let filter = String::new();
                assert(filter@ =~= seq![]);
                filter
            },
        }
    }

    fn move_on(&mut self)
        ensures
            *final(self) == at_next_stage(*old(self)),
    {
        self.stage = match self.stage {
            SetupStage::ListCpus => SetupStage::ClearTracer,
            SetupStage::ClearTracer => SetupStage::DisableEvents,
            SetupStage::DisableEvents => SetupStage::TurnOff,
            SetupStage::TurnOff => SetupStage::SizeBuffers,
            SetupStage::SizeBuffers => SetupStage::KeepOldEvents,
            SetupStage::KeepOldEvents => SetupStage::ClearTrace,
            SetupStage::ClearTrace => SetupStage::ReadSubmitId,
            SetupStage::ReadSubmitId => SetupStage::ReadCompleteId,
            SetupStage::ReadCompleteId => SetupStage::ReadSubmitFormat,
            SetupStage::ReadSubmitFormat => SetupStage::ReadCompleteFormat,
            SetupStage::ReadCompleteFormat => {
                if self.ctrl_id_filter.is_some() {
                    SetupStage::FilterSubmit
                } else {
                    SetupStage::EnableSubmit
                }
            },
            SetupStage::FilterSubmit => SetupStage::FilterComplete,
            SetupStage::FilterComplete => SetupStage::EnableSubmit,
            SetupStage::EnableSubmit => SetupStage::EnableComplete,
            SetupStage::EnableComplete => SetupStage::Ready,
            SetupStage::Ready => SetupStage::Ready,
        };
    }

    /// Takes the names in the directory that was to be listed. The buffers are
    /// split evenly among the processors.
    pub fn listed(&mut self, names: &Vec<String>) -> (result: Result<(), FtraceError>)
        requires
            old(self).action() matches Some(FileActionView::List { .. }),
            old(self).buffer_mb * 1024 <= u64::MAX,
        ensures
            match result {
                Ok(()) => listed_setup(*old(self), names@) == Some(*final(self)),
                Err(err) => {
                    &&& listed_setup(*old(self), names@) is None
                    &&& err matches FtraceError::NoCpus { path }
                    &&& path@ == names::below(old(self).tracing_dir@, "per_cpu"@)
                    &&& *final(self) == *old(self)
                },
            },
    {
        let cpus = match discover_cpus(self.tracing_dir.as_str(), names) {
            Ok(cpus) => cpus,
            Err(err) => {
                return Err(err);
            },
        };
        proof {
            cpus@.to_multiset_ensures();
            ftrace_format::listed_cpus(names@).to_multiset_ensures();
        }
        self.per_cpu_kb = self.buffer_mb * 1024 / cpus.len() as u64;
        self.move_on();
        Ok(())
    }

    /// Takes note that what was to be written is written.
    pub fn written(&mut self)
        requires
            old(self).action() matches Some(FileActionView::Write { .. }),
        ensures
            *final(self) == at_next_stage(*old(self)),
    {
        self.move_on();
    }

    /// Takes the text of the file that was to be read.
    pub fn read(&mut self, content: &str) -> (result: Result<(), FtraceError>)
        requires
            old(self).action() matches Some(FileActionView::Read { .. }),
        ensures
            match result {
                Ok(()) => read_setup(*old(self), content@) == Some(*final(self)),
                Err(err) => {
                    &&& read_setup(*old(self), content@) is None
                    &&& *final(self) == *old(self)
                    &&& read_error(*old(self), content@, err)
                },
            },
    {
        match self.stage {
            SetupStage::ReadSubmitId => match parse_event_id(content) {
                Some(id) => {
                    self.submit_id = id;
                },
                None => {
                    return Err(
                        FtraceError::BadEventId {
                            path: join_path(
                                self.tracing_dir.as_str(),
                                "events/nvme/nvme_pci_submit/id",
                            ),
                        },
                    );
                },
            },
            SetupStage::ReadCompleteId => match parse_event_id(content) {
                Some(id) => {
                    self.complete_id = id;
                },
                None => {
                    return Err(
                        FtraceError::BadEventId {
                            path: join_path(
                                self.tracing_dir.as_str(),
                                "events/nvme/nvme_pci_complete/id",
                            ),
                        },
                    );
                },
            },
            SetupStage::ReadSubmitFormat => match parse_submit_format(content) {
                Ok(fmt) => {
                    self.submit_fmt = fmt;
                },
                Err(err) => {
                    proof {
                        lemma_untold(content@, ftrace_format::submit_fields());
                    }
                    return Err(err);
                },
            },
            _ => match parse_complete_format(content) {
                Ok(fmt) => {
                    self.complete_fmt = fmt;
                },
                Err(err) => {
                    proof {
                        lemma_untold(content@, ftrace_format::complete_fields());
                    }
                    return Err(err);
                },
            },
        }
        self.move_on();
        Ok(())
    }

    /// Ends the setup once it is ready.
    pub fn finish(self) -> (capture: FtraceCapture)
        requires
            self.stage == SetupStage::Ready,
        ensures
            capture == (FtraceCapture {
                tracing_dir: self.tracing_dir,
                submit_id: self.submit_id,
                complete_id: self.complete_id,
                submit_fmt: self.submit_fmt,
                complete_fmt: self.complete_fmt,
            }),
    {
        FtraceCapture {
            tracing_dir: self.tracing_dir,
            submit_id: self.submit_id,
            complete_id: self.complete_id,
            submit_fmt: self.submit_fmt,
            complete_fmt: self.complete_fmt,
        }
    }
}

/// A setup after the processors are listed, if there are any.
pub open spec fn listed_setup(setup: FtraceSetup, names: Seq<String>) -> Option<FtraceSetup> {
    let cpus = ftrace_format::listed_cpus(names).len();
    if cpus > 0 {
        Some(
            at_next_stage(
                FtraceSetup {
                    per_cpu_kb: (setup.buffer_mb as int * 1024 / cpus as int) as u64,
                    ..setup
                },
            ),
        )
    } else {
        None
    }
}

/// The number of an event that a file tells.
pub open spec fn event_id(content: Seq<char>) -> Option<nat> {
    text::number(text::trimmed(content), u16::MAX as nat)
}

/// A setup after the file that was to be read is read, if the file says what it
/// should.
pub open spec fn read_setup(setup: FtraceSetup, content: Seq<char>) -> Option<FtraceSetup> {
    match setup.stage {
        SetupStage::ReadSubmitId => match event_id(content) {
            Some(id) => Some(at_next_stage(FtraceSetup { submit_id: id as u16, ..setup })),
            None => None,
        },
        SetupStage::ReadCompleteId => match event_id(content) {
            Some(id) => Some(at_next_stage(FtraceSetup { complete_id: id as u16, ..setup })),
            None => None,
        },
        SetupStage::ReadSubmitFormat => if ftrace_format::tells_all(
            content,
            ftrace_format::submit_fields(),
        ) {
            Some(
                at_next_stage(
                    FtraceSetup { submit_fmt: ftrace_format::submit_format(content), ..setup },
                ),
            )
        } else {
            None
        },
        _ => if ftrace_format::tells_all(content, ftrace_format::complete_fields()) {
            Some(
                at_next_stage(
                    FtraceSetup {
                        complete_fmt: ftrace_format::complete_format(content),
                        ..setup
                    },
                ),
            )
        } else {
            None
        },
    }
}

/// The error for a file that does not say what it should.
pub open spec fn read_error(setup: FtraceSetup, content: Seq<char>, err: FtraceError) -> bool {
    match setup.stage {
        SetupStage::ReadSubmitId => err matches FtraceError::BadEventId { path } && path@
            == names::below(setup.tracing_dir@, "events/nvme/nvme_pci_submit/id"@),
        SetupStage::ReadCompleteId => err matches FtraceError::BadEventId { path } && path@
            == names::below(setup.tracing_dir@, "events/nvme/nvme_pci_complete/id"@),
        SetupStage::ReadSubmitFormat => err matches FtraceError::MissingField { field, event }
            && event == "nvme_pci_submit" && ftrace_format::first_untold(
            content,
            ftrace_format::submit_fields(),
            field,
        ),
        _ => err matches FtraceError::MissingField { field, event } && event
            == "nvme_pci_complete" && ftrace_format::first_untold(
            content,
            ftrace_format::complete_fields(),
            field,
        ),
    }
}

proof fn lemma_untold(content: Seq<char>, fields: Seq<&'static str>)
    ensures
        forall|field: &'static str|
            #[trigger] ftrace_format::first_untold(content, fields, field)
                ==> !ftrace_format::tells_all(content, fields),
{
}

/// What starts tracing.
pub open spec fn start_actions(dir: Seq<char>) -> Seq<FileActionView> {
    seq![to_write(dir, "tracing_on"@, "1"@)]
}

/// What stops tracing and turns the events off.
pub open spec fn stop_actions(dir: Seq<char>) -> Seq<FileActionView> {
    seq![
        to_write(dir, "tracing_on"@, "0"@),
        to_write(dir, "events/nvme/nvme_pci_submit/enable"@, "0"@),
        to_write(dir, "events/nvme/nvme_pci_complete/enable"@, "0"@),
    ]
}

/// What puts the tracer back as it was.
pub open spec fn cleanup_actions(dir: Seq<char>) -> Seq<FileActionView> {
    seq![
        to_write(dir, "trace_options"@, "overwrite"@),
        to_write(dir, "buffer_size_kb"@, "1408"@),
        to_write(dir, "events/nvme/nvme_pci_submit/filter"@, "0"@),
        to_write(dir, "events/nvme/nvme_pci_complete/filter"@, "0"@),
        to_write(dir, "trace"@, ""@),
    ]
}

/// The pipe that gives the pages of a processor.
pub open spec fn pipe_of(dir: Seq<char>, cpu: u32) -> Seq<char> {
    names::below(dir, "per_cpu/cpu"@ + text::decimal(cpu as nat) + "/trace_pipe_raw"@)
}

/// A capture with the kernel's tracer.
#[derive(Debug, Clone, PartialEq, Eq)]
pub struct FtraceCapture {
    pub tracing_dir: String,
    /// The number of submission events.
    pub submit_id: u16,
    /// The number of completion events.
    pub complete_id: u16,
    pub submit_fmt: SubmitFormat,
    pub complete_fmt: CompleteFormat,
}

impl FtraceCapture {
    /// How the events are recognised and laid out.
    pub open spec fn formats(&self) -> EventFormats {
        EventFormats {
            submit_id: self.submit_id,
            complete_id: self.complete_id,
            submit_fmt: self.submit_fmt,
            complete_fmt: self.complete_fmt,
        }
    }

    /// Begins a setup, of one controller or of all. `buffer_mb` is the size of
    /// all buffers together.
    pub fn setup(tracing_dir: &str, ctrl_id_filter: Option<u32>, buffer_mb: u64) -> (setup:
        FtraceSetup)
        ensures
            setup.stage == SetupStage::ListCpus,
            setup.tracing_dir@ == tracing_dir@,
            setup.ctrl_id_filter == ctrl_id_filter,
            setup.buffer_mb == buffer_mb,
    {
        FtraceSetup {
            stage: SetupStage::ListCpus,
            tracing_dir: tracing_dir.to_owned(),
            ctrl_id_filter,
            buffer_mb,
            per_cpu_kb: 0,
            submit_id: 0,
            complete_id: 0,
            submit_fmt: SubmitFormat {
                ctrl_id: 0,
                qid: 0,
                cid: 0,
                data_len: 0,
                meta_len: 0,
                use_sgl: 0,
                single_segment: 0,
                sqe: 0,
                descriptors_dataloc: 0,
            },
            complete_fmt: CompleteFormat {
                ctrl_id: 0,
                qid: 0,
                cid: 0,
                result: 0,
                sq_head: 0,
                sq_id: 0,
                status: 0,
                retries: 0,
            },
        }
    }

    /// What starts tracing. To be done once all readers are there.
    pub fn start(&self) -> (actions: Vec<FileAction>)
        ensures
            action_views(actions@) == start_actions(self.tracing_dir@),
    {
        let actions = vec![write_action(self.tracing_dir.as_str(), "tracing_on", "1")];
        assert(action_views(actions@) =~= seq![
            to_write(self.tracing_dir@, "tracing_on"@, "1"@),
        ]);
        actions
    }

    /// What stops tracing and turns the events off. To be done before the
    /// readers are told to stop.
    pub fn stop(&self) -> (actions: Vec<FileAction>)
        ensures
            action_views(actions@) == stop_actions(self.tracing_dir@),
    {
        let dir = self.tracing_dir.as_str();
        let actions = vec![
            write_action(dir, "tracing_on", "0"),
            write_action(dir, "events/nvme/nvme_pci_submit/enable", "0"),
            write_action(dir, "events/nvme/nvme_pci_complete/enable", "0"),
        ];
        assert(action_views(actions@) =~= seq![
            to_write(dir@, "tracing_on"@, "0"@),
            to_write(dir@, "events/nvme/nvme_pci_submit/enable"@, "0"@),
            to_write(dir@, "events/nvme/nvme_pci_complete/enable"@, "0"@),
        ]);
        actions
    }

    /// Adds up the lost events that the statistics files of the processors
    /// tell. To be done once the readers have drained the buffers. Gives
    /// nothing where the sum does not fit.
    pub fn check_overruns(&self, contents: &Vec<String>) -> (total: Option<u64>)
        ensures
            match total {
                Some(total) => total == ftrace_format::total_overrun(contents@),
                None => ftrace_format::total_overrun(contents@) > u64::MAX,
            },
    {
        sum_overruns(contents)
    }

    /// What puts the tracer back as it was. None of it matters so much that a
    /// failure should stop the rest.
    pub fn cleanup(&self) -> (actions: Vec<FileAction>)
        ensures
            action_views(actions@) == cleanup_actions(self.tracing_dir@),
    {
        let dir = self.tracing_dir.as_str();
        let actions = vec![
            write_action(dir, "trace_options", "overwrite"),
            write_action(dir, "buffer_size_kb", "1408"),
            write_action(dir, "events/nvme/nvme_pci_submit/filter", "0"),
            write_action(dir, "events/nvme/nvme_pci_complete/filter", "0"),
            write_action(dir, "trace", ""),
        ];
        assert(action_views(actions@) =~= seq![
            to_write(dir@, "trace_options"@, "overwrite"@),
            to_write(dir@, "buffer_size_kb"@, "1408"@),
            to_write(dir@, "events/nvme/nvme_pci_submit/filter"@, "0"@),
            to_write(dir@, "events/nvme/nvme_pci_complete/filter"@, "0"@),
            to_write(dir@, "trace"@, ""@),
        ]);
        actions
    }

    /// The pipe that gives the pages of a processor.
    pub fn pipe_path(&self, cpu: u32) -> (path: String)
        ensures
            path@ == pipe_of(self.tracing_dir@, cpu),
    {
        let mut file = "per_cpu/cpu".to_owned();
        push_decimal(&mut file, cpu as u128);
        file.append("/trace_pipe_raw");
        join_path(self.tracing_dir.as_str(), file.as_str())
    }

    /// The processors in a listing, from the smallest to the largest.
    pub fn online_cpus(&self, names: &Vec<String>) -> (result: Result<Vec<u32>, FtraceError>)
        ensures
            match result {
                Ok(cpus) => cpus@.len() > 0 && ftrace_format::ascending(
                    cpus@,
                    ftrace_format::listed_cpus(names@),
                ),
                Err(err) => {
                    &&& ftrace_format::listed_cpus(names@).len() == 0
                    &&& err matches FtraceError::NoCpus { path }
                    &&& path@ == names::below(self.tracing_dir@, "per_cpu"@)
                },
            },
    {
        discover_cpus(self.tracing_dir.as_str(), names)
    }

    /// Turns the events of a page into records and appends them to `out`.
    /// Returns the number of records made.
    pub fn parse_page(&self, page: &[u8; PAGE_SIZE], out: &mut Vec<u8>) -> (count: usize)
        ensures
            ({
                let records = ftrace_page::event_records(
                    ftrace_page::page_events(page@),
                    self.formats(),
                );
                &&& count == records.len()
                &&& final(out)@ == old(out)@ + trace::joined(records)
            }),
    {
        parse_page_events(
            page,
            self.submit_id,
            self.complete_id,
            &self.submit_fmt,
            &self.complete_fmt,
            out,
        )
    }
}

/// The stage after `n` actions.
pub open spec fn nth_stage(n: nat, filtered: bool) -> SetupStage
    decreases n,
{
    if n == 0 {
        SetupStage::ListCpus
    } else {
        stage_after(nth_stage((n - 1) as nat, filtered), filtered)
    }
}

/// All that is to be done to set tracing up, in its order.
pub open spec fn script(dir: Seq<char>, ctrl_id_filter: Option<u32>, per_cpu_kb: u64) -> Seq<
    FileActionView,
> {
    seq![
        to_list(dir, "per_cpu"@),
        to_write(dir, "current_tracer"@, "nop"@),
        to_write(dir, "events/enable"@, "0"@),
        to_write(dir, "tracing_on"@, "0"@),
        to_write(dir, "buffer_size_kb"@, text::decimal(per_cpu_kb as nat)),
        to_write(dir, "trace_options"@, "nooverwrite"@),
        to_write(dir, "trace"@, ""@),
        to_read(dir, "events/nvme/nvme_pci_submit/id"@),
        to_read(dir, "events/nvme/nvme_pci_complete/id"@),
        to_read(dir, "events/nvme/nvme_pci_submit/format"@),
        to_read(dir, "events/nvme/nvme_pci_complete/format"@),
    ] + (if ctrl_id_filter is Some {
        seq![
            to_write(
                dir,
                "events/nvme/nvme_pci_submit/filter"@,
                filter_text(ctrl_id_filter),
            ),
            to_write(
                dir,
                "events/nvme/nvme_pci_complete/filter"@,
                filter_text(ctrl_id_filter),
            ),
        ]
    } else {
        seq![]
    }) + seq![
        to_write(dir, "events/nvme/nvme_pci_submit/enable"@, "1"@),
        to_write(dir, "events/nvme/nvme_pci_complete/enable"@, "1"@),
    ]
}

/// What came of an action.
pub enum Reply {
    /// The names in the directory.
    Listed { names: Seq<String> },
    /// The file is written.
    Written,
    /// The text of the file.
    Content { content: Seq<char> },
}

/// A setup after what was to be done is done. Nothing, where what came of it
/// does not serve.
pub open spec fn replied(setup: FtraceSetup, reply: Reply) -> Option<FtraceSetup> {
    match (setup.action(), reply) {
        (Some(FileActionView::List { .. }), Reply::Listed { names }) => listed_setup(setup, names),
        (Some(FileActionView::Write { .. }), Reply::Written) => Some(at_next_stage(setup)),
        (Some(FileActionView::Read { .. }), Reply::Content { content }) => read_setup(
            setup,
            content,
        ),
        _ => None,
    }
}

/// A setup after several replies, if all of them serve.
pub open spec fn replied_all(setup: FtraceSetup, replies: Seq<Reply>) -> Option<FtraceSetup>
    decreases replies.len(),
{
    if replies.len() == 0 {
        Some(setup)
    } else {
        match replied_all(setup, replies.drop_last()) {
            Some(before) => replied(before, replies.last()),
            None => None,
        }
    }
}

/// What the files of the tracer say when tracing is set up.
pub struct TracerFiles {
    /// The names below `per_cpu`.
    pub names: Seq<String>,
    pub submit_id: Seq<char>,
    pub complete_id: Seq<char>,
    pub submit_format: Seq<char>,
    pub complete_format: Seq<char>,
}

impl TracerFiles {
    /// The files say all that the setup needs.
    pub open spec fn serve(self) -> bool {
        &&& ftrace_format::listed_cpus(self.names).len() > 0
        &&& event_id(self.submit_id) is Some
        &&& event_id(self.complete_id) is Some
        &&& ftrace_format::tells_all(self.submit_format, ftrace_format::submit_fields())
        &&& ftrace_format::tells_all(self.complete_format, ftrace_format::complete_fields())
    }

    /// What comes of the actions of the script when the files are written and
    /// read as they are.
    pub open spec fn replies(self, filtered: bool) -> Seq<Reply> {
        seq![
            Reply::Listed { names: self.names },
            Reply::Written,
            Reply::Written,
            Reply::Written,
            Reply::Written,
            Reply::Written,
            Reply::Written,
            Reply::Content { content: self.submit_id },
            Reply::Content { content: self.complete_id },
            Reply::Content { content: self.submit_format },
            Reply::Content { content: self.complete_format },
            Reply::Written,
            Reply::Written,
        ] + (if filtered {
            seq![Reply::Written, Reply::Written]
        } else {
            seq![]
        })
    }
}

/// A setup that started from `start` has done `n` actions, and holds what the
/// files said so far.
spec fn has_gathered(
    setup: FtraceSetup,
    start: FtraceSetup,
    files: TracerFiles,
    n: nat,
) -> bool {
    let cpus = ftrace_format::listed_cpus(files.names).len();
    &&& setup.stage == nth_stage(n, start.ctrl_id_filter is Some)
    &&& setup.tracing_dir == start.tracing_dir
    &&& setup.ctrl_id_filter == start.ctrl_id_filter
    &&& setup.buffer_mb == start.buffer_mb
    &&& n >= 1 ==> cpus > 0 && setup.per_cpu_kb == (start.buffer_mb as int * 1024
        / cpus as int) as u64
    &&& n >= 8 ==> event_id(files.submit_id) == Some(setup.submit_id as nat)
    &&& n >= 9 ==> event_id(files.complete_id) == Some(setup.complete_id as nat)
    &&& n >= 10 ==> ftrace_format::tells_all(
        files.submit_format,
        ftrace_format::submit_fields(),
    ) && setup.submit_fmt == ftrace_format::submit_format(files.submit_format)
    &&& n >= 11 ==> ftrace_format::tells_all(
        files.complete_format,
        ftrace_format::complete_fields(),
    ) && setup.complete_fmt == ftrace_format::complete_format(files.complete_format)
}

proof fn lemma_reply_to_stage(files: TracerFiles, filtered: bool, n: nat)
    requires
        n < files.replies(filtered).len(),
    ensures
        ({
            let reply = files.replies(filtered)[n as int];
            match nth_stage(n, filtered) {
                SetupStage::ListCpus => n == 0 && reply == (Reply::Listed { names: files.names }),
                SetupStage::ReadSubmitId => n == 7 && reply == (Reply::Content {
                    content: files.submit_id,
                }),
                SetupStage::ReadCompleteId => n == 8 && reply == (Reply::Content {
                    content: files.complete_id,
                }),
                SetupStage::ReadSubmitFormat => n == 9 && reply == (Reply::Content {
                    content: files.submit_format,
                }),
                SetupStage::ReadCompleteFormat => n == 10 && reply == (Reply::Content {
                    content: files.complete_format,
                }),
                SetupStage::Ready => false,
                _ => (1 <= n <= 6 || n >= 11) && reply == Reply::Written,
            }
        }),
{
    reveal_with_fuel(nth_stage, 16);
}

proof fn lemma_gathers_more(
    setup: FtraceSetup,
    start: FtraceSetup,
    files: TracerFiles,
    n: nat,
)
    requires
        has_gathered(setup, start, files, n),
        n < files.replies(start.ctrl_id_filter is Some).len(),
    ensures
        match replied(setup, files.replies(start.ctrl_id_filter is Some)[n as int]) {
            Some(next) => has_gathered(next, start, files, n + 1),
            None => !files.serve(),
        },
{
    lemma_reply_to_stage(files, start.ctrl_id_filter is Some, n);
}

proof fn lemma_gathers(start: FtraceSetup, files: TracerFiles, n: nat)
    requires
        start.stage == SetupStage::ListCpus,
        n <= files.replies(start.ctrl_id_filter is Some).len(),
    ensures
        match replied_all(start, files.replies(start.ctrl_id_filter is Some).take(n as int)) {
            Some(setup) => has_gathered(setup, start, files, n),
            None => !files.serve(),
        },
    decreases n,
{
    let replies = files.replies(start.ctrl_id_filter is Some);
    if n > 0 {
        let m = (n - 1) as nat;
        lemma_gathers(start, files, m);
        assert(replies.take(n as int).drop_last() =~= replies.take(m as int));
        assert(replies.take(n as int).last() == replies[m as int]);
        if let Some(before) = replied_all(start, replies.take(m as int)) {
            lemma_gathers_more(before, start, files, m);
        }
    }
}

/// The setup asks for exactly the actions of the script, in their order, and is
/// ready after the last of them.
pub proof fn setup_follows_the_script(
    dir: Seq<char>,
    ctrl_id_filter: Option<u32>,
    per_cpu_kb: u64,
    n: nat,
)
    ensures
        ({
            let all = script(dir, ctrl_id_filter, per_cpu_kb);
            let stage = nth_stage(n, ctrl_id_filter is Some);
            &&& n < all.len() ==> stage_action(stage, dir, ctrl_id_filter, per_cpu_kb) == Some(
                all[n as int],
            )
            &&& n >= all.len() <==> stage == SetupStage::Ready
        }),
    decreases n,
{
    reveal_with_fuel(nth_stage, 16);
    if n > 15 {
        setup_follows_the_script(dir, ctrl_id_filter, per_cpu_kb, (n - 1) as nat);
    }
}

/// A setup that is told what the files of the tracer say becomes ready exactly
/// where they say all that it needs. It then holds what they say, and has split
/// the buffers evenly among the processors.
pub proof fn setup_gathers_what_the_files_say(start: FtraceSetup, files: TracerFiles)
    requires
        start.stage == SetupStage::ListCpus,
        start.buffer_mb * 1024 <= u64::MAX,
    ensures
        match replied_all(start, files.replies(start.ctrl_id_filter is Some)) {
            Some(setup) => {
                &&& files.serve()
                &&& setup.stage == SetupStage::Ready
                &&& setup.tracing_dir == start.tracing_dir
                &&& setup.per_cpu_kb == start.buffer_mb as int * 1024
                    / ftrace_format::listed_cpus(files.names).len() as int
                &&& event_id(files.submit_id) == Some(setup.submit_id as nat)
                &&& event_id(files.complete_id) == Some(setup.complete_id as nat)
                &&& setup.submit_fmt == ftrace_format::submit_format(files.submit_format)
                &&& setup.complete_fmt == ftrace_format::complete_format(files.complete_format)
            },
            None => !files.serve(),
        },
{
    let filtered = start.ctrl_id_filter is Some;
    let replies = files.replies(filtered);
    lemma_gathers(start, files, replies.len());
    assert(replies.take(replies.len() as int) =~= replies);
    setup_follows_the_script(
        start.tracing_dir@,
        start.ctrl_id_filter,
        start.per_cpu_kb,
        replies.len(),
    );
}

} // verus!
