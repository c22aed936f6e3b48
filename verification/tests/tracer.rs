//! Capturing with the kernel's tracer.

use nvme_trace::ftrace::{FileAction, FtraceCapture, FtraceSetup, SetupStage};
use nvme_trace::ftrace_event::{encode_complete, encode_submit, CompleteFormat, SubmitFormat};
use nvme_trace::ftrace_format::{
    discover_cpus, format_field_offset, parse_complete_format, parse_event_id,
    parse_submit_format, require_offset, sum_overruns, FtraceError,
};
use nvme_trace::ftrace_page::{parse_page_events, PAGE_SIZE};
use nvme_trace::record::{parse_record_bytes, SglDesc, SubmitTail, TraceRecord};
use nvme_trace::stream::{ByteCursor, RecordReader};
use nvme_trace::trace::read_records;

const SUBMIT_FORMAT: &str = "name: nvme_pci_submit
ID: 1234
format:
\tfield:unsigned short common_type;\toffset:0;\tsize:2;\tsigned:0;
\tfield:unsigned char common_flags;\toffset:2;\tsize:1;\tsigned:0;

\tfield:int ctrl_id;\toffset:8;\tsize:4;\tsigned:1;
\tfield:int qid;\toffset:12;\tsize:4;\tsigned:1;
\tfield:u16 cid;\toffset:16;\tsize:2;\tsigned:0;
\tfield:u32 data_len;\toffset:20;\tsize:4;\tsigned:0;
\tfield:u32 meta_len;\toffset:24;\tsize:4;\tsigned:0;
\tfield:u8 use_sgl;\toffset:28;\tsize:1;\tsigned:0;
\tfield:u8 single_segment;\toffset:29;\tsize:1;\tsigned:0;
\tfield:u8 sqe[64];\toffset:30;\tsize:64;\tsigned:0;
\tfield:__data_loc u8[] descriptors;\toffset:96;\tsize:4;\tsigned:0;

print fmt: \"nvme%d\", REC->ctrl_id
";

const COMPLETE_FORMAT: &str = "
    field:int ctrl_id; offset:8; size:4; signed:1;
    field:int qid; offset:12; size:4; signed:1;
    field:u16 cid; offset:16; size:2; signed:0;
    field:u64 result; offset:24; size:8; signed:0;
    field:u16 sq_head; offset:32; size:2; signed:0;
    field:u16 sq_id; offset:34; size:2; signed:0;
    field:u16 status; offset:36; size:2; signed:0;
    field:u8 retries; offset:38; size:1; signed:0;
";

const SUBMIT_ID: u16 = 1234;
const COMPLETE_ID: u16 = 1235;

fn submit_fmt() -> SubmitFormat {
    parse_submit_format(SUBMIT_FORMAT).unwrap()
}

fn complete_fmt() -> CompleteFormat {
    parse_complete_format(COMPLETE_FORMAT).unwrap()
}

fn submit_event(use_sgl: u8, descriptors: &[u8]) -> Vec<u8> {
    let mut data = vec![0_u8; 100];
    data[0..2].copy_from_slice(&SUBMIT_ID.to_le_bytes());
    data[8..12].copy_from_slice(&0x0103_i32.to_le_bytes());
    data[12..16].copy_from_slice(&7_i32.to_le_bytes());
    data[16..18].copy_from_slice(&0xabcd_u16.to_le_bytes());
    data[20..24].copy_from_slice(&4096_u32.to_le_bytes());
    data[24..28].copy_from_slice(&8_u32.to_le_bytes());
    data[28] = use_sgl;
    data[29] = 2;
    for i in 0..64 {
        data[30 + i] = i as u8;
    }
    let dataloc = ((descriptors.len() as u32) << 16) | 100;
    data[96..100].copy_from_slice(&dataloc.to_le_bytes());
    data.extend_from_slice(descriptors);
    data
}

fn complete_event() -> Vec<u8> {
    let mut data = vec![0_u8; 40];
    data[0..2].copy_from_slice(&COMPLETE_ID.to_le_bytes());
    data[8..12].copy_from_slice(&3_i32.to_le_bytes());
    data[12..16].copy_from_slice(&7_i32.to_le_bytes());
    data[16..18].copy_from_slice(&0xabcd_u16.to_le_bytes());
    data[24..32].copy_from_slice(&0x1122_3344_5566_7788_u64.to_le_bytes());
    data[32..34].copy_from_slice(&5_u16.to_le_bytes());
    data[34..36].copy_from_slice(&6_u16.to_le_bytes());
    data[36..38].copy_from_slice(&7_u16.to_le_bytes());
    data[38] = 8;
    data
}

#[test]
fn offsets_are_found_in_format_files() {
    assert_eq!(format_field_offset(SUBMIT_FORMAT, "ctrl_id"), Some(8));
    assert_eq!(format_field_offset(SUBMIT_FORMAT, "sqe"), Some(30));
    assert_eq!(format_field_offset(SUBMIT_FORMAT, "descriptors"), Some(96));
    assert_eq!(format_field_offset(SUBMIT_FORMAT, "common_type"), Some(0));
    assert_eq!(format_field_offset(SUBMIT_FORMAT, "sqe[64]"), None);
    assert_eq!(format_field_offset(SUBMIT_FORMAT, "result"), None);
    assert_eq!(format_field_offset("", "ctrl_id"), None);
    let documented = "\n    field:int ctrl_id; offset:8; size:4; signed:1;\n    \
                      field:__data_loc u8[] descriptors; offset:98; size:4; signed:0;\n";
    assert_eq!(format_field_offset(documented, "ctrl_id"), Some(8));
    assert_eq!(format_field_offset(documented, "descriptors"), Some(98));
}

#[test]
fn odd_format_files_are_read_as_far_as_they_go() {
    let offset = |content: &str| format_field_offset(content, "a");
    assert_eq!(offset("field:int a; offset: 5 ;"), Some(5));
    assert_eq!(offset("field:int a; offset:+5"), Some(5));
    assert_eq!(offset("field:int a; offset:x;"), None);
    assert_eq!(offset("field:int a; offset:x;\nfield:int a; offset:3;"), None);
    assert_eq!(offset("field:int a; size:4;\nfield:int a; offset:3;"), Some(3));
    assert_eq!(offset("field:int a; size:4; offset:1; offset:2;"), Some(1));
    assert_eq!(offset("field:;\nfield:int a; offset:3;"), None);
    assert_eq!(offset("field:int a"), None);
    assert_eq!(offset("xfield:int a; offset:3;"), None);
    assert_eq!(offset("field:int a[ 4]; offset:3;"), None);
    assert_eq!(offset("field:offset:9 a; offset:3;"), Some(3));
    assert_eq!(offset("field:int a; offset:99999999999999999999;"), None);
}

#[test]
fn layouts_need_every_field() {
    assert_eq!(
        submit_fmt(),
        SubmitFormat {
            ctrl_id: 8,
            qid: 12,
            cid: 16,
            data_len: 20,
            meta_len: 24,
            use_sgl: 28,
            single_segment: 29,
            sqe: 30,
            descriptors_dataloc: 96,
        }
    );
    assert_eq!(
        complete_fmt(),
        CompleteFormat {
            ctrl_id: 8,
            qid: 12,
            cid: 16,
            result: 24,
            sq_head: 32,
            sq_id: 34,
            status: 36,
            retries: 38,
        }
    );
    for field in [
        "ctrl_id", "qid", "cid", "data_len", "meta_len", "use_sgl", "single_segment", "sqe",
        "descriptors",
    ] {
        let content: String = SUBMIT_FORMAT
            .lines()
            .filter(|line| !line.contains(&format!(" {field};")))
            .filter(|line| !line.contains(&format!(" {field}[")))
            .map(|line| format!("{line}\n"))
            .collect();
        assert_eq!(
            parse_submit_format(&content),
            Err(FtraceError::MissingField { field, event: "nvme_pci_submit" })
        );
    }
    for field in ["ctrl_id", "qid", "cid", "result", "sq_head", "sq_id", "status", "retries"] {
        let content: String = COMPLETE_FORMAT
            .lines()
            .filter(|line| !line.contains(&format!(" {field};")))
            .map(|line| format!("{line}\n"))
            .collect();
        assert_eq!(
            parse_complete_format(&content),
            Err(FtraceError::MissingField { field, event: "nvme_pci_complete" })
        );
    }
    assert_eq!(
        require_offset("", "qid", "e").unwrap_err().message(),
        "field 'qid' not found in format for 'e'"
    );
}

#[test]
fn event_numbers_are_trimmed_and_bounded() {
    assert_eq!(parse_event_id("1234\n"), Some(1234));
    assert_eq!(parse_event_id(" 65535 "), Some(65535));
    assert_eq!(parse_event_id("65536"), None);
    assert_eq!(parse_event_id(""), None);
    assert_eq!(parse_event_id("x"), None);
}

fn strings(names: &[&str]) -> Vec<String> {
    names.iter().map(|name| name.to_string()).collect()
}

#[test]
fn processors_are_sorted_by_number() {
    assert_eq!(
        discover_cpus("t", &strings(&["cpu10", "cpu2", "x", "cpu", "cpux", "cpu0", "acpu1"])),
        Ok(vec![0, 2, 10])
    );
    let err = discover_cpus("t", &strings(&["x"])).unwrap_err();
    assert_eq!(err, FtraceError::NoCpus { path: "t/per_cpu".to_string() });
    assert_eq!(err.message(), "no per_cpu/cpuN directories under t/per_cpu");
}

#[test]
fn lost_events_are_added_up() {
    let stats = strings(&[
        "entries: 3\noverrun: 12\ncommit overrun: 5\n",
        "overrun:\t30\noverrun: x\n overrun: 7\noverrun: 100",
        "",
    ]);
    assert_eq!(sum_overruns(&stats), Some(142));
    assert_eq!(capture().check_overruns(&stats), Some(142));
    assert_eq!(sum_overruns(&Vec::new()), Some(0));
    assert_eq!(
        sum_overruns(&strings(&["overrun: 18446744073709551615", "overrun: 1"])),
        None
    );
    assert_eq!(
        sum_overruns(&strings(&["overrun: 18446744073709551616", "overrun: 1"])),
        Some(1)
    );
}

#[test]
fn a_submission_event_makes_a_record() {
    let mut descriptors = Vec::new();
    descriptors.extend_from_slice(&0x1000_u64.to_le_bytes());
    descriptors.extend_from_slice(&0x2000_u64.to_le_bytes());
    let bytes = encode_submit(&submit_event(0, &descriptors), 99, &submit_fmt()).unwrap();
    assert_eq!(bytes.len(), 116);
    let raw = parse_record_bytes(bytes, 0).unwrap();
    let TraceRecord::Submit(submit) = raw.record else {
        panic!("expected a submission")
    };
    assert_eq!(submit.header.timestamp_ns, 99);
    assert_eq!(submit.header.seq, 0);
    assert_eq!(submit.header.ctrl_id, 3);
    assert_eq!(submit.header.qid, 7);
    assert_eq!(submit.header.cid, 0xabcd);
    assert_eq!(submit.data_len, 4096);
    assert_eq!(submit.meta_len, 8);
    assert!(!submit.use_sgl);
    assert!(submit.single_segment);
    assert_eq!(submit.sqe[63], 63);
    assert_eq!(submit.tail, SubmitTail::Prp(vec![0x1000, 0x2000]));
}

#[test]
fn descriptors_may_be_segments_or_missing() {
    let mut descriptors = vec![0_u8; 16];
    descriptors[0] = 1;
    descriptors[8] = 2;
    descriptors[12..15].copy_from_slice(&[3, 4, 5]);
    descriptors[15] = 6;
    let bytes = encode_submit(&submit_event(9, &descriptors), 0, &submit_fmt()).unwrap();
    let raw = parse_record_bytes(bytes, 0).unwrap();
    let TraceRecord::Submit(submit) = raw.record else {
        panic!("expected a submission")
    };
    assert_eq!(
        submit.tail,
        SubmitTail::Sgl(vec![SglDesc {
            addr: 1,
            length: 2,
            reserved: [3, 4, 5],
            desc_type: 6,
        }])
    );

    let mut cut = submit_event(0, &descriptors);
    cut.truncate(110);
    let bytes = encode_submit(&cut, 0, &submit_fmt()).unwrap();
    assert_eq!(bytes.len(), 100);
    assert!(parse_record_bytes(bytes, 0).is_ok());

    let odd = encode_submit(&submit_event(0, &descriptors[..4]), 0, &submit_fmt()).unwrap();
    assert_eq!(odd.len(), 104);
    assert!(parse_record_bytes(odd, 0).is_err());
}

#[test]
fn events_too_short_make_no_record() {
    let data = submit_event(0, &[]);
    assert!(encode_submit(&data[..100], 0, &submit_fmt()).is_some());
    assert!(encode_submit(&data[..99], 0, &submit_fmt()).is_none());
    let mut far = submit_fmt();
    far.qid = usize::MAX;
    assert!(encode_submit(&data, 0, &far).is_none());
    let data = complete_event();
    assert!(encode_complete(&data[..39], 0, &complete_fmt()).is_some());
    assert!(encode_complete(&data[..38], 0, &complete_fmt()).is_none());
    let mut far = complete_fmt();
    far.result = 33;
    assert!(encode_complete(&data, 0, &far).is_none());
}

/// A page under construction.
struct Page {
    bytes: [u8; PAGE_SIZE],
    at: usize,
}

impl Page {
    fn new(ts: u64) -> Self {
        let mut bytes = [0_u8; PAGE_SIZE];
        bytes[0..8].copy_from_slice(&ts.to_le_bytes());
        bytes[12..16].copy_from_slice(&[0xff; 4]);
        Page { bytes, at: 16 }
    }

    fn put(&mut self, data: &[u8]) {
        self.bytes[self.at..self.at + data.len()].copy_from_slice(data);
        self.at += data.len();
    }

    fn word(&mut self, kind: u32, delta: u32) {
        self.put(&(delta << 5 | kind).to_le_bytes());
    }

    fn commit(mut self) -> [u8; PAGE_SIZE] {
        let commit = (self.at - 16) as u32;
        self.bytes[8..12].copy_from_slice(&commit.to_le_bytes());
        self.bytes
    }
}

fn timestamps(page: &[u8; PAGE_SIZE]) -> Vec<u64> {
    let mut out = Vec::new();
    let count = parse_page_events(
        page,
        SUBMIT_ID,
        COMPLETE_ID,
        &submit_fmt(),
        &complete_fmt(),
        &mut out,
    );
    let records = read_records(&mut RecordReader::new(ByteCursor::new(out))).unwrap();
    assert_eq!(records.len(), count);
    records.iter().map(|record| record.header().timestamp_ns).collect()
}

#[test]
fn pages_are_walked_event_by_event() {
    let mut page = Page::new(1_000);
    page.word(10, 5);
    page.put(&complete_event());
    page.word(29, 7);
    page.put(&2_u32.to_le_bytes());
    let event = submit_event(0, &[0; 8]);
    page.word(0, 11);
    page.put(&(event.len() as u32).to_le_bytes());
    page.put(&event);
    page.word(1, 1);
    page.put(&[9, 9, 9, 9]);
    page.word(30, 77);
    page.put(&500_u64.to_le_bytes());
    page.word(10, 1);
    page.put(&complete_event());
    page.word(31, 0);
    page.word(10, 1);
    page.put(&complete_event());
    let extended = 1_005 + (2 << 27) + 7;
    assert_eq!(timestamps(&page.commit()), vec![1_005, extended + 11, 501]);
}

#[test]
fn times_wrap_around() {
    let mut page = Page::new(u64::MAX);
    page.word(10, 2);
    page.put(&complete_event());
    assert_eq!(timestamps(&page.commit()), vec![1]);
}

#[test]
fn what_a_page_cuts_short_is_left_out() {
    let mut page = Page::new(0);
    page.word(10, 1);
    page.put(&complete_event());
    page.word(11, 1);
    page.put(&complete_event());
    assert_eq!(timestamps(&page.commit()), vec![1]);

    for kind in [0, 29, 30] {
        let mut page = Page::new(0);
        page.word(kind, 1);
        page.put(&[1, 0]);
        assert!(timestamps(&page.commit()).is_empty());
    }

    let mut page = Page::new(0);
    page.word(0, 1);
    page.put(&0_u32.to_le_bytes());
    page.word(10, 1);
    page.put(&complete_event());
    assert!(timestamps(&page.commit()).is_empty());

    let mut page = Page::new(0);
    page.word(10, 1);
    page.put(&complete_event());
    let mut bytes = page.commit();
    bytes[8..12].copy_from_slice(&4081_u32.to_le_bytes());
    assert!(timestamps(&bytes).is_empty());
    bytes[8..12].copy_from_slice(&4080_u32.to_le_bytes());
    assert_eq!(timestamps(&bytes), vec![1]);
    bytes[8..12].copy_from_slice(&0_u32.to_le_bytes());
    assert!(timestamps(&bytes).is_empty());
}

#[test]
fn short_events_and_other_events_are_passed_over() {
    let mut page = Page::new(0);
    page.word(0, 1);
    page.put(&1_u32.to_le_bytes());
    page.put(&[0xd3]);
    page.word(9, 1);
    page.put(&complete_event()[..36]);
    page.word(10, 1);
    page.put(&complete_event());
    assert_eq!(timestamps(&page.commit()), vec![3]);
}

fn capture() -> FtraceCapture {
    FtraceCapture {
        tracing_dir: "/t".to_string(),
        submit_id: SUBMIT_ID,
        complete_id: COMPLETE_ID,
        submit_fmt: submit_fmt(),
        complete_fmt: complete_fmt(),
    }
}

fn write(path: &str, value: &str) -> FileAction {
    FileAction::Write { path: path.to_string(), value: value.to_string() }
}

fn read(path: &str) -> FileAction {
    FileAction::Read { path: path.to_string() }
}

fn run_setup(setup: &mut FtraceSetup) -> Vec<FileAction> {
    let mut actions = Vec::new();
    while let Some(action) = setup.next_action() {
        match &action {
            FileAction::List { .. } => {
                setup.listed(&strings(&["cpu1", "cpu0", "cpu2", "x"])).unwrap()
            }
            FileAction::Write { .. } => setup.written(),
            FileAction::Read { path } => {
                let content = match path.as_str() {
                    "/t/events/nvme/nvme_pci_submit/id" => "1234\n",
                    "/t/events/nvme/nvme_pci_complete/id" => "1235\n",
                    "/t/events/nvme/nvme_pci_submit/format" => SUBMIT_FORMAT,
                    _ => COMPLETE_FORMAT,
                };
                setup.read(content).unwrap();
            }
        }
        actions.push(action);
    }
    actions
}

#[test]
fn setting_up_follows_its_script() {
    let mut setup = FtraceCapture::setup("/t", Some(3), 512);
    let actions = run_setup(&mut setup);
    let mut expected = vec![
        FileAction::List { path: "/t/per_cpu".to_string() },
        write("/t/current_tracer", "nop"),
        write("/t/events/enable", "0"),
        write("/t/tracing_on", "0"),
        write("/t/buffer_size_kb", "174762"),
        write("/t/trace_options", "nooverwrite"),
        write("/t/trace", ""),
        read("/t/events/nvme/nvme_pci_submit/id"),
        read("/t/events/nvme/nvme_pci_complete/id"),
        read("/t/events/nvme/nvme_pci_submit/format"),
        read("/t/events/nvme/nvme_pci_complete/format"),
        write("/t/events/nvme/nvme_pci_submit/filter", "ctrl_id==3"),
        write("/t/events/nvme/nvme_pci_complete/filter", "ctrl_id==3"),
        write("/t/events/nvme/nvme_pci_submit/enable", "1"),
        write("/t/events/nvme/nvme_pci_complete/enable", "1"),
    ];
    assert_eq!(actions, expected);
    assert_eq!(setup.stage, SetupStage::Ready);
    assert_eq!(setup.finish(), capture());

    let mut setup = FtraceCapture::setup("/t", None, 512);
    let actions = run_setup(&mut setup);
    expected.drain(11..13);
    assert_eq!(actions, expected);
    assert_eq!(setup.finish(), capture());
}

#[test]
fn setting_up_fails_where_files_do_not_serve() {
    let mut setup = FtraceCapture::setup("/t", None, 1);
    let before = setup.clone();
    assert_eq!(
        setup.listed(&strings(&["x"])),
        Err(FtraceError::NoCpus { path: "/t/per_cpu".to_string() })
    );
    assert_eq!(setup, before);

    for (stage, message) in [
        (
            SetupStage::ReadSubmitId,
            "parsing event ID from /t/events/nvme/nvme_pci_submit/id",
        ),
        (
            SetupStage::ReadCompleteId,
            "parsing event ID from /t/events/nvme/nvme_pci_complete/id",
        ),
        (
            SetupStage::ReadSubmitFormat,
            "field 'ctrl_id' not found in format for 'nvme_pci_submit'",
        ),
        (
            SetupStage::ReadCompleteFormat,
            "field 'ctrl_id' not found in format for 'nvme_pci_complete'",
        ),
    ] {
        setup.stage = stage;
        let before = setup.clone();
        assert_eq!(setup.read("nothing").unwrap_err().message(), message);
        assert_eq!(setup, before);
    }
}

#[test]
fn a_capture_tells_its_files() {
    let capture = capture();
    assert_eq!(capture.start(), vec![write("/t/tracing_on", "1")]);
    assert_eq!(
        capture.stop(),
        vec![
            write("/t/tracing_on", "0"),
            write("/t/events/nvme/nvme_pci_submit/enable", "0"),
            write("/t/events/nvme/nvme_pci_complete/enable", "0"),
        ]
    );
    assert_eq!(
        capture.cleanup(),
        vec![
            write("/t/trace_options", "overwrite"),
            write("/t/buffer_size_kb", "1408"),
            write("/t/events/nvme/nvme_pci_submit/filter", "0"),
            write("/t/events/nvme/nvme_pci_complete/filter", "0"),
            write("/t/trace", ""),
        ]
    );
    assert_eq!(capture.pipe_path(12), "/t/per_cpu/cpu12/trace_pipe_raw");
    assert_eq!(capture.online_cpus(&strings(&["cpu1", "cpu0"])), Ok(vec![0, 1]));
    let mut page = Page::new(0);
    page.word(10, 1);
    page.put(&complete_event());
    let mut out = vec![1, 2];
    assert_eq!(capture.parse_page(&page.commit(), &mut out), 1);
    assert_eq!(out.len(), 42);
    assert_eq!(out[..2], [1, 2]);
}
