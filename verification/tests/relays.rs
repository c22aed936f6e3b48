//! Relay readers, captures, and the search for duplicates.

use nvme_trace::relay::{
    read_warning, PollOutcome, ReadOutcome, ReaderEvent, ReaderFailure, ReaderStage, RelayReader,
};
use nvme_trace::repro::{
    format_start, hexdump, log_chunk, Line, ReproState, RECORD_SIZE, REPORT_EVERY, REPRO_MAGIC,
};
use nvme_trace::session::{
    conclude, default_trace_dir, enable_text, next_stage, CaptureStage, CaptureStats,
};

fn run(reader: &mut RelayReader, events: &[ReaderEvent]) {
    for event in events {
        reader.step(*event);
    }
}

const GO: ReaderEvent = ReaderEvent::StopChecked { stop: false };
const STOP: ReaderEvent = ReaderEvent::StopChecked { stop: true };
const READABLE: ReaderEvent = ReaderEvent::Polled { poll: PollOutcome::Ready { readable: true } };

fn data(len: usize) -> ReaderEvent {
    ReaderEvent::Read { read: ReadOutcome::Data { len } }
}

#[test]
fn a_reader_counts_what_it_writes_until_it_is_told_to_stop() {
    let mut reader = RelayReader::new(true);
    run(
        &mut reader,
        &[
            GO,
            ReaderEvent::Polled { poll: PollOutcome::TimedOut },
            GO,
            ReaderEvent::Polled { poll: PollOutcome::Ready { readable: false } },
            GO,
            ReaderEvent::Polled { poll: PollOutcome::Interrupted },
            GO,
            READABLE,
            data(0),
            GO,
            READABLE,
            data(100),
            ReaderEvent::Written { ok: true },
            GO,
            READABLE,
            ReaderEvent::Read { read: ReadOutcome::WouldBlock },
            GO,
            READABLE,
            ReaderEvent::Read { read: ReadOutcome::Interrupted },
            GO,
            READABLE,
            data(28),
        ],
    );
    assert_eq!(reader.stage, ReaderStage::Write { len: 28 });
    assert_eq!(reader.bytes, 100);
    run(&mut reader, &[ReaderEvent::Written { ok: true }, STOP]);
    assert_eq!(reader.stage, ReaderStage::Flush);
    reader.step(ReaderEvent::Flushed { ok: true });
    assert_eq!(reader.stage, ReaderStage::Finished);
    assert_eq!(reader.bytes, 128);
}

#[test]
fn a_reader_fails_where_its_file_does() {
    let failed = |polls: bool, events: &[ReaderEvent]| {
        let mut reader = RelayReader::new(polls);
        run(&mut reader, events);
        reader.stage
    };
    assert_eq!(
        failed(true, &[GO, ReaderEvent::Polled { poll: PollOutcome::Failed }]),
        ReaderStage::Failed { at: ReaderFailure::Polling }
    );
    assert_eq!(
        failed(false, &[GO, ReaderEvent::Read { read: ReadOutcome::Failed }]),
        ReaderStage::Failed { at: ReaderFailure::Reading }
    );
    assert_eq!(
        failed(false, &[GO, data(1), ReaderEvent::Written { ok: false }]),
        ReaderStage::Failed { at: ReaderFailure::Writing }
    );
    assert_eq!(
        failed(false, &[STOP, ReaderEvent::Flushed { ok: false }]),
        ReaderStage::Failed { at: ReaderFailure::Flushing }
    );
    assert_eq!(failed(true, &[GO]), ReaderStage::Poll);
    assert_eq!(failed(false, &[GO]), ReaderStage::Read);
}

#[test]
fn unexpected_reads_are_warned_of() {
    assert_eq!(
        read_warning(ReadOutcome::WouldBlock),
        Some("warning: read returned WouldBlock unexpectedly")
    );
    assert_eq!(read_warning(ReadOutcome::Interrupted), Some("warning: read interrupted"));
    assert_eq!(read_warning(ReadOutcome::Data { len: 1 }), None);
    assert_eq!(read_warning(ReadOutcome::Failed), None);
}

#[test]
fn a_capture_goes_through_its_stages() {
    let stages = |outcomes: &[bool]| {
        let mut stage = CaptureStage::Discover;
        let mut all = vec![stage];
        for ok in outcomes {
            stage = next_stage(stage, *ok);
            all.push(stage);
        }
        all
    };
    let full = vec![
        CaptureStage::Discover,
        CaptureStage::CreateOutput,
        CaptureStage::WatchSignals,
        CaptureStage::SpawnReaders,
        CaptureStage::Enable,
        CaptureStage::Wait,
        CaptureStage::Disable,
        CaptureStage::Drain,
        CaptureStage::StopReaders,
        CaptureStage::Join,
        CaptureStage::Conclude,
    ];
    assert_eq!(stages(&[true; 10]), full);
    assert_eq!(
        stages(&[true, true, true, true, true, true, false, true, true, true]),
        full
    );
    for failing in [0, 1, 2, 4] {
        let mut outcomes = vec![true; failing];
        outcomes.push(false);
        assert_eq!(stages(&outcomes).last(), Some(&CaptureStage::Aborted));
    }
}

#[test]
fn the_relay_directory_is_that_of_the_controller() {
    for controller in ["nvme0", "nvme12", "a/b", "/abs", ""] {
        assert_eq!(
            default_trace_dir(controller),
            std::path::Path::new("/sys/kernel/debug/nvme_trace")
                .join(controller)
                .display()
                .to_string()
        );
    }
    assert_eq!(enable_text(true), "1\n");
    assert_eq!(enable_text(false), "0\n");
}

fn stats(cpu: u32, path: &str, bytes: u64) -> CaptureStats {
    CaptureStats { cpu, path: path.to_string(), bytes }
}

#[test]
fn captures_are_reported_by_processor() {
    let readers = vec![
        Ok(stats(10, "a", 1)),
        Ok(stats(2, "b", 2)),
        Ok(stats(10, "c", 3)),
        Ok(stats(0, "d", 4)),
    ];
    let mut expected: Vec<CaptureStats> =
        readers.iter().map(|reader: &Result<CaptureStats, String>| reader.clone().unwrap()).collect();
    expected.sort_by_key(|stat| stat.cpu);
    let reported = conclude(Ok(()), readers).unwrap();
    assert_eq!(reported, expected);
    assert_eq!(reported[1].line(), "cpu2: wrote 2 bytes to b");
}

#[test]
fn the_first_failure_ends_a_capture() {
    let readers = || {
        vec![
            Ok(stats(1, "a", 1)),
            Err("second".to_string()),
            Err("third".to_string()),
        ]
    };
    assert_eq!(conclude(Ok(()), readers()), Err("second".to_string()));
    assert_eq!(
        conclude(Err("disabling".to_string()), readers()),
        Err("disabling".to_string())
    );
    assert_eq!(
        conclude(Err("disabling".to_string()), Vec::new()),
        Err("disabling".to_string())
    );
}

fn record(seq: u32, fill: u64) -> Vec<u8> {
    let mut bytes = Vec::new();
    bytes.extend_from_slice(&REPRO_MAGIC.to_le_bytes());
    bytes.extend_from_slice(&seq.to_le_bytes());
    bytes.extend_from_slice(&12345_u64.to_le_bytes());
    bytes.extend_from_slice(&fill.to_le_bytes());
    assert_eq!(bytes.len(), RECORD_SIZE);
    bytes
}

fn records(seqs: &[u32], fill: u64) -> Vec<u8> {
    seqs.iter().flat_map(|seq| record(*seq, fill)).collect()
}

fn told(lines: &[Line]) -> Vec<&str> {
    lines.iter().filter(|line| !line.complaint).map(|line| line.text.as_str()).collect()
}

#[test]
fn stale_records_behind_fresh_ones_are_duplicates() {
    let mut state = ReproState::new();
    let chunk = records(&[800, 801, 802, 400, 401, 402], 1);
    let lines = state.read_chunk(&chunk);
    assert_eq!(
        told(&lines),
        vec![
            "DUP  off=72              seq=400         prev=802\n",
            "DUP  off=96              seq=401         prev=802\n",
            "DUP  off=120             seq=402         prev=802\n",
        ]
    );
    assert_eq!(lines.len(), 6);
    assert_eq!(lines[1], Line { complaint: true, text: hexdump(&chunk) });
    assert_eq!(state.dups, 3);
    assert_eq!(state.total, 6);
    assert!(state.read_chunk(&records(&[803, 804], 1)).is_empty());
    assert_eq!(state.exit_code(), 1);
    assert_eq!(state.format_total(), "\nTotal: 8 records  3 duplicates\n");
}

#[test]
fn fresh_and_toggled_records_are_no_duplicates() {
    let mut state = ReproState::new();
    assert!(state.read_chunk(&records(&[1, 2, 9], 1)).is_empty());
    assert!(state.read_chunk(&records(&[0, 1], 2)).is_empty());
    assert_eq!(state.last_seq, Some(1));
    assert_eq!(told(&state.read_chunk(&records(&[1], 2))).len(), 1);
    assert_eq!(state.total, 6);
    assert_eq!(state.dups, 1);
    assert_eq!(ReproState::new().exit_code(), 0);
}

#[test]
fn odd_bytes_are_complained_of_and_passed_over() {
    let mut chunk = vec![0x11, 0x22];
    chunk.extend_from_slice(&record(5, 1));
    let mut state = ReproState::new();
    let lines = state.read_chunk(&chunk);
    let texts: Vec<&str> = lines.iter().map(|line| line.text.as_str()).collect();
    let dump = hexdump(&chunk);
    assert_eq!(
        texts,
        vec![
            "warning: read 26 bytes — not a multiple of 24 (record_size)\n",
            dump.as_str(),
            "bad magic 0xbeef2211 at offset 0\n",
            dump.as_str(),
            "bad magic 0xadbeef22 at offset 1\n",
            dump.as_str(),
        ]
    );
    assert!(lines.iter().all(|line| line.complaint));
    assert_eq!(state.total, 1);
    assert_eq!(state.last_seq, Some(5));
}

#[test]
fn progress_is_reported_after_so_many_records() {
    let mut state = ReproState::new();
    state.total = REPORT_EVERY - 2;
    assert!(state.read_chunk(&records(&[1], 1)).is_empty());
    assert_eq!(
        told(&state.read_chunk(&records(&[2], 1))),
        vec!["  1000000 records  0 dups\n"]
    );
    assert_eq!(state.last_report, REPORT_EVERY);
    assert!(state.read_chunk(&records(&[3], 1)).is_empty());
}

#[test]
fn dumps_show_bytes_in_rows() {
    let bytes: Vec<u8> = (0x5b..0x6d).chain([0x20, 0x7e, 0x7f, 0xff]).collect();
    assert_eq!(
        hexdump(&bytes),
        "0000: 5b 5c 5d 5e 5f 60 61 62 63 64 65 66 67 68 69 6a  |[\\]^_`abcdefghij|\n\
         0010: 6b 6c 20 7e 7f ff                                |kl ~..|\n"
    );
    assert_eq!(hexdump(&[]), "");
    assert_eq!(hexdump(&[0; 16]).lines().count(), 1);
    assert!(hexdump(&vec![0; 65553]).contains("\n10000: "));
    for byte in 0..=255_u8 {
        let shown = if byte.is_ascii_graphic() || byte == b' ' { byte as char } else { '.' };
        assert!(hexdump(&[byte]).ends_with(&format!("  |{shown}|\n")));
    }
}

#[test]
fn the_output_starts_with_what_is_read() {
    assert_eq!(
        format_start("/x/buf0", 1, false),
        "Reading /x/buf0  cpu=1  mode=poll  (Ctrl-C to stop)\n"
    );
    assert_eq!(
        format_start("/x/buf0", 0, true),
        "Reading /x/buf0  cpu=0  mode=no-poll  (Ctrl-C to stop)\n"
    );
}

#[test]
fn logged_chunks_tell_their_time_and_length() {
    let chunk = log_chunk(0x0102_0304_0506_0708, &[9, 8, 7]);
    assert_eq!(
        chunk,
        vec![8, 7, 6, 5, 4, 3, 2, 1, 3, 0, 0, 0, 0, 0, 0, 0, 9, 8, 7]
    );
}
