//! The record format and the reading of records.

use nvme_trace::error::TraceError;
use nvme_trace::record::{
    parse_record_bytes, SglDesc, SubmitTail, TraceRecord, COMPLETE_LEN, HEADER_LEN,
    NVME_TRACE_COMPLETE, NVME_TRACE_MAGIC, NVME_TRACE_SUBMIT, NVME_TRACE_VERSION, PRP_ENTRY_LEN,
    SGL_DESC_LEN, SQE_LEN, SUBMIT_FIXED_LEN,
};
use nvme_trace::stream::{read_exact_or_eof, ByteCursor, ByteSource, ReadError, RecordReader};
use nvme_trace::trace::read_records;

#[test]
fn parses_completion_record() {
    let bytes = complete_record(100, 7, 1, 2, 3, 0xfeed_beef, 9);
    let record = parse_record_bytes(bytes, 0).unwrap();

    match record.record {
        TraceRecord::Complete(complete) => {
            assert_eq!(complete.header.timestamp_ns, 100);
            assert_eq!(complete.header.seq, 7);
            assert_eq!(complete.result, 0xfeed_beef);
            assert_eq!(complete.retries, 9);
        }
        TraceRecord::Submit(_) => panic!("expected completion"),
    }
}

#[test]
fn parses_submit_without_tail() {
    let bytes = submit_record(100, 1, 4, 5, 6, false, false, &[]);
    let record = parse_record_bytes(bytes, 0).unwrap();

    match record.record {
        TraceRecord::Submit(submit) => {
            assert_eq!(submit.header.timestamp_ns, 100);
            assert_eq!(submit.data_len, 4096);
            assert_eq!(submit.meta_len, 0);
            assert!(!submit.use_sgl);
            assert_eq!(submit.tail, SubmitTail::Prp(Vec::new()));
        }
        TraceRecord::Complete(_) => panic!("expected submit"),
    }
}

#[test]
fn parses_submit_with_prp_tail() {
    let bytes = submit_record(
        100,
        1,
        4,
        5,
        6,
        false,
        false,
        &[0x1000_u64.to_le_bytes(), 0x2000_u64.to_le_bytes()].concat(),
    );
    let record = parse_record_bytes(bytes, 0).unwrap();

    match record.record {
        TraceRecord::Submit(submit) => {
            assert_eq!(submit.nr_entries, 2);
            assert_eq!(submit.tail, SubmitTail::Prp(vec![0x1000, 0x2000]));
        }
        TraceRecord::Complete(_) => panic!("expected submit"),
    }
}

#[test]
fn parses_submit_with_sgl_tail() {
    let mut tail = Vec::new();
    tail.extend_from_slice(&0x1000_u64.to_le_bytes());
    tail.extend_from_slice(&512_u32.to_le_bytes());
    tail.extend_from_slice(&[0, 0, 0, 0x11]);
    tail.extend_from_slice(&0x2000_u64.to_le_bytes());
    tail.extend_from_slice(&1024_u32.to_le_bytes());
    tail.extend_from_slice(&[0, 0, 0, 0x12]);

    let bytes = submit_record(100, 1, 4, 5, 6, true, false, &tail);
    let record = parse_record_bytes(bytes, 0).unwrap();

    match record.record {
        TraceRecord::Submit(submit) => {
            assert_eq!(submit.nr_entries, 2);
            assert_eq!(
                submit.tail,
                SubmitTail::Sgl(vec![
                    SglDesc {
                        addr: 0x1000,
                        length: 512,
                        reserved: [0, 0, 0],
                        desc_type: 0x11,
                    },
                    SglDesc {
                        addr: 0x2000,
                        length: 1024,
                        reserved: [0, 0, 0],
                        desc_type: 0x12,
                    },
                ])
            );
        }
        TraceRecord::Complete(_) => panic!("expected submit"),
    }
}

#[test]
fn rejects_bad_magic_version_and_type() {
    let mut bad_magic = complete_record(1, 1, 0, 1, 1, 0, 0);
    bad_magic[0..4].copy_from_slice(&0_u32.to_le_bytes());
    assert!(matches!(
        parse_record_bytes(bad_magic, 0),
        Err(TraceError::InvalidMagic { .. })
    ));

    let mut bad_version = complete_record(1, 1, 0, 1, 1, 0, 0);
    bad_version[4] = 2;
    assert!(matches!(
        parse_record_bytes(bad_version, 0),
        Err(TraceError::UnsupportedVersion { .. })
    ));

    let mut bad_type = complete_record(1, 1, 0, 1, 1, 0, 0);
    bad_type[5] = 9;
    assert!(matches!(
        parse_record_bytes(bad_type, 0),
        Err(TraceError::UnknownType { .. })
    ));
}

#[test]
fn rejects_truncated_and_invalid_lengths() {
    assert!(matches!(
        parse_record_bytes(vec![0; HEADER_LEN - 1], 0),
        Err(TraceError::TruncatedHeader { .. })
    ));

    let mut too_small = complete_record(1, 1, 0, 1, 1, 0, 0);
    too_small[6..8].copy_from_slice(&(HEADER_LEN as u16 - 1).to_le_bytes());
    too_small.truncate(HEADER_LEN - 1);
    assert!(matches!(
        parse_record_bytes(too_small, 0),
        Err(TraceError::TruncatedHeader { .. }) | Err(TraceError::InvalidLength { .. })
    ));

    let truncated = complete_record(1, 1, 0, 1, 1, 0, 0);
    let mut reader = RecordReader::new(ByteCursor::new(truncated[..30].to_vec()));
    assert!(matches!(
        reader.next_record(),
        Err(TraceError::TruncatedPayload { .. })
    ));
}

#[test]
fn errors_tell_where_and_what() {
    let text = |bytes: Vec<u8>| parse_record_bytes(bytes, 48).unwrap_err().message();

    assert_eq!(text(vec![1, 2]), "truncated header at offset 48: got 2 bytes");

    let mut bad_magic = complete_record(1, 1, 0, 1, 1, 0, 0);
    bad_magic[0..4].copy_from_slice(&0xab_u32.to_le_bytes());
    assert_eq!(text(bad_magic), "bad magic at offset 48: 0x000000ab");

    let mut bad_version = complete_record(1, 1, 0, 1, 1, 0, 0);
    bad_version[4] = 2;
    assert_eq!(text(bad_version), "unsupported version at offset 48: 2");

    let mut bad_type = complete_record(1, 1, 0, 1, 1, 0, 0);
    bad_type[5] = 9;
    assert_eq!(text(bad_type), "unknown record type at offset 48: 9");

    let mut bad_len = complete_record(1, 1, 0, 1, 1, 0, 0);
    bad_len.push(0);
    assert_eq!(
        text(bad_len),
        "invalid record length at offset 48: type=1 len=40: \
         header length does not match byte slice length"
    );

    let mut long_complete = complete_record(1, 1, 0, 1, 1, 0, 0);
    long_complete.push(0);
    long_complete[6..8].copy_from_slice(&41_u16.to_le_bytes());
    assert_eq!(
        text(long_complete),
        "invalid record length at offset 48: type=1 len=41: \
         completion record must be exactly the fixed struct size"
    );

    let mut short_submit = complete_record(1, 1, 0, 1, 1, 0, 0);
    short_submit[5] = NVME_TRACE_SUBMIT;
    assert_eq!(
        text(short_submit),
        "invalid record length at offset 48: type=0 len=40: \
         submit record is smaller than the fixed struct"
    );

    let mut wrong_count = submit_record(1, 1, 0, 1, 1, false, false, &[0; 16]);
    wrong_count[98..100].copy_from_slice(&3_u16.to_le_bytes());
    assert_eq!(
        text(wrong_count),
        "invalid record length at offset 48: type=0 len=116: \
         submit tail length does not match nr_entries"
    );

    let mut reader = RecordReader::new(ByteCursor::new(
        complete_record(1, 1, 0, 1, 1, 0, 0)[..30].to_vec(),
    ));
    assert_eq!(
        reader.next_record().unwrap_err().message(),
        "truncated payload at offset 0: expected 16 bytes, got 6"
    );

    let io = TraceError::from(std::io::Error::new(std::io::ErrorKind::Other, "gone"));
    assert_eq!(io.message(), "gone");
}

#[test]
fn flags_are_set_by_any_nonzero_byte() {
    let mut bytes = submit_record(1, 1, 0, 1, 1, false, false, &[0; 16]);
    bytes[96] = 7;
    bytes[97] = 0x80;
    bytes[98..100].copy_from_slice(&1_u16.to_le_bytes());
    match parse_record_bytes(bytes, 0).unwrap().record {
        TraceRecord::Submit(submit) => {
            assert!(submit.use_sgl);
            assert!(submit.single_segment);
            assert_eq!(submit.tail.len(), 1);
        }
        TraceRecord::Complete(_) => panic!("expected submit"),
    }
}

#[test]
fn reader_moves_past_records_and_cut_records_only() {
    let first = complete_record(1, 1, 0, 1, 1, 0, 0);
    let second = submit_record(2, 2, 0, 1, 1, false, false, &[]);
    let mut stream = first.clone();
    stream.extend_from_slice(&second);
    let mut reader = RecordReader::new(ByteCursor::new(stream));
    assert_eq!(reader.offset(), 0);
    let raw = reader.next_record().unwrap().unwrap();
    assert_eq!(raw.bytes, first);
    assert_eq!(raw.offset, 0);
    assert_eq!(reader.offset(), 40);
    let raw = reader.next_record().unwrap().unwrap();
    assert_eq!(raw.bytes, second);
    assert_eq!(raw.offset, 40);
    assert_eq!(raw.header.seq, 2);
    assert_eq!(raw.record.header().seq, 2);
    assert_eq!(reader.offset(), 140);
    assert!(reader.next_record().unwrap().is_none());
    assert_eq!(reader.offset(), 140);

    let mut reader = RecordReader::new(ByteCursor::new(first[..10].to_vec()));
    assert!(matches!(
        reader.next_record(),
        Err(TraceError::TruncatedHeader { offset: 0, got: 10 })
    ));
    assert_eq!(reader.offset(), 10);

    let mut reader = RecordReader::new(ByteCursor::new(first[..30].to_vec()));
    assert!(matches!(
        reader.next_record(),
        Err(TraceError::TruncatedPayload { offset: 0, expected: 16, got: 6 })
    ));
    assert_eq!(reader.offset(), 30);

    let mut bad = first.clone();
    bad[0] = 0;
    let mut reader = RecordReader::new(ByteCursor::new(bad));
    assert!(matches!(reader.next_record(), Err(TraceError::InvalidMagic { .. })));
    assert_eq!(reader.offset(), 0);

    let mut short = first.clone();
    short[6..8].copy_from_slice(&23_u16.to_le_bytes());
    let mut reader = RecordReader::new(ByteCursor::new(short));
    assert!(matches!(
        reader.next_record(),
        Err(TraceError::InvalidLength {
            len: 23,
            reason: "record length is smaller than the header",
            ..
        })
    ));
    assert_eq!(reader.offset(), 0);

    let mut bad_type = first;
    bad_type[5] = 4;
    let mut reader = RecordReader::new(ByteCursor::new(bad_type));
    assert!(matches!(reader.next_record(), Err(TraceError::UnknownType { .. })));
    assert_eq!(reader.offset(), 0);
}

#[test]
fn a_drained_stream_gives_nothing_ever_after() {
    let parts = [
        complete_record(1, 5, 0, 1, 1, 0, 0),
        complete_record(2, 6, 0, 1, 2, 0, 0),
        complete_record(3, 7, 0, 1, 3, 0, 0),
    ];
    let mut reader = RecordReader::new(ByteCursor::new(parts.concat()));
    let mut offset = 0;
    for part in &parts {
        let raw = reader.next_record().unwrap().unwrap();
        assert_eq!(&raw.bytes, part);
        assert_eq!(raw.offset, offset);
        offset += part.len() as u64;
        assert_eq!(reader.offset(), offset);
    }
    for _ in 0..5 {
        assert!(reader.next_record().unwrap().is_none());
        assert_eq!(reader.offset(), offset);
    }
}

#[test]
fn reads_all_records_of_a_stream() {
    let mut stream = complete_record(1, 1, 0, 1, 1, 0, 0);
    stream.extend_from_slice(&submit_record(2, 2, 0, 1, 2, false, false, &[]));
    let mut reader = RecordReader::new(ByteCursor::new(stream.clone()));
    let records = read_records(&mut reader).unwrap();
    assert_eq!(records.len(), 2);
    assert_eq!(records[0].header().cid, 1);
    assert_eq!(records[1].header().cid, 2);

    stream.push(0);
    let mut reader = RecordReader::new(ByteCursor::new(stream));
    assert!(matches!(
        read_records(&mut reader),
        Err(TraceError::TruncatedHeader { offset: 140, got: 1 })
    ));
}

/// A source that gives one byte at a time, is interrupted before each, and
/// fails in the end where it is told to.
struct Dribble {
    bytes: Vec<u8>,
    at: usize,
    interrupted: bool,
    fails: bool,
}

impl ByteSource for Dribble {
    fn read(&mut self, want: usize) -> Result<Vec<u8>, ReadError> {
        assert!(want > 0);
        if !self.interrupted {
            self.interrupted = true;
            return Err(ReadError::Interrupted);
        }
        self.interrupted = false;
        if self.at == self.bytes.len() {
            if self.fails {
                return Err(ReadError::Failed(std::io::Error::new(
                    std::io::ErrorKind::Other,
                    "broken",
                )));
            }
            return Ok(Vec::new());
        }
        self.at += 1;
        Ok(vec![self.bytes[self.at - 1]])
    }
}

#[test]
fn interrupted_reads_are_tried_again_and_failures_passed_on() {
    let record = complete_record(1, 5, 0, 1, 1, 0, 0);
    let source = Dribble { bytes: record.clone(), at: 0, interrupted: false, fails: false };
    let mut reader = RecordReader::new(source);
    assert_eq!(reader.next_record().unwrap().unwrap().bytes, record);
    assert!(reader.next_record().unwrap().is_none());

    let source = Dribble { bytes: record.clone(), at: 0, interrupted: false, fails: true };
    let mut reader = RecordReader::new(source);
    assert!(reader.next_record().unwrap().is_some());
    match reader.next_record() {
        Err(TraceError::Io(err)) => assert_eq!(err.to_string(), "broken"),
        _ => panic!("expected failure"),
    }
    assert_eq!(reader.offset(), 40);

    let mut source = Dribble { bytes: vec![1, 2, 3], at: 0, interrupted: false, fails: false };
    assert_eq!(read_exact_or_eof(&mut source, 2).unwrap(), vec![1, 2]);
    assert_eq!(read_exact_or_eof(&mut source, 2).unwrap(), vec![3]);
    assert_eq!(read_exact_or_eof(&mut source, 0).unwrap(), Vec::<u8>::new());
}

fn complete_record(
    timestamp_ns: u64,
    seq: u32,
    ctrl_id: u8,
    qid: u8,
    cid: u16,
    result: u64,
    retries: u8,
) -> Vec<u8> {
    let mut bytes = header(
        NVME_TRACE_COMPLETE,
        COMPLETE_LEN as u16,
        timestamp_ns,
        seq,
        ctrl_id,
        qid,
        cid,
    );
    bytes.extend_from_slice(&result.to_le_bytes());
    bytes.extend_from_slice(&7_u16.to_le_bytes());
    bytes.extend_from_slice(&(qid as u16).to_le_bytes());
    bytes.extend_from_slice(&0_u16.to_le_bytes());
    bytes.push(retries);
    bytes.push(0);
    assert_eq!(bytes.len(), COMPLETE_LEN);
    bytes
}

#[allow(clippy::too_many_arguments)]
fn submit_record(
    timestamp_ns: u64,
    seq: u32,
    ctrl_id: u8,
    qid: u8,
    cid: u16,
    use_sgl: bool,
    single_segment: bool,
    tail: &[u8],
) -> Vec<u8> {
    let entry_len = if use_sgl { SGL_DESC_LEN } else { PRP_ENTRY_LEN };
    assert_eq!(tail.len() % entry_len, 0);
    let nr_entries = tail.len() / entry_len;
    let len = SUBMIT_FIXED_LEN + tail.len();
    let mut bytes = header(
        NVME_TRACE_SUBMIT,
        len as u16,
        timestamp_ns,
        seq,
        ctrl_id,
        qid,
        cid,
    );
    let mut sqe = [0_u8; SQE_LEN];
    sqe[0] = 0x02;
    bytes.extend_from_slice(&sqe);
    bytes.extend_from_slice(&4096_u32.to_le_bytes());
    bytes.extend_from_slice(&0_u32.to_le_bytes());
    bytes.push(u8::from(use_sgl));
    bytes.push(u8::from(single_segment));
    bytes.extend_from_slice(&(nr_entries as u16).to_le_bytes());
    bytes.extend_from_slice(tail);
    bytes
}

fn header(
    record_type: u8,
    len: u16,
    timestamp_ns: u64,
    seq: u32,
    ctrl_id: u8,
    qid: u8,
    cid: u16,
) -> Vec<u8> {
    let mut bytes = Vec::new();
    bytes.extend_from_slice(&NVME_TRACE_MAGIC.to_le_bytes());
    bytes.push(NVME_TRACE_VERSION);
    bytes.push(record_type);
    bytes.extend_from_slice(&len.to_le_bytes());
    bytes.extend_from_slice(&timestamp_ns.to_le_bytes());
    bytes.extend_from_slice(&seq.to_le_bytes());
    bytes.push(ctrl_id);
    bytes.push(qid);
    bytes.extend_from_slice(&cid.to_le_bytes());
    assert_eq!(bytes.len(), HEADER_LEN);
    bytes
}
