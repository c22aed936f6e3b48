//! Splicing streams, and the order of records.

use std::cmp::Ordering;

use nvme_trace::error::TraceError;
use nvme_trace::order::{record_order, text_order};
use nvme_trace::record::{
    Header, COMPLETE_LEN, NVME_TRACE_COMPLETE, NVME_TRACE_MAGIC, NVME_TRACE_VERSION,
};
use nvme_trace::splice::{splice_named_streams, splice_streams};
use nvme_trace::stream::{ByteCursor, ByteSink, RecordReader};
use nvme_trace::trace::read_records;

#[test]
fn splices_streams_in_timestamp_sequence_order_and_preserves_bytes() {
    let a1 = complete_record(10, 1, 0, 1, 10, 0, 0);
    let a2 = complete_record(30, 3, 0, 1, 30, 0, 0);
    let b1 = complete_record(20, 2, 0, 2, 20, 0, 0);
    let b2 = complete_record(30, 4, 0, 2, 40, 0, 0);

    let mut input_a = Vec::new();
    input_a.extend_from_slice(&a1);
    input_a.extend_from_slice(&a2);
    let mut input_b = Vec::new();
    input_b.extend_from_slice(&b1);
    input_b.extend_from_slice(&b2);

    let mut output: Vec<u8> = Vec::new();
    let mut warnings: Vec<String> = Vec::new();
    let written = splice_named_streams(
        vec![
            ("cpu0.bin".to_string(), ByteCursor::new(input_a)),
            ("cpu1.bin".to_string(), ByteCursor::new(input_b)),
        ],
        &mut output,
        &mut warnings,
    )
    .unwrap();

    let mut expected = Vec::new();
    expected.extend_from_slice(&a1);
    expected.extend_from_slice(&b1);
    expected.extend_from_slice(&a2);
    expected.extend_from_slice(&b2);
    assert_eq!(output, expected);
    assert!(warnings.is_empty());
    assert_eq!(written, 160);
}

#[test]
fn splicing_uses_deterministic_ties() {
    let a = complete_record(10, 1, 0, 1, 2, 0, 0);
    let b = complete_record(10, 1, 0, 1, 1, 0, 0);

    let mut output: Vec<u8> = Vec::new();
    let mut warnings: Vec<String> = Vec::new();
    splice_named_streams(
        vec![
            ("cpu0.bin".to_string(), ByteCursor::new(a.clone())),
            ("cpu1.bin".to_string(), ByteCursor::new(b.clone())),
        ],
        &mut output,
        &mut warnings,
    )
    .unwrap();

    let mut expected = Vec::new();
    expected.extend_from_slice(&b);
    expected.extend_from_slice(&a);
    assert_eq!(output, expected);
}

#[test]
fn sequence_beats_timestamp_within_a_controller() {
    let a = header(20, 1, 0, 1, 1);
    let b = header(10, 2, 0, 1, 1);
    assert_eq!(record_order(&a, &b), Ordering::Less);
    assert_eq!(record_order(&b, &a), Ordering::Greater);

    let other = header(15, 9, 1, 1, 1);
    assert_eq!(record_order(&other, &a), Ordering::Less);
    assert_eq!(record_order(&b, &other), Ordering::Less);

    assert_eq!(record_order(&header(1, 1, 0, 1, 1), &header(9, 1, 0, 1, 1)), Ordering::Equal);
    assert_eq!(record_order(&header(1, 1, 0, 1, 9), &header(1, 1, 0, 2, 1)), Ordering::Less);
    assert_eq!(record_order(&header(1, 1, 0, 1, 9), &header(1, 1, 0, 1, 1)), Ordering::Greater);
    assert_eq!(record_order(&header(5, 9, 0, 1, 1), &header(5, 1, 1, 1, 1)), Ordering::Less);
}

#[test]
fn names_and_then_offsets_break_ties() {
    let same = complete_record(10, 1, 0, 1, 2, 7, 0);
    let twin = complete_record(10, 1, 0, 1, 2, 8, 0);
    let mut output: Vec<u8> = Vec::new();
    let mut warnings: Vec<String> = Vec::new();
    splice_streams(
        vec![
            ("b".to_string(), ByteCursor::new(same.clone())),
            ("a".to_string(), ByteCursor::new(twin.clone())),
        ],
        &mut output,
        &mut warnings,
    )
    .unwrap();
    let mut expected = twin;
    expected.extend_from_slice(&same);
    assert_eq!(output, expected);
    assert_eq!(
        warnings,
        vec![
            "sequence is not increasing for ctrl 0: previous=1 current=1 source=b offset=0"
                .to_string()
        ]
    );

    let chars = |text: &str| text.chars().collect::<Vec<char>>();
    assert_eq!(text_order(&chars("cpu10"), &chars("cpu2")), "cpu10".cmp("cpu2"));
    assert_eq!(text_order(&chars("é"), &chars("z")), "é".cmp("z"));
    assert_eq!(text_order(&chars("a"), &chars("ab")), Ordering::Less);
    assert_eq!(text_order(&chars("ab"), &chars("ab")), Ordering::Equal);
}

#[test]
fn one_stream_out_of_order_is_kept_and_warned_of() {
    let first = complete_record(10, 5, 3, 1, 1, 0, 0);
    let second = complete_record(20, 4, 3, 1, 2, 0, 0);
    let other = complete_record(30, 1, 4, 1, 2, 0, 0);
    let mut input = first;
    input.extend_from_slice(&second);
    input.extend_from_slice(&other);
    let mut output: Vec<u8> = Vec::new();
    let mut warnings: Vec<String> = Vec::new();
    let written = splice_named_streams(
        vec![("cpu0.bin".to_string(), ByteCursor::new(input.clone()))],
        &mut output,
        &mut warnings,
    )
    .unwrap();
    assert_eq!(output, input);
    assert_eq!(written, 120);
    assert_eq!(
        warnings,
        vec![
            "sequence is not increasing for ctrl 3: previous=5 current=4 source=cpu0.bin offset=40"
                .to_string()
        ]
    );
}

#[test]
fn a_spliced_stream_reads_back() {
    let mut inputs = Vec::new();
    for cpu in 0..3_u16 {
        let mut input = Vec::new();
        for step in 0..4_u32 {
            let seq = step * 3 + cpu as u32;
            input.extend_from_slice(&complete_record(
                100 + seq as u64,
                seq,
                0,
                1,
                cpu,
                0,
                0,
            ));
        }
        inputs.push((format!("cpu{cpu}.bin"), ByteCursor::new(input)));
    }
    let mut output: Vec<u8> = Vec::new();
    let mut warnings: Vec<String> = Vec::new();
    splice_named_streams(inputs, &mut output, &mut warnings).unwrap();
    assert!(warnings.is_empty());
    let mut reader = RecordReader::new(ByteCursor::new(output));
    let records = read_records(&mut reader).unwrap();
    let seqs: Vec<u32> = records.iter().map(|record| record.header().seq).collect();
    assert_eq!(seqs, (0..12).collect::<Vec<u32>>());
}

#[test]
fn a_bad_start_stops_splicing_before_it_begins() {
    let good = complete_record(10, 1, 0, 1, 1, 0, 0);
    let mut output: Vec<u8> = Vec::new();
    let mut warnings: Vec<String> = Vec::new();
    let result = splice_named_streams(
        vec![
            ("a".to_string(), ByteCursor::new(good.clone())),
            ("b".to_string(), ByteCursor::new(vec![1, 2, 3])),
        ],
        &mut output,
        &mut warnings,
    );
    assert!(matches!(result, Err(TraceError::TruncatedHeader { offset: 0, got: 3 })));
    assert!(output.is_empty());

    let mut cut = good.clone();
    cut.extend_from_slice(&[9; 5]);
    let result = splice_named_streams(
        vec![("a".to_string(), ByteCursor::new(cut))],
        &mut output,
        &mut warnings,
    );
    assert!(matches!(result, Err(TraceError::TruncatedHeader { offset: 40, got: 5 })));
    assert_eq!(output, good);

    let mut output: Vec<u8> = Vec::new();
    let none: Vec<(String, ByteCursor)> = Vec::new();
    assert_eq!(splice_named_streams(none, &mut output, &mut warnings).unwrap(), 0);
    assert!(output.is_empty());
}

/// A sink that takes so many bytes and fails with the next.
struct Full {
    room: usize,
    bytes: Vec<u8>,
}

impl ByteSink for Full {
    fn write_all(&mut self, bytes: &[u8]) -> Result<(), std::io::Error> {
        for byte in bytes {
            if self.bytes.len() == self.room {
                return Err(std::io::Error::new(std::io::ErrorKind::Other, "no room"));
            }
            self.bytes.push(*byte);
        }
        Ok(())
    }
}

#[test]
fn a_failing_output_ends_splicing() {
    let mut input = complete_record(10, 1, 0, 1, 1, 0, 0);
    input.extend_from_slice(&complete_record(11, 2, 0, 1, 1, 0, 0));
    let mut output = Full { room: 50, bytes: Vec::new() };
    let mut warnings: Vec<String> = Vec::new();
    let result = splice_named_streams(
        vec![("a".to_string(), ByteCursor::new(input.clone()))],
        &mut output,
        &mut warnings,
    );
    match result {
        Err(TraceError::Io(err)) => assert_eq!(err.to_string(), "no room"),
        _ => panic!("expected failure"),
    }
    assert_eq!(output.bytes, input[..50].to_vec());
}

#[test]
fn empty_streams_add_nothing() {
    let mut output: Vec<u8> = Vec::new();
    let mut warnings: Vec<String> = Vec::new();
    let none: Vec<(String, ByteCursor)> = Vec::new();
    assert_eq!(splice_streams(none, &mut output, &mut warnings).unwrap(), 0);
    let inputs = vec![
        ("cpu0.bin".to_string(), ByteCursor::new(Vec::new())),
        ("cpu1.bin".to_string(), ByteCursor::new(Vec::new())),
    ];
    assert_eq!(splice_named_streams(inputs, &mut output, &mut warnings).unwrap(), 0);
    assert!(output.is_empty());
    assert!(warnings.is_empty());
}

fn some_headers() -> Vec<Header> {
    let mut headers = Vec::new();
    for timestamp_ns in [1, 2] {
        for seq in [1, 2] {
            for ctrl_id in [0, 1] {
                for cid in [0, 1] {
                    headers.push(header(timestamp_ns, seq, ctrl_id, 0, cid));
                }
            }
        }
    }
    headers
}

#[test]
fn the_order_is_asymmetric_and_tells_controllers_apart() {
    let headers = some_headers();
    for a in &headers {
        assert_eq!(record_order(a, a), Ordering::Equal);
        for b in &headers {
            assert_eq!(record_order(a, b), record_order(b, a).reverse());
            if a.ctrl_id != b.ctrl_id {
                assert_ne!(record_order(a, b), Ordering::Equal);
            }
        }
    }
}

#[test]
fn the_order_is_transitive_within_a_controller_but_not_across() {
    let headers = some_headers();
    for a in &headers {
        for b in &headers {
            for c in &headers {
                if a.ctrl_id == b.ctrl_id
                    && b.ctrl_id == c.ctrl_id
                    && record_order(a, b) == Ordering::Less
                    && record_order(b, c) == Ordering::Less
                {
                    assert_eq!(record_order(a, c), Ordering::Less);
                }
            }
        }
    }
    let first = header(3, 1, 0, 0, 0);
    let second = header(1, 2, 0, 0, 0);
    let other = header(2, 1, 1, 0, 0);
    assert_eq!(record_order(&first, &second), Ordering::Less);
    assert_eq!(record_order(&second, &other), Ordering::Less);
    assert_eq!(record_order(&other, &first), Ordering::Less);
}

fn header(timestamp_ns: u64, seq: u32, ctrl_id: u8, qid: u8, cid: u16) -> Header {
    Header {
        magic: NVME_TRACE_MAGIC,
        version: NVME_TRACE_VERSION,
        record_type: NVME_TRACE_COMPLETE,
        len: COMPLETE_LEN as u16,
        timestamp_ns,
        seq,
        ctrl_id,
        qid,
        cid,
    }
}

fn complete_record(
    timestamp_ns: u64,
    seq: u32,
    ctrl_id: u8,
    qid: u8,
    cid: u16,
    result: u64,
    retries: u8,
) -> Vec<u8> {
    let mut bytes = Vec::new();
    bytes.extend_from_slice(&NVME_TRACE_MAGIC.to_le_bytes());
    bytes.push(NVME_TRACE_VERSION);
    bytes.push(NVME_TRACE_COMPLETE);
    bytes.extend_from_slice(&(COMPLETE_LEN as u16).to_le_bytes());
    bytes.extend_from_slice(&timestamp_ns.to_le_bytes());
    bytes.extend_from_slice(&seq.to_le_bytes());
    bytes.push(ctrl_id);
    bytes.push(qid);
    bytes.extend_from_slice(&cid.to_le_bytes());
    bytes.extend_from_slice(&result.to_le_bytes());
    bytes.extend_from_slice(&7_u16.to_le_bytes());
    bytes.extend_from_slice(&(qid as u16).to_le_bytes());
    bytes.extend_from_slice(&0_u16.to_le_bytes());
    bytes.push(retries);
    bytes.push(0);
    assert_eq!(bytes.len(), COMPLETE_LEN);
    bytes
}
