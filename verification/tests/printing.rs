//! Records as lines of text.

use nvme_trace::print::{check_block_size, format_record, print_stream, NvmeOpcode, ZeroBlockSize};
use nvme_trace::record::{
    parse_record_bytes, CompleteRecord, Header, SglDesc, SubmitRecord, SubmitTail, TraceRecord,
};
use nvme_trace::stream::{ByteCursor, RecordReader};

#[test]
fn formats_submit_tail_count() {
    let tail = SubmitTail::Prp(vec![1, 2, 3]);
    assert_eq!(tail.len(), 3);
    assert!(!tail.is_empty());
}

#[test]
fn formats_prp_tail_details() {
    let record = TraceRecord::Submit(submit_record(
        SubmitTail::Prp(vec![0x1000, 0x2000]),
        0xfeed_0000,
        0xbeef_0000,
    ));

    let line = format_record("cpu0.bin", &record, 64, 512);

    assert!(line.contains("mps=4096"));
    assert!(line.contains("opcode=read(0x02)"));
    assert!(line.contains("nsid=1"));
    assert!(line.contains("slba=8192"));
    assert!(line.contains("nlb=8"));
    assert!(line.contains("block_size=512"));
    assert!(line.contains("byte_offset=4194304"));
    assert!(line.contains("sqe_data_bytes=4096"));
    assert!(line.contains("prp1=0x00000000feed0000"));
    assert!(line.contains("prp2=0x00000000beef0000"));
    assert!(line.contains("tail_entries=2"));
    assert!(line.contains("tail=[0x0000000000001000,0x0000000000002000]"));
}

#[test]
fn formats_sgl_tail_details() {
    let record = TraceRecord::Submit(submit_record(
        SubmitTail::Sgl(vec![SglDesc {
            addr: 0x3000,
            length: 512,
            reserved: [0xaa, 0xbb, 0xcc],
            desc_type: 0x11,
        }]),
        0,
        0,
    ));

    let line = format_record("cpu1.bin", &record, 128, 4096);

    assert!(line.contains("mode=sgl"));
    assert!(line.contains("block_size=4096"));
    assert!(line.contains("byte_offset=33554432"));
    assert!(line.contains("sqe_data_bytes=32768"));
    assert!(!line.contains(" prp1="));
    assert!(line.contains("tail=[{addr=0x0000000000003000,len=512,type=0x11,reserved=aabbcc}]"));
}

#[test]
fn a_read_is_printed_in_full() {
    let record = TraceRecord::Submit(submit_record(SubmitTail::Prp(vec![0x1000]), 1, 2));
    assert_eq!(
        format_record("dir/cpu0.bin", &record, 64, 512),
        "dir/cpu0.bin:64 submit ts=100 seq=7 ctrl=nvme0 qid=1 cid=2 opcode=read(0x02) \
         data_len=4096 meta_len=0 mode=prp single_segment=false tail_entries=1 nsid=1 slba=8192 \
         nlb=8 block_size=512 byte_offset=4194304 sqe_data_bytes=4096 mps=4096 \
         prp1=0x0000000000000001 prp2=0x0000000000000002 tail=[0x0000000000001000]"
    );
}

#[test]
fn a_flush_has_no_blocks() {
    let mut submit = submit_record(SubmitTail::Prp(Vec::new()), 0, 0);
    submit.sqe[0] = 0;
    submit.single_segment = true;
    assert_eq!(
        format_record("x", &TraceRecord::Submit(submit), 0, 512),
        "x:0 submit ts=100 seq=7 ctrl=nvme0 qid=1 cid=2 opcode=flush(0x00) data_len=4096 \
         meta_len=0 mode=prp single_segment=true tail_entries=0 mps=4096 \
         prp1=0x0000000000000000 prp2=0x0000000000000000 tail=[]"
    );
}

#[test]
fn a_completion_is_printed_in_full() {
    let complete = TraceRecord::Complete(CompleteRecord {
        header: header(),
        result: 0xabc,
        sq_head: 3,
        sq_id: 4,
        status: 0x1f,
        retries: 5,
    });
    assert_eq!(
        format_record("x", &complete, 40, 512),
        "x:40 complete ts=100 seq=7 ctrl=nvme0 qid=1 cid=2 result=0x0000000000000abc sq_head=3 \
         sq_id=4 status=0x001f retries=5"
    );
}

#[test]
fn large_offsets_do_not_overflow() {
    let mut submit = submit_record(SubmitTail::Prp(Vec::new()), 0, 0);
    submit.sqe[40..48].copy_from_slice(&u64::MAX.to_le_bytes());
    submit.sqe[48..50].copy_from_slice(&u16::MAX.to_le_bytes());
    let line = format_record("x", &TraceRecord::Submit(submit), 0, u64::MAX);
    assert!(line.contains(" nlb=65536 "));
    assert!(line.contains(&format!(
        " byte_offset={} ",
        u64::MAX as u128 * u64::MAX as u128
    )));
    assert!(line.contains(&format!(" sqe_data_bytes={} ", 65536 * u64::MAX as u128)));
}

#[test]
fn opcodes_have_names() {
    let names: Vec<String> = [0x00, 0x01, 0x02, 0x04, 0x05, 0x08, 0x09, 0x0c, 0x03, 0xff]
        .into_iter()
        .map(|value: u8| NvmeOpcode::from(value).name())
        .collect();
    assert_eq!(
        names,
        vec![
            "flush(0x00)",
            "write(0x01)",
            "read(0x02)",
            "write_uncorrectable(0x04)",
            "compare(0x05)",
            "write_zeroes(0x08)",
            "dataset_management(0x09)",
            "verify(0x0c)",
            "unknown(0x03)",
            "unknown(0xff)",
        ]
    );
    for value in 0..=255_u8 {
        assert_eq!(
            NvmeOpcode::from(value).is_read_or_write(),
            value == 1 || value == 2
        );
    }
}

#[test]
fn a_stream_is_printed_line_by_line() {
    let mut bytes = complete_bytes(1);
    bytes.extend_from_slice(&complete_bytes(2));
    let mut reader = RecordReader::new(ByteCursor::new(bytes.clone()));
    let mut output = String::new();
    print_stream(&mut reader, "f", 512, &mut output).unwrap();
    let first = parse_record_bytes(bytes[..40].to_vec(), 0).unwrap();
    let second = parse_record_bytes(bytes[40..].to_vec(), 40).unwrap();
    assert_eq!(
        output,
        format!(
            "{}\n{}\n",
            format_record("f", &first.record, 0, 512),
            format_record("f", &second.record, 40, 512)
        )
    );

    bytes.extend_from_slice(&[1, 2, 3]);
    let mut reader = RecordReader::new(ByteCursor::new(bytes));
    let mut again = String::new();
    let err = print_stream(&mut reader, "f", 512, &mut again).unwrap_err();
    assert_eq!(err.message(), "truncated header at offset 80: got 3 bytes");
    assert_eq!(again, output);
}

#[test]
fn a_block_size_of_zero_is_refused() {
    assert_eq!(check_block_size(0), Err(ZeroBlockSize));
    assert_eq!(check_block_size(1), Ok(()));
}

fn complete_bytes(seq: u32) -> Vec<u8> {
    let mut bytes = Vec::new();
    bytes.extend_from_slice(&nvme_trace::NVME_TRACE_MAGIC.to_le_bytes());
    bytes.push(nvme_trace::NVME_TRACE_VERSION);
    bytes.push(nvme_trace::NVME_TRACE_COMPLETE);
    bytes.extend_from_slice(&40_u16.to_le_bytes());
    bytes.extend_from_slice(&100_u64.to_le_bytes());
    bytes.extend_from_slice(&seq.to_le_bytes());
    bytes.extend_from_slice(&[0; 20]);
    bytes
}

fn header() -> Header {
    Header {
        magic: nvme_trace::NVME_TRACE_MAGIC,
        version: nvme_trace::NVME_TRACE_VERSION,
        record_type: nvme_trace::NVME_TRACE_SUBMIT,
        len: 0,
        timestamp_ns: 100,
        seq: 7,
        ctrl_id: 0,
        qid: 1,
        cid: 2,
    }
}

fn submit_record(tail: SubmitTail, prp1: u64, prp2: u64) -> SubmitRecord {
    let use_sgl = matches!(tail, SubmitTail::Sgl(_));
    let mut sqe = [0_u8; nvme_trace::SQE_LEN];
    sqe[0] = 0x02;
    sqe[4..8].copy_from_slice(&1_u32.to_le_bytes());
    sqe[24..32].copy_from_slice(&prp1.to_le_bytes());
    sqe[32..40].copy_from_slice(&prp2.to_le_bytes());
    sqe[40..48].copy_from_slice(&8192_u64.to_le_bytes());
    sqe[48..50].copy_from_slice(&7_u16.to_le_bytes());

    SubmitRecord {
        header: header(),
        sqe,
        data_len: 4096,
        meta_len: 0,
        use_sgl,
        single_segment: false,
        nr_entries: tail.len() as u16,
        tail,
    }
}
