//! Records as lines of text.

use crate::bytes::{self, read_le16, read_le32, read_le64};
use crate::error::{Result, TraceError};
use crate::record::{
    self, CompleteRecord, RawRecord, RawRecordView, SglDesc, SglDescView, SubmitRecord, SubmitRecordView,
    SubmitTail, SubmitTailView, TraceRecord, TraceRecordView, ASSUMED_NVME_CTRL_PAGE_SIZE,
};
use crate::stream::{self, ByteSource, RecordReader, TextSink};
use crate::text::{self, push_decimal, push_hex};
use crate::trace;
use vstd::prelude::*;

verus! {

/// The commands that are told apart by name.
#[derive(Debug, Clone, Copy, PartialEq, Eq, Structural)]
pub enum NvmeOpcode {
    Flush,
    Write,
    Read,
    WriteUncorrectable,
    Compare,
    WriteZeroes,
    DatasetManagement,
    Verify,
    Other(u8),
}

/// The command that an opcode stands for.
pub open spec fn opcode_of(value: u8) -> NvmeOpcode {
    if value == 0x00 {
        NvmeOpcode::Flush
    } else if value == 0x01 {
        NvmeOpcode::Write
    } else if value == 0x02 {
        NvmeOpcode::Read
    } else if value == 0x04 {
        NvmeOpcode::WriteUncorrectable
    } else if value == 0x05 {
        NvmeOpcode::Compare
    } else if value == 0x08 {
        NvmeOpcode::WriteZeroes
    } else if value == 0x09 {
        NvmeOpcode::DatasetManagement
    } else if value == 0x0c {
        NvmeOpcode::Verify
    } else {
        NvmeOpcode::Other(value)
    }
}

impl From<u8> for NvmeOpcode {
    fn from(value: u8) -> (opcode: Self) {
        match value {
            0x00 => NvmeOpcode::Flush,
            0x01 => NvmeOpcode::Write,
            0x02 => NvmeOpcode::Read,
            0x04 => NvmeOpcode::WriteUncorrectable,
            0x05 => NvmeOpcode::Compare,
            0x08 => NvmeOpcode::WriteZeroes,
            0x09 => NvmeOpcode::DatasetManagement,
            0x0c => NvmeOpcode::Verify,
            value => NvmeOpcode::Other(value),
        }
    }
}

impl vstd::std_specs::convert::FromSpecImpl<u8> for NvmeOpcode {
    open spec fn obeys_from_spec() -> bool {
        true
    }

    open spec fn from_spec(value: u8) -> Self {
        opcode_of(value)
    }
}

/// The name of a command, with its opcode.
pub open spec fn opcode_text(opcode: NvmeOpcode) -> Seq<char> {
    match opcode {
        NvmeOpcode::Flush => "flush(0x00)"@,
        NvmeOpcode::Write => "write(0x01)"@,
        NvmeOpcode::Read => "read(0x02)"@,
        NvmeOpcode::WriteUncorrectable => "write_uncorrectable(0x04)"@,
        NvmeOpcode::Compare => "compare(0x05)"@,
        NvmeOpcode::WriteZeroes => "write_zeroes(0x08)"@,
        NvmeOpcode::DatasetManagement => "dataset_management(0x09)"@,
        NvmeOpcode::Verify => "verify(0x0c)"@,
        NvmeOpcode::Other(value) => "unknown(0x"@ + text::hex(value as nat, 2) + ")"@,
    }
}

impl NvmeOpcode {
    /// Tells whether the command moves data from or to logical blocks.
    pub fn is_read_or_write(self) -> (yes: bool)
        ensures
            yes == (self is Read || self is Write),
    {
        matches!(self, NvmeOpcode::Read | NvmeOpcode::Write)
    }

    /// The name of the command, with its opcode.
    pub fn name(&self) -> (name: String)
        ensures
            name@ == opcode_text(*self),
    {
        match self {
            NvmeOpcode::Flush => "flush(0x00)".to_owned(),
            NvmeOpcode::Write => "write(0x01)".to_owned(),
            NvmeOpcode::Read => "read(0x02)".to_owned(),
            NvmeOpcode::WriteUncorrectable => "write_uncorrectable(0x04)".to_owned(),
            NvmeOpcode::Compare => "compare(0x05)".to_owned(),
            NvmeOpcode::WriteZeroes => "write_zeroes(0x08)".to_owned(),
            NvmeOpcode::DatasetManagement => "dataset_management(0x09)".to_owned(),
            NvmeOpcode::Verify => "verify(0x0c)".to_owned(),
            NvmeOpcode::Other(value) => {
                let mut out = "unknown(0x".to_owned();
                push_hex(&mut out, *value as u64, 2);
                out.append(")");
                out
            },
        }
    }
}

/// A flag in words.
pub open spec fn flag_text(flag: bool) -> Seq<char> {
    if flag {
        "true"@
    } else {
        "false"@
    }
}

/// How a submission describes its data.
pub open spec fn mode_text(use_sgl: bool) -> Seq<char> {
    if use_sgl {
        "sgl"@
    } else {
        "prp"@
    }
}

/// What every submission is printed with.
pub open spec fn submit_common_text(
    path: Seq<char>,
    submit: SubmitRecordView,
    offset: u64,
) -> Seq<char> {
    path + ":"@ + text::decimal(offset as nat) + " submit ts="@ + text::decimal(
        submit.header.timestamp_ns as nat,
    ) + " seq="@ + text::decimal(submit.header.seq as nat) + " ctrl=nvme"@ + text::decimal(
        submit.header.ctrl_id as nat,
    ) + " qid="@ + text::decimal(submit.header.qid as nat) + " cid="@ + text::decimal(
        submit.header.cid as nat,
    ) + " opcode="@ + opcode_text(opcode_of(submit.sqe[0])) + " data_len="@ + text::decimal(
        submit.data_len as nat,
    ) + " meta_len="@ + text::decimal(submit.meta_len as nat) + " mode="@ + mode_text(
        submit.use_sgl,
    ) + " single_segment="@ + flag_text(submit.single_segment) + " tail_entries="@ + text::decimal(
        submit.tail.entries(),
    )
}

/// The namespace, the logical blocks and the bytes that a read or a write is
/// about. The entry counts its blocks from zero.
pub open spec fn blocks_text(submit: SubmitRecordView, block_size: u64) -> Seq<char> {
    let slba = bytes::le64(submit.sqe, 40) as nat;
    let nlb = (bytes::le16(submit.sqe, 48) + 1) as nat;
    " nsid="@ + text::decimal(bytes::le32(submit.sqe, 4) as nat) + " slba="@ + text::decimal(slba)
        + " nlb="@ + text::decimal(nlb) + " block_size="@ + text::decimal(block_size as nat)
        + " byte_offset="@ + text::decimal(slba * block_size as nat) + " sqe_data_bytes="@
        + text::decimal(nlb * block_size as nat)
}

/// The fixed part of a submission in words.
pub open spec fn submit_text(
    path: Seq<char>,
    submit: SubmitRecordView,
    offset: u64,
    block_size: u64,
) -> Seq<char> {
    let opcode = opcode_of(submit.sqe[0]);
    if opcode is Read || opcode is Write {
        submit_common_text(path, submit, offset) + blocks_text(submit, block_size)
    } else {
        submit_common_text(path, submit, offset)
    }
}

/// The two data pointers in a submission queue entry.
pub open spec fn prps_text(submit: SubmitRecordView) -> Seq<char> {
    " mps="@ + text::decimal(ASSUMED_NVME_CTRL_PAGE_SIZE as nat) + " prp1=0x"@ + text::hex(
        bytes::le64(submit.sqe, 24) as nat,
        16,
    ) + " prp2=0x"@ + text::hex(bytes::le64(submit.sqe, 32) as nat, 16)
}

/// Entries with commas between them.
pub open spec fn prp_list_text(entries: Seq<u64>) -> Seq<char>
    decreases entries.len(),
{
    if entries.len() == 0 {
        seq![]
    } else if entries.len() == 1 {
        "0x"@ + text::hex(entries[0] as nat, 16)
    } else {
        prp_list_text(entries.drop_last()) + ",0x"@ + text::hex(entries.last() as nat, 16)
    }
}

/// A descriptor in words.
pub open spec fn sgl_desc_text(desc: SglDescView) -> Seq<char> {
    "{addr=0x"@ + text::hex(desc.addr as nat, 16) + ",len="@ + text::decimal(desc.length as nat)
        + ",type=0x"@ + text::hex(desc.desc_type as nat, 2) + ",reserved="@ + text::hex(
        desc.reserved[0] as nat,
        2,
    ) + text::hex(desc.reserved[1] as nat, 2) + text::hex(desc.reserved[2] as nat, 2) + "}"@
}

/// Descriptors with commas between them.
pub open spec fn sgl_list_text(entries: Seq<SglDescView>) -> Seq<char>
    decreases entries.len(),
{
    if entries.len() == 0 {
        seq![]
    } else if entries.len() == 1 {
        sgl_desc_text(entries[0])
    } else {
        sgl_list_text(entries.drop_last()) + ","@ + sgl_desc_text(entries.last())
    }
}

/// A tail in words.
pub open spec fn tail_text(tail: SubmitTailView) -> Seq<char> {
    match tail {
        SubmitTailView::Prp(entries) => "["@ + prp_list_text(entries) + "]"@,
        SubmitTailView::Sgl(entries) => "["@ + sgl_list_text(entries) + "]"@,
    }
}

/// A completion in words.
pub open spec fn complete_text(
    path: Seq<char>,
    complete: CompleteRecord,
    offset: u64,
) -> Seq<char> {
    path + ":"@ + text::decimal(offset as nat) + " complete ts="@ + text::decimal(
        complete.header.timestamp_ns as nat,
    ) + " seq="@ + text::decimal(complete.header.seq as nat) + " ctrl=nvme"@ + text::decimal(
        complete.header.ctrl_id as nat,
    ) + " qid="@ + text::decimal(complete.header.qid as nat) + " cid="@ + text::decimal(
        complete.header.cid as nat,
    ) + " result=0x"@ + text::hex(complete.result as nat, 16) + " sq_head="@ + text::decimal(
        complete.sq_head as nat,
    ) + " sq_id="@ + text::decimal(complete.sq_id as nat) + " status=0x"@ + text::hex(
        complete.status as nat,
        4,
    ) + " retries="@ + text::decimal(complete.retries as nat)
}

/// A record in words. `path` names the stream and `offset` the place in it.
pub open spec fn record_text(
    path: Seq<char>,
    record: TraceRecordView,
    offset: u64,
    block_size: u64,
) -> Seq<char> {
    match record {
        TraceRecordView::Submit(submit) => if submit.use_sgl {
            submit_text(path, submit, offset, block_size) + " tail="@ + tail_text(submit.tail)
        } else {
            submit_text(path, submit, offset, block_size) + prps_text(submit) + " tail="@
                + tail_text(submit.tail)
        },
        TraceRecordView::Complete(complete) => complete_text(path, complete, offset),
    }
}

/// Writes a record out.
pub fn format_record(path: &str, record: &TraceRecord, offset: u64, block_size: u64) -> (line:
    String)
    ensures
        line@ == record_text(path@, record@, offset, block_size),
{
    match record {
        TraceRecord::Submit(submit) => {
            let mut line = format_submit(path, submit, offset, block_size);
            if !submit.use_sgl {
                let (prp1, prp2) = submit_prps(submit);
                let mut prps = " mps=".to_owned();
                push_decimal(&mut prps, ASSUMED_NVME_CTRL_PAGE_SIZE as u128);
                prps.append(" prp1=0x");
                push_hex(&mut prps, prp1, 16);
                prps.append(" prp2=0x");
                push_hex(&mut prps, prp2, 16);
                line.append(prps.as_str());
            }
            line.append(" tail=");
            line.append(format_submit_tail(&submit.tail).as_str());
            line
        },
        TraceRecord::Complete(complete) => format_complete(path, complete, offset),
    }
}

#[verifier::rlimit(30)]
fn format_submit(path: &str, submit: &SubmitRecord, offset: u64, block_size: u64) -> (line: String)
    ensures
        line@ == submit_text(path@, submit@, offset, block_size),
{
    let opcode = NvmeOpcode::from(submit.sqe[0]);
    let mut line = path.to_owned();
    line.append(":");
    push_decimal(&mut line, offset as u128);
    line.append(" submit ts=");
    push_decimal(&mut line, submit.header.timestamp_ns as u128);
    line.append(" seq=");
    push_decimal(&mut line, submit.header.seq as u128);
    line.append(" ctrl=nvme");
    push_decimal(&mut line, submit.header.ctrl_id as u128);
    line.append(" qid=");
    push_decimal(&mut line, submit.header.qid as u128);
    line.append(" cid=");
    push_decimal(&mut line, submit.header.cid as u128);
    line.append(" opcode=");
    line.append(opcode.name().as_str());
    line.append(" data_len=");
    push_decimal(&mut line, submit.data_len as u128);
    line.append(" meta_len=");
    push_decimal(&mut line, submit.meta_len as u128);
    line.append(" mode=");
    line.append(if submit.use_sgl {
        "sgl"
    } else {
        "prp"
    });
    line.append(" single_segment=");
    line.append(if submit.single_segment {
        "true"
    } else {
        "false"
    });
    line.append(" tail_entries=");
    push_decimal(&mut line, submit.tail.len() as u128);
    if opcode.is_read_or_write() {
        let nsid = sqe_le_u32(submit, 4);
        let slba = sqe_le_u64(submit, 40);
        let nlb: u64 = sqe_le_u16(submit, 48) as u64 + 1;
        proof {
            lemma_product_fits(slba, block_size);
            lemma_product_fits(nlb, block_size);
        }
        let byte_offset: u128 = slba as u128 * block_size as u128;
        let sqe_data_bytes: u128 = nlb as u128 * block_size as u128;
        let mut blocks = " nsid=".to_owned();
        push_decimal(&mut blocks, nsid as u128);
        blocks.append(" slba=");
        push_decimal(&mut blocks, slba as u128);
        blocks.append(" nlb=");
        push_decimal(&mut blocks, nlb as u128);
        blocks.append(" block_size=");
        push_decimal(&mut blocks, block_size as u128);
        blocks.append(" byte_offset=");
        push_decimal(&mut blocks, byte_offset);
        blocks.append(" sqe_data_bytes=");
        push_decimal(&mut blocks, sqe_data_bytes);
        line.append(blocks.as_str());
    }
    line
}

proof fn lemma_product_fits(a: u64, b: u64)
    ensures
        0 <= a * b <= u128::MAX,
{
    assert(0 <= a * b <= u128::MAX) by (nonlinear_arith)
        requires
            0 <= a <= u64::MAX,
            0 <= b <= u64::MAX,
    ;
}

fn submit_prps(submit: &SubmitRecord) -> (prps: (u64, u64))
    ensures
        prps.0 == bytes::le64(submit.sqe@, 24),
        prps.1 == bytes::le64(submit.sqe@, 32),
{
    (sqe_le_u64(submit, 24), sqe_le_u64(submit, 32))
}

fn sqe_le_u16(submit: &SubmitRecord, offset: usize) -> (value: u16)
    requires
        offset + 2 <= 64,
    ensures
        value == bytes::le16(submit.sqe@, offset as int),
{
    read_le16(submit.sqe.as_slice(), offset)
}

fn sqe_le_u32(submit: &SubmitRecord, offset: usize) -> (value: u32)
    requires
        offset + 4 <= 64,
    ensures
        value == bytes::le32(submit.sqe@, offset as int),
{
    read_le32(submit.sqe.as_slice(), offset)
}

fn sqe_le_u64(submit: &SubmitRecord, offset: usize) -> (value: u64)
    requires
        offset + 8 <= 64,
    ensures
        value == bytes::le64(submit.sqe@, offset as int),
{
    read_le64(submit.sqe.as_slice(), offset)
}

fn format_submit_tail(tail: &SubmitTail) -> (line: String)
    ensures
        line@ == tail_text(tail@),
{
    match tail {
        SubmitTail::Prp(entries) => format_prp_tail(entries.as_slice()),
        SubmitTail::Sgl(entries) => format_sgl_tail(entries.as_slice()),
    }
}

fn format_prp_tail(entries: &[u64]) -> (line: String)
    ensures
        line@ == "["@ + prp_list_text(entries@) + "]"@,
{
    let mut list = String::new();
    let mut i: usize = 0;
    while i < entries.len()
        invariant
            i <= entries.len(),
            list@ == prp_list_text(entries@.take(i as int)),
        decreases entries.len() - i,
    {
        if i == 0 {
            list = "0x".to_owned();
        } else {
            list.append(",0x");
        }
        push_hex(&mut list, entries[i], 16);
        assert(entries@.take(i + 1).drop_last() =~= entries@.take(i as int));
        i = i + 1;
    }
    assert(entries@.take(entries@.len() as int) =~= entries@);
    let mut line = "[".to_owned();
    line.append(list.as_str());
    line.append("]");
    line
}

fn format_sgl_desc(entry: &SglDesc) -> (line: String)
    ensures
        line@ == sgl_desc_text(entry@),
{
    let mut line = "{addr=0x".to_owned();
    push_hex(&mut line, entry.addr, 16);
    line.append(",len=");
    push_decimal(&mut line, entry.length as u128);
    line.append(",type=0x");
    push_hex(&mut line, entry.desc_type as u64, 2);
    line.append(",reserved=");
    push_hex(&mut line, entry.reserved[0] as u64, 2);
    push_hex(&mut line, entry.reserved[1] as u64, 2);
    push_hex(&mut line, entry.reserved[2] as u64, 2);
    line.append("}");
    line
}

fn format_sgl_tail(entries: &[SglDesc]) -> (line: String)
    ensures
        line@ == "["@ + sgl_list_text(entries@.map_values(|entry: SglDesc| entry@)) + "]"@,
{
    let mut list = String::new();
    let mut i: usize = 0;
    let ghost views = entries@.map_values(|entry: SglDesc| entry@);
    while i < entries.len()
        invariant
            i <= entries.len(),
            views == entries@.map_values(|entry: SglDesc| entry@),
            list@ == sgl_list_text(views.take(i as int)),
        decreases entries.len() - i,
    {
        let desc = format_sgl_desc(&entries[i]);
        if i == 0 {
            list = desc;
        } else {
            list.append(",");
            list.append(desc.as_str());
        }
        assert(views.take(i + 1).drop_last() =~= views.take(i as int));
        i = i + 1;
    }
    assert(views.take(views.len() as int) =~= views);
    let mut line = "[".to_owned();
    line.append(list.as_str());
    line.append("]");
    line
}

fn format_complete(path: &str, complete: &CompleteRecord, offset: u64) -> (line: String)
    ensures
        line@ == complete_text(path@, *complete, offset),
{
    let mut line = path.to_owned();
    line.append(":");
    push_decimal(&mut line, offset as u128);
    line.append(" complete ts=");
    push_decimal(&mut line, complete.header.timestamp_ns as u128);
    line.append(" seq=");
    push_decimal(&mut line, complete.header.seq as u128);
    line.append(" ctrl=nvme");
    push_decimal(&mut line, complete.header.ctrl_id as u128);
    line.append(" qid=");
    push_decimal(&mut line, complete.header.qid as u128);
    line.append(" cid=");
    push_decimal(&mut line, complete.header.cid as u128);
    line.append(" result=0x");
    push_hex(&mut line, complete.result, 16);
    line.append(" sq_head=");
    push_decimal(&mut line, complete.sq_head as u128);
    line.append(" sq_id=");
    push_decimal(&mut line, complete.sq_id as u128);
    line.append(" status=0x");
    push_hex(&mut line, complete.status as u64, 4);
    line.append(" retries=");
    push_decimal(&mut line, complete.retries as u128);
    line
}

/// A record as a line.
#[verifier::opaque]
pub open spec fn line_text(path: Seq<char>, raw: RawRecordView, block_size: u64) -> Seq<char> {
    record_text(path, raw.record, raw.offset, block_size) + "\n"@
}

/// Records as lines.
pub open spec fn lines_text(path: Seq<char>, records: Seq<RawRecordView>, block_size: u64) -> Seq<
    char,
>
    decreases records.len(),
{
    if records.len() == 0 {
        seq![]
    } else {
        lines_text(path, records.drop_last(), block_size) + line_text(
            path,
            records.last(),
            block_size,
        )
    }
}

proof fn lemma_lines_split(
    path: Seq<char>,
    a: Seq<RawRecordView>,
    b: Seq<RawRecordView>,
    block_size: u64,
)
    ensures
        lines_text(path, a + b, block_size) == lines_text(path, a, block_size) + lines_text(
            path,
            b,
            block_size,
        ),
    decreases b.len(),
{
    if b.len() == 0 {
        assert(a + b =~= a);
        assert(lines_text(path, a, block_size) + lines_text(path, b, block_size) =~= lines_text(
            path,
            a,
            block_size,
        ));
    } else {
        lemma_lines_split(path, a, b.drop_last(), block_size);
        assert((a + b).drop_last() =~= a + b.drop_last());
        assert(lines_text(path, a + b, block_size) =~= lines_text(path, a, block_size)
            + lines_text(path, b, block_size));
    }
}

fn format_line(path: &str, raw: &RawRecord, block_size: u64) -> (line: String)
    ensures
        line@ == line_text(path@, raw@, block_size),
{
    reveal(line_text);
    let mut line = format_record(path, &raw.record, raw.offset, block_size);
    line.append("\n");
    line
}

/// A block size of zero was asked for.
#[derive(Debug, Clone, Copy, PartialEq, Eq, Structural)]
pub struct ZeroBlockSize;

/// Refuses a block size of zero.
pub fn check_block_size(block_size: u64) -> (result: std::result::Result<(), ZeroBlockSize>)
    ensures
        result is Err <==> block_size == 0,
{
    if block_size == 0 {
        Err(ZeroBlockSize)
    } else {
        Ok(())
    }
}

/// Prints the records of a stream, one on a line, up to its end or to the first
/// thing wrong with it.
#[verifier::rlimit(30)]
pub fn print_stream<R: ByteSource, W: TextSink>(
    reader: &mut RecordReader<R>,
    path: &str,
    block_size: u64,
    output: &mut W,
) -> (result: Result<()>)
    requires
        old(reader).wf(),
    ensures
        ({
            let input = old(reader).source().remaining();
            let start = old(output).written();
            let all = lines_text(
                path@,
                trace::records_in(input, old(reader).position()),
                block_size,
            );
            match result {
                Ok(()) => {
                    &&& trace::ending(input, old(reader).position()) is None
                    &&& final(output).written() == start + all
                },
                Err(TraceError::Io(err)) => {
                    &&& old(reader).source().failure() == Some(err) || old(output).failure()
                        == Some(err)
                    &&& start.is_prefix_of(final(output).written())
                    &&& final(output).written().is_prefix_of(start + all)
                },
                Err(err) => {
                    &&& trace::ending(input, old(reader).position()) == Some(err)
                    &&& final(output).written() == start + all
                },
            }
        }),
{
    let ghost all = trace::records_in(reader.source().remaining(), reader.position());
    let ghost end = trace::ending(reader.source().remaining(), reader.position());
    let ghost mut done: Seq<RawRecordView> = seq![];
    let ghost start = output.written();
    proof {
        assert(done + all =~= all);
        assert(start + lines_text(path@, done, block_size) =~= start);
    }
    loop
        invariant
            reader.wf(),
            reader.source().failure() == old(reader).source().failure(),
            output.failure() == old(output).failure(),
            start == old(output).written(),
            all == trace::records_in(old(reader).source().remaining(), old(reader).position()),
            end == trace::ending(old(reader).source().remaining(), old(reader).position()),
            end == trace::ending(reader.source().remaining(), reader.position()),
            all == done + trace::records_in(reader.source().remaining(), reader.position()),
            output.written() == start + lines_text(path@, done, block_size),
        decreases reader.source().left(),
    {
        let ghost input = reader.source().remaining();
        let ghost at = reader.position();
        let ghost rest = trace::records_in(input, at);
        proof {
            trace::lemma_first_record(input, at);
            lemma_lines_split(path@, done, rest, block_size);
        }
        match reader.next_record() {
            Ok(Some(raw)) => {
                let ghost after = done.push(raw@);
                let ghost rest_after = trace::records_in(
                    reader.source().remaining(),
                    reader.position(),
                );
                proof {
                    assert(after.drop_last() =~= done);
                    assert(done + rest =~= after + rest_after);
                    lemma_lines_split(path@, after, rest_after, block_size);
                }
                let line = format_line(path, &raw, block_size);
                if let Err(err) = output.write_text(line.as_str()) {
                    assert(start + lines_text(path@, after, block_size) =~= start + lines_text(
                        path@,
                        done,
                        block_size,
                    ) + line@);
                    return Err(TraceError::from(err));
                }
                proof {
                    assert(output.written() =~= start + lines_text(path@, after, block_size));
                    done = after;
                }
            },
            Ok(None) => {
                assert(done + rest =~= done);
                return Ok(());
            },
            Err(err) => {
                assert(!(err is Io) ==> rest =~= seq![]);
                assert(!(err is Io) ==> done + rest =~= done);
                return Err(err);
            },
        }
    }
}

} // verus!
