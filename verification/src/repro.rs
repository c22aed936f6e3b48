//! Looking for duplicate records in a relay buffer.
//!
//! A record is twenty-four bytes: a magic number, a sequence number, a
//! timestamp and a value that its producer toggles. A record that does not come
//! above the last sequence number, with the same value, is a duplicate: the
//! reader was handed stale data. Duplicates do not move the last sequence
//! number, so all the stale records behind fresh ones are found.

use crate::bytes::{self, push_le64, read_le32, read_le64};
use crate::text::{self, push_decimal, push_decimal_padded, push_hex};
use vstd::prelude::*;
use vstd::slice::slice_subrange;

verus! {

pub const RECORD_SIZE: usize = 24;

pub const READ_BUF: usize = 262_144;

pub const REPRO_MAGIC: u32 = 0xDEAD_BEEF;

/// How many records there are between two reports.
pub const REPORT_EVERY: u64 = 1_000_000;

/// A line of output, and whether it is a complaint.
#[derive(Debug, Clone, PartialEq, Eq)]
pub struct Line {
    pub complaint: bool,
    pub text: String,
}

/// What a line says.
#[verifier::ext_equal]
pub struct LineView {
    pub complaint: bool,
    pub text: Seq<char>,
}

impl View for Line {
    type V = LineView;

    open spec fn view(&self) -> LineView {
        LineView { complaint: self.complaint, text: self.text@ }
    }
}

/// What lines say.
pub open spec fn line_views(lines: Seq<Line>) -> Seq<LineView> {
    lines.map_values(|line: Line| line@)
}

/// The character that stands for a byte: itself where it is printable.
pub open spec fn shown(byte: u8) -> char {
    if 0x20 <= byte <= 0x7e {
        byte as char
    } else {
        '.'
    }
}

/// The bytes of a row in base sixteen.
pub open spec fn hex_cells(row: Seq<u8>) -> Seq<char>
    decreases row.len(),
{
    if row.len() == 0 {
        seq![]
    } else {
        hex_cells(row.drop_last()) + " "@ + text::hex(row.last() as nat, 2)
    }
}

/// The bytes of a row as characters.
pub open spec fn shown_row(row: Seq<u8>) -> Seq<char> {
    row.map_values(|byte: u8| shown(byte))
}

/// A row of at most sixteen bytes, the first of which stands at `at`.
pub open spec fn dump_row(at: nat, row: Seq<u8>) -> Seq<char> {
    text::hex(at, 4) + ":"@ + hex_cells(row) + text::spaces(3 * (16 - row.len())) + "  |"@
        + shown_row(row) + "|\n"@
}

/// Bytes in rows of sixteen, from `at` on.
pub open spec fn dump_from(buf: Seq<u8>, at: nat) -> Seq<char>
    decreases buf.len() - at,
{
    if at >= buf.len() {
        seq![]
    } else if buf.len() - at <= 16 {
        dump_row(at, buf.skip(at as int))
    } else {
        dump_row(at, buf.subrange(at as int, at as int + 16)) + dump_from(buf, at + 16)
    }
}

/// Bytes in rows of sixteen, each with its place, in base sixteen and as
/// characters.
pub open spec fn dump(buf: Seq<u8>) -> Seq<char> {
    dump_from(buf, 0)
}

fn show(byte: u8) -> (c: char)
    ensures
        c == shown(byte),
{
    if 0x20 <= byte && byte <= 0x7e {
        byte as char
    } else {
        '.'
    }
}

fn format_dump_row(at: u64, row: &[u8]) -> (out: String)
    requires
        row.len() <= 16,
    ensures
        out@ == dump_row(at as nat, row@),
{
    let mut out = String::new();
    push_hex(&mut out, at, 4);
    assert(out@ =~= text::hex(at as nat, 4));
    out.append(":");
    let ghost head = out@;
    let mut i: usize = 0;
    assert(head + hex_cells(row@.take(0)) =~= head);
    while i < row.len()
        invariant
            i <= row@.len(),
            out@ == head + hex_cells(row@.take(i as int)),
        decreases row@.len() - i,
    {
        assert(row@.take(i + 1).drop_last() =~= row@.take(i as int));
        out.append(" ");
        push_hex(&mut out, row[i] as u64, 2);
        assert(out@ =~= head + hex_cells(row@.take(i + 1)));
        i = i + 1;
    }
    assert(row@.take(row@.len() as int) =~= row@);
    let ghost cells = out@;
    let mut left: usize = 3 * (16 - row.len());
    let ghost total = left;
    assert(cells + text::spaces(0) =~= cells);
    while left > 0
        invariant
            left <= total,
            out@ == cells + text::spaces(total - left),
        decreases left,
    {
        out.push(' ');
        left = left - 1;
        assert(out@ =~= cells + text::spaces(total - left));
    }
    out.append("  |");
    let ghost before = out@;
    let mut j: usize = 0;
    assert(before + shown_row(row@.take(0)) =~= before);
    while j < row.len()
        invariant
            j <= row@.len(),
            out@ == before + shown_row(row@.take(j as int)),
        decreases row@.len() - j,
    {
        out.push(show(row[j]));
        assert(out@ =~= before + shown_row(row@.take(j + 1)));
        j = j + 1;
    }
    assert(row@.take(row@.len() as int) =~= row@);
    out.append("|\n");
    out
}

/// Writes bytes in rows of sixteen, each with its place, in base sixteen and as
/// characters.
pub fn hexdump(buf: &[u8]) -> (out: String)
    ensures
        out@ == dump(buf@),
{
    let mut out = String::new();
    let mut at: usize = 0;
    while at < buf.len()
        invariant
            at <= buf@.len(),
            dump(buf@) =~= out@ + dump_from(buf@, at as nat),
        decreases buf@.len() - at,
    {
        let len: usize = if buf.len() - at < 16 {
            buf.len() - at
        } else {
            16
        };
        let row = slice_subrange(buf, at, at + len);
        let ghost before = out@;
        proof {
            if buf@.len() - at <= 16 {
                assert(row@ =~= buf@.skip(at as int));
                assert(dump_from(buf@, (at + len) as nat) =~= seq![]);
            }
            assert(dump_from(buf@, at as nat) =~= dump_row(at as nat, row@) + dump_from(
                buf@,
                (at + len) as nat,
            ));
        }
        let line = format_dump_row(at as u64, row);
        out.append(line.as_str());
        assert(dump(buf@) =~= out@ + dump_from(buf@, (at + len) as nat));
        at = at + len;
    }
    out
}

/// What a record carries beside its magic number and its timestamp.
#[derive(Debug, Clone, Copy, PartialEq, Eq, Structural)]
pub struct ReproRec {
    pub seq: u32,
    pub fill: u64,
}

/// The record at `at`, if it starts with the magic number.
pub open spec fn record_at(buf: Seq<u8>, at: int) -> Option<ReproRec> {
    if bytes::le32(buf, at) == REPRO_MAGIC {
        Some(ReproRec { seq: bytes::le32(buf, at + 4), fill: bytes::le64(buf, at + 16) })
    } else {
        None
    }
}

/// What the detector remembers.
#[derive(Debug, Clone, Copy, PartialEq, Eq, Structural)]
pub struct ReproState {
    pub last_seq: Option<u32>,
    pub last_toggle: Option<u64>,
    pub total: u64,
    pub dups: u64,
    pub last_report: u64,
}

impl ReproState {
    /// There are no more duplicates than records, and no more records were
    /// reported than there are.
    pub open spec fn wf(&self) -> bool {
        self.dups <= self.total && self.last_report <= self.total
    }

    /// Tells whether a record is a duplicate: its sequence number is not above
    /// the last one, and its toggling value is the last one.
    pub open spec fn is_dup(&self, rec: ReproRec) -> bool {
        self.last_seq matches Some(last) && rec.seq <= last && self.last_toggle == Some(rec.fill)
    }

    /// The state after one more record. A duplicate does not move the last
    /// sequence number.
    pub open spec fn after(&self, rec: ReproRec) -> ReproState {
        ReproState {
            last_seq: if self.is_dup(rec) {
                self.last_seq
            } else {
                Some(rec.seq)
            },
            last_toggle: Some(rec.fill),
            total: (self.total + 1) as u64,
            dups: if self.is_dup(rec) {
                (self.dups + 1) as u64
            } else {
                self.dups
            },
            last_report: self.last_report,
        }
    }
}

/// The complaint that shows bytes.
pub open spec fn dump_line(buf: Seq<u8>) -> LineView {
    LineView { complaint: true, text: dump(buf) }
}

/// The complaint about bytes that are no record.
pub open spec fn bad_magic_line(buf: Seq<u8>, at: int) -> LineView {
    LineView {
        complaint: true,
        text: "bad magic 0x"@ + text::hex(bytes::le32(buf, at) as nat, 8) + " at offset "@
            + text::decimal(at as nat) + "\n"@,
    }
}

/// The line about a duplicate.
pub open spec fn dup_line(at: int, rec: ReproRec, last: u32) -> LineView {
    LineView {
        complaint: false,
        text: "DUP  off="@ + text::padded(text::decimal(at as nat), 14) + "  seq="@ + text::padded(
            text::decimal(rec.seq as nat),
            10,
        ) + "  prev="@ + text::decimal(last as nat) + "\n"@,
    }
}

/// The complaint about a number of bytes that is no whole number of records.
pub open spec fn odd_size_line(len: nat) -> LineView {
    LineView {
        complaint: true,
        text: "warning: read "@ + text::decimal(len) + " bytes — not a multiple of "@
            + text::decimal(RECORD_SIZE as nat) + " (record_size)\n"@,
    }
}

/// The line that reports how many records there were so far.
pub open spec fn report_line(state: ReproState) -> LineView {
    LineView {
        complaint: false,
        text: "  "@ + text::decimal(state.total as nat) + " records  "@ + text::decimal(
            state.dups as nat,
        ) + " dups\n"@,
    }
}

/// The lines about a record that is looked at in some state.
pub open spec fn record_lines(
    buf: Seq<u8>,
    at: int,
    rec: ReproRec,
    state: ReproState,
) -> Seq<LineView> {
    if state.is_dup(rec) {
        seq![dup_line(at, rec, state.last_seq.unwrap()), dump_line(buf)]
    } else {
        seq![]
    }
}

/// The state after the records of `buf` from `at` on. Where no record starts,
/// the search goes on at the next byte.
pub open spec fn state_after(buf: Seq<u8>, at: int, state: ReproState) -> ReproState
    decreases buf.len() - at,
{
    if at + RECORD_SIZE > buf.len() {
        state
    } else {
        match record_at(buf, at) {
            None => state_after(buf, at + 1, state),
            Some(rec) => state_after(buf, at + RECORD_SIZE, state.after(rec)),
        }
    }
}

/// The lines about the records of `buf` from `at` on.
pub open spec fn scan_lines(buf: Seq<u8>, at: int, state: ReproState) -> Seq<LineView>
    decreases buf.len() - at,
{
    if at + RECORD_SIZE > buf.len() {
        seq![]
    } else {
        match record_at(buf, at) {
            None => seq![bad_magic_line(buf, at), dump_line(buf)] + scan_lines(buf, at + 1, state),
            Some(rec) => record_lines(buf, at, rec, state) + scan_lines(
                buf,
                at + RECORD_SIZE,
                state.after(rec),
            ),
        }
    }
}

/// The lines about the size of what was read.
pub open spec fn size_lines(buf: Seq<u8>) -> Seq<LineView> {
    if buf.len() % RECORD_SIZE as nat != 0 {
        seq![odd_size_line(buf.len()), dump_line(buf)]
    } else {
        seq![]
    }
}

/// The lines that report progress. A report is due after so many records.
pub open spec fn progress_lines(state: ReproState) -> Seq<LineView> {
    if state.total - state.last_report >= REPORT_EVERY {
        seq![report_line(state)]
    } else {
        seq![]
    }
}

/// The state once progress is reported, where a report is due.
pub open spec fn reported(state: ReproState) -> ReproState {
    if state.total - state.last_report >= REPORT_EVERY {
        ReproState { last_report: state.total, ..state }
    } else {
        state
    }
}

proof fn lemma_state_bounded(buf: Seq<u8>, at: int, state: ReproState)
    requires
        state.wf(),
        0 <= at <= buf.len(),
        state.total + (buf.len() - at) <= u64::MAX,
    ensures
        state_after(buf, at, state).wf(),
        state_after(buf, at, state).total <= state.total + (buf.len() - at),
    decreases buf.len() - at,
{
    if at + RECORD_SIZE <= buf.len() {
        match record_at(buf, at) {
            None => {
                lemma_state_bounded(buf, at + 1, state);
            },
            Some(rec) => {
                lemma_state_bounded(buf, at + RECORD_SIZE, state.after(rec));
            },
        }
    }
}

fn read_record(buf: &[u8], at: usize) -> (rec: Option<ReproRec>)
    requires
        at + RECORD_SIZE <= buf.len(),
    ensures
        rec == record_at(buf@, at as int),
{
    if read_le32(buf, at) == REPRO_MAGIC {
        Some(ReproRec { seq: read_le32(buf, at + 4), fill: read_le64(buf, at + 16) })
    } else {
        None
    }
}

fn complain(text: String) -> (line: Line)
    ensures
        line@ == (LineView { complaint: true, text: text@ }),
{
    Line { complaint: true, text }
}

fn tell(text: String) -> (line: Line)
    ensures
        line@ == (LineView { complaint: false, text: text@ }),
{
    Line { complaint: false, text }
}

fn format_bad_magic(buf: &[u8], at: usize) -> (line: Line)
    requires
        at + RECORD_SIZE <= buf.len(),
    ensures
        line@ == bad_magic_line(buf@, at as int),
{
    let mut out = "bad magic 0x".to_owned();
    push_hex(&mut out, read_le32(buf, at) as u64, 8);
    out.append(" at offset ");
    push_decimal(&mut out, at as u128);
    out.append("\n");
    complain(out)
}

fn format_dup(at: usize, rec: ReproRec, last: u32) -> (line: Line)
    ensures
        line@ == dup_line(at as int, rec, last),
{
    let mut out = "DUP  off=".to_owned();
    push_decimal_padded(&mut out, at as u64, 14);
    out.append("  seq=");
    push_decimal_padded(&mut out, rec.seq as u64, 10);
    out.append("  prev=");
    push_decimal(&mut out, last as u128);
    out.append("\n");
    tell(out)
}

fn format_odd_size(len: usize) -> (line: Line)
    ensures
        line@ == odd_size_line(len as nat),
{
    let mut out = "warning: read ".to_owned();
    push_decimal(&mut out, len as u128);
    out.append(" bytes — not a multiple of ");
    push_decimal(&mut out, RECORD_SIZE as u128);
    out.append(" (record_size)\n");
    complain(out)
}

impl ReproState {
    /// The state before any record.
    pub fn new() -> (state: Self)
        ensures
            state.wf(),
            state == (ReproState {
                last_seq: None,
                last_toggle: None,
                total: 0,
                dups: 0,
                last_report: 0,
            }),
    {
        ReproState { last_seq: None, last_toggle: None, total: 0, dups: 0, last_report: 0 }
    }

    fn format_report(&self) -> (line: Line)
        ensures
            line@ == report_line(*self),
    {
        let mut out = "  ".to_owned();
        push_decimal(&mut out, self.total as u128);
        out.append(" records  ");
        push_decimal(&mut out, self.dups as u128);
        out.append(" dups\n");
        tell(out)
    }

    /// Looks at one record.
    fn take(&mut self, buf: &[u8], at: usize, rec: ReproRec, lines: &mut Vec<Line>)
        requires
            old(self).wf(),
            old(self).total < u64::MAX,
        ensures
            *final(self) == old(self).after(rec),
            final(self).wf(),
            line_views(final(lines)@) == line_views(old(lines)@) + record_lines(
                buf@,
                at as int,
                rec,
                *old(self),
            ),
    {
        let mut is_dup = false;
        if let Some(last) = self.last_seq {
            let same_toggle = match self.last_toggle {
                Some(toggle) => toggle == rec.fill,
                None => false,
            };
            if rec.seq <= last && same_toggle {
                lines.push(format_dup(at, rec, last));
                lines.push(complain(hexdump(buf)));
                self.dups = self.dups + 1;
                is_dup = true;
            }
        }
        if !is_dup {
            self.last_seq = Some(rec.seq);
        }
        self.last_toggle = Some(rec.fill);
        self.total = self.total + 1;
        assert(line_views(lines@) =~= line_views(old(lines)@) + record_lines(
            buf@,
            at as int,
            rec,
            *old(self),
        ));
    }

    /// Looks at the records of what was read. Gives the lines to be printed.
    #[verifier::rlimit(30)]
    pub fn read_chunk(&mut self, buf: &[u8]) -> (lines: Vec<Line>)
        requires
            old(self).wf(),
            old(self).total + buf.len() <= u64::MAX,
        ensures
            final(self).wf(),
            *final(self) == reported(state_after(buf@, 0, *old(self))),
            line_views(lines@) == size_lines(buf@) + scan_lines(buf@, 0, *old(self))
                + progress_lines(state_after(buf@, 0, *old(self))),
    {
        let mut lines: Vec<Line> = Vec::new();
        let n: usize = buf.len();
        if n % RECORD_SIZE != 0 {
            lines.push(format_odd_size(n));
            lines.push(complain(hexdump(buf)));
        }
        let ghost head = line_views(lines@);
        proof {
            assert(head =~= size_lines(buf@));
            lemma_state_bounded(buf@, 0, *old(self));
        }
        let mut offset: usize = 0;
        let ghost scanned = scan_lines(buf@, 0, *old(self));
        assert(head + scanned =~= line_views(lines@) + scan_lines(buf@, 0, *self));
        while n - offset >= RECORD_SIZE
            invariant
                n == buf@.len(),
                offset <= n,
                self.wf(),
                self.total + (n - offset) <= u64::MAX,
                state_after(buf@, offset as int, *self) == state_after(buf@, 0, *old(self)),
                head + scanned == line_views(lines@) + scan_lines(buf@, offset as int, *self),
            decreases n - offset,
        {
            let ghost before = line_views(lines@);
            let ghost state = *self;
            let ghost at = offset as int;
            match read_record(buf, offset) {
                None => {
                    lines.push(format_bad_magic(buf, offset));
                    lines.push(complain(hexdump(buf)));
                    offset = offset + 1;
                    proof {
                        let more = seq![bad_magic_line(buf@, at), dump_line(buf@)];
                        assert(line_views(lines@) =~= before + more);
                        assert(head + scanned =~= before + more + scan_lines(
                            buf@,
                            at + 1,
                            state,
                        ));
                    }
                },
                Some(rec) => {
                    self.take(buf, offset, rec, &mut lines);
                    offset = offset + RECORD_SIZE;
                    proof {
                        let more = record_lines(buf@, at, rec, state);
                        assert(head + scanned =~= before + more + scan_lines(
                            buf@,
                            at + RECORD_SIZE,
                            state.after(rec),
                        ));
                    }
                },
            }
        }
        proof {
            assert(line_views(lines@) + scan_lines(buf@, offset as int, *self) =~= line_views(
                lines@,
            ));
        }
        let ghost body = line_views(lines@);
        let ghost state = *self;
        if self.total - self.last_report >= REPORT_EVERY {
            lines.push(self.format_report());
            self.last_report = self.total;
        }
        assert(line_views(lines@) =~= body + progress_lines(state));
        lines
    }

    /// The line that ends the output.
    pub fn format_total(&self) -> (line: String)
        ensures
            line@ == total_text(*self),
    {
        let mut out = "\nTotal: ".to_owned();
        push_decimal(&mut out, self.total as u128);
        out.append(" records  ");
        push_decimal(&mut out, self.dups as u128);
        out.append(" duplicates\n");
        out
    }

    /// The exit code: one where duplicates were found.
    pub fn exit_code(&self) -> (code: i32)
        ensures
            code == if self.dups > 0 {
                1int
            } else {
                0int
            },
    {
        if self.dups > 0 {
            1
        } else {
            0
        }
    }
}

/// The line that ends the output.
pub open spec fn total_text(state: ReproState) -> Seq<char> {
    "\nTotal: "@ + text::decimal(state.total as nat) + " records  "@ + text::decimal(
        state.dups as nat,
    ) + " duplicates\n"@
}

/// The line that starts the output.
pub open spec fn start_text(path: Seq<char>, cpu: u64, no_poll: bool) -> Seq<char> {
    "Reading "@ + path + "  cpu="@ + text::decimal(cpu as nat) + "  mode="@ + (if no_poll {
        "no-poll"@
    } else {
        "poll"@
    }) + "  (Ctrl-C to stop)\n"@
}

/// What was read, framed for the log: the time and the number of bytes, then the
/// bytes.
pub open spec fn chunk_bytes(timestamp_ns: u64, data: Seq<u8>) -> Seq<u8> {
    bytes::le64_bytes(timestamp_ns) + bytes::le64_bytes(data.len() as u64) + data
}

/// Writes the line that starts the output.
pub fn format_start(path: &str, cpu: u64, no_poll: bool) -> (line: String)
    ensures
        line@ == start_text(path@, cpu, no_poll),
{
    let mut out = "Reading ".to_owned();
    out.append(path);
    out.append("  cpu=");
    push_decimal(&mut out, cpu as u128);
    out.append("  mode=");
    out.append(if no_poll {
        "no-poll"
    } else {
        "poll"
    });
    out.append("  (Ctrl-C to stop)\n");
    out
}

/// Frames what was read for the log: the time and the number of bytes, then the
/// bytes.
pub fn log_chunk(timestamp_ns: u64, data: &[u8]) -> (chunk: Vec<u8>)
    ensures
        chunk@ == chunk_bytes(timestamp_ns, data@),
{
    let mut chunk: Vec<u8> = Vec::new();
    push_le64(&mut chunk, timestamp_ns);
    push_le64(&mut chunk, data.len() as u64);
    chunk.extend_from_slice(data);
    assert(chunk@ =~= bytes::le64_bytes(timestamp_ns) + bytes::le64_bytes(data@.len() as u64)
        + data@);
    chunk
}

/// From `at` on, `buf` holds whole records and nothing else.
pub open spec fn whole_records(buf: Seq<u8>, at: int) -> bool {
    &&& 0 <= at <= buf.len()
    &&& (buf.len() - at) % (RECORD_SIZE as int) == 0
    &&& forall|k: int|
        at <= at + RECORD_SIZE * k < buf.len() && 0 <= k ==> (#[trigger] record_at(
            buf,
            at + RECORD_SIZE * k,
        )) is Some
}

/// From `at` on, the records have increasing sequence numbers, all above `last`.
pub open spec fn increasing(buf: Seq<u8>, at: int, last: Option<u32>) -> bool
    decreases buf.len() - at,
{
    if at + RECORD_SIZE > buf.len() {
        true
    } else {
        match record_at(buf, at) {
            Some(rec) => (last matches Some(l) ==> l < rec.seq) && increasing(
                buf,
                at + RECORD_SIZE,
                Some(rec.seq),
            ),
            None => false,
        }
    }
}

proof fn lemma_whole_step(buf: Seq<u8>, at: int)
    requires
        whole_records(buf, at),
        at < buf.len(),
    ensures
        at + RECORD_SIZE <= buf.len(),
        record_at(buf, at) is Some,
        whole_records(buf, at + RECORD_SIZE),
{
    assert(record_at(buf, at + RECORD_SIZE * 0) is Some);
    assert forall|k: int|
        at + RECORD_SIZE <= at + RECORD_SIZE + RECORD_SIZE * k < buf.len() && 0 <= k implies (
    #[trigger] record_at(buf, at + RECORD_SIZE + RECORD_SIZE * k)) is Some by {
        assert(at + RECORD_SIZE * (k + 1) == at + RECORD_SIZE + RECORD_SIZE * k);
        assert(record_at(buf, at + RECORD_SIZE * (k + 1)) is Some);
    }
}

/// Every one of whole records is counted, once.
pub proof fn whole_records_are_counted(buf: Seq<u8>, at: int, state: ReproState)
    requires
        whole_records(buf, at),
        state.total + (buf.len() - at) <= u64::MAX,
    ensures
        state_after(buf, at, state).total == state.total + (buf.len() - at) / (RECORD_SIZE as int),
    decreases buf.len() - at,
{
    if at < buf.len() {
        lemma_whole_step(buf, at);
        let rec = record_at(buf, at).unwrap();
        whole_records_are_counted(buf, at + RECORD_SIZE, state.after(rec));
    }
}

/// Records with increasing sequence numbers are no duplicates, and nothing is
/// said about them.
pub proof fn increasing_records_are_no_duplicates(buf: Seq<u8>, at: int, state: ReproState)
    requires
        0 <= at,
        increasing(buf, at, state.last_seq),
    ensures
        state_after(buf, at, state).dups == state.dups,
        scan_lines(buf, at, state).len() == 0,
    decreases buf.len() - at,
{
    if at + RECORD_SIZE <= buf.len() {
        let rec = record_at(buf, at).unwrap();
        increasing_records_are_no_duplicates(buf, at + RECORD_SIZE, state.after(rec));
    }
}

/// From `at` on, the records do not come above `last` and have the value `fill`.
pub open spec fn stale(buf: Seq<u8>, at: int, last: u32, fill: u64) -> bool
    decreases buf.len() - at,
{
    if at + RECORD_SIZE > buf.len() {
        true
    } else {
        match record_at(buf, at) {
            Some(rec) => rec.seq <= last && rec.fill == fill && stale(
                buf,
                at + RECORD_SIZE,
                last,
                fill,
            ),
            None => false,
        }
    }
}

/// Stale records are all duplicates, however many there are, and each is told.
pub proof fn stale_records_are_duplicates(buf: Seq<u8>, at: int, state: ReproState)
    requires
        whole_records(buf, at),
        state.wf(),
        state.total + (buf.len() - at) <= u64::MAX,
        state.last_seq is Some,
        state.last_toggle is Some,
        stale(buf, at, state.last_seq.unwrap(), state.last_toggle.unwrap()),
    ensures
        ({
            let count = (buf.len() - at) / (RECORD_SIZE as int);
            &&& state_after(buf, at, state).dups == state.dups + count
            &&& state_after(buf, at, state).last_seq == state.last_seq
            &&& scan_lines(buf, at, state).len() == 2 * count
            &&& forall|k: int|
                0 <= k < count ==> #[trigger] scan_lines(buf, at, state)[2 * k] == dup_line(
                    at + RECORD_SIZE * k,
                    record_at(buf, at + RECORD_SIZE * k).unwrap(),
                    state.last_seq.unwrap(),
                )
            &&& forall|k: int|
                0 <= k < count ==> #[trigger] scan_lines(buf, at, state)[2 * k + 1] == (LineView {
                    complaint: true,
                    text: dump(buf),
                })
        }),
    decreases buf.len() - at,
{
    if at < buf.len() {
        lemma_whole_step(buf, at);
        let rec = record_at(buf, at).unwrap();
        let next = at + RECORD_SIZE;
        stale_records_are_duplicates(buf, next, state.after(rec));
        let lines = scan_lines(buf, at, state);
        let rest = scan_lines(buf, next, state.after(rec));
        let count = (buf.len() - at) / (RECORD_SIZE as int);
        assert forall|k: int| 0 <= k < count implies #[trigger] lines[2 * k] == dup_line(
            at + RECORD_SIZE * k,
            record_at(buf, at + RECORD_SIZE * k).unwrap(),
            state.last_seq.unwrap(),
        ) by {
            if k > 0 {
                assert(lines[2 * k] == rest[2 * (k - 1)]);
                assert(next + RECORD_SIZE * (k - 1) == at + RECORD_SIZE * k);
            }
        }
        assert forall|k: int| 0 <= k < count implies #[trigger] lines[2 * k + 1] == (LineView {
            complaint: true,
            text: dump(buf),
        }) by {
            if k > 0 {
                assert(lines[2 * k + 1] == rest[2 * (k - 1) + 1]);
            }
        }
    }
}

/// A record that does not come above the last one but has another value is no
/// duplicate.
pub proof fn toggled_records_are_no_duplicates(state: ReproState, first: ReproRec, second: ReproRec)
    requires
        first.fill != second.fill,
    ensures
        !state.after(first).is_dup(second),
{
}

/// A logged chunk tells its time, its length and its bytes.
pub proof fn logged_chunk_reads_back(timestamp_ns: u64, data: Seq<u8>)
    requires
        data.len() <= u64::MAX,
    ensures
        ({
            let chunk = chunk_bytes(timestamp_ns, data);
            &&& bytes::le64(chunk, 0) == timestamp_ns
            &&& bytes::le64(chunk, 8) == data.len()
            &&& chunk.skip(16) == data
        }),
{
    broadcast use crate::bytes::lemma_le_bytes_len;

    let chunk = chunk_bytes(timestamp_ns, data);
    assert(chunk.subrange(0, 8) =~= bytes::le64_bytes(timestamp_ns));
    assert(chunk.subrange(8, 16) =~= bytes::le64_bytes(data.len() as u64));
    bytes::lemma_le64_at(chunk, 0, timestamp_ns);
    bytes::lemma_le64_at(chunk, 8, data.len() as u64);
    assert(chunk.skip(16) =~= data);
}

} // verus!
