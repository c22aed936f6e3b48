//! What the detector of duplicates finds and says.

use crate::bytes;
use crate::record_laws;
use crate::repro::{self, LineView, ReproRec, ReproState};
use crate::text;
use crate::text_laws;
use vstd::prelude::*;

verus! {

/// A record starts with the bytes EF BE AD DE; then come its sequence number, a
/// timestamp, which has no say, and its toggling value.
pub proof fn records_start_with_their_magic(buf: Seq<u8>, at: int)
    requires
        0 <= at,
        at + 24 <= buf.len(),
    ensures
        repro::record_at(buf, at) is Some <==> buf[at] == 0xef && buf[at + 1] == 0xbe && buf[at + 2]
            == 0xad && buf[at + 3] == 0xde,
        repro::record_at(buf, at) matches Some(rec) ==> {
            &&& rec.seq == buf[at + 4] + 0x100 * buf[at + 5] + 0x1_0000 * buf[at + 6] + 0x100_0000
                * buf[at + 7]
            &&& rec.fill == bytes::le32(buf, at + 16) + 0x1_0000_0000 * bytes::le32(buf, at + 20)
        },
{
    record_laws::le32_is_four_bytes(buf, at);
    record_laws::le32_is_four_bytes(buf, at + 4);
    record_laws::le64_is_two_halves(buf, at + 16);
}

/// No record starts from `at` up to `to`.
pub open spec fn no_record_between(buf: Seq<u8>, at: int, to: int) -> bool {
    forall|k: int| at <= k < to ==> (#[trigger] repro::record_at(buf, k)) is None
}

/// The lines tell of place `at + j` that no record starts there, and show the
/// bytes.
pub open spec fn complains_of(lines: Seq<LineView>, buf: Seq<u8>, at: int, j: int) -> bool {
    &&& lines[2 * j] == repro::bad_magic_line(buf, at + j)
    &&& lines[2 * j + 1] == (LineView { complaint: true, text: repro::dump(buf) })
}

/// Records behind bytes that are none are found, wherever they start: the bytes in
/// front change nothing that the detector remembers, and each place where no
/// record starts gives two complaints, of which the first names the place and what
/// stands there.
pub proof fn records_behind_others_are_found(buf: Seq<u8>, at: int, to: int, state: ReproState)
    requires
        0 <= at <= to,
        to + 24 <= buf.len(),
        no_record_between(buf, at, to),
    ensures
        repro::state_after(buf, at, state) == repro::state_after(buf, to, state),
        ({
            let lines = repro::scan_lines(buf, at, state);
            let rest = repro::scan_lines(buf, to, state);
            &&& lines.len() == 2 * (to - at) + rest.len()
            &&& lines.skip(2 * (to - at)) == rest
            &&& forall|j: int| 0 <= j < to - at ==> #[trigger] complains_of(lines, buf, at, j)
        }),
    decreases to - at,
{
    let lines = repro::scan_lines(buf, at, state);
    let rest = repro::scan_lines(buf, to, state);
    if at < to {
        let behind = repro::scan_lines(buf, at + 1, state);
        records_behind_others_are_found(buf, at + 1, to, state);
        assert(repro::record_at(buf, at) is None);
        assert(lines =~= seq![repro::bad_magic_line(buf, at), repro::dump_line(buf)] + behind);
        assert(lines.skip(2 * (to - at)) =~= behind.skip(2 * (to - at - 1)));
        assert forall|j: int| 0 <= j < to - at implies #[trigger] complains_of(
            lines,
            buf,
            at,
            j,
        ) by {
            if j > 0 {
                assert(complains_of(behind, buf, at + 1, j - 1));
                assert(lines[2 * j] == behind[2 * (j - 1)]);
                assert(lines[2 * j + 1] == behind[2 * (j - 1) + 1]);
            }
        }
    } else {
        assert(lines.skip(0) =~= lines);
    }
}

/// The sequence number of the last record before record `i` that repeats none.
pub open spec fn latest(recs: Seq<ReproRec>, i: int) -> Option<u32>
    decreases 2 * i,
{
    if i <= 0 {
        None
    } else if repeats(recs, i - 1) {
        latest(recs, i - 1)
    } else {
        Some(recs[i - 1].seq)
    }
}

/// Record `i` is a duplicate: it has the value of the record before it, and its
/// sequence number is not above that of the last record that repeats none.
pub open spec fn repeats(recs: Seq<ReproRec>, i: int) -> bool
    decreases 2 * i + 1,
{
    &&& i > 0
    &&& recs[i].fill == recs[i - 1].fill
    &&& latest(recs, i) matches Some(last)
    &&& recs[i].seq <= last
}

/// How many of the first `n` records are duplicates.
pub open spec fn repeat_count(recs: Seq<ReproRec>, n: nat) -> nat
    decreases n,
{
    if n == 0 {
        0
    } else {
        repeat_count(recs, (n - 1) as nat) + if repeats(recs, n - 1) {
            1nat
        } else {
            0nat
        }
    }
}

/// Nothing but records stands in a buffer.
pub open spec fn holds(buf: Seq<u8>, recs: Seq<ReproRec>) -> bool {
    &&& buf.len() == 24 * recs.len()
    &&& forall|k: int|
        0 <= k < recs.len() ==> repro::record_at(buf, 24 * k) == Some(#[trigger] recs[k])
}

/// What the detector remembers after the first `n` records.
spec fn remembers(state: ReproState, recs: Seq<ReproRec>, n: nat) -> bool {
    &&& state.last_seq == latest(recs, n as int)
    &&& state.last_toggle == if n == 0 {
        None
    } else {
        Some(recs[n - 1].fill)
    }
    &&& state.total == n
    &&& state.dups == repeat_count(recs, n)
}

proof fn lemma_scan(buf: Seq<u8>, recs: Seq<ReproRec>, n: nat, state: ReproState)
    requires
        holds(buf, recs),
        n <= recs.len(),
        recs.len() <= u64::MAX,
        remembers(state, recs, n),
    ensures
        remembers(repro::state_after(buf, 24int * n, state), recs, recs.len()),
    decreases recs.len() - n,
{
    lemma_count(recs, n);
    if n < recs.len() {
        let rec = recs[n as int];
        assert(repro::record_at(buf, 24int * n) == Some(rec));
        let next = state.after(rec);
        lemma_count(recs, n + 1);
        assert(remembers(next, recs, n + 1));
        lemma_scan(buf, recs, n + 1, next);
    }
}

proof fn lemma_count(recs: Seq<ReproRec>, n: nat)
    ensures
        repeat_count(recs, n) <= n,
    decreases n,
{
    if n > 0 {
        lemma_count(recs, (n - 1) as nat);
    }
}

/// A detector that starts anew counts all records that it is given, and as
/// duplicates exactly those that have the value of the record before them and do
/// not come above the last that repeats none.
pub proof fn duplicates_are_counted(buf: Seq<u8>, recs: Seq<ReproRec>, start: ReproState)
    requires
        holds(buf, recs),
        recs.len() <= u64::MAX,
        start.last_seq is None,
        start.last_toggle is None,
        start.total == 0,
        start.dups == 0,
    ensures
        ({
            let end = repro::state_after(buf, 0, start);
            &&& end.total == recs.len()
            &&& end.dups == repeat_count(recs, recs.len())
            &&& end.last_seq == latest(recs, recs.len() as int)
        }),
{
    lemma_scan(buf, recs, 0, start);
}

/// A line tells numbers between its words.
pub open spec fn says(piece: Seq<char>, n: nat) -> bool {
    text::number(text::trimmed(piece), n) == Some(n)
}

/// A text begins with a digit and is as wide as it should be; it is wider only
/// where it has that many digits.
pub open spec fn fills(piece: Seq<char>, width: int) -> bool {
    &&& piece.len() > 0 && text::is_digit(piece[0])
    &&& piece.len() == width || piece.len() > width && text_laws::is_decimal(piece)
}

/// What the detector prints reads back: where no record starts and what stands
/// there, where a duplicate stands and what it repeats, and how much was read.
pub proof fn lines_tell_their_numbers(
    buf: Seq<u8>,
    at: int,
    rec: ReproRec,
    last: u32,
    state: ReproState,
) -> (told: Seq<Seq<char>>)
    requires
        0 <= at,
    ensures
        told.len() == 9,
        repro::bad_magic_line(buf, at).complaint,
        repro::bad_magic_line(buf, at).text == "bad magic 0x"@ + told[0] + " at offset "@ + told[1]
            + "\n"@,
        text_laws::is_hex(told[0]) && told[0].len() >= 8 && text_laws::hex_value(told[0])
            == bytes::le32(buf, at),
        says(told[1], at as nat),
        !repro::dup_line(at, rec, last).complaint,
        repro::dup_line(at, rec, last).text == "DUP  off="@ + told[2] + "  seq="@ + told[3]
            + "  prev="@ + told[4] + "\n"@,
        says(told[2], at as nat) && fills(told[2], 14),
        says(told[3], rec.seq as nat) && fills(told[3], 10),
        says(told[4], last as nat),
        repro::odd_size_line(buf.len()).complaint,
        repro::odd_size_line(buf.len()).text == "warning: read "@ + told[5]
            + " bytes — not a multiple of "@ + told[6] + " (record_size)\n"@,
        says(told[5], buf.len()),
        says(told[6], 24),
        !repro::report_line(state).complaint,
        repro::report_line(state).text == "  "@ + told[7] + " records  "@ + told[8] + " dups\n"@,
        says(told[7], state.total as nat),
        says(told[8], state.dups as nat),
{
    let told = seq![
        text::hex(bytes::le32(buf, at) as nat, 8),
        text::decimal(at as nat),
        text::padded(text::decimal(at as nat), 14),
        text::padded(text::decimal(rec.seq as nat), 10),
        text::decimal(last as nat),
        text::decimal(buf.len()),
        text::decimal(24),
        text::decimal(state.total as nat),
        text::decimal(state.dups as nat),
    ];
    text_laws::hex_reads_back(bytes::le32(buf, at) as nat, 8);
    lemma_says(at as nat, 0);
    lemma_says(at as nat, 14);
    lemma_says(rec.seq as nat, 10);
    lemma_says(last as nat, 0);
    lemma_says(buf.len(), 0);
    lemma_says(24, 0);
    lemma_says(state.total as nat, 0);
    lemma_says(state.dups as nat, 0);
    told
}

proof fn lemma_says(n: nat, width: int)
    ensures
        says(text::decimal(n), n),
        says(text::padded(text::decimal(n), width), n),
        fills(text::padded(text::decimal(n), width), width),
{
    let digits = text::decimal(n);
    let space = text::spaces(width - digits.len());
    let none = Seq::<char>::empty();
    text_laws::decimal_reads_back(n);
    text_laws::decimal_is_solid(n);
    assert(text_laws::blank(space)) by {
        assert(text::is_space(' '));
    }
    text_laws::trimmed_text_is_what_space_surrounds(none, digits, space);
    assert(none + digits + space =~= text::padded(digits, width));
}

/// The text of a row that shows bytes: the place of its first byte in base
/// sixteen, a colon, two digits of base sixteen for each byte, and each byte as a
/// character where it is printable.
pub open spec fn shows_row(line: Seq<char>, at: nat, row: Seq<u8>) -> bool {
    let n = text::find(line, ':');
    &&& 4 <= n
    &&& line.len() == n + 1 + 48 + 3 + row.len() + 1
    &&& text_laws::is_hex(line.take(n))
    &&& text_laws::hex_value(line.take(n)) == at
    &&& forall|i: int| #![trigger row[i]] 0 <= i < row.len() ==> shows_byte(line, n, i, row[i])
    &&& forall|j: int| n + 1 + 3 * row.len() <= j < n + 49 ==> #[trigger] line[j] == ' '
    &&& line[n + 49] == ' ' && line[n + 50] == ' ' && line[n + 51] == '|'
    &&& line.last() == '|'
}

/// Byte `i` of a row is shown twice.
pub open spec fn shows_byte(line: Seq<char>, n: int, i: int, byte: u8) -> bool {
    let digits = line.subrange(n + 2 + 3 * i, n + 4 + 3 * i);
    let shown = line[n + 52 + i];
    &&& line[n + 1 + 3 * i] == ' '
    &&& text_laws::is_hex(digits)
    &&& text_laws::hex_value(digits) == byte
    &&& 0x20 <= byte <= 0x7e ==> shown as u32 == byte
    &&& byte < 0x20 || 0x7e < byte ==> shown == '.'
}

proof fn lemma_cells(row: Seq<u8>, i: int)
    requires
        0 <= i < row.len(),
    ensures
        repro::hex_cells(row).len() == 3 * row.len(),
        ({
            let cells = repro::hex_cells(row);
            let digits = cells.subrange(3 * i + 1, 3 * i + 3);
            &&& cells[3 * i] == ' '
            &&& text_laws::is_hex(digits)
            &&& text_laws::hex_value(digits) == row[i]
        }),
    decreases row.len(),
{
    let front = row.drop_last();
    let cells = repro::hex_cells(row);
    let before = repro::hex_cells(front);
    let hex = text::hex(row.last() as nat, 2);
    reveal_strlit(" ");
    lemma_byte(row.last());
    lemma_cells_len(front);
    if i < front.len() {
        lemma_cells(front, i);
        assert(cells.subrange(3 * i + 1, 3 * i + 3) =~= before.subrange(3 * i + 1, 3 * i + 3));
        assert(cells[3 * i] == before[3 * i]);
    } else {
        assert(cells.subrange(3 * i + 1, 3 * i + 3) =~= hex);
    }
}

proof fn lemma_cells_len(row: Seq<u8>)
    ensures
        repro::hex_cells(row).len() == 3 * row.len(),
    decreases row.len(),
{
    if row.len() > 0 {
        reveal_strlit(" ");
        lemma_byte(row.last());
        lemma_cells_len(row.drop_last());
    }
}

proof fn lemma_byte(byte: u8)
    ensures
        text::hex(byte as nat, 2).len() == 2,
        text_laws::is_hex(text::hex(byte as nat, 2)),
        text_laws::hex_value(text::hex(byte as nat, 2)) == byte,
{
    reveal_with_fuel(vstd::arithmetic::power::pow, 3);
    text_laws::hex_reads_back(byte as nat, 2);
    text_laws::hex_has_its_width(byte as nat, 2);
}

#[verifier::rlimit(50)]
#[verifier::spinoff_prover]
proof fn lemma_row(at: nat, row: Seq<u8>) -> (line: Seq<char>)
    requires
        row.len() <= 16,
    ensures
        repro::dump_row(at, row) == line.push('\n'),
        shows_row(line, at, row),
        text_laws::lacks(line, '\n'),
        text_laws::lacks(line, '\r'),
{
    let place = text::hex(at, 4);
    let n = place.len() as int;
    let cells = repro::hex_cells(row);
    let fill = text::spaces(3 * (16 - row.len()));
    let shown = repro::shown_row(row);
    reveal_strlit(":");
    reveal_strlit("  |");
    reveal_strlit("|\n");
    text_laws::hex_reads_back(at, 4);
    text_laws::lemma_digits_lack(place, ':');
    text_laws::lemma_digits_lack(place, '\n');
    text_laws::lemma_digits_lack(place, '\r');
    lemma_cells_len(row);
    let line = place + ":"@ + cells + fill + "  |"@ + shown + seq!['|'];
    assert(repro::dump_row(at, row) =~= line.push('\n'));
    let behind = line.skip(n + 1);
    assert(line =~= place + seq![':'] + behind);
    text_laws::lemma_find_behind(place, behind, ':');
    assert(line.take(n) =~= place);
    assert forall|i: int| #![trigger row[i]] 0 <= i < row.len() implies shows_byte(
        line,
        n,
        i,
        row[i],
    ) by {
        lemma_cells(row, i);
        assert(line[n + 1 + 3 * i] == cells[3 * i]);
        assert(line.subrange(n + 2 + 3 * i, n + 4 + 3 * i) =~= cells.subrange(
            3 * i + 1,
            3 * i + 3,
        ));
        assert(line[n + 52 + i] == shown[i]);
        assert(shown[i] == repro::shown(row[i]));
    }
    assert forall|j: int| 0 <= j < line.len() implies #[trigger] line[j] != '\n' && line[j]
        != '\r' by {
        if j < n {
            assert(line[j] == place[j]);
        } else if j == n {
        } else if j < n + 1 + 3 * row.len() {
            let k = (j - n - 1) / 3;
            lemma_cells(row, k);
            assert(line[j] == cells[j - n - 1]);
            let digits = cells.subrange(3 * k + 1, 3 * k + 3);
            if j - n - 1 == 3 * k + 1 {
                assert(digits[0] == cells[j - n - 1]);
            } else if j - n - 1 == 3 * k + 2 {
                assert(digits[1] == cells[j - n - 1]);
            }
        } else if n + 52 <= j < n + 52 + row.len() {
            assert(line[j] == shown[j - n - 52]);
            assert(shown[j - n - 52] == repro::shown(row[j - n - 52]));
        }
    }
    line
}

/// Bytes are shown in rows of sixteen, the last of which may be shorter: every
/// line tells the place of its first byte and shows each of its bytes.
pub proof fn dump_shows_every_byte(buf: Seq<u8>, at: nat)
    requires
        at <= buf.len(),
    ensures
        ({
            let lines = text::lines(repro::dump_from(buf, at));
            &&& lines.len() == (buf.len() - at + 15) / 16
            &&& forall|k: int|
                0 <= k < lines.len() ==> {
                    let from = at + 16 * k;
                    let to = if from + 16 <= buf.len() {
                        from + 16
                    } else {
                        buf.len() as int
                    };
                    shows_row(#[trigger] lines[k], from as nat, buf.subrange(from, to))
                }
        }),
        repro::dump(buf) == repro::dump_from(buf, 0),
    decreases buf.len() - at,
{
    let written = repro::dump_from(buf, at);
    let lines = text::lines(written);
    let none = Seq::<char>::empty();
    assert(text::lines(none) =~= seq![]);
    if at >= buf.len() {
        assert(written =~= none);
    } else if buf.len() - at <= 16 {
        let row = buf.skip(at as int);
        let line = lemma_row(at, row);
        text_laws::lemma_lines_cons(line, none);
        assert(written =~= line.push('\n') + none);
        assert(lines =~= seq![line]);
        assert(row =~= buf.subrange(at as int, buf.len() as int));
        if at + 16 <= buf.len() {
            assert(row =~= buf.subrange(at as int, at as int + 16));
        }
    } else {
        let row = buf.subrange(at as int, at as int + 16);
        let line = lemma_row(at, row);
        let rest = repro::dump_from(buf, at + 16);
        dump_shows_every_byte(buf, at + 16);
        text_laws::lemma_lines_cons(line, rest);
        let others = text::lines(rest);
        assert(lines =~= seq![line] + others);
        assert forall|k: int| 0 <= k < lines.len() implies {
            let from = at + 16 * k;
            let to = if from + 16 <= buf.len() {
                from + 16
            } else {
                buf.len() as int
            };
            shows_row(#[trigger] lines[k], from as nat, buf.subrange(from, to))
        } by {
            if k > 0 {
                assert(lines[k] == others[k - 1]);
            }
        }
    }
}

/// The lines that begin and end the output read back: what is read, from which
/// processor and how; and how many records and duplicates there were.
pub proof fn first_and_last_line_tell_their_numbers(
    path: Seq<char>,
    cpu: u64,
    no_poll: bool,
    state: ReproState,
) -> (told: Seq<Seq<char>>)
    ensures
        told.len() == 3,
        repro::start_text(path, cpu, no_poll) == "Reading "@ + path + "  cpu="@ + told[0]
            + "  mode="@ + (if no_poll {
            "no-poll"@
        } else {
            "poll"@
        }) + "  (Ctrl-C to stop)\n"@,
        says(told[0], cpu as nat),
        repro::total_text(state) == "\nTotal: "@ + told[1] + " records  "@ + told[2]
            + " duplicates\n"@,
        says(told[1], state.total as nat),
        says(told[2], state.dups as nat),
{
    lemma_says(cpu as nat, 0);
    lemma_says(state.total as nat, 0);
    lemma_says(state.dups as nat, 0);
    seq![
        text::decimal(cpu as nat),
        text::decimal(state.total as nat),
        text::decimal(state.dups as nat),
    ]
}

/// Progress is reported exactly where a million records or more came since the
/// last report; the next report then counts from here, and nothing else changes.
pub proof fn progress_is_reported_every_million(state: ReproState)
    requires
        state.wf(),
    ensures
        ({
            let due = state.total >= state.last_report + 1_000_000;
            let next = repro::reported(state);
            &&& due ==> repro::progress_lines(state) == seq![repro::report_line(state)]
            &&& !due ==> repro::progress_lines(state).len() == 0
            &&& next.last_report == if due {
                state.total
            } else {
                state.last_report
            }
            &&& next.total == state.total && next.dups == state.dups
            &&& next.last_seq == state.last_seq && next.last_toggle == state.last_toggle
            &&& repro::progress_lines(next).len() == 0
        }),
{
}

/// A number of bytes that is no whole number of records gives two complaints: the
/// number, and the bytes. Another number gives none.
pub proof fn odd_sizes_are_complained_of(buf: Seq<u8>)
    ensures
        repro::size_lines(buf).len() == 0 <==> buf.len() % 24 == 0,
        buf.len() % 24 != 0 ==> repro::size_lines(buf) == seq![
            repro::odd_size_line(buf.len()),
            LineView { complaint: true, text: repro::dump(buf) },
        ],
{
}

/// The detector asks for sixty-four pages of 4096 bytes at a time; a record is
/// three words of eight bytes.
pub proof fn detector_asks_for_so_much()
    ensures
        repro::READ_BUF == 64 * 4096,
        repro::RECORD_SIZE == 3 * 8,
{
}

} // verus!
