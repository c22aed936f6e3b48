//! What the line of a record says when it is read back.

use crate::bytes;
use crate::print;
use crate::record::{
    CompleteRecord, RawRecordView, SglDescView, SubmitRecordView, SubmitTailView, TraceRecordView,
};
use crate::text;
use crate::text_laws;
use vstd::prelude::*;

verus! {

/// The words of a line behind the name of the stream.
pub open spec fn words(line: Seq<char>, path: Seq<char>) -> Seq<Seq<char>> {
    text::parts(line.skip(path.len() as int), ' ')
}

/// A text begins with another.
pub open spec fn begins_with(s: Seq<char>, key: Seq<char>) -> bool {
    s.len() >= key.len() && s.take(key.len() as int) == key
}

/// Neither a space nor what ends a line.
pub open spec fn plain_char(c: char) -> bool {
    c != ' ' && c != '\n' && c != '\r'
}

/// A text without spaces, on one line.
pub open spec fn plain(s: Seq<char>) -> bool {
    forall|i: int| 0 <= i < s.len() ==> plain_char(#[trigger] s[i])
}

/// All texts are plain.
pub open spec fn all_plain(parts: Seq<Seq<char>>) -> bool {
    forall|i: int| 0 <= i < parts.len() ==> plain(#[trigger] parts[i])
}

/// A word is a key and the number `n` behind it.
pub open spec fn tells(word: Seq<char>, key: Seq<char>, n: nat) -> bool {
    begins_with(word, key) && text::number(word.skip(key.len() as int), n) == Some(n)
}

/// A word is a key and `n` behind it, in so many digits of base sixteen.
pub open spec fn tells_hex(word: Seq<char>, key: Seq<char>, n: nat, width: nat) -> bool {
    let digits = word.skip(key.len() as int);
    begins_with(word, key) && digits.len() == width && text_laws::is_hex(digits)
        && text_laws::hex_value(digits) == n
}

/// A word is a key and another word behind it.
pub open spec fn tells_word(word: Seq<char>, key: Seq<char>, value: Seq<char>) -> bool {
    begins_with(word, key) && word.skip(key.len() as int) == value
}

/// Tells whether an opcode is that of a write or of a read.
pub open spec fn moves_blocks(opcode: u8) -> bool {
    opcode == 0x01 || opcode == 0x02
}

proof fn lemma_plain_words(ws: Seq<Seq<char>>)
    requires
        ws.len() > 0,
        all_plain(ws),
    ensures
        text::parts(text_laws::joined_by(ws, ' '), ' ') == ws,
        text_laws::lacks(text_laws::joined_by(ws, ' '), '\n'),
        text_laws::lacks(text_laws::joined_by(ws, ' '), '\r'),
    decreases ws.len(),
{
    assert(text_laws::all_lack(ws, ' ')) by {
        assert forall|i: int| 0 <= i < ws.len() implies text_laws::lacks(#[trigger] ws[i], ' ') by {
            assert(plain(ws[i]));
            assert forall|j: int| 0 <= j < ws[i].len() implies #[trigger] ws[i][j] != ' ' by {
                assert(plain_char(ws[i][j]));
            }
        }
    }
    text_laws::joined_parts_read_back(ws, ' ');
    let last = ws.last();
    assert(plain(ws[ws.len() - 1]));
    if ws.len() > 1 {
        let front = ws.drop_last();
        assert(all_plain(front)) by {
            assert forall|i: int| 0 <= i < front.len() implies plain(#[trigger] front[i]) by {
                assert(front[i] == ws[i]);
            }
        }
        lemma_plain_words(front);
        let before = text_laws::joined_by(front, ' ');
        let joined = text_laws::joined_by(ws, ' ');
        assert forall|j: int| 0 <= j < joined.len() implies #[trigger] joined[j] != '\n'
            && joined[j] != '\r' by {
            if j < before.len() {
                assert(joined[j] == before[j]);
            } else if j > before.len() {
                assert(joined[j] == last[j - before.len() - 1]);
            }
        }
    } else {
        let joined = text_laws::joined_by(ws, ' ');
        assert forall|j: int| 0 <= j < joined.len() implies #[trigger] joined[j] != '\n'
            && joined[j] != '\r' by {
            assert(plain_char(last[j]));
        }
    }
}

proof fn lemma_word(
    path: Seq<char>,
    before: Seq<Seq<char>>,
    acc: Seq<char>,
    lit: Seq<char>,
    key: Seq<char>,
    value: Seq<char>,
)
    requires
        before.len() > 0,
        acc == path + text_laws::joined_by(before, ' '),
        all_plain(before),
        lit == seq![' '] + key,
        plain(key),
        plain(value),
    ensures
        acc + lit + value == path + text_laws::joined_by(before.push(key + value), ' '),
        all_plain(before.push(key + value)),
{
    let word = key + value;
    let after = before.push(word);
    assert(after.drop_last() =~= before);
    assert(text_laws::joined_by(after, ' ') == text_laws::joined_by(before, ' ').push(' ') + word);
    assert(acc + lit + value =~= path + text_laws::joined_by(after, ' '));
    assert forall|i: int| 0 <= i < after.len() implies plain(#[trigger] after[i]) by {
        if i < before.len() {
            assert(after[i] == before[i]);
        } else {
            assert(plain(word)) by {
                assert forall|j: int| 0 <= j < word.len() implies plain_char(#[trigger] word[j]) by {
                    if j < key.len() {
                        assert(word[j] == key[j]);
                    } else {
                        assert(word[j] == value[j - key.len()]);
                    }
                }
            }
        }
    }
}

proof fn lemma_first_word(path: Seq<char>, offset: u64)
    ensures
        path + ":"@ + text::decimal(offset as nat) == path + text_laws::joined_by(
            seq![":"@ + text::decimal(offset as nat)],
            ' ',
        ),
        all_plain(seq![":"@ + text::decimal(offset as nat)]),
{
    let digits = text::decimal(offset as nat);
    let word = ":"@ + digits;
    reveal_strlit(":");
    lemma_digits(offset as nat);
    assert(text_laws::joined_by(seq![word], ' ') == word);
    assert(path + ":"@ + digits =~= path + word);
    assert(plain(word)) by {
        assert forall|j: int| 0 <= j < word.len() implies plain_char(#[trigger] word[j]) by {
            if j > 0 {
                assert(word[j] == digits[j - 1]);
            }
        }
    }
}

proof fn lemma_digits(n: nat)
    ensures
        plain(text::decimal(n)),
        text_laws::lacks(text::decimal(n), ','),
        text::number(text::decimal(n), n) == Some(n),
{
    text_laws::decimal_reads_back(n);
    assert(plain(text::decimal(n)));
    text_laws::lemma_digits_lack(text::decimal(n), ',');
}

proof fn lemma_tells(key: Seq<char>, n: nat)
    ensures
        tells(key + text::decimal(n), key, n),
{
    let word = key + text::decimal(n);
    lemma_digits(n);
    assert(word.take(key.len() as int) =~= key);
    assert(word.skip(key.len() as int) =~= text::decimal(n));
}

proof fn lemma_tells_word(key: Seq<char>, value: Seq<char>)
    ensures
        tells_word(key + value, key, value),
{
    assert((key + value).take(key.len() as int) =~= key);
    assert((key + value).skip(key.len() as int) =~= value);
}

proof fn lemma_sixteens()
    ensures
        vstd::arithmetic::power::pow(16, 2) == 0x100,
        vstd::arithmetic::power::pow(16, 4) == 0x1_0000,
        vstd::arithmetic::power::pow(16, 16) == 0x1_0000_0000_0000_0000,
{
    reveal_with_fuel(vstd::arithmetic::power::pow, 17);
}

proof fn lemma_hex(n: nat, width: nat)
    requires
        width == 2 && n <= u8::MAX || width == 4 && n <= u16::MAX || width == 16 && n <= u64::MAX,
    ensures
        text::hex(n, width).len() == width,
        text_laws::is_hex(text::hex(n, width)),
        text_laws::hex_value(text::hex(n, width)) == n,
        plain(text::hex(n, width)),
        text_laws::lacks(text::hex(n, width), ','),
{
    lemma_sixteens();
    text_laws::hex_reads_back(n, width);
    text_laws::hex_has_its_width(n, width);
    assert(plain(text::hex(n, width)));
    text_laws::lemma_digits_lack(text::hex(n, width), ',');
}

proof fn lemma_tells_hex(key: Seq<char>, n: nat, width: nat)
    requires
        width == 2 && n <= u8::MAX || width == 4 && n <= u16::MAX || width == 16 && n <= u64::MAX,
    ensures
        tells_hex(key + text::hex(n, width), key, n, width),
{
    let word = key + text::hex(n, width);
    lemma_hex(n, width);
    assert(word.take(key.len() as int) =~= key);
    assert(word.skip(key.len() as int) =~= text::hex(n, width));
}

proof fn lemma_header_keys()
    ensures
        " seq="@ == seq![' '] + "seq="@,
        " ctrl=nvme"@ == seq![' '] + "ctrl=nvme"@,
        " qid="@ == seq![' '] + "qid="@,
        " cid="@ == seq![' '] + "cid="@,
        plain("ts="@),
        plain("seq="@),
        plain("ctrl=nvme"@),
        plain("qid="@),
        plain("cid="@),
{
    reveal_strlit("ts=");
    reveal_strlit(" seq=");
    reveal_strlit("seq=");
    reveal_strlit(" ctrl=nvme");
    reveal_strlit("ctrl=nvme");
    reveal_strlit(" qid=");
    reveal_strlit("qid=");
    reveal_strlit(" cid=");
    reveal_strlit("cid=");
}

proof fn lemma_submit_keys()
    ensures
        " submit ts="@ == seq![' '] + "submit"@ + (seq![' '] + "ts="@),
        " opcode="@ == seq![' '] + "opcode="@,
        " data_len="@ == seq![' '] + "data_len="@,
        " meta_len="@ == seq![' '] + "meta_len="@,
        " mode="@ == seq![' '] + "mode="@,
        " single_segment="@ == seq![' '] + "single_segment="@,
        " tail_entries="@ == seq![' '] + "tail_entries="@,
        plain("submit"@),
        plain("opcode="@),
        plain("data_len="@),
        plain("meta_len="@),
        plain("mode="@),
        plain("single_segment="@),
        plain("tail_entries="@),
{
    reveal_strlit(" submit ts=");
    reveal_strlit("submit");
    reveal_strlit("ts=");
    reveal_strlit(" opcode=");
    reveal_strlit("opcode=");
    reveal_strlit(" data_len=");
    reveal_strlit("data_len=");
    reveal_strlit(" meta_len=");
    reveal_strlit("meta_len=");
    reveal_strlit(" mode=");
    reveal_strlit("mode=");
    reveal_strlit(" single_segment=");
    reveal_strlit("single_segment=");
    reveal_strlit(" tail_entries=");
    reveal_strlit("tail_entries=");
}

proof fn lemma_block_keys()
    ensures
        " nsid="@ == seq![' '] + "nsid="@,
        " slba="@ == seq![' '] + "slba="@,
        " nlb="@ == seq![' '] + "nlb="@,
        " block_size="@ == seq![' '] + "block_size="@,
        " byte_offset="@ == seq![' '] + "byte_offset="@,
        " sqe_data_bytes="@ == seq![' '] + "sqe_data_bytes="@,
        plain("nsid="@),
        plain("slba="@),
        plain("nlb="@),
        plain("block_size="@),
        plain("byte_offset="@),
        plain("sqe_data_bytes="@),
{
    reveal_strlit(" nsid=");
    reveal_strlit("nsid=");
    reveal_strlit(" slba=");
    reveal_strlit("slba=");
    reveal_strlit(" nlb=");
    reveal_strlit("nlb=");
    reveal_strlit(" block_size=");
    reveal_strlit("block_size=");
    reveal_strlit(" byte_offset=");
    reveal_strlit("byte_offset=");
    reveal_strlit(" sqe_data_bytes=");
    reveal_strlit("sqe_data_bytes=");
}

proof fn lemma_pointer_keys()
    ensures
        " mps="@ == seq![' '] + "mps="@,
        " prp1=0x"@ == seq![' '] + "prp1=0x"@,
        " prp2=0x"@ == seq![' '] + "prp2=0x"@,
        " tail="@ == seq![' '] + "tail="@,
        plain("mps="@),
        plain("prp1=0x"@),
        plain("prp2=0x"@),
        plain("tail="@),
{
    reveal_strlit(" mps=");
    reveal_strlit("mps=");
    reveal_strlit(" prp1=0x");
    reveal_strlit("prp1=0x");
    reveal_strlit(" prp2=0x");
    reveal_strlit("prp2=0x");
    reveal_strlit(" tail=");
    reveal_strlit("tail=");
}

proof fn lemma_complete_keys()
    ensures
        " complete ts="@ == seq![' '] + "complete"@ + (seq![' '] + "ts="@),
        " result=0x"@ == seq![' '] + "result=0x"@,
        " sq_head="@ == seq![' '] + "sq_head="@,
        " sq_id="@ == seq![' '] + "sq_id="@,
        " status=0x"@ == seq![' '] + "status=0x"@,
        " retries="@ == seq![' '] + "retries="@,
        plain("complete"@),
        plain("result=0x"@),
        plain("sq_head="@),
        plain("sq_id="@),
        plain("status=0x"@),
        plain("retries="@),
{
    reveal_strlit(" complete ts=");
    reveal_strlit("complete");
    reveal_strlit("ts=");
    reveal_strlit(" result=0x");
    reveal_strlit("result=0x");
    reveal_strlit(" sq_head=");
    reveal_strlit("sq_head=");
    reveal_strlit(" sq_id=");
    reveal_strlit("sq_id=");
    reveal_strlit(" status=0x");
    reveal_strlit("status=0x");
    reveal_strlit(" retries=");
    reveal_strlit("retries=");
}

/// An opcode ends in its number in brackets, and the name in front of it holds no
/// space.
#[verifier::rlimit(50)]
#[verifier::spinoff_prover]
proof fn lemma_opcode(value: u8)
    ensures
        ({
            let name = print::opcode_text(print::opcode_of(value));
            &&& plain(name)
            &&& name.len() >= 6
            &&& name.subrange(name.len() - 6, name.len() - 3) == "(0x"@
            &&& text_laws::hex_value(name.subrange(name.len() - 3, name.len() - 1)) == value
            &&& name.last() == ')'
        }),
{
    let name = print::opcode_text(print::opcode_of(value));
    let n = name.len();
    reveal_strlit("(0x");
    reveal_strlit("flush(0x00)");
    reveal_strlit("write(0x01)");
    reveal_strlit("read(0x02)");
    reveal_strlit("write_uncorrectable(0x04)");
    reveal_strlit("compare(0x05)");
    reveal_strlit("write_zeroes(0x08)");
    reveal_strlit("dataset_management(0x09)");
    reveal_strlit("verify(0x0c)");
    reveal_strlit("unknown(0x");
    reveal_strlit(")");
    lemma_hex(value as nat, 2);
    let digits = name.subrange(n - 3, n - 1);
    reveal_with_fuel(text_laws::hex_value, 3);
    assert(digits.drop_last().drop_last() =~= seq![]);
    assert(digits.drop_last().last() == name[n - 3]);
    assert(digits.last() == name[n - 2]);
    if print::opcode_of(value) is Other {
        assert(digits =~= text::hex(value as nat, 2));
        assert(name.subrange(n - 6, n - 3) =~= "(0x"@);
        let hex = text::hex(value as nat, 2);
        assert forall|j: int| 0 <= j < n implies plain_char(#[trigger] name[j]) by {
            if 10 <= j < 12 {
                assert(name[j] == hex[j - 10]);
            }
        }
    } else {
        assert(name.subrange(n - 6, n - 3) =~= "(0x"@);
    }
}

spec fn common_words(submit: SubmitRecordView, offset: u64) -> Seq<Seq<char>> {
    seq![
        ":"@ + text::decimal(offset as nat),
        "submit"@,
        "ts="@ + text::decimal(submit.header.timestamp_ns as nat),
        "seq="@ + text::decimal(submit.header.seq as nat),
        "ctrl=nvme"@ + text::decimal(submit.header.ctrl_id as nat),
        "qid="@ + text::decimal(submit.header.qid as nat),
        "cid="@ + text::decimal(submit.header.cid as nat),
        "opcode="@ + print::opcode_text(print::opcode_of(submit.sqe[0])),
        "data_len="@ + text::decimal(submit.data_len as nat),
        "meta_len="@ + text::decimal(submit.meta_len as nat),
        "mode="@ + (if submit.use_sgl {
            "sgl"@
        } else {
            "prp"@
        }),
        "single_segment="@ + (if submit.single_segment {
            "true"@
        } else {
            "false"@
        }),
        "tail_entries="@ + text::decimal(submit.tail.entries()),
    ]
}

spec fn block_words(submit: SubmitRecordView, block_size: u64) -> Seq<Seq<char>> {
    let slba = bytes::le64(submit.sqe, 40) as nat;
    let nlb = (bytes::le16(submit.sqe, 48) + 1) as nat;
    seq![
        "nsid="@ + text::decimal(bytes::le32(submit.sqe, 4) as nat),
        "slba="@ + text::decimal(slba),
        "nlb="@ + text::decimal(nlb),
        "block_size="@ + text::decimal(block_size as nat),
        "byte_offset="@ + text::decimal(slba * block_size as nat),
        "sqe_data_bytes="@ + text::decimal(nlb * block_size as nat),
    ]
}

spec fn pointer_words(submit: SubmitRecordView) -> Seq<Seq<char>> {
    seq![
        "mps="@ + text::decimal(4096),
        "prp1=0x"@ + text::hex(bytes::le64(submit.sqe, 24) as nat, 16),
        "prp2=0x"@ + text::hex(bytes::le64(submit.sqe, 32) as nat, 16),
    ]
}

spec fn submit_words(submit: SubmitRecordView, offset: u64, block_size: u64) -> Seq<Seq<char>> {
    let fixed = common_words(submit, offset) + (if moves_blocks(submit.sqe[0]) {
        block_words(submit, block_size)
    } else {
        seq![]
    });
    fixed + (if submit.use_sgl {
        seq![]
    } else {
        pointer_words(submit)
    }) + seq!["tail="@ + print::tail_text(submit.tail)]
}

spec fn complete_words(complete: CompleteRecord, offset: u64) -> Seq<Seq<char>> {
    seq![
        ":"@ + text::decimal(offset as nat),
        "complete"@,
        "ts="@ + text::decimal(complete.header.timestamp_ns as nat),
        "seq="@ + text::decimal(complete.header.seq as nat),
        "ctrl=nvme"@ + text::decimal(complete.header.ctrl_id as nat),
        "qid="@ + text::decimal(complete.header.qid as nat),
        "cid="@ + text::decimal(complete.header.cid as nat),
        "result=0x"@ + text::hex(complete.result as nat, 16),
        "sq_head="@ + text::decimal(complete.sq_head as nat),
        "sq_id="@ + text::decimal(complete.sq_id as nat),
        "status=0x"@ + text::hex(complete.status as nat, 4),
        "retries="@ + text::decimal(complete.retries as nat),
    ]
}

/// What stands in front of the time, in a line of either kind.
#[verifier::rlimit(50)]
#[verifier::spinoff_prover]
proof fn lemma_kind_and_time(
    path: Seq<char>,
    offset: u64,
    lit: Seq<char>,
    kind: Seq<char>,
    timestamp_ns: u64,
)
    requires
        lit == seq![' '] + kind + (seq![' '] + "ts="@),
        plain(kind),
    ensures
        ({
            let ws = seq![
                ":"@ + text::decimal(offset as nat),
                kind,
                "ts="@ + text::decimal(timestamp_ns as nat),
            ];
            &&& path + ":"@ + text::decimal(offset as nat) + lit + text::decimal(
                timestamp_ns as nat,
            ) == path + text_laws::joined_by(ws, ' ')
            &&& all_plain(ws)
        }),
{
    let digits = text::decimal(timestamp_ns as nat);
    let ws0 = seq![":"@ + text::decimal(offset as nat)];
    let acc0 = path + ":"@ + text::decimal(offset as nat);
    lemma_first_word(path, offset);
    lemma_header_keys();
    lemma_digits(timestamp_ns as nat);
    lemma_word(path, ws0, acc0, seq![' '] + kind, kind, seq![]);
    assert(kind + Seq::<char>::empty() =~= kind);
    let acc1 = acc0 + (seq![' '] + kind) + Seq::<char>::empty();
    let ws1 = ws0.push(kind + Seq::<char>::empty());
    lemma_word(path, ws1, acc1, seq![' '] + "ts="@, "ts="@, digits);
    assert(acc0 + lit + digits =~= acc1 + (seq![' '] + "ts="@) + digits);
    assert(ws1.push("ts="@ + digits) =~= seq![
        ":"@ + text::decimal(offset as nat),
        kind,
        "ts="@ + digits,
    ]);
}

#[verifier::rlimit(50)]
#[verifier::spinoff_prover]
proof fn lemma_common(path: Seq<char>, submit: SubmitRecordView, offset: u64)
    ensures
        print::submit_common_text(path, submit, offset) == path + text_laws::joined_by(
            common_words(submit, offset),
            ' ',
        ),
        all_plain(common_words(submit, offset)),
{
    let header = submit.header;
    let opcode = print::opcode_text(print::opcode_of(submit.sqe[0]));
    let mode = if submit.use_sgl {
        "sgl"@
    } else {
        "prp"@
    };
    let single = if submit.single_segment {
        "true"@
    } else {
        "false"@
    };
    lemma_header_keys();
    lemma_submit_keys();
    lemma_opcode(submit.sqe[0]);
    assert(plain(mode) && plain(single)) by {
        reveal_strlit("sgl");
        reveal_strlit("prp");
        reveal_strlit("true");
        reveal_strlit("false");
    }
    lemma_digits(header.seq as nat);
    lemma_digits(header.ctrl_id as nat);
    lemma_digits(header.qid as nat);
    lemma_digits(header.cid as nat);
    lemma_digits(submit.data_len as nat);
    lemma_digits(submit.meta_len as nat);
    lemma_digits(submit.tail.entries());
    lemma_kind_and_time(path, offset, " submit ts="@, "submit"@, header.timestamp_ns);
    let w2 = seq![
        ":"@ + text::decimal(offset as nat),
        "submit"@,
        "ts="@ + text::decimal(header.timestamp_ns as nat),
    ];
    let a2 = path + ":"@ + text::decimal(offset as nat) + " submit ts="@ + text::decimal(
        header.timestamp_ns as nat,
    );
    let v3 = text::decimal(header.seq as nat);
    lemma_word(path, w2, a2, " seq="@, "seq="@, v3);
    let w3 = w2.push("seq="@ + v3);
    let a3 = a2 + " seq="@ + v3;
    let v4 = text::decimal(header.ctrl_id as nat);
    lemma_word(path, w3, a3, " ctrl=nvme"@, "ctrl=nvme"@, v4);
    let w4 = w3.push("ctrl=nvme"@ + v4);
    let a4 = a3 + " ctrl=nvme"@ + v4;
    let v5 = text::decimal(header.qid as nat);
    lemma_word(path, w4, a4, " qid="@, "qid="@, v5);
    let w5 = w4.push("qid="@ + v5);
    let a5 = a4 + " qid="@ + v5;
    let v6 = text::decimal(header.cid as nat);
    lemma_word(path, w5, a5, " cid="@, "cid="@, v6);
    let w6 = w5.push("cid="@ + v6);
    let a6 = a5 + " cid="@ + v6;
    lemma_word(path, w6, a6, " opcode="@, "opcode="@, opcode);
    let w7 = w6.push("opcode="@ + opcode);
    let a7 = a6 + " opcode="@ + opcode;
    let v8 = text::decimal(submit.data_len as nat);
    lemma_word(path, w7, a7, " data_len="@, "data_len="@, v8);
    let w8 = w7.push("data_len="@ + v8);
    let a8 = a7 + " data_len="@ + v8;
    let v9 = text::decimal(submit.meta_len as nat);
    lemma_word(path, w8, a8, " meta_len="@, "meta_len="@, v9);
    let w9 = w8.push("meta_len="@ + v9);
    let a9 = a8 + " meta_len="@ + v9;
    lemma_word(path, w9, a9, " mode="@, "mode="@, mode);
    let w10 = w9.push("mode="@ + mode);
    let a10 = a9 + " mode="@ + mode;
    lemma_word(path, w10, a10, " single_segment="@, "single_segment="@, single);
    let w11 = w10.push("single_segment="@ + single);
    let a11 = a10 + " single_segment="@ + single;
    let v12 = text::decimal(submit.tail.entries());
    lemma_word(path, w11, a11, " tail_entries="@, "tail_entries="@, v12);
    let w12 = w11.push("tail_entries="@ + v12);
    assert(w12 =~= common_words(submit, offset));
    assert(print::submit_common_text(path, submit, offset) == a11 + " tail_entries="@ + v12);
}

proof fn lemma_glue(acc: Seq<char>, so_far: Seq<char>, lit: Seq<char>, value: Seq<char>)
    ensures
        acc + (so_far + lit + value) == acc + so_far + lit + value,
        so_far.len() == 0 ==> so_far + lit + value == lit + value && acc + so_far == acc,
{
    assert(acc + (so_far + lit + value) =~= acc + so_far + lit + value);
    if so_far.len() == 0 {
        assert(so_far + lit + value =~= lit + value);
        assert(acc + so_far =~= acc);
    }
}

#[verifier::rlimit(50)]
#[verifier::spinoff_prover]
proof fn lemma_blocks(
    path: Seq<char>,
    before: Seq<Seq<char>>,
    acc: Seq<char>,
    submit: SubmitRecordView,
    block_size: u64,
)
    requires
        before.len() > 0,
        acc == path + text_laws::joined_by(before, ' '),
        all_plain(before),
    ensures
        acc + print::blocks_text(submit, block_size) == path + text_laws::joined_by(
            before + block_words(submit, block_size),
            ' ',
        ),
        all_plain(before + block_words(submit, block_size)),
{
    let slba = bytes::le64(submit.sqe, 40) as nat;
    let nlb = (bytes::le16(submit.sqe, 48) + 1) as nat;
    let n1 = bytes::le32(submit.sqe, 4) as nat;
    lemma_block_keys();
    lemma_digits(n1);
    lemma_digits(slba);
    lemma_digits(nlb);
    lemma_digits(block_size as nat);
    lemma_digits(slba * block_size as nat);
    lemma_digits(nlb * block_size as nat);
    let v1 = text::decimal(n1);
    lemma_word(path, before, acc, " nsid="@, "nsid="@, v1);
    let w1 = before.push("nsid="@ + v1);
    let a1 = acc + " nsid="@ + v1;
    let v2 = text::decimal(slba);
    lemma_word(path, w1, a1, " slba="@, "slba="@, v2);
    let w2 = w1.push("slba="@ + v2);
    let a2 = a1 + " slba="@ + v2;
    let v3 = text::decimal(nlb);
    lemma_word(path, w2, a2, " nlb="@, "nlb="@, v3);
    let w3 = w2.push("nlb="@ + v3);
    let a3 = a2 + " nlb="@ + v3;
    let v4 = text::decimal(block_size as nat);
    lemma_word(path, w3, a3, " block_size="@, "block_size="@, v4);
    let w4 = w3.push("block_size="@ + v4);
    let a4 = a3 + " block_size="@ + v4;
    let v5 = text::decimal(slba * block_size as nat);
    lemma_word(path, w4, a4, " byte_offset="@, "byte_offset="@, v5);
    let w5 = w4.push("byte_offset="@ + v5);
    let a5 = a4 + " byte_offset="@ + v5;
    let v6 = text::decimal(nlb * block_size as nat);
    lemma_word(path, w5, a5, " sqe_data_bytes="@, "sqe_data_bytes="@, v6);
    let w6 = w5.push("sqe_data_bytes="@ + v6);
    assert(w6 =~= before + block_words(submit, block_size));
    let t1 = " nsid="@ + v1;
    let t2 = t1 + " slba="@ + v2;
    let t3 = t2 + " nlb="@ + v3;
    let t4 = t3 + " block_size="@ + v4;
    let t5 = t4 + " byte_offset="@ + v5;
    lemma_glue(acc, seq![], " nsid="@, v1);
    lemma_glue(acc, t1, " slba="@, v2);
    lemma_glue(acc, t2, " nlb="@, v3);
    lemma_glue(acc, t3, " block_size="@, v4);
    lemma_glue(acc, t4, " byte_offset="@, v5);
    lemma_glue(acc, t5, " sqe_data_bytes="@, v6);
}

#[verifier::rlimit(50)]
#[verifier::spinoff_prover]
proof fn lemma_pointers(
    path: Seq<char>,
    before: Seq<Seq<char>>,
    acc: Seq<char>,
    submit: SubmitRecordView,
)
    requires
        before.len() > 0,
        acc == path + text_laws::joined_by(before, ' '),
        all_plain(before),
    ensures
        acc + print::prps_text(submit) == path + text_laws::joined_by(
            before + pointer_words(submit),
            ' ',
        ),
        all_plain(before + pointer_words(submit)),
{
    let p1 = bytes::le64(submit.sqe, 24) as nat;
    let p2 = bytes::le64(submit.sqe, 32) as nat;
    lemma_pointer_keys();
    lemma_digits(4096);
    lemma_hex(p1, 16);
    lemma_hex(p2, 16);
    let v1 = text::decimal(4096);
    lemma_word(path, before, acc, " mps="@, "mps="@, v1);
    let w1 = before.push("mps="@ + v1);
    let a1 = acc + " mps="@ + v1;
    let v2 = text::hex(p1, 16);
    lemma_word(path, w1, a1, " prp1=0x"@, "prp1=0x"@, v2);
    let w2 = w1.push("prp1=0x"@ + v2);
    let a2 = a1 + " prp1=0x"@ + v2;
    let v3 = text::hex(p2, 16);
    lemma_word(path, w2, a2, " prp2=0x"@, "prp2=0x"@, v3);
    let w3 = w2.push("prp2=0x"@ + v3);
    assert(w3 =~= before + pointer_words(submit));
    let t1 = " mps="@ + v1;
    let t2 = t1 + " prp1=0x"@ + v2;
    lemma_glue(acc, seq![], " mps="@, v1);
    lemma_glue(acc, t1, " prp1=0x"@, v2);
    lemma_glue(acc, t2, " prp2=0x"@, v3);
}

/// Two digits of base sixteen at a place in a text tell a byte.
pub open spec fn tells_byte(s: Seq<char>, at: int, byte: u8) -> bool {
    text_laws::is_hex(s.subrange(at, at + 2)) && text_laws::hex_value(s.subrange(at, at + 2))
        == byte
}

/// The pieces from `at` on tell a descriptor: its address, its length, its type
/// and its three reserved bytes.
pub open spec fn tells_desc(pieces: Seq<Seq<char>>, at: int, desc: SglDescView) -> bool {
    let reserved = pieces[at + 3];
    &&& tells_hex(pieces[at], "{addr=0x"@, desc.addr as nat, 16)
    &&& tells(pieces[at + 1], "len="@, desc.length as nat)
    &&& tells_hex(pieces[at + 2], "type=0x"@, desc.desc_type as nat, 2)
    &&& begins_with(reserved, "reserved="@)
    &&& reserved.len() == 16
    &&& reserved[15] == '}'
    &&& tells_byte(reserved, 9, desc.reserved[0])
    &&& tells_byte(reserved, 11, desc.reserved[1])
    &&& tells_byte(reserved, 13, desc.reserved[2])
}

/// A word tells a tail: its entries between brackets, with commas between them,
/// one piece for a pointer and four for a descriptor.
pub open spec fn tells_tail(word: Seq<char>, tail: SubmitTailView) -> bool {
    let inner = word.subrange(6, word.len() - 1);
    let pieces = text::parts(inner, ',');
    &&& word.len() >= 7
    &&& begins_with(word, "tail=["@)
    &&& word.last() == ']'
    &&& match tail {
        SubmitTailView::Prp(entries) => if entries.len() == 0 {
            inner.len() == 0
        } else {
            &&& pieces.len() == entries.len()
            &&& forall|i: int|
                0 <= i < entries.len() ==> tells_hex(
                    pieces[i],
                    "0x"@,
                    #[trigger] entries[i] as nat,
                    16,
                )
        },
        SubmitTailView::Sgl(entries) => if entries.len() == 0 {
            inner.len() == 0
        } else {
            &&& pieces.len() == 4 * entries.len()
            &&& forall|i: int|
                0 <= i < entries.len() ==> tells_desc(pieces, 4 * i, #[trigger] entries[i])
        },
    }
}

#[verifier::rlimit(50)]
#[verifier::spinoff_prover]
proof fn lemma_prp_pieces(entries: Seq<u64>)
    ensures
        plain(print::prp_list_text(entries)),
        entries.len() > 0 ==> {
            let pieces = text::parts(print::prp_list_text(entries), ',');
            &&& pieces.len() == entries.len()
            &&& forall|i: int|
                0 <= i < entries.len() ==> tells_hex(
                    pieces[i],
                    "0x"@,
                    #[trigger] entries[i] as nat,
                    16,
                )
        },
    decreases entries.len(),
{
    let list = print::prp_list_text(entries);
    if entries.len() > 0 {
        let front = entries.drop_last();
        let before = print::prp_list_text(front);
        let n = entries.last() as nat;
        let hex = text::hex(n, 16);
        let piece = "0x"@ + hex;
        reveal_strlit("0x");
        reveal_strlit(",0x");
        lemma_prp_pieces(front);
        lemma_hex(n, 16);
        lemma_tells_hex("0x"@, n, 16);
        assert(plain(piece) && text_laws::lacks(piece, ',')) by {
            assert forall|j: int| 0 <= j < piece.len() implies plain_char(#[trigger] piece[j])
                && piece[j] != ',' by {
                if j >= 2 {
                    assert(piece[j] == hex[j - 2]);
                }
            }
        }
        let pieces = text::parts(list, ',');
        if entries.len() == 1 {
            assert(list == piece);
            text_laws::lemma_parts_cons(piece, piece, ',');
        } else {
            assert(list =~= before.push(',') + piece);
            text_laws::lemma_parts_snoc(before, piece, ',');
            assert forall|j: int| 0 <= j < list.len() implies plain_char(#[trigger] list[j]) by {
                if j < before.len() {
                    assert(list[j] == before[j]);
                } else if j > before.len() {
                    assert(list[j] == piece[j - before.len() - 1]);
                }
            }
            assert forall|i: int| 0 <= i < entries.len() implies tells_hex(
                pieces[i],
                "0x"@,
                #[trigger] entries[i] as nat,
                16,
            ) by {
                if i < front.len() {
                    assert(front[i] == entries[i]);
                }
            }
        }
    }
}

spec fn reserved_piece(desc: SglDescView) -> Seq<char> {
    "reserved="@ + text::hex(desc.reserved[0] as nat, 2) + text::hex(desc.reserved[1] as nat, 2)
        + text::hex(desc.reserved[2] as nat, 2) + "}"@
}

#[verifier::rlimit(50)]
#[verifier::spinoff_prover]
proof fn lemma_reserved_piece(desc: SglDescView)
    ensures
        ({
            let reserved = reserved_piece(desc);
            &&& begins_with(reserved, "reserved="@)
            &&& reserved.len() == 16
            &&& reserved[15] == '}'
            &&& tells_byte(reserved, 9, desc.reserved[0])
            &&& tells_byte(reserved, 11, desc.reserved[1])
            &&& tells_byte(reserved, 13, desc.reserved[2])
            &&& plain(reserved)
            &&& text_laws::lacks(reserved, ',')
        }),
{
    let reserved = reserved_piece(desc);
    let h0 = text::hex(desc.reserved[0] as nat, 2);
    let h1 = text::hex(desc.reserved[1] as nat, 2);
    let h2 = text::hex(desc.reserved[2] as nat, 2);
    reveal_strlit("reserved=");
    reveal_strlit("}");
    lemma_hex(desc.reserved[0] as nat, 2);
    lemma_hex(desc.reserved[1] as nat, 2);
    lemma_hex(desc.reserved[2] as nat, 2);
    assert(reserved.take(9) =~= "reserved="@);
    assert(reserved.subrange(9, 11) =~= h0);
    assert(reserved.subrange(11, 13) =~= h1);
    assert(reserved.subrange(13, 15) =~= h2);
    assert forall|j: int| 0 <= j < reserved.len() implies plain_char(#[trigger] reserved[j])
        && reserved[j] != ',' by {
        if 9 <= j < 11 {
            assert(reserved[j] == h0[j - 9]);
        } else if 11 <= j < 13 {
            assert(reserved[j] == h1[j - 11]);
        } else if 13 <= j < 15 {
            assert(reserved[j] == h2[j - 13]);
        }
    }
}

/// A key and its value hold no character that neither of them holds.
proof fn lemma_lacks_both(a: Seq<char>, b: Seq<char>, c: char)
    requires
        text_laws::lacks(a, c),
        text_laws::lacks(b, c),
    ensures
        text_laws::lacks(a + b, c),
{
    assert forall|j: int| 0 <= j < (a + b).len() implies #[trigger] (a + b)[j] != c by {
        if j < a.len() {
            assert((a + b)[j] == a[j]);
        } else {
            assert((a + b)[j] == b[j - a.len()]);
        }
    }
}

proof fn lemma_plain_both(a: Seq<char>, b: Seq<char>)
    requires
        plain(a),
        plain(b),
    ensures
        plain(a + b),
{
    assert forall|j: int| 0 <= j < (a + b).len() implies plain_char(#[trigger] (a + b)[j]) by {
        if j < a.len() {
            assert((a + b)[j] == a[j]);
        } else {
            assert((a + b)[j] == b[j - a.len()]);
        }
    }
}

/// A descriptor is four pieces.
#[verifier::rlimit(50)]
#[verifier::spinoff_prover]
proof fn lemma_desc_pieces(desc: SglDescView) -> (pieces: Seq<Seq<char>>)
    ensures
        pieces.len() == 4,
        tells_desc(pieces, 0, desc),
        print::sgl_desc_text(desc) == pieces[0] + seq![','] + pieces[1] + seq![','] + pieces[2]
            + seq![','] + pieces[3],
        text_laws::all_lack(pieces, ','),
        plain(print::sgl_desc_text(desc)),
{
    let v0 = text::hex(desc.addr as nat, 16);
    let v1 = text::decimal(desc.length as nat);
    let v2 = text::hex(desc.desc_type as nat, 2);
    let p0 = "{addr=0x"@ + v0;
    let p1 = "len="@ + v1;
    let p2 = "type=0x"@ + v2;
    let p3 = reserved_piece(desc);
    reveal_strlit("{addr=0x");
    reveal_strlit("len=");
    reveal_strlit(",len=");
    reveal_strlit("type=0x");
    reveal_strlit(",type=0x");
    reveal_strlit("reserved=");
    reveal_strlit(",reserved=");
    lemma_hex(desc.addr as nat, 16);
    lemma_digits(desc.length as nat);
    lemma_hex(desc.desc_type as nat, 2);
    lemma_tells_hex("{addr=0x"@, desc.addr as nat, 16);
    lemma_tells("len="@, desc.length as nat);
    lemma_tells_hex("type=0x"@, desc.desc_type as nat, 2);
    lemma_reserved_piece(desc);
    lemma_lacks_both("{addr=0x"@, v0, ',');
    lemma_plain_both("{addr=0x"@, v0);
    lemma_lacks_both("len="@, v1, ',');
    lemma_plain_both("len="@, v1);
    lemma_lacks_both("type=0x"@, v2, ',');
    lemma_plain_both("type=0x"@, v2);
    let pieces = seq![p0, p1, p2, p3];
    let comma = seq![','];
    let whole = p0 + comma + p1 + comma + p2 + comma + p3;
    assert(print::sgl_desc_text(desc) =~= whole) by {
        let a1 = "{addr=0x"@ + v0 + ",len="@ + v1;
        assert(a1 =~= p0 + comma + p1);
        let a2 = a1 + ",type=0x"@ + v2;
        assert(a2 =~= p0 + comma + p1 + comma + p2);
        let h0 = text::hex(desc.reserved[0] as nat, 2);
        let h1 = text::hex(desc.reserved[1] as nat, 2);
        let h2 = text::hex(desc.reserved[2] as nat, 2);
        assert(a2 + ",reserved="@ + h0 + h1 + h2 + "}"@ =~= a2 + comma + p3);
    }
    lemma_plain_both(p0, comma);
    lemma_plain_both(p0 + comma, p1);
    lemma_plain_both(p0 + comma + p1, comma);
    lemma_plain_both(p0 + comma + p1 + comma, p2);
    lemma_plain_both(p0 + comma + p1 + comma + p2, comma);
    lemma_plain_both(p0 + comma + p1 + comma + p2 + comma, p3);
    assert(text_laws::all_lack(pieces, ',')) by {
        assert forall|i: int| 0 <= i < pieces.len() implies text_laws::lacks(
            #[trigger] pieces[i],
            ',',
        ) by {
            if i == 0 {
            } else if i == 1 {
            } else if i == 2 {
            } else {
                assert(i == 3);
            }
        }
    }
    pieces
}

#[verifier::rlimit(50)]
#[verifier::spinoff_prover]
proof fn lemma_four_pieces(front: Seq<char>, four: Seq<Seq<char>>)
    requires
        four.len() == 4,
        text_laws::all_lack(four, ','),
    ensures
        ({
            let comma = seq![','];
            let whole = four[0] + comma + four[1] + comma + four[2] + comma + four[3];
            &&& text::parts(whole, ',') == four
            &&& text::parts(front + comma + whole, ',') == text::parts(front, ',') + four
        }),
{
    let comma = seq![','];
    let whole = four[0] + comma + four[1] + comma + four[2] + comma + four[3];
    assert(text_laws::lacks(four[0], ',') && text_laws::lacks(four[1], ','));
    assert(text_laws::lacks(four[2], ',') && text_laws::lacks(four[3], ','));
    text_laws::lemma_parts_cons(four[0], four[0], ',');
    text_laws::lemma_parts_snoc(four[0], four[1], ',');
    let a1 = four[0].push(',') + four[1];
    text_laws::lemma_parts_snoc(a1, four[2], ',');
    let a2 = a1.push(',') + four[2];
    text_laws::lemma_parts_snoc(a2, four[3], ',');
    assert(whole =~= a2.push(',') + four[3]);
    assert(text::parts(whole, ',') =~= four);
    text_laws::lemma_parts_snoc(front, four[0], ',');
    let b0 = front.push(',') + four[0];
    text_laws::lemma_parts_snoc(b0, four[1], ',');
    let b1 = b0.push(',') + four[1];
    text_laws::lemma_parts_snoc(b1, four[2], ',');
    let b2 = b1.push(',') + four[2];
    text_laws::lemma_parts_snoc(b2, four[3], ',');
    assert(front + comma + whole =~= b2.push(',') + four[3]);
    assert(text::parts(front + comma + whole, ',') =~= text::parts(front, ',') + four);
}

proof fn lemma_desc_elsewhere(
    pieces: Seq<Seq<char>>,
    at: int,
    others: Seq<Seq<char>>,
    there: int,
    desc: SglDescView,
)
    requires
        tells_desc(pieces, at, desc),
        others[there] == pieces[at],
        others[there + 1] == pieces[at + 1],
        others[there + 2] == pieces[at + 2],
        others[there + 3] == pieces[at + 3],
    ensures
        tells_desc(others, there, desc),
{
}

#[verifier::rlimit(50)]
#[verifier::spinoff_prover]
proof fn lemma_sgl_pieces(entries: Seq<SglDescView>)
    ensures
        plain(print::sgl_list_text(entries)),
        entries.len() > 0 ==> {
            let pieces = text::parts(print::sgl_list_text(entries), ',');
            &&& pieces.len() == 4 * entries.len()
            &&& forall|i: int|
                0 <= i < entries.len() ==> tells_desc(pieces, 4 * i, #[trigger] entries[i])
        },
    decreases entries.len(),
{
    let list = print::sgl_list_text(entries);
    if entries.len() > 0 {
        let front = entries.drop_last();
        let before = print::sgl_list_text(front);
        let last = entries.last();
        let four = lemma_desc_pieces(last);
        reveal_strlit(",");
        assert(","@ =~= seq![',']);
        lemma_sgl_pieces(front);
        lemma_four_pieces(before, four);
        let pieces = text::parts(list, ',');
        if entries.len() == 1 {
            assert(pieces == four);
        } else {
            let earlier = text::parts(before, ',');
            assert(list =~= before + seq![','] + print::sgl_desc_text(last));
            assert(pieces == earlier + four);
            lemma_plain_both(before, seq![',']);
            lemma_plain_both(before + seq![','], print::sgl_desc_text(last));
            assert forall|i: int| 0 <= i < entries.len() implies tells_desc(
                pieces,
                4 * i,
                #[trigger] entries[i],
            ) by {
                if i < front.len() {
                    assert(front[i] == entries[i]);
                    assert(pieces[4 * i] == earlier[4 * i]);
                    assert(pieces[4 * i + 1] == earlier[4 * i + 1]);
                    assert(pieces[4 * i + 2] == earlier[4 * i + 2]);
                    assert(pieces[4 * i + 3] == earlier[4 * i + 3]);
                    lemma_desc_elsewhere(earlier, 4 * i, pieces, 4 * i, front[i]);
                } else {
                    assert(pieces[4 * i] == four[0]);
                    assert(pieces[4 * i + 1] == four[1]);
                    assert(pieces[4 * i + 2] == four[2]);
                    assert(pieces[4 * i + 3] == four[3]);
                    lemma_desc_elsewhere(four, 0, pieces, 4 * i, last);
                }
            }
        }
    }
}

#[verifier::rlimit(50)]
#[verifier::spinoff_prover]
proof fn lemma_tail(tail: SubmitTailView)
    ensures
        plain(print::tail_text(tail)),
        tells_tail("tail="@ + print::tail_text(tail), tail),
{
    let word = "tail="@ + print::tail_text(tail);
    let inner = match tail {
        SubmitTailView::Prp(entries) => print::prp_list_text(entries),
        SubmitTailView::Sgl(entries) => print::sgl_list_text(entries),
    };
    match tail {
        SubmitTailView::Prp(entries) => lemma_prp_pieces(entries),
        SubmitTailView::Sgl(entries) => lemma_sgl_pieces(entries),
    }
    reveal_strlit("tail=");
    reveal_strlit("tail=[");
    reveal_strlit("[");
    reveal_strlit("]");
    lemma_plain_both("["@, inner);
    lemma_plain_both("["@ + inner, "]"@);
    assert(word.take(6) =~= "tail=["@);
    assert(word.subrange(6, word.len() - 1) =~= inner);
}

#[verifier::rlimit(50)]
#[verifier::spinoff_prover]
proof fn lemma_submit_line(
    path: Seq<char>,
    submit: SubmitRecordView,
    offset: u64,
    block_size: u64,
)
    ensures
        ({
            let line = print::record_text(
                path,
                TraceRecordView::Submit(submit),
                offset,
                block_size,
            );
            let ws = submit_words(submit, offset, block_size);
            &&& line == path + text_laws::joined_by(ws, ' ')
            &&& words(line, path) == ws
            &&& text_laws::lacks(text_laws::joined_by(ws, ' '), '\n')
            &&& text_laws::lacks(text_laws::joined_by(ws, ' '), '\r')
        }),
{
    let line = print::record_text(path, TraceRecordView::Submit(submit), offset, block_size);
    let ws = submit_words(submit, offset, block_size);
    let tail = print::tail_text(submit.tail);
    let w1 = common_words(submit, offset);
    let a1 = print::submit_common_text(path, submit, offset);
    let moves = moves_blocks(submit.sqe[0]);
    let w2 = w1 + (if moves {
        block_words(submit, block_size)
    } else {
        seq![]
    });
    let a2 = if moves {
        a1 + print::blocks_text(submit, block_size)
    } else {
        a1
    };
    let w3 = w2 + (if submit.use_sgl {
        seq![]
    } else {
        pointer_words(submit)
    });
    let a3 = if submit.use_sgl {
        a2
    } else {
        a2 + print::prps_text(submit)
    };
    lemma_common(path, submit, offset);
    if moves {
        lemma_blocks(path, w1, a1, submit, block_size);
    } else {
        assert(w2 =~= w1);
    }
    if submit.use_sgl {
        assert(w3 =~= w2);
    } else {
        lemma_pointers(path, w2, a2, submit);
    }
    lemma_pointer_keys();
    lemma_tail(submit.tail);
    lemma_word(path, w3, a3, " tail="@, "tail="@, tail);
    assert(ws =~= w3.push("tail="@ + tail));
    assert(line == a3 + " tail="@ + tail);
    lemma_plain_words(ws);
    assert(line.skip(path.len() as int) =~= text_laws::joined_by(ws, ' '));
}

/// What the line of every submission tells: where it stands, its time, its place
/// in the order, its controller, queue and command, its opcode, the lengths of
/// its data, how they are described, and how many entries describe them.
pub open spec fn tells_submission(
    ws: Seq<Seq<char>>,
    submit: SubmitRecordView,
    offset: u64,
) -> bool {
    &&& tells(ws[0], ":"@, offset as nat)
    &&& ws[1] == "submit"@
    &&& tells(ws[2], "ts="@, submit.header.timestamp_ns as nat)
    &&& tells(ws[3], "seq="@, submit.header.seq as nat)
    &&& tells(ws[4], "ctrl=nvme"@, submit.header.ctrl_id as nat)
    &&& tells(ws[5], "qid="@, submit.header.qid as nat)
    &&& tells(ws[6], "cid="@, submit.header.cid as nat)
    &&& tells_opcode(ws[7], submit.sqe[0])
    &&& tells(ws[8], "data_len="@, submit.data_len as nat)
    &&& tells(ws[9], "meta_len="@, submit.meta_len as nat)
    &&& tells_word(ws[10], "mode="@, if submit.use_sgl {
        "sgl"@
    } else {
        "prp"@
    })
    &&& tells_word(ws[11], "single_segment="@, if submit.single_segment {
        "true"@
    } else {
        "false"@
    })
    &&& tells(ws[12], "tail_entries="@, match submit.tail {
        SubmitTailView::Prp(entries) => entries.len(),
        SubmitTailView::Sgl(entries) => entries.len(),
    })
}

/// A word tells an opcode: its name and, in brackets, its number in base sixteen.
pub open spec fn tells_opcode(word: Seq<char>, opcode: u8) -> bool {
    let n = word.len() as int;
    &&& n >= 13
    &&& begins_with(word, "opcode="@)
    &&& word.subrange(n - 6, n - 3) == "(0x"@
    &&& tells_byte(word, n - 3, opcode)
    &&& word.last() == ')'
    &&& opcode == 0x00 ==> word.subrange(7, n - 6) == "flush"@
    &&& opcode == 0x01 ==> word.subrange(7, n - 6) == "write"@
    &&& opcode == 0x02 ==> word.subrange(7, n - 6) == "read"@
    &&& opcode == 0x04 ==> word.subrange(7, n - 6) == "write_uncorrectable"@
    &&& opcode == 0x05 ==> word.subrange(7, n - 6) == "compare"@
    &&& opcode == 0x08 ==> word.subrange(7, n - 6) == "write_zeroes"@
    &&& opcode == 0x09 ==> word.subrange(7, n - 6) == "dataset_management"@
    &&& opcode == 0x0c ==> word.subrange(7, n - 6) == "verify"@
    &&& opcode == 0x03 || opcode == 0x06 || opcode == 0x07 || opcode == 0x0a || opcode == 0x0b
        || opcode > 0x0c ==> word.subrange(7, n - 6) == "unknown"@
}

#[verifier::rlimit(50)]
#[verifier::spinoff_prover]
proof fn lemma_tells_opcode(opcode: u8)
    ensures
        tells_opcode("opcode="@ + print::opcode_text(print::opcode_of(opcode)), opcode),
{
    let name = print::opcode_text(print::opcode_of(opcode));
    let word = "opcode="@ + name;
    let n = word.len() as int;
    lemma_opcode(opcode);
    reveal_strlit("opcode=");
    reveal_strlit("flush(0x00)");
    reveal_strlit("write(0x01)");
    reveal_strlit("read(0x02)");
    reveal_strlit("write_uncorrectable(0x04)");
    reveal_strlit("compare(0x05)");
    reveal_strlit("write_zeroes(0x08)");
    reveal_strlit("dataset_management(0x09)");
    reveal_strlit("verify(0x0c)");
    reveal_strlit("unknown(0x");
    reveal_strlit("flush");
    reveal_strlit("write");
    reveal_strlit("read");
    reveal_strlit("write_uncorrectable");
    reveal_strlit("compare");
    reveal_strlit("write_zeroes");
    reveal_strlit("dataset_management");
    reveal_strlit("verify");
    reveal_strlit("unknown");
    lemma_hex(opcode as nat, 2);
    reveal_strlit(")");
    assert(word.take(7) =~= "opcode="@);
    assert(word.subrange(n - 6, n - 3) =~= name.subrange(n - 13, n - 10));
    assert(word.subrange(n - 3, n - 1) =~= name.subrange(n - 10, n - 8));
    assert(word.subrange(7, n - 6) =~= name.take(n - 13));
    let digits = word.subrange(n - 3, n - 1);
    if print::opcode_of(opcode) is Other {
        assert(digits =~= text::hex(opcode as nat, 2));
        assert(name.take(n - 13) =~= "unknown"@);
    } else {
        assert(digits[0] == name[n - 10] && digits[1] == name[n - 9]);
        if opcode == 0x00 {
            assert(name.take(n - 13) =~= "flush"@);
        } else if opcode == 0x01 {
            assert(name.take(n - 13) =~= "write"@);
        } else if opcode == 0x02 {
            assert(name.take(n - 13) =~= "read"@);
        } else if opcode == 0x04 {
            assert(name.take(n - 13) =~= "write_uncorrectable"@);
        } else if opcode == 0x05 {
            assert(name.take(n - 13) =~= "compare"@);
        } else if opcode == 0x08 {
            assert(name.take(n - 13) =~= "write_zeroes"@);
        } else if opcode == 0x09 {
            assert(name.take(n - 13) =~= "dataset_management"@);
        } else {
            assert(name.take(n - 13) =~= "verify"@);
        }
    }
}

/// What the line of a read or a write tells besides, from word `at` on: the
/// namespace, the first block, how many blocks there are, their size, and where
/// the bytes begin and how many there are.
pub open spec fn tells_blocks(
    ws: Seq<Seq<char>>,
    at: int,
    submit: SubmitRecordView,
    block_size: u64,
) -> bool {
    let slba = bytes::le64(submit.sqe, 40) as nat;
    let nlb = (bytes::le16(submit.sqe, 48) + 1) as nat;
    &&& tells(ws[at], "nsid="@, bytes::le32(submit.sqe, 4) as nat)
    &&& tells(ws[at + 1], "slba="@, slba)
    &&& tells(ws[at + 2], "nlb="@, nlb)
    &&& tells(ws[at + 3], "block_size="@, block_size as nat)
    &&& tells(ws[at + 4], "byte_offset="@, slba * block_size as nat)
    &&& tells(ws[at + 5], "sqe_data_bytes="@, nlb * block_size as nat)
}

/// What a line tells of the two pointers in the entry, from word `at` on.
pub open spec fn tells_pointers(ws: Seq<Seq<char>>, at: int, submit: SubmitRecordView) -> bool {
    &&& tells(ws[at], "mps="@, 4096)
    &&& tells_hex(ws[at + 1], "prp1=0x"@, bytes::le64(submit.sqe, 24) as nat, 16)
    &&& tells_hex(ws[at + 2], "prp2=0x"@, bytes::le64(submit.sqe, 32) as nat, 16)
}

/// The line of a submission reads back, word by word. Exactly the lines of reads
/// and writes tell of blocks, exactly those without scatter-gather lists tell of
/// pointers, and all of them end in the entries of the tail.
#[verifier::rlimit(50)]
#[verifier::spinoff_prover]
pub proof fn submission_line_reads_back(
    path: Seq<char>,
    submit: SubmitRecordView,
    offset: u64,
    block_size: u64,
)
    ensures
        ({
            let line = print::record_text(
                path,
                TraceRecordView::Submit(submit),
                offset,
                block_size,
            );
            let ws = words(line, path);
            let pointers: int = if moves_blocks(submit.sqe[0]) {
                19
            } else {
                13
            };
            let tail: int = if submit.use_sgl {
                pointers
            } else {
                pointers + 3
            };
            &&& begins_with(line, path)
            &&& ws.len() == tail + 1
            &&& tells_submission(ws, submit, offset)
            &&& moves_blocks(submit.sqe[0]) ==> tells_blocks(ws, 13, submit, block_size)
            &&& !submit.use_sgl ==> tells_pointers(ws, pointers, submit)
            &&& tells_tail(ws[tail], submit.tail)
        }),
{
    let line = print::record_text(path, TraceRecordView::Submit(submit), offset, block_size);
    let ws = submit_words(submit, offset, block_size);
    let header = submit.header;
    lemma_submit_line(path, submit, offset, block_size);
    assert(line.take(path.len() as int) =~= path);
    lemma_tells(":"@, offset as nat);
    lemma_tells("ts="@, header.timestamp_ns as nat);
    lemma_tells("seq="@, header.seq as nat);
    lemma_tells("ctrl=nvme"@, header.ctrl_id as nat);
    lemma_tells("qid="@, header.qid as nat);
    lemma_tells("cid="@, header.cid as nat);
    lemma_tells_opcode(submit.sqe[0]);
    lemma_tells("data_len="@, submit.data_len as nat);
    lemma_tells("meta_len="@, submit.meta_len as nat);
    lemma_tells_word("mode="@, print::mode_text(submit.use_sgl));
    lemma_tells_word("single_segment="@, print::flag_text(submit.single_segment));
    lemma_tells("tail_entries="@, submit.tail.entries());
    lemma_tail(submit.tail);
    let w1 = common_words(submit, offset);
    assert(forall|i: int| 0 <= i < 13 ==> ws[i] == w1[i]);
    if moves_blocks(submit.sqe[0]) {
        let slba = bytes::le64(submit.sqe, 40) as nat;
        let nlb = (bytes::le16(submit.sqe, 48) + 1) as nat;
        let w2 = block_words(submit, block_size);
        lemma_tells("nsid="@, bytes::le32(submit.sqe, 4) as nat);
        lemma_tells("slba="@, slba);
        lemma_tells("nlb="@, nlb);
        lemma_tells("block_size="@, block_size as nat);
        lemma_tells("byte_offset="@, slba * block_size as nat);
        lemma_tells("sqe_data_bytes="@, nlb * block_size as nat);
        assert(forall|i: int| 13 <= i < 19 ==> ws[i] == w2[i - 13]);
    }
    if !submit.use_sgl {
        lemma_tells("mps="@, 4096);
        lemma_tells_hex("prp1=0x"@, bytes::le64(submit.sqe, 24) as nat, 16);
        lemma_tells_hex("prp2=0x"@, bytes::le64(submit.sqe, 32) as nat, 16);
    }
}

/// The line of a write differs from the line of the read with the same other
/// bytes in the name of the opcode alone.
pub proof fn write_differs_from_read_in_its_name(
    path: Seq<char>,
    write: SubmitRecordView,
    read: SubmitRecordView,
    offset: u64,
    block_size: u64,
)
    requires
        write.sqe.len() == 64,
        write.sqe[0] == 0x01,
        read.sqe == write.sqe.update(0, 0x02),
        read.header == write.header,
        read.data_len == write.data_len,
        read.meta_len == write.meta_len,
        read.use_sgl == write.use_sgl,
        read.single_segment == write.single_segment,
        read.tail == write.tail,
    ensures
        exists|front: Seq<char>, back: Seq<char>|
            #![trigger front + "write(0x01)"@ + back]
            print::record_text(path, TraceRecordView::Submit(write), offset, block_size) == front
                + "write(0x01)"@ + back && print::record_text(
                path,
                TraceRecordView::Submit(read),
                offset,
                block_size,
            ) == front + "read(0x02)"@ + back,
{
    let w = write;
    let r = read;
    let ws_r = submit_words(r, offset, block_size);
    let word_w = "opcode="@ + "write(0x01)"@;
    let word_r = "opcode="@ + "read(0x02)"@;
    lemma_submit_line(path, w, offset, block_size);
    lemma_submit_line(path, r, offset, block_size);
    lemma_write_and_read_words(w, r, offset, block_size);
    let (before, behind) = lemma_word_between(ws_r, 7, word_r, word_w);
    lemma_inside(path, before, "opcode="@, "write(0x01)"@, behind);
    lemma_inside(path, before, "opcode="@, "read(0x02)"@, behind);
    let front = path + before + "opcode="@;
    assert(print::record_text(path, TraceRecordView::Submit(w), offset, block_size) == front
        + "write(0x01)"@ + behind);
}

proof fn lemma_inside(
    path: Seq<char>,
    before: Seq<char>,
    key: Seq<char>,
    name: Seq<char>,
    behind: Seq<char>,
)
    ensures
        path + (before + (key + name) + behind) == path + before + key + name + behind,
{
    assert(path + (before + (key + name) + behind) =~= path + before + key + name + behind);
}

#[verifier::rlimit(50)]
#[verifier::spinoff_prover]
proof fn lemma_write_and_read_words(
    w: SubmitRecordView,
    r: SubmitRecordView,
    offset: u64,
    block_size: u64,
)
    requires
        w.sqe.len() == 64,
        w.sqe[0] == 0x01,
        r.sqe == w.sqe.update(0, 0x02),
        r.header == w.header,
        r.data_len == w.data_len,
        r.meta_len == w.meta_len,
        r.use_sgl == w.use_sgl,
        r.single_segment == w.single_segment,
        r.tail == w.tail,
    ensures
        ({
            let ws_r = submit_words(r, offset, block_size);
            &&& ws_r.len() > 7
            &&& ws_r.update(7, "opcode="@ + "read(0x02)"@) == ws_r
            &&& ws_r.update(7, "opcode="@ + "write(0x01)"@) == submit_words(w, offset, block_size)
        }),
{
    assert(r.sqe[0] == 0x02);
    assert(r.sqe.subrange(40, 48) =~= w.sqe.subrange(40, 48));
    assert(r.sqe.subrange(48, 50) =~= w.sqe.subrange(48, 50));
    assert(r.sqe.subrange(4, 8) =~= w.sqe.subrange(4, 8));
    assert(r.sqe.subrange(24, 32) =~= w.sqe.subrange(24, 32));
    assert(r.sqe.subrange(32, 40) =~= w.sqe.subrange(32, 40));
    assert(block_words(r, block_size) == block_words(w, block_size));
    assert(pointer_words(r) == pointer_words(w));
    let word_w = "opcode="@ + "write(0x01)"@;
    let word_r = "opcode="@ + "read(0x02)"@;
    let c_r = common_words(r, offset);
    let c_w = common_words(w, offset);
    assert(c_r.len() == 13);
    assert(c_r[7] == word_r);
    assert(c_w =~= c_r.update(7, word_w));
    let rest = block_words(w, block_size);
    let more = if w.use_sgl {
        seq![]
    } else {
        pointer_words(w)
    };
    let end = seq!["tail="@ + print::tail_text(w.tail)];
    assert(submit_words(w, offset, block_size) == c_w + rest + more + end);
    assert(submit_words(r, offset, block_size) == c_r + rest + more + end);
    assert((c_r + rest + more + end).update(7, word_w) =~= c_r.update(7, word_w) + rest + more
        + end);
    assert((c_r + rest + more + end).update(7, word_r) =~= c_r + rest + more + end);
}

/// Words that differ at one place make texts that differ at one place.
proof fn lemma_word_between(ws: Seq<Seq<char>>, at: int, a: Seq<char>, b: Seq<char>) -> (around: (
    Seq<char>,
    Seq<char>,
))
    requires
        0 < at < ws.len(),
    ensures
        text_laws::joined_by(ws.update(at, a), ' ') == around.0 + a + around.1,
        text_laws::joined_by(ws.update(at, b), ' ') == around.0 + b + around.1,
    decreases ws.len(),
{
    let front = ws.drop_last();
    if at == ws.len() - 1 {
        let before = text_laws::joined_by(front, ' ').push(' ');
        assert(ws.update(at, a).drop_last() =~= front);
        assert(ws.update(at, b).drop_last() =~= front);
        assert(before + a + Seq::<char>::empty() =~= before + a);
        assert(before + b + Seq::<char>::empty() =~= before + b);
        (before, seq![])
    } else {
        let (before, behind) = lemma_word_between(front, at, a, b);
        let last = ws.last();
        let rest = behind.push(' ') + last;
        assert(ws.update(at, a).drop_last() =~= front.update(at, a));
        assert(ws.update(at, b).drop_last() =~= front.update(at, b));
        assert(text_laws::joined_by(ws.update(at, a), ' ') =~= before + a + rest);
        assert(text_laws::joined_by(ws.update(at, b), ' ') =~= before + b + rest);
        (before, rest)
    }
}

/// The line of a completion reads back, word by word: where it stands, its time,
/// its place in the order, its controller, queue and command, its result, the
/// head and the number of the submission queue, its status and its retries.
#[verifier::rlimit(50)]
#[verifier::spinoff_prover]
pub proof fn completion_line_reads_back(
    path: Seq<char>,
    complete: CompleteRecord,
    offset: u64,
    block_size: u64,
)
    ensures
        ({
            let line = print::record_text(
                path,
                TraceRecordView::Complete(complete),
                offset,
                block_size,
            );
            let ws = words(line, path);
            &&& begins_with(line, path)
            &&& ws.len() == 12
            &&& tells(ws[0], ":"@, offset as nat)
            &&& ws[1] == "complete"@
            &&& tells(ws[2], "ts="@, complete.header.timestamp_ns as nat)
            &&& tells(ws[3], "seq="@, complete.header.seq as nat)
            &&& tells(ws[4], "ctrl=nvme"@, complete.header.ctrl_id as nat)
            &&& tells(ws[5], "qid="@, complete.header.qid as nat)
            &&& tells(ws[6], "cid="@, complete.header.cid as nat)
            &&& tells_hex(ws[7], "result=0x"@, complete.result as nat, 16)
            &&& tells(ws[8], "sq_head="@, complete.sq_head as nat)
            &&& tells(ws[9], "sq_id="@, complete.sq_id as nat)
            &&& tells_hex(ws[10], "status=0x"@, complete.status as nat, 4)
            &&& tells(ws[11], "retries="@, complete.retries as nat)
        }),
{
    let line = print::record_text(path, TraceRecordView::Complete(complete), offset, block_size);
    lemma_complete_line(path, complete, offset);
    lemma_completion_words(complete, offset);
    assert(line.take(path.len() as int) =~= path);
}

#[verifier::rlimit(50)]
#[verifier::spinoff_prover]
proof fn lemma_complete_line(path: Seq<char>, complete: CompleteRecord, offset: u64)
    ensures
        ({
            let line = print::complete_text(path, complete, offset);
            let ws = complete_words(complete, offset);
            &&& line == path + text_laws::joined_by(ws, ' ')
            &&& words(line, path) == ws
            &&& text_laws::lacks(text_laws::joined_by(ws, ' '), '\n')
            &&& text_laws::lacks(text_laws::joined_by(ws, ' '), '\r')
        }),
{
    let header = complete.header;
    let line = print::complete_text(path, complete, offset);
    lemma_header_keys();
    lemma_complete_keys();
    lemma_digits(header.seq as nat);
    lemma_digits(header.ctrl_id as nat);
    lemma_digits(header.qid as nat);
    lemma_digits(header.cid as nat);
    lemma_hex(complete.result as nat, 16);
    lemma_digits(complete.sq_head as nat);
    lemma_digits(complete.sq_id as nat);
    lemma_hex(complete.status as nat, 4);
    lemma_digits(complete.retries as nat);
    lemma_kind_and_time(path, offset, " complete ts="@, "complete"@, header.timestamp_ns);
    let w2 = seq![
        ":"@ + text::decimal(offset as nat),
        "complete"@,
        "ts="@ + text::decimal(header.timestamp_ns as nat),
    ];
    let a2 = path + ":"@ + text::decimal(offset as nat) + " complete ts="@ + text::decimal(
        header.timestamp_ns as nat,
    );
    let v3 = text::decimal(header.seq as nat);
    lemma_word(path, w2, a2, " seq="@, "seq="@, v3);
    let w3 = w2.push("seq="@ + v3);
    let a3 = a2 + " seq="@ + v3;
    let v4 = text::decimal(header.ctrl_id as nat);
    lemma_word(path, w3, a3, " ctrl=nvme"@, "ctrl=nvme"@, v4);
    let w4 = w3.push("ctrl=nvme"@ + v4);
    let a4 = a3 + " ctrl=nvme"@ + v4;
    let v5 = text::decimal(header.qid as nat);
    lemma_word(path, w4, a4, " qid="@, "qid="@, v5);
    let w5 = w4.push("qid="@ + v5);
    let a5 = a4 + " qid="@ + v5;
    let v6 = text::decimal(header.cid as nat);
    lemma_word(path, w5, a5, " cid="@, "cid="@, v6);
    let w6 = w5.push("cid="@ + v6);
    let a6 = a5 + " cid="@ + v6;
    let v7 = text::hex(complete.result as nat, 16);
    lemma_word(path, w6, a6, " result=0x"@, "result=0x"@, v7);
    let w7 = w6.push("result=0x"@ + v7);
    let a7 = a6 + " result=0x"@ + v7;
    let v8 = text::decimal(complete.sq_head as nat);
    lemma_word(path, w7, a7, " sq_head="@, "sq_head="@, v8);
    let w8 = w7.push("sq_head="@ + v8);
    let a8 = a7 + " sq_head="@ + v8;
    let v9 = text::decimal(complete.sq_id as nat);
    lemma_word(path, w8, a8, " sq_id="@, "sq_id="@, v9);
    let w9 = w8.push("sq_id="@ + v9);
    let a9 = a8 + " sq_id="@ + v9;
    let v10 = text::hex(complete.status as nat, 4);
    lemma_word(path, w9, a9, " status=0x"@, "status=0x"@, v10);
    let w10 = w9.push("status=0x"@ + v10);
    let a10 = a9 + " status=0x"@ + v10;
    let v11 = text::decimal(complete.retries as nat);
    lemma_word(path, w10, a10, " retries="@, "retries="@, v11);
    let w11 = w10.push("retries="@ + v11);
    assert(line == a10 + " retries="@ + v11);
    lemma_plain_words(w11);
    assert(line.skip(path.len() as int) =~= text_laws::joined_by(w11, ' '));
    assert(w11 =~= complete_words(complete, offset));
}

proof fn lemma_completion_words(complete: CompleteRecord, offset: u64)
    ensures
        ({
            let ws = complete_words(complete, offset);
            &&& ws.len() == 12
            &&& tells(ws[0], ":"@, offset as nat)
            &&& ws[1] == "complete"@
            &&& tells(ws[2], "ts="@, complete.header.timestamp_ns as nat)
            &&& tells(ws[3], "seq="@, complete.header.seq as nat)
            &&& tells(ws[4], "ctrl=nvme"@, complete.header.ctrl_id as nat)
            &&& tells(ws[5], "qid="@, complete.header.qid as nat)
            &&& tells(ws[6], "cid="@, complete.header.cid as nat)
            &&& tells_hex(ws[7], "result=0x"@, complete.result as nat, 16)
            &&& tells(ws[8], "sq_head="@, complete.sq_head as nat)
            &&& tells(ws[9], "sq_id="@, complete.sq_id as nat)
            &&& tells_hex(ws[10], "status=0x"@, complete.status as nat, 4)
            &&& tells(ws[11], "retries="@, complete.retries as nat)
        }),
{
    let header = complete.header;
    lemma_tells(":"@, offset as nat);
    lemma_tells("ts="@, header.timestamp_ns as nat);
    lemma_tells("seq="@, header.seq as nat);
    lemma_tells("ctrl=nvme"@, header.ctrl_id as nat);
    lemma_tells("qid="@, header.qid as nat);
    lemma_tells("cid="@, header.cid as nat);
    lemma_tells_hex("result=0x"@, complete.result as nat, 16);
    lemma_tells("sq_head="@, complete.sq_head as nat);
    lemma_tells("sq_id="@, complete.sq_id as nat);
    lemma_tells_hex("status=0x"@, complete.status as nat, 4);
    lemma_tells("retries="@, complete.retries as nat);
}

/// What is printed of a stream whose name holds no end of a line: one line for
/// each of its records, in order.
pub proof fn each_record_has_its_line(
    path: Seq<char>,
    records: Seq<RawRecordView>,
    block_size: u64,
)
    requires
        text_laws::lacks(path, '\n'),
        text_laws::lacks(path, '\r'),
    ensures
        ({
            let lines = text::lines(print::lines_text(path, records, block_size));
            &&& lines.len() == records.len()
            &&& forall|i: int|
                0 <= i < records.len() ==> #[trigger] lines[i] == print::record_text(
                    path,
                    records[i].record,
                    records[i].offset,
                    block_size,
                )
        }),
    decreases records.len(),
{
    lemma_lines_end(path, records, block_size);
    if records.len() > 0 {
        let front = records.drop_last();
        let last = records.last();
        let line = print::record_text(path, last.record, last.offset, block_size);
        each_record_has_its_line(path, front, block_size);
        lemma_lines_end(path, front, block_size);
        lemma_line_is_one(path, last.record, last.offset, block_size);
        reveal(print::line_text);
        reveal_strlit("\n");
        assert(print::line_text(path, last, block_size) =~= line.push('\n') + seq![]);
        text_laws::lemma_lines_cons(line, seq![]);
        text_laws::lemma_lines_append(
            print::lines_text(path, front, block_size),
            print::line_text(path, last, block_size),
        );
        assert(text::lines(seq![]) =~= seq![]);
        let lines = text::lines(print::lines_text(path, records, block_size));
        let before = text::lines(print::lines_text(path, front, block_size));
        assert(lines =~= before.push(line));
        assert forall|i: int| 0 <= i < records.len() implies #[trigger] lines[i]
            == print::record_text(path, records[i].record, records[i].offset, block_size) by {
            if i < front.len() {
                assert(lines[i] == before[i]);
                assert(front[i] == records[i]);
            }
        }
    } else {
        assert(text::lines(seq![]) =~= seq![]);
    }
}

proof fn lemma_line_is_one(
    path: Seq<char>,
    record: TraceRecordView,
    offset: u64,
    block_size: u64,
)
    requires
        text_laws::lacks(path, '\n'),
        text_laws::lacks(path, '\r'),
    ensures
        text_laws::lacks(print::record_text(path, record, offset, block_size), '\n'),
        text_laws::lacks(print::record_text(path, record, offset, block_size), '\r'),
{
    let ws = match record {
        TraceRecordView::Submit(submit) => submit_words(submit, offset, block_size),
        TraceRecordView::Complete(complete) => complete_words(complete, offset),
    };
    match record {
        TraceRecordView::Submit(submit) => lemma_submit_line(path, submit, offset, block_size),
        TraceRecordView::Complete(complete) => lemma_complete_line(path, complete, offset),
    }
    lemma_lacks_both(path, text_laws::joined_by(ws, ' '), '\n');
    lemma_lacks_both(path, text_laws::joined_by(ws, ' '), '\r');
}

proof fn lemma_lines_end(path: Seq<char>, records: Seq<RawRecordView>, block_size: u64)
    ensures
        ({
            let written = print::lines_text(path, records, block_size);
            written.len() == 0 || written.last() == '\n'
        }),
{
    if records.len() > 0 {
        reveal(print::line_text);
        reveal_strlit("\n");
        let line = print::line_text(path, records.last(), block_size);
        assert(line.last() == '\n');
        assert(print::lines_text(path, records, block_size).last() == line.last());
    }
}

} // verus!
