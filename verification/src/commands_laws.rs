//! Which commands are outstanding, told by the records themselves.

use crate::commands::{self, CommandKey, QueueKey};
use crate::print_laws;
use crate::record::TraceRecordView;
use crate::text;
use crate::text_laws;
use vstd::prelude::*;

verus! {

/// A record submits a command.
pub open spec fn submits(record: TraceRecordView, key: CommandKey) -> bool {
    &&& record matches TraceRecordView::Submit(submit)
    &&& submit.header.ctrl_id == key.ctrl_id
    &&& submit.header.qid == key.qid
    &&& submit.header.cid == key.cid
}

/// A record completes a command.
pub open spec fn completes(record: TraceRecordView, key: CommandKey) -> bool {
    &&& record matches TraceRecordView::Complete(complete)
    &&& complete.header.ctrl_id == key.ctrl_id
    &&& complete.header.qid == key.qid
    &&& complete.header.cid == key.cid
}

/// Record `i` submits a command that no later record completes.
pub open spec fn stays_open(records: Seq<TraceRecordView>, key: CommandKey, i: int) -> bool {
    &&& 0 <= i < records.len()
    &&& submits(records[i], key)
    &&& forall|j: int| i < j < records.len() ==> !completes(#[trigger] records[j], key)
}

/// Record `i` is the last that submits a command, no later record completes the
/// command, and the record tells so many bytes of data.
pub open spec fn last_opened(
    records: Seq<TraceRecordView>,
    key: CommandKey,
    i: int,
    data_len: u32,
) -> bool {
    &&& stays_open(records, key, i)
    &&& forall|j: int| i < j < records.len() ==> !submits(#[trigger] records[j], key)
    &&& records[i] matches TraceRecordView::Submit(submit)
    &&& submit.data_len == data_len
}

/// A command is outstanding exactly where a record submits it and no later record
/// completes it. Its length is that of the last submission.
pub proof fn outstanding_commands_were_submitted(records: Seq<TraceRecordView>, key: CommandKey)
    ensures
        commands::outstanding(records).contains_key(key) <==> exists|i: int| #[trigger]
            stays_open(records, key, i),
        commands::outstanding(records).contains_key(key) ==> exists|i: int| #[trigger]
            last_opened(records, key, i, commands::outstanding(records)[key]),
    decreases records.len(),
{
    if records.len() > 0 {
        let front = records.drop_last();
        let n = records.len() - 1;
        let last = records[n];
        outstanding_commands_were_submitted(front, key);
        let open = commands::outstanding(records);
        if submits(last, key) {
            assert(stays_open(records, key, n));
            assert(last_opened(records, key, n, open[key]));
        } else if completes(last, key) {
            assert(!open.contains_key(key));
            assert forall|i: int| !#[trigger] stays_open(records, key, i) by {
                if stays_open(records, key, i) {
                    if i < n {
                        assert(!completes(records[n], key));
                    }
                }
            }
        } else {
            assert(open.contains_key(key) == commands::outstanding(front).contains_key(key));
            if open.contains_key(key) {
                let i = choose|i: int| #[trigger]
                    last_opened(front, key, i, commands::outstanding(front)[key]);
                assert(last_opened(front, key, i, commands::outstanding(front)[key]));
                assert forall|j: int| i < j < records.len() implies !completes(
                    #[trigger] records[j],
                    key,
                ) && !submits(records[j], key) by {
                    if j < n {
                        assert(front[j] == records[j]);
                        assert(!completes(front[j], key) && !submits(front[j], key));
                    }
                }
                assert(front[i] == records[i]);
                assert(stays_open(records, key, i));
                assert(last_opened(records, key, i, open[key]));
            } else {
                assert forall|i: int| !#[trigger] stays_open(records, key, i) by {
                    if stays_open(records, key, i) {
                        assert(i < n);
                        assert(front[i] == records[i]);
                        assert forall|j: int| i < j < front.len() implies !completes(
                            #[trigger] front[j],
                            key,
                        ) by {
                            assert(front[j] == records[j]);
                        }
                        assert(stays_open(front, key, i));
                    }
                }
            }
        }
    }
}

/// A record does not fit the commands that are outstanding before it: it submits
/// one that is, or completes one that is not.
pub open spec fn misfits(records: Seq<TraceRecordView>, i: int) -> bool {
    let open = commands::outstanding(records.take(i));
    match records[i] {
        TraceRecordView::Submit(submit) => open.contains_key(
            CommandKey {
                ctrl_id: submit.header.ctrl_id,
                qid: submit.header.qid,
                cid: submit.header.cid,
            },
        ),
        TraceRecordView::Complete(complete) => !open.contains_key(
            CommandKey {
                ctrl_id: complete.header.ctrl_id,
                qid: complete.header.qid,
                cid: complete.header.cid,
            },
        ),
    }
}

/// How many of the first `n` records do not fit.
pub open spec fn misfit_count(records: Seq<TraceRecordView>, n: nat) -> nat
    decreases n,
{
    if n == 0 {
        0
    } else {
        misfit_count(records, (n - 1) as nat) + if misfits(records, n - 1) {
            1nat
        } else {
            0nat
        }
    }
}

/// There is one warning for each record that does not fit, in the order of the
/// records: that of record `i` stands behind those of the records before it.
pub proof fn each_misfit_is_warned_of(records: Seq<TraceRecordView>, n: nat)
    requires
        n <= records.len(),
    ensures
        commands::warnings(records.take(n as int)).len() == misfit_count(records, n),
        forall|i: int|
            0 <= i < n && #[trigger] misfits(records, i) ==> {
                let warning = commands::warnings(records.take(n as int))[misfit_count(
                    records,
                    i as nat,
                ) as int];
                match records[i] {
                    TraceRecordView::Submit(submit) => warning == commands::duplicate_submit_text(
                        commands::command_of(submit.header),
                    ),
                    TraceRecordView::Complete(complete) => warning
                        == commands::unmatched_completion_text(
                        commands::command_of(complete.header),
                    ),
                }
            },
        forall|i: int|
            0 <= i < n && #[trigger] misfits(records, i) ==> misfit_count(records, i as nat)
                < misfit_count(records, n),
    decreases n,
{
    if n > 0 {
        let m = (n - 1) as nat;
        let now = records.take(n as int);
        let before = records.take(m as int);
        each_misfit_is_warned_of(records, m);
        assert(now.drop_last() =~= before);
        assert(now.last() == records[m as int]);
        let more = commands::warnings_for(commands::outstanding(before), records[m as int]);
        assert(commands::warnings(now) == commands::warnings(before) + more);
    }
}

/// What a queue is outstanding with: the commands that carry its controller and
/// its number.
pub open spec fn open_in_queue(records: Seq<TraceRecordView>, queue: QueueKey) -> Set<CommandKey> {
    commands::outstanding(records).dom().filter(
        |key: CommandKey| key.ctrl_id == queue.ctrl_id && key.qid == queue.qid,
    )
}

/// The words from `at` on tell a command.
pub open spec fn tells_command(words: Seq<Seq<char>>, at: int, key: CommandKey) -> bool {
    &&& words.len() == at + 3
    &&& print_laws::tells(words[at], "ctrl=nvme"@, key.ctrl_id as nat)
    &&& print_laws::tells(words[at + 1], "qid="@, key.qid as nat)
    &&& print_laws::tells(words[at + 2], "cid="@, key.cid as nat)
}

/// Both warnings read back, word by word: what is wrong, and the command that it
/// is wrong with.
pub proof fn warnings_tell_their_commands(key: CommandKey)
    ensures
        ({
            let words = text::parts(commands::duplicate_submit_text(key), ' ');
            &&& tells_command(words, 4, key)
            &&& words.take(4) == seq!["duplicate"@, "outstanding"@, "submit"@, "for"@]
        }),
        ({
            let words = text::parts(commands::unmatched_completion_text(key), ' ');
            &&& tells_command(words, 5, key)
            &&& words.take(5) == seq![
                "completion"@,
                "without"@,
                "matching"@,
                "submit"@,
                "for"@,
            ]
        }),
{
    let a = seq!["duplicate"@, "outstanding"@, "submit"@, "for"@];
    let b = seq!["completion"@, "without"@, "matching"@, "submit"@, "for"@];
    let nvme = seq![' '] + "ctrl=nvme"@;
    reveal_strlit("duplicate outstanding submit for ctrl=nvme");
    reveal_strlit("completion without matching submit for ctrl=nvme");
    reveal_strlit("duplicate");
    reveal_strlit("outstanding");
    reveal_strlit("submit");
    reveal_strlit("for");
    reveal_strlit("completion");
    reveal_strlit("without");
    reveal_strlit("matching");
    reveal_strlit("ctrl=nvme");
    assert("duplicate outstanding submit for ctrl=nvme"@ =~= text_laws::joined_by(a, ' ') + nvme)
        by {
        let a1 = seq!["duplicate"@];
        let a2 = a1.push("outstanding"@);
        let a3 = a2.push("submit"@);
        text_laws::lemma_joined_push(a1, "outstanding"@, ' ');
        text_laws::lemma_joined_push(a2, "submit"@, ' ');
        text_laws::lemma_joined_push(a3, "for"@, ' ');
        assert(text_laws::joined_by(a1, ' ') == "duplicate"@);
        assert(a3.push("for"@) =~= a);
    }
    assert("completion without matching submit for ctrl=nvme"@ =~= text_laws::joined_by(b, ' ')
        + nvme) by {
        let b1 = seq!["completion"@];
        let b2 = b1.push("without"@);
        let b3 = b2.push("matching"@);
        let b4 = b3.push("submit"@);
        text_laws::lemma_joined_push(b1, "without"@, ' ');
        text_laws::lemma_joined_push(b2, "matching"@, ' ');
        text_laws::lemma_joined_push(b3, "submit"@, ' ');
        text_laws::lemma_joined_push(b4, "for"@, ' ');
        assert(text_laws::joined_by(b1, ' ') == "completion"@);
        assert(b4.push("for"@) =~= b);
    }
    lemma_warning(a, "duplicate outstanding submit for ctrl=nvme"@, key);
    lemma_warning(b, "completion without matching submit for ctrl=nvme"@, key);
}

proof fn lemma_key_and_number(key: Seq<char>, n: nat)
    requires
        text_laws::lacks(key, ' '),
    ensures
        print_laws::tells(key + text::decimal(n), key, n),
        text_laws::lacks(key + text::decimal(n), ' '),
{
    let digits = text::decimal(n);
    let word = key + digits;
    text_laws::decimal_reads_back(n);
    text_laws::lemma_digits_lack(digits, ' ');
    assert(word.take(key.len() as int) =~= key);
    assert(word.skip(key.len() as int) =~= digits);
    assert forall|j: int| 0 <= j < word.len() implies #[trigger] word[j] != ' ' by {
        if j < key.len() {
            assert(word[j] == key[j]);
        } else {
            assert(word[j] == digits[j - key.len()]);
        }
    }
}

#[verifier::rlimit(50)]
#[verifier::spinoff_prover]
proof fn lemma_warning(lead: Seq<Seq<char>>, front: Seq<char>, key: CommandKey)
    requires
        lead.len() > 0,
        text_laws::all_lack(lead, ' '),
        front == text_laws::joined_by(lead, ' ') + (seq![' '] + "ctrl=nvme"@),
    ensures
        ({
            let warning = front + text::decimal(key.ctrl_id as nat) + " qid="@ + text::decimal(
                key.qid as nat,
            ) + " cid="@ + text::decimal(key.cid as nat);
            let words = text::parts(warning, ' ');
            &&& tells_command(words, lead.len() as int, key)
            &&& words.take(lead.len() as int) == lead
        }),
{
    let d1 = text::decimal(key.ctrl_id as nat);
    let d2 = text::decimal(key.qid as nat);
    let d3 = text::decimal(key.cid as nat);
    let warning = front + d1 + " qid="@ + d2 + " cid="@ + d3;
    reveal_strlit("ctrl=nvme");
    reveal_strlit(" qid=");
    reveal_strlit("qid=");
    reveal_strlit(" cid=");
    reveal_strlit("cid=");
    assert(" qid="@ =~= seq![' '] + "qid="@);
    assert(" cid="@ =~= seq![' '] + "cid="@);
    lemma_key_and_number("ctrl=nvme"@, key.ctrl_id as nat);
    lemma_key_and_number("qid="@, key.qid as nat);
    lemma_key_and_number("cid="@, key.cid as nat);
    let w1 = lead.push("ctrl=nvme"@ + d1);
    let w2 = w1.push("qid="@ + d2);
    let w3 = w2.push("cid="@ + d3);
    text_laws::lemma_joined_push(lead, "ctrl=nvme"@ + d1, ' ');
    text_laws::lemma_joined_push(w1, "qid="@ + d2, ' ');
    text_laws::lemma_joined_push(w2, "cid="@ + d3, ' ');
    assert(front + d1 =~= text_laws::joined_by(w1, ' '));
    assert(front + d1 + " qid="@ + d2 =~= text_laws::joined_by(w2, ' '));
    assert(warning =~= text_laws::joined_by(w3, ' '));
    assert(text_laws::all_lack(w3, ' ')) by {
        assert forall|i: int| 0 <= i < w3.len() implies text_laws::lacks(
            #[trigger] w3[i],
            ' ',
        ) by {
            if i < lead.len() {
                assert(w3[i] == lead[i]);
            }
        }
    }
    text_laws::joined_parts_read_back(w3, ' ');
    assert(w3.take(lead.len() as int) =~= lead);
}

} // verus!
