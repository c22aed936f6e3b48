//! Which record splicing takes next, what it warns of and where it stops.

use crate::error::{Result, TraceError};
use crate::order;
use crate::record::RawRecordView;
use crate::splice::{self, Pick, Stream};
use crate::splice_laws;
use crate::text;
use crate::text_laws;
use crate::trace;
use vstd::prelude::*;

verus! {

/// How many of the first `k` chosen records came from a stream.
pub open spec fn taken(picks: Seq<Pick>, k: int, source: int) -> int
    decreases k,
{
    if k <= 0 {
        0
    } else {
        taken(picks, k - 1, source) + if picks[k - 1].source == source {
            1int
        } else {
            0int
        }
    }
}

/// Record `a` of stream `i` may go before record `b` of stream `j`: `b` does not
/// come before `a`; where they tie, the name of `j` does not come before that of
/// `i`; where the names agree too, the smaller offset goes first, and then the
/// stream that stands first.
pub open spec fn goes_first(
    streams: Seq<Stream>,
    i: int,
    a: RawRecordView,
    j: int,
    b: RawRecordView,
) -> bool {
    let tie = !order::before(a.header, b.header);
    let same = streams[i].name == streams[j].name;
    &&& !order::before(b.header, a.header)
    &&& tie ==> !order::text_less(streams[j].name, streams[i].name)
    &&& tie && same ==> a.offset <= b.offset
    &&& tie && same && a.offset == b.offset ==> i <= j
}

proof fn lemma_first_goes_first(streams: Seq<Stream>, n: nat)
    requires
        n <= streams.len(),
        splice_laws::transitive(streams),
    ensures
        splice::first_of(
            splice::stream_names(streams),
            splice::fronts(streams),
            n,
        ) matches Some(i) ==> 0 <= i < n && streams[i].records.len() > 0 && forall|j: int|
            0 <= j < n && streams[j].records.len() > 0 ==> goes_first(
                streams,
                i,
                streams[i].records[0],
                j,
                (#[trigger] streams[j]).records[0],
            ),
    decreases n,
{
    let names = splice::stream_names(streams);
    let fronts = splice::fronts(streams);
    if n > 0 {
        let m = (n - 1) as nat;
        let last = n - 1;
        lemma_first_goes_first(streams, m);
        splice::lemma_first_of(names, fronts, m);
        splice::lemma_first_of(names, fronts, n);
        assert(forall|k: int| 0 <= k < streams.len() ==> #[trigger] names[k] == streams[k].name);
        assert(forall|k: int|
            0 <= k < streams.len() && streams[k].records.len() > 0 ==> #[trigger] fronts[k] == Some(
                streams[k].records[0],
            ));
        assert(forall|k: int|
            0 <= k < streams.len() && streams[k].records.len() == 0
                ==> #[trigger] fronts[k] is None);
        let best = splice::first_of(names, fronts, m);
        if let Some(i) = splice::first_of(names, fronts, n) {
            assert(fronts[i] is Some);
            assert forall|j: int| 0 <= j < n && streams[j].records.len() > 0 implies goes_first(
                streams,
                i,
                streams[i].records[0],
                j,
                (#[trigger] streams[j]).records[0],
            ) by {
                let x = streams[i].records[0];
                let y = streams[j].records[0];
                order::order_is_asymmetric(x.header, y.header);
                order::order_is_asymmetric(y.header, y.header);
                order::text_order_is_total(streams[j].name, streams[i].name);
                order::text_order_is_total(streams[j].name, streams[j].name);
                assert(fronts[j] is Some);
                if j == last {
                    if i != last {
                        assert(best == Some(i));
                    }
                } else {
                    let b = best.unwrap();
                    if i == last {
                        lemma_goes_on(streams, i, b, j);
                    }
                }
            }
        }
    }
}

proof fn lemma_goes_on(streams: Seq<Stream>, i: int, b: int, j: int)
    requires
        splice_laws::transitive(streams),
        0 <= i < streams.len(),
        0 <= b < streams.len(),
        0 <= j < streams.len(),
        streams[i].records.len() > 0,
        streams[b].records.len() > 0,
        streams[j].records.len() > 0,
        splice::chosen_before(
            streams[i].name,
            streams[i].records[0],
            streams[b].name,
            streams[b].records[0],
        ),
        goes_first(streams, b, streams[b].records[0], j, streams[j].records[0]),
    ensures
        goes_first(streams, i, streams[i].records[0], j, streams[j].records[0]),
{
    let x = streams[i].records[0].header;
    let y = streams[b].records[0].header;
    let z = streams[j].records[0].header;
    let (p, q, r) = (streams[i].name, streams[b].name, streams[j].name);
    assert(splice_laws::occurs(streams, x));
    assert(splice_laws::occurs(streams, y));
    assert(splice_laws::occurs(streams, z));
    order::order_is_asymmetric(x, y);
    order::order_is_asymmetric(y, z);
    order::order_is_asymmetric(x, z);
    order::text_order_is_total(p, q);
    order::text_order_is_total(q, r);
    order::text_order_is_total(p, r);
    if order::text_less(r, p) && order::text_less(p, q) {
        order::text_order_is_transitive(r, p, q);
    }
}

/// Where the order of the records is transitive, every chosen record was first in
/// line: it is the next record of its stream, and it may go before the next
/// record of every other stream.
pub proof fn each_pick_was_first_in_line(streams: Seq<Stream>, k: int)
    requires
        splice_laws::transitive(streams),
        0 <= k < splice::picks(streams).len(),
    ensures
        ({
            let all = splice::picks(streams);
            let pick = all[k];
            let i = pick.source;
            &&& 0 <= i < streams.len()
            &&& 0 <= taken(all, k, i) < streams[i].records.len()
            &&& pick.record == streams[i].records[taken(all, k, i)]
            &&& pick.name == streams[i].name
            &&& forall|j: int|
                0 <= j < streams.len() && 0 <= taken(all, k, j) < streams[j].records.len()
                    ==> goes_first(
                    streams,
                    i,
                    pick.record,
                    j,
                    (#[trigger] streams[j]).records[taken(all, k, j)],
                )
        }),
    decreases splice::total(streams),
{
    let all = splice::picks(streams);
    lemma_first_goes_first(streams, streams.len());
    let c = splice::choice(streams).unwrap();
    let rest = splice::moved_on(streams, c);
    splice::lemma_total_update(streams, c, rest[c]);
    if k > 0 {
        let others = splice::picks(rest);
        assert(forall|n: int| 0 < n < all.len() ==> all[n] == others[n - 1]);
        lemma_still_transitive(streams, c);
        each_pick_was_first_in_line(rest, k - 1);
        assert forall|j: int| taken(all, k, j) == #[trigger] taken(others, k - 1, j) + if c == j {
            1int
        } else {
            0int
        } by {
            lemma_taken_behind(all, others, k, j);
        }
        let i = all[k].source;
        let a = all[k].record;
        assert(others[k - 1] == all[k]);
        lemma_taken_counts(others, k - 1, i);
        assert(taken(others, k - 1, i) >= 0);
        if i == c {
            assert(rest[i].records[taken(others, k - 1, i)] == streams[i].records[taken(
                others,
                k - 1,
                i,
            ) + 1]);
        }
        assert forall|j: int|
            0 <= j < streams.len() && 0 <= taken(all, k, j) < streams[j].records.len() implies
            goes_first(
            streams,
            i,
            a,
            j,
            (#[trigger] streams[j]).records[taken(all, k, j)],
        ) by {
            let t = taken(others, k - 1, j);
            lemma_taken_counts(others, k - 1, j);
            assert(t >= 0);
            if j == c {
                assert(rest[j].records[t] == streams[j].records[t + 1]);
            }
            assert(rest[j].name == streams[j].name);
            assert(t < rest[j].records.len());
            assert(goes_first(rest, i, a, j, rest[j].records[t]));
        }
    } else {
        assert(all[0] == Pick {
            source: c,
            name: streams[c].name,
            record: streams[c].records[0],
        });
    }
}

proof fn lemma_taken_counts(picks: Seq<Pick>, k: int, source: int)
    ensures
        taken(picks, k, source) >= 0,
    decreases k,
{
    if k > 0 {
        lemma_taken_counts(picks, k - 1, source);
    }
}

proof fn lemma_taken_behind(all: Seq<Pick>, others: Seq<Pick>, k: int, source: int)
    requires
        0 < k <= all.len(),
        forall|n: int| 0 < n < all.len() ==> all[n] == others[n - 1],
    ensures
        taken(all, k, source) == taken(others, k - 1, source) + if all[0].source == source {
            1int
        } else {
            0int
        },
    decreases k,
{
    if k > 1 {
        lemma_taken_behind(all, others, k - 1, source);
        assert(all[k - 1] == others[k - 2]);
    } else {
        reveal_with_fuel(taken, 2);
    }
}

proof fn lemma_still_transitive(streams: Seq<Stream>, c: int)
    requires
        splice_laws::transitive(streams),
        0 <= c < streams.len(),
        streams[c].records.len() > 0,
    ensures
        splice_laws::transitive(splice::moved_on(streams, c)),
{
    let rest = splice::moved_on(streams, c);
    assert forall|h: crate::record::Header| #[trigger] splice_laws::occurs(
        rest,
        h,
    ) implies splice_laws::occurs(streams, h) by {
        let (i, a) = choose|i: int, a: int|
            #![trigger rest[i].records[a]]
            0 <= i < rest.len() && 0 <= a < rest[i].records.len() && rest[i].records[a].header
                == h;
        if i == c {
            assert(streams[i].records[a + 1].header == h);
        } else {
            assert(streams[i].records[a].header == h);
        }
    }
}

/// A stream has no record, but something that is no record.
pub open spec fn starts_damaged(stream: Stream) -> bool {
    stream.records.len() == 0 && stream.ending is Some
}

/// Splicing ends without an error exactly where no stream is damaged. A stream
/// that is damaged at its start ends it before anything is written, and the first
/// such stream gives the error. Otherwise the error is that of a stream whose
/// records have all been written, the last of them last.
pub proof fn splicing_fails_where_a_stream_is_damaged(streams: Seq<Stream>)
    ensures
        splice::splice_error(streams) is None <==> forall|i: int|
            0 <= i < streams.len() ==> (#[trigger] streams[i]).ending is None,
        forall|i: int|
            0 <= i < streams.len() && starts_damaged(#[trigger] streams[i]) && (forall|j: int|
                0 <= j < i ==> !starts_damaged(#[trigger] streams[j])) ==> {
                &&& splice::spliced(streams).len() == 0
                &&& splice::splice_error(streams) == streams[i].ending
            },
        (forall|j: int| 0 <= j < streams.len() ==> !starts_damaged(#[trigger] streams[j]))
            && splice::splice_error(streams) is Some ==> {
            let all = splice::spliced(streams);
            let i = all.last().source;
            &&& all.len() > 0
            &&& 0 <= i < streams.len()
            &&& splice::splice_error(streams) == streams[i].ending
            &&& splice_laws::of_source(all, i) == streams[i].records
        },
{
    lemma_bad_start(streams);
    if splice::bad_start(streams) is None {
        lemma_cut_short(streams);
        if splice::cut_short(streams) is Some {
            let i = splice::picks(streams).last().source;
            assert(streams[i].ending is Some);
        }
    } else {
        let i = choose|i: int|
            0 <= i < streams.len() && starts_damaged(#[trigger] streams[i])
                && splice::bad_start(streams) == streams[i].ending && forall|j: int|
                0 <= j < i ==> !starts_damaged(#[trigger] streams[j]);
        assert(streams[i].ending is Some);
        assert forall|k: int|
            0 <= k < streams.len() && starts_damaged(#[trigger] streams[k]) && (forall|j: int|
                0 <= j < k ==> !starts_damaged(#[trigger] streams[j])) implies {
            &&& splice::spliced(streams).len() == 0
            &&& splice::splice_error(streams) == streams[k].ending
        } by {
            if i < k {
                assert(!starts_damaged(streams[i]));
            } else if k < i {
                assert(!starts_damaged(streams[k]));
            }
        }
    }
}

proof fn lemma_bad_start(streams: Seq<Stream>)
    ensures
        splice::bad_start(streams) is None <==> forall|j: int|
            0 <= j < streams.len() ==> !starts_damaged(#[trigger] streams[j]),
        splice::bad_start(streams) is Some ==> exists|i: int|
            0 <= i < streams.len() && starts_damaged(#[trigger] streams[i]) && splice::bad_start(
                streams,
            ) == streams[i].ending && forall|j: int|
                0 <= j < i ==> !starts_damaged(#[trigger] streams[j]),
    decreases streams.len(),
{
    if streams.len() > 0 {
        let front = streams.drop_last();
        let n = streams.len() - 1;
        lemma_bad_start(front);
        assert(forall|j: int| 0 <= j < n ==> #[trigger] front[j] == streams[j]);
        assert(forall|j: int| 0 <= j < n ==> front[j] == #[trigger] streams[j]);
        if splice::bad_start(front) is Some {
            let i = choose|i: int|
                0 <= i < front.len() && starts_damaged(#[trigger] front[i])
                    && splice::bad_start(front) == front[i].ending && forall|j: int|
                    0 <= j < i ==> !starts_damaged(#[trigger] front[j]);
            assert(starts_damaged(streams[i]));
            assert forall|j: int| 0 <= j < i implies !starts_damaged(#[trigger] streams[j]) by {
                assert(!starts_damaged(front[j]));
            }
        } else {
            assert forall|j: int| 0 <= j < n implies !starts_damaged(#[trigger] streams[j]) by {
                assert(!starts_damaged(front[j]));
            }
            if starts_damaged(streams[n]) {
                assert(splice::bad_start(streams) == streams[n].ending);
            }
        }
    }
}

proof fn lemma_cut_short(streams: Seq<Stream>)
    requires
        forall|j: int| 0 <= j < streams.len() ==> !starts_damaged(#[trigger] streams[j]),
    ensures
        splice::cut_short(streams) is None <==> forall|i: int|
            0 <= i < streams.len() ==> (#[trigger] streams[i]).ending is None,
        splice::cut_short(streams) is Some ==> {
            let all = splice::picks(streams);
            let i = all.last().source;
            &&& all.len() > 0
            &&& 0 <= i < streams.len()
            &&& splice::cut_short(streams) == streams[i].ending
            &&& splice_laws::of_source(all, i) == streams[i].records
        },
    decreases splice::total(streams),
{
    let names = splice::stream_names(streams);
    let fronts = splice::fronts(streams);
    splice::lemma_first_of(names, fronts, streams.len());
    match splice::choice(streams) {
        None => {
            assert forall|i: int| 0 <= i < streams.len() implies (#[trigger] streams[i]).ending
                is None by {
                assert(fronts[i] is None);
                assert(!starts_damaged(streams[i]));
            }
        },
        Some(c) => {
            let rest = splice::moved_on(streams, c);
            let all = splice::picks(streams);
            assert(fronts[c] is Some);
            splice::lemma_total_update(streams, c, rest[c]);
            if splice::stuck(rest, c) is Some {
                assert(streams[c].ending is Some);
                assert(all.last() == all[0]);
                assert(all.drop_first() =~= seq![]);
                assert(splice_laws::of_source(all.drop_first(), c) =~= seq![]);
                assert(rest[c].records.len() == 0);
                assert(splice_laws::of_source(all, c) =~= streams[c].records);
            } else {
                assert forall|j: int| 0 <= j < rest.len() implies !starts_damaged(
                    #[trigger] rest[j],
                ) by {
                    if j != c {
                        assert(rest[j] == streams[j]);
                    }
                }
                lemma_cut_short(rest);
                let others = splice::picks(rest);
                assert(all.drop_first() =~= others);
                assert forall|j: int| 0 <= j < streams.len() implies rest[j].ending
                    == (#[trigger] streams[j]).ending by {}
                assert forall|j: int| 0 <= j < streams.len() implies (#[trigger] rest[j]).ending
                    == streams[j].ending by {}
                if splice::cut_short(streams) is Some {
                    let i = others.last().source;
                    assert(all.last() == others.last());
                    if i == c {
                        assert(splice_laws::of_source(all, i) =~= seq![streams[i].records[0]]
                            + rest[i].records);
                        assert(streams[i].records =~= seq![streams[i].records[0]]
                            + rest[i].records);
                    }
                }
            }
        },
    }
}

/// Record `p` is the last before record `k` that belongs to the same controller.
pub open spec fn follows(picks: Seq<Pick>, k: int, p: int) -> bool {
    &&& 0 <= p < k < picks.len()
    &&& picks[p].record.header.ctrl_id == picks[k].record.header.ctrl_id
    &&& forall|q: int|
        p < q < k ==> (#[trigger] picks[q]).record.header.ctrl_id
            != picks[k].record.header.ctrl_id
}

/// The sequence number of record `k` does not exceed that of the record before it
/// of the same controller, record `p`.
pub open spec fn falls_back(picks: Seq<Pick>, k: int, p: int) -> bool {
    follows(picks, k, p) && picks[k].record.header.seq <= picks[p].record.header.seq
}

/// A warning tells the controller, the sequence number before, the one now, the
/// name of the stream and the offset.
pub open spec fn tells_fall(warning: Seq<char>, previous: u32, pick: Pick) -> bool {
    exists|numbers: Seq<char>, offset: Seq<char>|
        #![trigger numbers + " source="@ + pick.name + " offset="@ + offset]
        {
            let words = text::parts(numbers, ' ');
            let header = pick.record.header;
            &&& warning == numbers + " source="@ + pick.name + " offset="@ + offset
            &&& words.len() == 9
            &&& words.take(6) == seq![
                "sequence"@,
                "is"@,
                "not"@,
                "increasing"@,
                "for"@,
                "ctrl"@,
            ]
            &&& words[6].len() > 0 && words[6].last() == ':'
            &&& text::number(words[6].drop_last(), 255) == Some(header.ctrl_id as nat)
            &&& words[7].len() > 9 && words[7].take(9) == "previous="@
            &&& text::number(words[7].skip(9), u32::MAX as nat) == Some(previous as nat)
            &&& words[8].len() > 8 && words[8].take(8) == "current="@
            &&& text::number(words[8].skip(8), u32::MAX as nat) == Some(header.seq as nat)
            &&& text::number(offset, u64::MAX as nat) == Some(pick.record.offset as nat)
        }
}

proof fn lemma_last_seq(picks: Seq<Pick>, k: int, n: int)
    requires
        0 <= n <= k < picks.len(),
        forall|q: int|
            n <= q < k ==> (#[trigger] picks[q]).record.header.ctrl_id
                != picks[k].record.header.ctrl_id,
    ensures
        ({
            let seen = splice::last_seq(picks.take(n), picks[k].record.header.ctrl_id);
            &&& seen is Some <==> exists|p: int| #[trigger] follows(picks, k, p)
            &&& forall|p: int| #[trigger]
                follows(picks, k, p) ==> seen == Some(picks[p].record.header.seq)
        }),
    decreases n,
{
    let ctrl_id = picks[k].record.header.ctrl_id;
    let now = picks.take(n);
    if n == 0 {
        assert forall|p: int| !#[trigger] follows(picks, k, p) by {}
    } else {
        assert(now.last() == picks[n - 1]);
        assert(now.drop_last() =~= picks.take(n - 1));
        if picks[n - 1].record.header.ctrl_id == ctrl_id {
            assert(follows(picks, k, n - 1));
            assert forall|p: int| #[trigger] follows(picks, k, p) implies p == n - 1 by {
                if p < n - 1 {
                    assert(picks[n - 1].record.header.ctrl_id != ctrl_id);
                }
            }
        } else {
            lemma_last_seq(picks, k, n - 1);
        }
    }
}

/// Splicing warns of exactly the records whose sequence number does not exceed
/// the one before it of the same controller. The warnings come in the order of
/// the records, and each tells both numbers and where its record stands.
pub proof fn each_fall_is_warned_of(picks: Seq<Pick>, k: int)
    requires
        0 <= k < picks.len(),
    ensures
        ({
            let before = splice::warnings(picks.take(k));
            let now = splice::warnings(picks.take(k + 1));
            &&& (forall|p: int| !#[trigger] falls_back(picks, k, p)) ==> now == before
            &&& forall|p: int| #[trigger]
                falls_back(picks, k, p) ==> {
                    &&& now.len() == before.len() + 1
                    &&& now.drop_last() == before
                    &&& tells_fall(now.last(), picks[p].record.header.seq, picks[k])
                }
        }),
        splice::warnings(picks.take(0)).len() == 0,
{
    let before = splice::warnings(picks.take(k));
    let after = picks.take(k + 1);
    let ctrl_id = picks[k].record.header.ctrl_id;
    assert(after.drop_last() =~= picks.take(k));
    assert(after.last() == picks[k]);
    lemma_last_seq(picks, k, k);
    let seen = splice::last_seq(picks.take(k), ctrl_id);
    if let Some(previous) = seen {
        let p = choose|p: int| #[trigger] follows(picks, k, p);
        assert(follows(picks, k, p));
        assert(previous == picks[p].record.header.seq);
        if picks[k].record.header.seq <= previous {
            let warning = splice::sequence_warning(previous, picks[k]);
            lemma_tells_fall(previous, picks[k]);
            assert(falls_back(picks, k, p));
            assert(before.push(warning).drop_last() =~= before);
        }
    }
}

proof fn lemma_keyed_number(key: Seq<char>, n: nat, max: nat)
    requires
        n <= max,
        text_laws::lacks(key, ' '),
    ensures
        ({
            let word = key + text::decimal(n);
            &&& word.len() > key.len()
            &&& word.take(key.len() as int) == key
            &&& text::number(word.skip(key.len() as int), max) == Some(n)
            &&& text_laws::lacks(word, ' ')
        }),
{
    let digits = text::decimal(n);
    let word = key + digits;
    text_laws::decimal_reads_back(n);
    text_laws::lemma_digits_lack(digits, ' ');
    assert(word.take(key.len() as int) =~= key);
    assert(word.skip(key.len() as int) =~= digits);
    assert forall|j: int| 0 <= j < word.len() implies #[trigger] word[j] != ' ' by {
        if j < key.len() {
            assert(word[j] == key[j]);
        } else {
            assert(word[j] == digits[j - key.len()]);
        }
    }
}

#[verifier::rlimit(50)]
#[verifier::spinoff_prover]
proof fn lemma_tells_fall(previous: u32, pick: Pick)
    ensures
        tells_fall(splice::sequence_warning(previous, pick), previous, pick),
{
    let header = pick.record.header;
    let head = "sequence is not increasing for ctrl "@;
    let ctrl = text::decimal(header.ctrl_id as nat);
    let prev = text::decimal(previous as nat);
    let cur = text::decimal(header.seq as nat);
    let offset = text::decimal(pick.record.offset as nat);
    let numbers = head + ctrl + ": previous="@ + prev + " current="@ + cur;
    reveal_strlit("sequence is not increasing for ctrl ");
    reveal_strlit("sequence");
    reveal_strlit("is");
    reveal_strlit("not");
    reveal_strlit("increasing");
    reveal_strlit("for");
    reveal_strlit("ctrl");
    reveal_strlit(": previous=");
    reveal_strlit("previous=");
    reveal_strlit(" current=");
    reveal_strlit("current=");
    text_laws::decimal_reads_back(header.ctrl_id as nat);
    text_laws::lemma_digits_lack(ctrl, ' ');
    text_laws::decimal_reads_back(pick.record.offset as nat);
    lemma_keyed_number("previous="@, previous as nat, u32::MAX as nat);
    lemma_keyed_number("current="@, header.seq as nat, u32::MAX as nat);
    let w0 = seq!["sequence"@];
    let w1 = w0.push("is"@);
    let w2 = w1.push("not"@);
    let w3 = w2.push("increasing"@);
    let w4 = w3.push("for"@);
    let w5 = w4.push("ctrl"@);
    let w6 = w5.push(ctrl.push(':'));
    let w7 = w6.push("previous="@ + prev);
    let w8 = w7.push("current="@ + cur);
    text_laws::lemma_joined_push(w0, "is"@, ' ');
    text_laws::lemma_joined_push(w1, "not"@, ' ');
    text_laws::lemma_joined_push(w2, "increasing"@, ' ');
    text_laws::lemma_joined_push(w3, "for"@, ' ');
    text_laws::lemma_joined_push(w4, "ctrl"@, ' ');
    text_laws::lemma_joined_push(w5, ctrl.push(':'), ' ');
    text_laws::lemma_joined_push(w6, "previous="@ + prev, ' ');
    text_laws::lemma_joined_push(w7, "current="@ + cur, ' ');
    let j5 = text_laws::joined_by(w5, ' ');
    assert(head =~= j5 + seq![' ']) by {
        assert(text_laws::joined_by(w0, ' ') == "sequence"@);
    }
    let j6 = text_laws::joined_by(w6, ' ');
    assert(head + ctrl + seq![':'] =~= j6);
    assert(": previous="@ =~= seq![':'] + seq![' '] + "previous="@);
    let j7 = text_laws::joined_by(w7, ' ');
    assert(head + ctrl + ": previous="@ + prev =~= j7);
    assert(" current="@ =~= seq![' '] + "current="@);
    assert(numbers =~= text_laws::joined_by(w8, ' '));
    assert(text_laws::all_lack(w8, ' ')) by {
        assert(text_laws::lacks(ctrl.push(':'), ' '));
        assert forall|i: int| 0 <= i < w8.len() implies text_laws::lacks(
            #[trigger] w8[i],
            ' ',
        ) by {
            if i == 0 {
            } else if i == 1 {
            } else if i == 2 {
            } else if i == 3 {
            } else if i == 4 {
            } else if i == 5 {
            } else if i == 6 {
            } else if i == 7 {
            } else {
                assert(i == 8);
            }
        }
    }
    text_laws::joined_parts_read_back(w8, ' ');
    assert(ctrl.push(':').drop_last() =~= ctrl);
    assert(w8.take(6) =~= seq![
        "sequence"@,
        "is"@,
        "not"@,
        "increasing"@,
        "for"@,
        "ctrl"@,
    ]);
    assert(splice::sequence_warning(previous, pick) == numbers + " source="@ + pick.name
        + " offset="@ + offset);
}

/// The record in front of stream `i` wins against that in front of stream `j`: it
/// comes first; or neither does and the name of its stream does; or the names
/// agree too and its offset is smaller.
pub open spec fn wins(streams: Seq<Stream>, i: int, j: int) -> bool {
    let (a, b) = (streams[i].records[0], streams[j].records[0]);
    let tie = !order::before(a.header, b.header) && !order::before(b.header, a.header);
    ||| order::before(a.header, b.header)
    ||| tie && order::text_less(streams[i].name, streams[j].name)
    ||| tie && streams[i].name == streams[j].name && a.offset < b.offset
}

/// Whatever the order is like, the stream that gives the next record has one, no
/// stream behind it wins against it, and it wins against the stream that would
/// give the next record if only those before it were there.
pub proof fn choice_is_a_run_of_wins(streams: Seq<Stream>)
    ensures
        splice::choice(streams) is None <==> forall|j: int|
            0 <= j < streams.len() ==> (#[trigger] streams[j]).records.len() == 0,
        splice::choice(streams) matches Some(i) ==> {
            &&& 0 <= i < streams.len()
            &&& streams[i].records.len() > 0
            &&& forall|j: int|
                i < j < streams.len() && (#[trigger] streams[j]).records.len() > 0 ==> !wins(
                    streams,
                    j,
                    i,
                )
            &&& splice::choice(streams.take(i)) matches Some(j) ==> wins(streams, i, j)
        },
{
    let names = splice::stream_names(streams);
    let fronts = splice::fronts(streams);
    splice::lemma_first_of(names, fronts, streams.len());
    lemma_run(streams, streams.len());
    match splice::choice(streams) {
        None => {
            assert forall|j: int| 0 <= j < streams.len() implies (
            #[trigger] streams[j]).records.len() == 0 by {
                assert(fronts[j] is None);
            }
        },
        Some(i) => {
            assert(fronts[i] is Some);
            lemma_first_of_take(streams, i, i as nat);
        },
    }
}

proof fn lemma_first_of_take(streams: Seq<Stream>, i: int, n: nat)
    requires
        0 <= i <= streams.len(),
        n <= i,
    ensures
        splice::first_of(
            splice::stream_names(streams.take(i)),
            splice::fronts(streams.take(i)),
            n,
        ) == splice::first_of(splice::stream_names(streams), splice::fronts(streams), n),
    decreases n,
{
    if n > 0 {
        let some = streams.take(i);
        lemma_first_of_take(streams, i, (n - 1) as nat);
        splice::lemma_first_of(
            splice::stream_names(streams),
            splice::fronts(streams),
            (n - 1) as nat,
        );
        assert(forall|k: int|
            0 <= k < i ==> #[trigger] splice::fronts(some)[k] == splice::fronts(streams)[k]);
        assert(forall|k: int|
            0 <= k < i ==> #[trigger] splice::stream_names(some)[k] == splice::stream_names(
                streams,
            )[k]);
    }
}

proof fn lemma_run(streams: Seq<Stream>, n: nat)
    requires
        n <= streams.len(),
    ensures
        ({
            let names = splice::stream_names(streams);
            let fronts = splice::fronts(streams);
            splice::first_of(names, fronts, n) matches Some(i) ==> {
                &&& 0 <= i < n
                &&& streams[i].records.len() > 0
                &&& forall|j: int|
                    i < j < n && (#[trigger] streams[j]).records.len() > 0 ==> !wins(
                        streams,
                        j,
                        i,
                    )
                &&& splice::first_of(names, fronts, i as nat) matches Some(j) ==> wins(
                    streams,
                    i,
                    j,
                )
            }
        }),
    decreases n,
{
    let names = splice::stream_names(streams);
    let fronts = splice::fronts(streams);
    if n > 0 {
        let m = (n - 1) as nat;
        let last = n - 1;
        lemma_run(streams, m);
        splice::lemma_first_of(names, fronts, m);
        splice::lemma_first_of(names, fronts, n);
        assert(forall|k: int| 0 <= k < streams.len() ==> #[trigger] names[k] == streams[k].name);
        if streams[last].records.len() > 0 {
            assert(fronts[last] == Some(streams[last].records[0]));
            if let Some(b) = splice::first_of(names, fronts, m) {
                assert(fronts[b] == Some(streams[b].records[0]));
                order::order_is_asymmetric(
                    streams[last].records[0].header,
                    streams[b].records[0].header,
                );
                assert(wins(streams, last, b) <==> splice::chosen_before(
                    names[last],
                    streams[last].records[0],
                    names[b],
                    streams[b].records[0],
                ));
            }
        } else {
            assert(fronts[last] is None);
        }
    }
}

/// A splicing that ends well has found no stream damaged, and has appended every
/// record of every stream; it tells how many bytes it appended. One that fails on
/// a stream tells what is wrong with one of them, and has appended the records
/// before that. One that fails otherwise tells the failure of a source or of the
/// sink, and has appended a part of what it should. All warnings are about the
/// records that were appended.
pub proof fn splicing_appends_what_it_picks(
    result: Result<u64>,
    streams: Seq<Stream>,
    source_failures: Seq<Option<std::io::Error>>,
    sink_failure: Option<std::io::Error>,
    written_before: Seq<u8>,
    written: Seq<u8>,
    warnings_before: Seq<Seq<char>>,
    warned: Seq<Seq<char>>,
)
    requires
        splice::splice_outcome(
            result,
            streams,
            source_failures,
            sink_failure,
            written_before,
            written,
            warnings_before,
            warned,
        ),
    ensures
        ({
            let all = splice::spliced(streams);
            let bytes = trace::joined(splice_laws::picked_parts(all));
            match result {
                Ok(count) => {
                    &&& forall|i: int|
                        0 <= i < streams.len() ==> (#[trigger] streams[i]).ending is None
                    &&& all.len() == splice::total(streams)
                    &&& written == written_before + bytes
                    &&& written.len() == written_before.len() + count
                    &&& warned == warnings_before + splice::warnings(all)
                },
                Err(TraceError::Io(err)) => {
                    &&& sink_failure == Some(err) || exists|i: int|
                        0 <= i < source_failures.len() && #[trigger] source_failures[i] == Some(
                            err,
                        )
                    &&& written_before.is_prefix_of(written)
                    &&& written.is_prefix_of(written_before + bytes)
                    &&& warnings_before.is_prefix_of(warned)
                },
                Err(err) => {
                    &&& exists|i: int|
                        0 <= i < streams.len() && (#[trigger] streams[i]).ending == Some(err)
                    &&& written == written_before + bytes
                    &&& warned == warnings_before + splice::warnings(all)
                },
            }
        }),
{
    let all = splice::spliced(streams);
    lemma_bytes_are_joined(all);
    splicing_fails_where_a_stream_is_damaged(streams);
    lemma_bad_start(streams);
    match result {
        Ok(_) => {
            splice_laws::splicing_writes_every_record(streams);
        },
        Err(TraceError::Io(err)) => {
            if sink_failure != Some(err) {
                let i = choose|i: int|
                    0 <= i < source_failures.len() && source_failures[i] == Some(err);
                assert(source_failures[i] == Some(err));
            }
        },
        Err(err) => {
            if splice::bad_start(streams) is Some {
                let i = choose|i: int|
                    0 <= i < streams.len() && starts_damaged(#[trigger] streams[i])
                        && splice::bad_start(streams) == streams[i].ending && forall|j: int|
                        0 <= j < i ==> !starts_damaged(#[trigger] streams[j]);
                assert(streams[i].ending == Some(err));
            } else {
                lemma_cut_short(streams);
                assert(streams[all.last().source].ending == Some(err));
            }
        },
    }
}

proof fn lemma_bytes_are_joined(picks: Seq<Pick>)
    ensures
        splice::pick_bytes(picks) == trace::joined(splice_laws::picked_parts(picks)),
    decreases picks.len(),
{
    let parts = splice_laws::picked_parts(picks);
    if picks.len() > 0 {
        let front = picks.drop_last();
        lemma_bytes_are_joined(front);
        assert(splice_laws::picked_parts(front) =~= parts.drop_last());
        assert(parts.last() == picks.last().record.bytes);
        lemma_joined_last(parts);
    } else {
        assert(parts =~= seq![]);
    }
}

proof fn lemma_joined_last(parts: Seq<Seq<u8>>)
    requires
        parts.len() > 0,
    ensures
        trace::joined(parts) == trace::joined(parts.drop_last()) + parts.last(),
    decreases parts.len(),
{
    if parts.len() == 1 {
        assert(parts.drop_first() =~= seq![]);
        assert(parts.drop_last() =~= seq![]);
        assert(trace::joined(parts) =~= trace::joined(parts.drop_last()) + parts.last());
    } else {
        lemma_joined_last(parts.drop_first());
        assert(parts.drop_first().drop_last() =~= parts.drop_last().drop_first());
        assert(parts.drop_last()[0] == parts[0]);
        assert(trace::joined(parts) =~= trace::joined(parts.drop_last()) + parts.last());
    }
}

} // verus!
