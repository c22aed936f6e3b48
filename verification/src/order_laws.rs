//! What the order of records and of texts decides by.

use crate::order;
use crate::record::Header;
use vstd::prelude::*;

verus! {

/// Within a controller the smaller sequence number comes first, then the smaller
/// queue, then the smaller command; the timestamps have no say. Records tie
/// exactly where controller, sequence number, queue and command agree.
pub proof fn sequence_decides_within_a_controller(a: Header, b: Header)
    ensures
        a.ctrl_id == b.ctrl_id && a.seq < b.seq ==> order::before(a, b),
        a.ctrl_id == b.ctrl_id && a.seq == b.seq && a.qid < b.qid ==> order::before(a, b),
        a.ctrl_id == b.ctrl_id && a.seq == b.seq && a.qid == b.qid && a.cid < b.cid
            ==> order::before(a, b),
        !order::before(a, b) && !order::before(b, a) <==> a.ctrl_id == b.ctrl_id && a.seq == b.seq
            && a.qid == b.qid && a.cid == b.cid,
{
    lemma_unfolds(a, b);
    lemma_unfolds(b, a);
}

/// Between controllers the smaller timestamp comes first, then the smaller
/// controller; the sequence numbers have no say.
pub proof fn time_decides_between_controllers(a: Header, b: Header)
    requires
        a.ctrl_id != b.ctrl_id,
    ensures
        a.timestamp_ns < b.timestamp_ns ==> order::before(a, b),
        a.timestamp_ns == b.timestamp_ns && a.ctrl_id < b.ctrl_id ==> order::before(a, b),
        order::before(a, b) ==> !order::before(b, a),
{
    lemma_unfolds(a, b);
    lemma_unfolds(b, a);
}

proof fn lemma_unfolds(a: Header, b: Header)
    ensures
        a.ctrl_id == b.ctrl_id ==> order::before(a, b) == (a.seq < b.seq || a.seq == b.seq && (a.qid
            < b.qid || a.qid == b.qid && a.cid < b.cid)),
        a.ctrl_id != b.ctrl_id ==> order::before(a, b) == (a.timestamp_ns < b.timestamp_ns
            || a.timestamp_ns == b.timestamp_ns && a.ctrl_id < b.ctrl_id),
{
    reveal_with_fuel(order::lex_less, 4);
    let (x, y) = (order::place_in_controller(a), order::place_in_controller(b));
    assert(x.drop_first()[0] == a.qid && y.drop_first()[0] == b.qid);
    assert(x.drop_first().drop_first()[0] == a.cid && y.drop_first().drop_first()[0] == b.cid);
    let (s, t) = (order::place_in_time(a), order::place_in_time(b));
    assert(s[0] == a.timestamp_ns && t[0] == b.timestamp_ns);
    assert(s.drop_first()[0] == a.ctrl_id && t.drop_first()[0] == b.ctrl_id);
}

/// A text comes before every longer text that begins with it. Otherwise the first
/// place where two texts differ decides, by the smaller character.
pub proof fn first_difference_decides(front: Seq<char>, a: Seq<char>, b: Seq<char>)
    ensures
        b.len() > 0 ==> order::text_less(front, front + b),
        a.len() > 0 && b.len() > 0 && a[0] < b[0] ==> order::text_less(front + a, front + b)
            && !order::text_less(front + b, front + a),
        !order::text_less(front, front),
    decreases front.len(),
{
    if front.len() == 0 {
        assert(front + a =~= a);
        assert(front + b =~= b);
    } else {
        let rest = front.drop_first();
        first_difference_decides(rest, a, b);
        assert((front + a).drop_first() =~= rest + a);
        assert((front + b).drop_first() =~= rest + b);
    }
}

} // verus!
