//! The order of records across streams.
//!
//! Within a controller the sequence number decides: the timestamp is taken
//! before the sequence number is claimed, so that two processors can leave a
//! slightly earlier timestamp beside a higher sequence number. Timestamps
//! decide between records of different controllers only.

use crate::record::Header;
use std::cmp::Ordering;
use vstd::prelude::*;

verus! {

/// Tells whether `a` comes before `b`: the first numbers that differ decide.
pub open spec fn lex_less(a: Seq<int>, b: Seq<int>) -> bool
    decreases a.len(),
{
    if a.len() == 0 || b.len() == 0 {
        a.len() < b.len()
    } else if a[0] != b[0] {
        a[0] < b[0]
    } else {
        lex_less(a.drop_first(), b.drop_first())
    }
}

/// What orders the records of one controller.
pub open spec fn place_in_controller(header: Header) -> Seq<int> {
    seq![header.seq as int, header.qid as int, header.cid as int]
}

/// What orders records of different controllers.
pub open spec fn place_in_time(header: Header) -> Seq<int> {
    seq![header.timestamp_ns as int, header.ctrl_id as int] + place_in_controller(header)
}

/// Tells whether the record of header `a` comes before that of `b`.
pub open spec fn before(a: Header, b: Header) -> bool {
    if a.ctrl_id == b.ctrl_id {
        lex_less(place_in_controller(a), place_in_controller(b))
    } else {
        lex_less(place_in_time(a), place_in_time(b))
    }
}

/// Tells whether `a` comes before `b`, character by character.
pub open spec fn text_less(a: Seq<char>, b: Seq<char>) -> bool
    decreases a.len(),
{
    if a.len() == 0 || b.len() == 0 {
        a.len() < b.len()
    } else if a[0] != b[0] {
        a[0] < b[0]
    } else {
        text_less(a.drop_first(), b.drop_first())
    }
}

proof fn lemma_before_unfolds(a: Header, b: Header)
    ensures
        a.ctrl_id == b.ctrl_id ==> before(a, b) == (a.seq < b.seq || a.seq == b.seq && (a.qid
            < b.qid || a.qid == b.qid && a.cid < b.cid)),
        a.ctrl_id != b.ctrl_id ==> before(a, b) == (a.timestamp_ns < b.timestamp_ns
            || a.timestamp_ns == b.timestamp_ns && a.ctrl_id < b.ctrl_id),
{
    reveal_with_fuel(lex_less, 4);
    let (x, y) = (place_in_controller(a), place_in_controller(b));
    assert(x.drop_first()[0] == a.qid && y.drop_first()[0] == b.qid);
    assert(x.drop_first().drop_first()[0] == a.cid && y.drop_first().drop_first()[0] == b.cid);
    let (s, t) = (place_in_time(a), place_in_time(b));
    assert(s[0] == a.timestamp_ns && t[0] == b.timestamp_ns);
    assert(s.drop_first()[0] == a.ctrl_id && t.drop_first()[0] == b.ctrl_id);
}

/// Compares records by the order of their headers.
pub fn record_order(a: &Header, b: &Header) -> (order: Ordering)
    ensures
        order == Ordering::Less <==> before(*a, *b),
        order == Ordering::Greater <==> before(*b, *a),
        order == Ordering::Equal <==> !before(*a, *b) && !before(*b, *a),
{
    proof {
        lemma_before_unfolds(*a, *b);
        lemma_before_unfolds(*b, *a);
    }
    if a.ctrl_id != b.ctrl_id {
        if a.timestamp_ns < b.timestamp_ns {
            return Ordering::Less;
        }
        if a.timestamp_ns > b.timestamp_ns {
            return Ordering::Greater;
        }
        if a.ctrl_id < b.ctrl_id {
            return Ordering::Less;
        }
        return Ordering::Greater;
    }
    if a.seq < b.seq {
        Ordering::Less
    } else if a.seq > b.seq {
        Ordering::Greater
    } else if a.qid < b.qid {
        Ordering::Less
    } else if a.qid > b.qid {
        Ordering::Greater
    } else if a.cid < b.cid {
        Ordering::Less
    } else if a.cid > b.cid {
        Ordering::Greater
    } else {
        Ordering::Equal
    }
}

/// No two records come before each other, and a record does not come before
/// itself.
pub proof fn order_is_asymmetric(a: Header, b: Header)
    ensures
        !(before(a, b) && before(b, a)),
        !before(a, a),
{
    lemma_before_unfolds(a, b);
    lemma_before_unfolds(b, a);
    lemma_before_unfolds(a, a);
}

/// Records of different controllers never tie.
pub proof fn controllers_never_tie(a: Header, b: Header)
    requires
        a.ctrl_id != b.ctrl_id,
    ensures
        before(a, b) || before(b, a),
{
    lemma_before_unfolds(a, b);
    lemma_before_unfolds(b, a);
}

/// Two records of a controller whose timestamps agree with their order: a
/// record that comes first is not younger, and records that tie are equally
/// old.
pub open spec fn timestamps_agree(a: Header, b: Header) -> bool {
    a.ctrl_id == b.ctrl_id ==> {
        &&& before(a, b) ==> a.timestamp_ns <= b.timestamp_ns
        &&& before(b, a) ==> b.timestamp_ns <= a.timestamp_ns
        &&& !before(a, b) && !before(b, a) ==> a.timestamp_ns == b.timestamp_ns
    }
}

/// The order is transitive over records whose timestamps agree with the order
/// within their controllers; so is the relation of not coming later.
pub proof fn order_is_transitive(a: Header, b: Header, c: Header)
    requires
        timestamps_agree(a, b),
        timestamps_agree(b, c),
        timestamps_agree(a, c),
    ensures
        before(a, b) && before(b, c) ==> before(a, c),
        !before(b, a) && !before(c, b) ==> !before(c, a),
{
    lemma_before_unfolds(a, b);
    lemma_before_unfolds(b, a);
    lemma_before_unfolds(b, c);
    lemma_before_unfolds(c, b);
    lemma_before_unfolds(a, c);
    lemma_before_unfolds(c, a);
}

/// Within one controller the order is transitive whatever the timestamps are;
/// so is the relation of not coming later.
pub proof fn order_in_controller_is_transitive(a: Header, b: Header, c: Header)
    requires
        a.ctrl_id == b.ctrl_id,
        b.ctrl_id == c.ctrl_id,
    ensures
        before(a, b) && before(b, c) ==> before(a, c),
        !before(b, a) && !before(c, b) ==> !before(c, a),
{
    lemma_before_unfolds(a, b);
    lemma_before_unfolds(b, a);
    lemma_before_unfolds(b, c);
    lemma_before_unfolds(c, b);
    lemma_before_unfolds(a, c);
    lemma_before_unfolds(c, a);
}

/// Text order is total and strict: of two texts one comes first, or they are
/// the same.
pub proof fn text_order_is_total(a: Seq<char>, b: Seq<char>)
    ensures
        !(text_less(a, b) && text_less(b, a)),
        !text_less(a, b) && !text_less(b, a) <==> a == b,
    decreases a.len(),
{
    if a.len() > 0 && b.len() > 0 && a[0] == b[0] {
        text_order_is_total(a.drop_first(), b.drop_first());
        if a.drop_first() == b.drop_first() {
            assert(a =~= seq![a[0]] + a.drop_first());
            assert(b =~= seq![b[0]] + b.drop_first());
        }
    }
    if a.len() == 0 && b.len() == 0 {
        assert(a =~= b);
    }
    if a == b && a.len() > 0 {
        text_order_is_total(a.drop_first(), a.drop_first());
    }
}

/// Text order is transitive.
pub proof fn text_order_is_transitive(a: Seq<char>, b: Seq<char>, c: Seq<char>)
    requires
        text_less(a, b),
        text_less(b, c),
    ensures
        text_less(a, c),
    decreases a.len(),
{
    if a.len() > 0 && a[0] == b[0] && b[0] == c[0] {
        text_order_is_transitive(a.drop_first(), b.drop_first(), c.drop_first());
    }
}

/// Compares texts character by character.
pub fn text_order(a: &[char], b: &[char]) -> (order: Ordering)
    ensures
        order == Ordering::Less <==> text_less(a@, b@),
        order == Ordering::Greater <==> text_less(b@, a@),
        order == Ordering::Equal <==> a@ == b@,
{
    let mut i: usize = 0;
    proof {
        text_order_is_total(a@, b@);
        lemma_skip_nothing(a@);
        lemma_skip_nothing(b@);
    }
    while i < a.len() && i < b.len()
        invariant
            i <= a.len(),
            i <= b.len(),
            !(text_less(a@, b@) && text_less(b@, a@)),
            !text_less(a@, b@) && !text_less(b@, a@) <==> a@ == b@,
            text_less(a@, b@) == text_less(rest(a@, i), rest(b@, i)),
            text_less(b@, a@) == text_less(rest(b@, i), rest(a@, i)),
        decreases a.len() - i,
    {
        if a[i] < b[i] {
            return Ordering::Less;
        }
        if a[i] > b[i] {
            return Ordering::Greater;
        }
        proof {
            lemma_skip_one(a@, i);
            lemma_skip_one(b@, i);
        }
        i = i + 1;
    }
    if i < b.len() {
        Ordering::Less
    } else if i < a.len() {
        Ordering::Greater
    } else {
        Ordering::Equal
    }
}

spec fn rest(s: Seq<char>, i: usize) -> Seq<char> {
    s.skip(i as int)
}

proof fn lemma_skip_nothing(s: Seq<char>)
    ensures
        rest(s, 0) == s,
{
    assert(rest(s, 0) =~= s);
}

proof fn lemma_skip_one(s: Seq<char>, i: usize)
    requires
        i < s.len(),
        i < usize::MAX,
    ensures
        rest(s, i).drop_first() == rest(s, (i + 1) as usize),
{
    assert(rest(s, i).drop_first() =~= rest(s, (i + 1) as usize));
}

} // verus!
