//! Stable sorting.

use crate::order::{self, text_order};
use crate::text::chars_of;
use std::cmp::Ordering;
use vstd::prelude::*;

verus! {

/// What things are sorted by.
pub trait SortKey: Sized {
    /// Tells whether `self` comes before `other`.
    spec fn key_less(&self, other: &Self) -> bool;

    /// Of two keys at most one comes before the other.
    proof fn less_is_asymmetric(&self, other: &Self)
        ensures
            !(self.key_less(other) && other.key_less(self)),
    ;

    /// Not to come later is transitive.
    proof fn not_later_is_transitive(&self, second: &Self, third: &Self)
        ensures
            !second.key_less(self) && !third.key_less(second) ==> !third.key_less(self),
    ;

    /// Tells whether `self` comes before `other`.
    fn is_less(&self, other: &Self) -> (less: bool)
        ensures
            less == self.key_less(other),
    ;
}

impl SortKey for u32 {
    open spec fn key_less(&self, other: &Self) -> bool {
        *self < *other
    }

    proof fn less_is_asymmetric(&self, other: &Self) {
    }

    proof fn not_later_is_transitive(&self, second: &Self, third: &Self) {
    }

    fn is_less(&self, other: &Self) -> (less: bool) {
        *self < *other
    }
}

/// What an input is sorted by: its processor, if its name tells one, and its
/// path. Inputs without a processor come first.
#[derive(Debug, Clone, PartialEq, Eq)]
pub struct InputKey {
    pub cpu: Option<u32>,
    pub path: String,
}

/// Tells whether one optional number comes before another. Nothing comes before
/// every number.
pub open spec fn cpu_less(a: Option<u32>, b: Option<u32>) -> bool {
    match (a, b) {
        (None, None) => false,
        (None, Some(_)) => true,
        (Some(_), None) => false,
        (Some(x), Some(y)) => x < y,
    }
}

impl SortKey for InputKey {
    open spec fn key_less(&self, other: &Self) -> bool {
        ||| cpu_less(self.cpu, other.cpu)
        ||| self.cpu == other.cpu && order::text_less(self.path@, other.path@)
    }

    proof fn less_is_asymmetric(&self, other: &Self) {
        order::text_order_is_total(self.path@, other.path@);
    }

    proof fn not_later_is_transitive(&self, second: &Self, third: &Self) {
        order::text_order_is_total(self.path@, second.path@);
        order::text_order_is_total(second.path@, third.path@);
        order::text_order_is_total(self.path@, third.path@);
        if order::text_less(self.path@, second.path@) && order::text_less(
            second.path@,
            third.path@,
        ) {
            order::text_order_is_transitive(self.path@, second.path@, third.path@);
        }
    }

    fn is_less(&self, other: &Self) -> (less: bool) {
        match (self.cpu, other.cpu) {
            (None, Some(_)) => {
                return true;
            },
            (Some(_), None) => {
                return false;
            },
            (Some(a), Some(b)) => {
                if a < b {
                    return true;
                }
                if a > b {
                    return false;
                }
            },
            (None, None) => {},
        }
        let a = chars_of(self.path.as_str());
        let b = chars_of(other.path.as_str());
        match text_order(a.as_slice(), b.as_slice()) {
            Ordering::Less => true,
            _ => false,
        }
    }
}

/// `order` names each of `n` things once.
pub open spec fn names_each_once(order: Seq<usize>, n: nat) -> bool {
    &&& order.len() == n
    &&& forall|i: int| 0 <= i < order.len() ==> (#[trigger] order[i]) < n
    &&& forall|i: int, j: int|
        #![trigger order[i], order[j]]
        0 <= i < j < order.len() ==> order[i] != order[j]
}

/// `order` names things by their keys, those with equal keys in the order in
/// which they stand.
pub open spec fn sorts<K: SortKey>(order: Seq<usize>, keys: Seq<K>) -> bool {
    forall|i: int, j: int|
        #![trigger order[i], order[j]]
        0 <= i < j < order.len() ==> {
            &&& !keys[order[j] as int].key_less(&keys[order[i] as int])
            &&& keys[order[i] as int].key_less(&keys[order[j] as int]) || order[i] < order[j]
        }
}

/// Where the next thing goes among those already sorted: behind all that do not
/// come later.
fn place_for<K: SortKey>(keys: &Vec<K>, order: &Vec<usize>) -> (place: usize)
    requires
        order@.len() < keys@.len(),
        names_each_once(order@, order@.len()),
        sorts(order@, keys@),
    ensures
        place <= order@.len(),
        forall|i: int|
            0 <= i < place ==> !keys@[order@.len() as int].key_less(
                &keys@[#[trigger] order@[i] as int],
            ),
        forall|i: int|
            place <= i < order@.len() ==> keys@[order@.len() as int].key_less(
                &keys@[#[trigger] order@[i] as int],
            ),
{
    let next: usize = order.len();
    let mut place: usize = next;
    while place > 0 && keys[next].is_less(&keys[order[place - 1]])
        invariant
            place <= next,
            next == order@.len(),
            next < keys@.len(),
            names_each_once(order@, order@.len()),
            forall|i: int|
                place <= i < order@.len() ==> keys@[next as int].key_less(
                    &keys@[#[trigger] order@[i] as int],
                ),
        decreases place,
    {
        place = place - 1;
    }
    proof {
        assert forall|i: int| 0 <= i < place implies !keys@[next as int].key_less(
            &keys@[#[trigger] order@[i] as int],
        ) by {
            let last = order@[place - 1];
            if i < place - 1 {
                keys@[order@[i] as int].not_later_is_transitive(
                    &keys@[last as int],
                    &keys@[next as int],
                );
            }
        }
    }
    place
}

/// Tells in which order things with the given keys are to stand.
pub fn sorted_order<K: SortKey>(keys: &Vec<K>) -> (order: Vec<usize>)
    ensures
        names_each_once(order@, keys@.len()),
        sorts(order@, keys@),
{
    let mut order: Vec<usize> = Vec::new();
    while order.len() < keys.len()
        invariant
            order@.len() <= keys@.len(),
            names_each_once(order@, order@.len()),
            sorts(order@, keys@),
        decreases keys@.len() - order@.len(),
    {
        let next: usize = order.len();
        let place = place_for(keys, &order);
        let ghost before = order@;
        order.insert(place, next);
        proof {
            assert(order@ =~= before.insert(place as int, next));
            assert forall|i: int, j: int|
                #![trigger order@[i], order@[j]]
                0 <= i < j < order@.len() implies {
                &&& order@[i] != order@[j]
                &&& !keys@[order@[j] as int].key_less(&keys@[order@[i] as int])
                &&& keys@[order@[i] as int].key_less(&keys@[order@[j] as int]) || order@[i]
                    < order@[j]
            } by {
                let x = if i < place {
                    i
                } else {
                    i - 1
                };
                let y = if j < place {
                    j
                } else {
                    j - 1
                };
                if i != place && j != place {
                    assert(before[x] == order@[i] && before[y] == order@[j]);
                } else if j == place {
                    assert(before[x] == order@[i]);
                    assert(before[x] < next);
                } else {
                    assert(before[y] == order@[j]);
                    keys@[next as int].less_is_asymmetric(&keys@[before[y] as int]);
                }
            }
            assert forall|i: int| 0 <= i < order@.len() implies (#[trigger] order@[i])
                < order@.len() by {
                if i != place {
                    assert(order@[i] == before[if i < place {
                        i
                    } else {
                        i - 1
                    }]);
                }
            }
        }
    }
    order
}

} // verus!
