//! Sorting by a total preorder.

use vstd::prelude::*;

verus! {

/// A type whose values can be put in order; values that are not told apart may come either way.
pub trait Ranked: Copy {
    /// `self` may come before `other`.
    spec fn no_later(self, other: Self) -> bool;

    proof fn no_later_is_total(a: Self, b: Self)
        ensures
            a.no_later(b) || b.no_later(a),
    ;

    proof fn no_later_is_transitive(a: Self, b: Self, c: Self)
        requires
            a.no_later(b),
            b.no_later(c),
        ensures
            a.no_later(c),
    ;

    fn is_no_later(self, other: Self) -> (r: bool)
        ensures
            r == self.no_later(other),
    ;
}

/// The items of `s` come in order.
pub open spec fn in_order<T: Ranked>(s: Seq<T>) -> bool {
    forall|i: int, j: int|
        #![trigger s[i], s[j]]
        0 <= i <= j < s.len() ==> s[i].no_later(s[j])
}

/// `s` holds the items of `t`, in order.
pub open spec fn sorted_from<T: Ranked>(s: Seq<T>, t: Seq<T>) -> bool {
    in_order(s) && s.to_multiset() == t.to_multiset()
}

/// Puts `item` where it belongs in an ordered list.
fn insert_in_order<T: Ranked>(list: &mut Vec<T>, item: T)
    requires
        in_order(old(list)@),
    ensures
        in_order(final(list)@),
        final(list)@.to_multiset() == old(list)@.to_multiset().insert(item),
{
    let ghost before = list@;
    let mut at: usize = list.len();
    while at > 0 && !list[at - 1].is_no_later(item)
        invariant
            at <= list@.len(),
            list@ == before,
            in_order(before),
            forall|k: int| at <= k < before.len() ==> item.no_later(#[trigger] before[k]),
        decreases at,
    {
        proof {
            T::no_later_is_total(item, before[at - 1]);
        }
        at = at - 1;
    }
    list.insert(at, item);
    proof {
        let after = list@;
        assert(after == before.insert(at as int, item));
        assert forall|i: int, j: int|
            #![trigger after[i], after[j]]
            0 <= i <= j < after.len() implies after[i].no_later(after[j]) by {
            if i < at {
                assert(after[i] == before[i]);
                assert(before[i].no_later(before[at - 1]));
                T::no_later_is_transitive(before[i], before[at - 1], item);
            }
            if i == at && j == at {
                T::no_later_is_total(item, item);
            }
            if j > at {
                assert(after[j] == before[j - 1]);
            }
            if j < at {
                assert(after[j] == before[j]);
            }
            if i > at {
                assert(after[i] == before[i - 1]);
            }
        }
        broadcast use vstd::multiset::group_multiset_axioms;

        assert(after.remove(at as int) =~= before);
        after.to_multiset_ensures();
        assert(after[at as int] == item);
        assert(after.contains(item));
        assert(after.to_multiset() =~= before.to_multiset().insert(item));
    }
}

/// A sorted copy of `items`.
pub fn sort<T: Ranked>(items: &[T]) -> (r: Vec<T>)
    ensures
        sorted_from(r@, items@),
        r@.len() == items@.len(),
{
    let mut sorted: Vec<T> = Vec::new();
    let mut i: usize = 0;
    proof {
        assert(sorted@ =~= items@.take(0));
    }
    while i < items.len()
        invariant
            i <= items@.len(),
            in_order(sorted@),
            sorted@.to_multiset() == items@.take(i as int).to_multiset(),
        decreases items@.len() - i,
    {
        insert_in_order(&mut sorted, items[i]);
        proof {
            let shorter = items@.take(i as int);
            assert(items@.take(i + 1) =~= shorter.push(items@[i as int]));
            vstd::seq_lib::to_multiset_build(shorter, items@[i as int]);
        }
        i = i + 1;
    }
    proof {
        assert(items@.take(items@.len() as int) =~= items@);
        sorted@.to_multiset_ensures();
        items@.to_multiset_ensures();
    }
    sorted
}

} // verus!
