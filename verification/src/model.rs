//! What each heap operation makes of the sequence that holds the heap.

use crate::layout::{
    exchanged, is_heap, lemma_exchanged_keeps_values, lemma_sift_down_keeps_values,
    lemma_sift_down_restores, lemma_sift_up_keeps_values, lemma_sift_up_restores, ordered_at,
    ordered_over, parent, sift_down, sift_up,
};
use crate::order::{is_total_order, Priority};
use vstd::prelude::*;

verus! {

/// The value at the root, if there is one.
pub open spec fn top<T>(s: Seq<T>) -> Option<T> {
    if s.len() > 0 {
        Some(s[0])
    } else {
        None
    }
}

/// The heap after `item` was pushed: it is appended as the last leaf and
/// bubbles up from there.
pub open spec fn pushed<T: Ord>(p: Priority, s: Seq<T>, item: T) -> Seq<T> {
    sift_up(p, s.push(item), s.len() as int)
}

/// The heap after its root was popped: the last leaf takes the root's place
/// and sinks down from there. An empty heap stays as it is.
pub open spec fn popped<T: Ord>(p: Priority, s: Seq<T>) -> Seq<T> {
    if s.len() == 0 {
        s
    } else {
        sift_down(p, exchanged(s, 0, s.len() - 1).drop_last(), 0)
    }
}

/// The heap after each of `items` was pushed, the first one first.
pub open spec fn pushed_all<T: Ord>(p: Priority, s: Seq<T>, items: Seq<T>) -> Seq<T>
    decreases items.len(),
{
    if items.len() == 0 {
        s
    } else {
        pushed(p, pushed_all(p, s, items.drop_last()), items.last())
    }
}

/// The values in the order in which popping hands them out, until the heap
/// is empty.
pub open spec fn drained<T: Ord>(p: Priority, s: Seq<T>) -> Seq<T>
    decreases s.len(),
{
    if s.len() == 0 {
        Seq::empty()
    } else {
        proof {
            lemma_popped(p, s);
        }
        seq![s[0]] + drained(p, popped(p, s))
    }
}

/// Pushing adds the one value and keeps a heap a heap.
pub proof fn lemma_pushed<T: Ord>(p: Priority, s: Seq<T>, item: T)
    ensures
        pushed(p, s, item).len() == s.len() + 1,
        pushed(p, s, item).to_multiset() == s.to_multiset().insert(item),
        is_total_order::<T>() && is_heap(p, s) ==> is_heap(p, pushed(p, s, item)),
{
    let t = s.push(item);
    let last = s.len() as int;
    lemma_sift_up_keeps_values(p, t, last);
    vstd::seq_lib::to_multiset_build(s, item);
    if is_total_order::<T>() && is_heap(p, s) {
        assert forall|j: int| j != last implies #[trigger] ordered_at(p, t, j) by {
            assert(ordered_at(p, s, j));
        }
        assert forall|c: int| parent(c) == last implies #[trigger] ordered_over(p, t, c) by {}
        lemma_sift_up_restores(p, t, last);
    }
}

/// Popping takes the root away, keeps the other values and keeps a heap a
/// heap.
pub proof fn lemma_popped<T: Ord>(p: Priority, s: Seq<T>)
    requires
        s.len() > 0,
    ensures
        popped(p, s).len() == s.len() - 1,
        popped(p, s).to_multiset() == s.to_multiset().remove(s[0]),
        is_total_order::<T>() && is_heap(p, s) ==> is_heap(p, popped(p, s)),
{
    let last = s.len() - 1;
    let e = exchanged(s, 0, last);
    let t = e.drop_last();
    lemma_exchanged_keeps_values(s, 0, last);
    lemma_sift_down_keeps_values(p, t, 0);
    assert(t.to_multiset() == s.to_multiset().remove(s[0])) by {
        vstd::seq_lib::to_multiset_remove(e, last);
    }
    if is_total_order::<T>() && is_heap(p, s) {
        assert forall|j: int| parent(j) != 0 implies #[trigger] ordered_at(p, t, j) by {
            assert(ordered_at(p, s, j));
        }
        assert forall|c: int| parent(c) == 0 implies #[trigger] ordered_over(p, t, c) by {}
        lemma_sift_down_restores(p, t, 0);
    }
}

/// Pushing several values adds just these and keeps a heap a heap.
pub proof fn lemma_pushed_all<T: Ord>(p: Priority, s: Seq<T>, items: Seq<T>)
    ensures
        pushed_all(p, s, items).len() == s.len() + items.len(),
        pushed_all(p, s, items).to_multiset() == s.to_multiset().add(items.to_multiset()),
        is_total_order::<T>() && is_heap(p, s) ==> is_heap(p, pushed_all(p, s, items)),
    decreases items.len(),
{
    if items.len() == 0 {
        assert(items.to_multiset() =~= vstd::multiset::Multiset::<T>::empty()) by {
            vstd::seq_lib::to_multiset_len(items);
        }
    } else {
        let front = items.drop_last();
        lemma_pushed_all(p, s, front);
        lemma_pushed(p, pushed_all(p, s, front), items.last());
        assert(items =~= front.push(items.last()));
        vstd::seq_lib::to_multiset_build(front, items.last());
        assert(s.to_multiset().add(front.to_multiset()).insert(items.last())
            =~= s.to_multiset().add(front.to_multiset().insert(items.last())));
    }
}

} // verus!
