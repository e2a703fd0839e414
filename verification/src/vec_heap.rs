//! The heap operations on a plain vector, for either priority. `MinHeap` and
//! `MaxHeap` are this code with the priority fixed.
//!
//! Each operation keeps the values whatever the order of `T` does; what it
//! says of the arrangement holds where `T` is totally ordered.

use crate::layout::{exchanged, is_heap, lemma_exchanged_keeps_values};
use crate::model::{lemma_popped, lemma_pushed, lemma_pushed_all, popped, pushed, pushed_all, top};
use crate::order::{is_total_order, Priority};
use crate::sift::{bubble_up, sink_down};
use vstd::prelude::*;

verus! {

/// Appends `item` as the last leaf and lets it bubble up.
pub fn push<T: Ord>(data: &mut Vec<T>, item: T, p: Priority)
    ensures
        final(data)@.len() == old(data)@.len() + 1,
        final(data)@.to_multiset() == old(data)@.to_multiset().insert(item),
        is_total_order::<T>() ==> final(data)@ == pushed(p, old(data)@, item),
        is_total_order::<T>() && is_heap(p, old(data)@) ==> is_heap(p, final(data)@),
{
    proof {
        lemma_pushed(p, data@, item);
        vstd::seq_lib::to_multiset_build(data@, item);
    }
    data.push(item);
    let end_index: usize = data.len() - 1;
    bubble_up(data, end_index, p);
}

/// Takes the root out: the last leaf takes its place and sinks down. An empty
/// vector gives `None` and stays as it is.
pub fn pop<T: Ord>(data: &mut Vec<T>, p: Priority) -> (root: Option<T>)
    ensures
        root == top(old(data)@),
        old(data)@.len() == 0 ==> final(data)@ == old(data)@,
        old(data)@.len() > 0 ==> final(data)@.len() == old(data)@.len() - 1,
        old(data)@.len() > 0 ==> final(data)@.to_multiset() == old(data)@.to_multiset().remove(
            old(data)@[0],
        ),
        is_total_order::<T>() ==> final(data)@ == popped(p, old(data)@),
        is_total_order::<T>() && is_heap(p, old(data)@) ==> is_heap(p, final(data)@),
{
    if data.is_empty() {
        return None;
    }
    proof {
        lemma_popped(p, data@);
    }
    let end_index: usize = data.len() - 1;
    data.swap(0, end_index);
    let root = data.pop();
    proof {
        let swapped = exchanged(old(data)@, 0, old(data)@.len() - 1);
        lemma_exchanged_keeps_values(old(data)@, 0, old(data)@.len() - 1);
        vstd::seq_lib::to_multiset_remove(swapped, swapped.len() - 1);
    }
    sink_down(data, 0, p);
    root
}

/// Pushes each of `items`, the first one first.
pub fn heapify<T: Ord>(data: &mut Vec<T>, items: Vec<T>, p: Priority)
    ensures
        final(data)@.len() == old(data)@.len() + items@.len(),
        final(data)@.to_multiset() == old(data)@.to_multiset().add(items@.to_multiset()),
        is_total_order::<T>() ==> final(data)@ == pushed_all(p, old(data)@, items@),
        is_total_order::<T>() && is_heap(p, old(data)@) ==> is_heap(p, final(data)@),
{
    let ghost start = data@;
    let ghost all = items@;
    proof {
        lemma_pushed_all(p, start, all);
        vstd::seq_lib::to_multiset_len(all.take(0));
    }
    for item in it: items
        invariant
            all == items@,
            data@.len() == start.len() + it.index(),
            data@.to_multiset() == start.to_multiset().add(
                all.take(it.index() as int).to_multiset(),
            ),
            is_total_order::<T>() ==> data@ == pushed_all(p, start, all.take(it.index() as int)),
    {
        proof {
            let k = it.index() as int;
            assert(all.take(k + 1).drop_last() == all.take(k));
            assert(all.take(k + 1) =~= all.take(k).push(all[k]));
            vstd::seq_lib::to_multiset_build(all.take(k), all[k]);
            assert(start.to_multiset().add(all.take(k).to_multiset()).insert(all[k])
                =~= start.to_multiset().add(all.take(k).to_multiset().insert(all[k])));
        }
        push(data, item, p);
    }
    assert(all.take(all.len() as int) == all);
}

} // verus!
