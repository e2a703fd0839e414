//! The two restoring walks on a vector that holds a heap: up from a position
//! towards the root, and down from a position towards the leaves.

use crate::layout::{
    is_heap, is_heap_but_above, is_heap_but_below, left_child, lemma_exchanged_keeps_values,
    lemma_sift_down_restores, lemma_sift_up_restores, ordered_at, parent, right_child, sift_down,
    sift_up,
};
use crate::order::{is_total_order, ranks_before, Priority};
use vstd::prelude::*;

verus! {

/// The standard library's `<[T]>::swap`, which `Vec` offers through its slice:
/// it exchanges the values at the two positions and leaves the others alone.
/// Both positions have to lie inside the slice, as it panics otherwise.
pub assume_specification<U>[ <[U]>::swap ](slice: &mut [U], a: usize, b: usize)
    requires
        a < old(slice)@.len(),
        b < old(slice)@.len(),
    ensures
        final(slice)@ == old(slice)@.update(a as int, old(slice)@[b as int]).update(
            b as int,
            old(slice)@[a as int],
        ),
;

/// The position above `index`, which is not the root.
pub fn get_parent_index(index: usize) -> (up: usize)
    requires
        index > 0,
    ensures
        up == parent(index as int),
{
    if index % 2 == 0 {
        (index - 2) / 2
    } else {
        (index - 1) / 2
    }
}

/// The positions of the two children of `index`, whether or not the heap
/// reaches that far.
pub fn get_children_index(index: usize) -> (children: (usize, usize))
    requires
        2 * index + 2 <= usize::MAX,
    ensures
        children.0 == left_child(index as int),
        children.1 == right_child(index as int),
{
    (2 * index + 1, 2 * index + 2)
}

/// Moves the value at `index` towards the root for as long as it outranks the
/// value above it. Where `index` was the only position out of order, the
/// result is a heap. At the root nothing moves, whether or not the vector
/// holds a value there.
pub fn bubble_up<T: Ord>(data: &mut Vec<T>, index: usize, p: Priority)
    requires
        index == 0 || index < old(data)@.len(),
    ensures
        final(data)@.len() == old(data)@.len(),
        final(data)@.to_multiset() == old(data)@.to_multiset(),
        is_total_order::<T>() ==> final(data)@ == sift_up(p, old(data)@, index as int),
        is_total_order::<T>() && is_heap_but_above(p, old(data)@, index as int) ==> is_heap(
            p,
            final(data)@,
        ),
{
    let ghost start = data@;
    let ghost from = index as int;
    let mut index: usize = index;
    while index > 0
        invariant
            index == 0 || index < data@.len(),
            data@.len() == start.len(),
            data@.to_multiset() == start.to_multiset(),
            is_total_order::<T>() ==> sift_up(p, data@, index as int) == sift_up(p, start, from),
        ensures
            data@.len() == start.len(),
            data@.to_multiset() == start.to_multiset(),
            is_total_order::<T>() ==> data@ == sift_up(p, start, from),
        decreases index,
    {
        let up: usize = get_parent_index(index);
        if ranks_before(p, &data[index], &data[up]) {
            proof {
                lemma_exchanged_keeps_values(data@, index as int, up as int);
            }
            data.swap(index, up);
            index = up;
        } else {
            break;
        }
    }
    proof {
        if is_total_order::<T>() && is_heap_but_above(p, start, from) {
            if from < start.len() {
                lemma_sift_up_restores(p, start, from);
            } else {
                assert forall|i: int| #[trigger] ordered_at(p, start, i) by {}
            }
        }
    }
}

/// Moves the value at `index` towards the leaves for as long as one of its
/// children outranks it, each time below the child that outranks the other,
/// and below the second child where neither does. Where the children of
/// `index` were the only positions out of order, the result is a heap. A
/// position without children, or outside the vector, leaves the vector as it
/// is.
pub fn sink_down<T: Ord>(data: &mut Vec<T>, index: usize, p: Priority)
    ensures
        final(data)@.len() == old(data)@.len(),
        final(data)@.to_multiset() == old(data)@.to_multiset(),
        is_total_order::<T>() ==> final(data)@ == sift_down(p, old(data)@, index as int),
        is_total_order::<T>() && is_heap_but_below(p, old(data)@, index as int) ==> is_heap(
            p,
            final(data)@,
        ),
{
    let ghost start = data@;
    let ghost from = index as int;
    let mut index: usize = index;
    loop
        invariant
            data@.len() == start.len(),
            data@.to_multiset() == start.to_multiset(),
            is_total_order::<T>() ==> sift_down(p, data@, index as int) == sift_down(
                p,
                start,
                from,
            ),
        ensures
            data@.len() == start.len(),
            data@.to_multiset() == start.to_multiset(),
            is_total_order::<T>() ==> data@ == sift_down(p, start, from),
        decreases data@.len() - index,
    {
        let len: usize = data.len();
        if index >= len / 2 {
            break;
        }
        let (left, right): (usize, usize) = get_children_index(index);
        let child: usize = if right < len && !ranks_before(p, &data[left], &data[right]) {
            right
        } else {
            left
        };
        if ranks_before(p, &data[child], &data[index]) {
            proof {
                lemma_exchanged_keeps_values(data@, index as int, child as int);
            }
            data.swap(index, child);
            index = child;
        } else {
            break;
        }
    }
    proof {
        if is_total_order::<T>() && is_heap_but_below(p, start, from) {
            lemma_sift_down_restores(p, start, from);
        }
    }
}

} // verus!
