//! The max-heap: a priority queue that hands out a largest element first.

use crate::layout::{is_heap, lemma_root_precedes_all};
use crate::model::{popped, pushed, pushed_all, top};
use crate::order::{is_total_order, may_precede, Priority};
use crate::vec_heap;
use vstd::prelude::*;

verus! {

/// A binary max-heap in a vector: `MinHeap` with the comparisons turned round.
///
/// Supports `push` and `pop` in O(log n) and `peek` in O(1). Its view is the
/// vector as a sequence, the root first. Where `T` is totally ordered, that
/// sequence is a heap of priority `Priority::Largest` whatever is done to it.
pub struct MaxHeap<T: Ord> {
    data: Vec<T>,
}

impl<T: Ord> View for MaxHeap<T> {
    type V = Seq<T>;

    closed spec fn view(&self) -> Seq<T> {
        self.data@
    }
}

impl<T: Ord> MaxHeap<T> {
    #[verifier::type_invariant]
    spec fn well_formed(self) -> bool {
        is_total_order::<T>() ==> is_heap(Priority::Largest, self.data@)
    }

    /// A heap with nothing in it.
    pub fn new() -> (heap: MaxHeap<T>)
        ensures
            heap@ == Seq::<T>::empty(),
    {
        MaxHeap { data: Vec::new() }
    }

    /// The number of elements.
    pub fn len(&self) -> (n: usize)
        ensures
            n == self@.len(),
    {
        self.data.len()
    }

    /// Whether there is no element.
    pub fn is_empty(&self) -> (empty: bool)
        ensures
            empty <==> self@.len() == 0,
    {
        self.data.len() == 0
    }

    /// Hands the vector out and leaves an empty one in its place.
    fn take_data(&mut self) -> (data: Vec<T>)
        ensures
            data@ == old(self)@,
            final(self)@ == Seq::<T>::empty(),
    {
        let mut data: Vec<T> = Vec::new();
        core::mem::swap(&mut data, &mut self.data);
        data
    }

    /// Adds `item`: it becomes the last leaf and bubbles up from there.
    pub fn push(&mut self, item: T)
        ensures
            final(self)@.len() == old(self)@.len() + 1,
            final(self)@.to_multiset() == old(self)@.to_multiset().insert(item),
            is_total_order::<T>() ==> final(self)@ == pushed(Priority::Largest, old(self)@, item),
            is_total_order::<T>() ==> is_heap(Priority::Largest, final(self)@),
    {
        proof {
            use_type_invariant(&*self);
        }
        let mut data = self.take_data();
        vec_heap::push(&mut data, item, Priority::Largest);
        self.data = data;
    }

    /// Adds each element of `data`, the first one first.
    pub fn heapify(&mut self, data: Vec<T>)
        ensures
            final(self)@.len() == old(self)@.len() + data@.len(),
            final(self)@.to_multiset() == old(self)@.to_multiset().add(data@.to_multiset()),
            is_total_order::<T>() ==> final(self)@ == pushed_all(
                Priority::Largest,
                old(self)@,
                data@,
            ),
            is_total_order::<T>() ==> is_heap(Priority::Largest, final(self)@),
    {
        proof {
            use_type_invariant(&*self);
        }
        let mut heap = self.take_data();
        vec_heap::heapify(&mut heap, data, Priority::Largest);
        self.data = heap;
    }

    /// The root, which is a largest element, or `None` where the heap is
    /// empty.
    pub fn peek(&self) -> (root: Option<&T>)
        ensures
            match root {
                Some(value) => top(self@) == Some(*value),
                None => top(self@).is_none(),
            },
            is_total_order::<T>() ==> is_heap(Priority::Largest, self@),
            is_total_order::<T>() ==> forall|i: int|
                0 <= i < self@.len() ==> may_precede(
                    Priority::Largest,
                    self@[0],
                    #[trigger] self@[i],
                ),
    {
        proof {
            use_type_invariant(self);
            if is_total_order::<T>() {
                lemma_root_precedes_all(Priority::Largest, self@);
            }
        }
        self.data.get(0)
    }

    /// Takes the root out, the largest element that `peek` shows: the last
    /// leaf takes its place and sinks down from there. An empty heap gives
    /// `None` and stays as it is.
    pub fn pop(&mut self) -> (root: Option<T>)
        ensures
            root == top(old(self)@),
            old(self)@.len() == 0 ==> final(self)@ == old(self)@,
            old(self)@.len() > 0 ==> final(self)@.len() == old(self)@.len() - 1,
            old(self)@.len() > 0 ==> final(self)@.to_multiset() == old(self)@.to_multiset().remove(
                old(self)@[0],
            ),
            is_total_order::<T>() ==> final(self)@ == popped(Priority::Largest, old(self)@),
            is_total_order::<T>() ==> is_heap(Priority::Largest, final(self)@),
            is_total_order::<T>() ==> forall|i: int|
                0 <= i < old(self)@.len() ==> may_precede(
                    Priority::Largest,
                    old(self)@[0],
                    #[trigger] old(self)@[i],
                ),
    {
        proof {
            use_type_invariant(&*self);
            if is_total_order::<T>() {
                lemma_root_precedes_all(Priority::Largest, self@);
            }
        }
        let mut data = self.take_data();
        let root = vec_heap::pop(&mut data, Priority::Largest);
        self.data = data;
        root
    }

    /// Drops every element.
    pub fn clear(&mut self)
        ensures
            final(self)@ == Seq::<T>::empty(),
    {
        self.data = Vec::new();
    }
}

} // verus!
