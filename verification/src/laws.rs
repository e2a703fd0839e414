//! What holds of a heap over any run of operations.

use crate::layout::{is_heap, lemma_root_precedes_all};
use crate::model::{
    drained, lemma_popped, lemma_pushed, lemma_pushed_all, popped, pushed, pushed_all, top,
};
use crate::order::{
    is_antisymmetric, is_total_order, lemma_precedence_is_total_ordering, may_precede, precedence,
    Priority,
};
use vstd::prelude::*;
use vstd::relations::sorted_by;

verus! {

/// One call that changes a heap.
pub enum Operation<T> {
    /// `push` with this item.
    Push(T),
    /// `pop`.
    Pop,
}

/// The heap after one operation.
pub open spec fn applied<T: Ord>(p: Priority, s: Seq<T>, op: Operation<T>) -> Seq<T> {
    match op {
        Operation::Push(item) => pushed(p, s, item),
        Operation::Pop => popped(p, s),
    }
}

/// The heap after a run of operations, the first one first.
pub open spec fn applied_all<T: Ord>(p: Priority, s: Seq<T>, ops: Seq<Operation<T>>) -> Seq<T>
    decreases ops.len(),
{
    if ops.len() == 0 {
        s
    } else {
        applied(p, applied_all(p, s, ops.drop_last()), ops.last())
    }
}

/// How many of the operations are pushes.
pub open spec fn pushes<T>(ops: Seq<Operation<T>>) -> nat
    decreases ops.len(),
{
    if ops.len() == 0 {
        0
    } else if ops.last() is Push {
        pushes(ops.drop_last()) + 1
    } else {
        pushes(ops.drop_last())
    }
}

/// How many of the operations are pops.
pub open spec fn pops<T>(ops: Seq<Operation<T>>) -> nat
    decreases ops.len(),
{
    if ops.len() == 0 {
        0
    } else if ops.last() is Pop {
        pops(ops.drop_last()) + 1
    } else {
        pops(ops.drop_last())
    }
}

/// No pop of the run meets an empty heap.
pub open spec fn never_pops_empty<T: Ord>(p: Priority, s: Seq<T>, ops: Seq<Operation<T>>) -> bool {
    forall|k: int|
        0 <= k < ops.len() && #[trigger] ops[k] is Pop ==> applied_all(p, s, ops.take(k)).len() > 0
}

/// Whatever pushes and pops a heap has seen, it is a heap: no value outranks
/// the value above it. As this holds of every run, it holds after each single
/// call of a run.
pub proof fn lemma_heap_after_any_operations<T: Ord>(
    p: Priority,
    s: Seq<T>,
    ops: Seq<Operation<T>>,
)
    requires
        is_total_order::<T>(),
        is_heap(p, s),
    ensures
        is_heap(p, applied_all(p, s, ops)),
    decreases ops.len(),
{
    if ops.len() > 0 {
        let before = applied_all(p, s, ops.drop_last());
        lemma_heap_after_any_operations(p, s, ops.drop_last());
        match ops.last() {
            Operation::Push(item) => {
                lemma_pushed(p, before, item);
            },
            Operation::Pop => {
                if before.len() > 0 {
                    lemma_popped(p, before);
                }
            },
        }
    }
}

/// After a run of operations in which no pop met an empty heap, the heap has
/// grown by the number of pushes less the number of pops.
pub proof fn lemma_len_after_operations<T: Ord>(p: Priority, s: Seq<T>, ops: Seq<Operation<T>>)
    requires
        never_pops_empty(p, s, ops),
    ensures
        pops(ops) <= s.len() + pushes(ops),
        applied_all(p, s, ops).len() == s.len() + pushes(ops) - pops(ops),
    decreases ops.len(),
{
    if ops.len() > 0 {
        let front = ops.drop_last();
        let before = applied_all(p, s, front);
        assert forall|k: int| 0 <= k < front.len() && #[trigger] front[k] is Pop implies applied_all(
            p,
            s,
            front.take(k),
        ).len() > 0 by {
            assert(front.take(k) == ops.take(k));
        }
        lemma_len_after_operations(p, s, front);
        match ops.last() {
            Operation::Push(item) => {
                lemma_pushed(p, before, item);
            },
            Operation::Pop => {
                lemma_popped(p, before);
            },
        }
    }
}

/// What `peek` shows of a heap that is not empty, its root, may precede every
/// value, and `pop` takes out just that one value.
pub proof fn lemma_pop_takes_what_peek_shows<T: Ord>(p: Priority, s: Seq<T>)
    requires
        is_total_order::<T>(),
        is_heap(p, s),
        s.len() > 0,
    ensures
        top(s) == Some(s[0]),
        forall|i: int| 0 <= i < s.len() ==> may_precede(p, s[0], #[trigger] s[i]),
        popped(p, s).len() == s.len() - 1,
        popped(p, s).to_multiset() == s.to_multiset().remove(s[0]),
{
    lemma_popped(p, s);
    lemma_root_precedes_all(p, s);
}

/// An empty heap shows nothing, and however often it is popped, it stays
/// empty.
pub proof fn lemma_popping_empty_changes_nothing<T: Ord>(p: Priority, ops: Seq<Operation<T>>)
    requires
        forall|k: int| 0 <= k < ops.len() ==> #[trigger] ops[k] is Pop,
    ensures
        top(Seq::<T>::empty()).is_none(),
        applied_all(p, Seq::<T>::empty(), ops) == Seq::<T>::empty(),
    decreases ops.len(),
{
    if ops.len() > 0 {
        lemma_popping_empty_changes_nothing(p, ops.drop_last());
    }
}

/// Popping a heap until it is empty hands out just the values that it held,
/// each one before all that it may precede: ascending from a min-heap,
/// descending from a max-heap.
pub proof fn lemma_drained_is_sorted<T: Ord>(p: Priority, s: Seq<T>)
    requires
        is_total_order::<T>(),
        is_heap(p, s),
    ensures
        drained(p, s).len() == s.len(),
        drained(p, s).to_multiset() == s.to_multiset(),
        sorted_by(drained(p, s), precedence(p)),
    decreases s.len(),
{
    if s.len() == 0 {
        assert(drained(p, s).to_multiset() =~= s.to_multiset()) by {
            assert(drained(p, s) =~= s);
        }
    } else {
        let rest = popped(p, s);
        let tail = drained(p, rest);
        let all = drained(p, s);
        lemma_popped(p, s);
        lemma_root_precedes_all(p, s);
        lemma_drained_is_sorted(p, rest);
        assert(all.to_multiset() =~= s.to_multiset()) by {
            vstd::seq_lib::lemma_multiset_commutative(seq![s[0]], tail);
            vstd::seq_lib::to_multiset_build(Seq::<T>::empty(), s[0]);
            vstd::seq_lib::to_multiset_len(Seq::<T>::empty());
            vstd::seq_lib::to_multiset_contains(s, s[0]);
        }
        assert forall|i: int, j: int| 0 <= i < j < all.len() implies #[trigger] precedence(p)(
            all[i],
            all[j],
        ) by {
            if i == 0 {
                let x = tail[j - 1];
                vstd::seq_lib::to_multiset_contains(tail, x);
                vstd::seq_lib::to_multiset_contains(s, x);
                let k = choose|k: int| 0 <= k < s.len() && s[k] == x;
                assert(may_precede(p, s[0], s[k]));
            }
        }
    }
}

/// Popping a heap that was filled from empty with `items`, until it is empty,
/// hands out just the values of `items`, each one before all that it may
/// precede.
pub proof fn lemma_heapify_then_drain_sorts<T: Ord>(p: Priority, items: Seq<T>)
    requires
        is_total_order::<T>(),
    ensures
        is_heap(p, pushed_all(p, Seq::empty(), items)),
        drained(p, pushed_all(p, Seq::empty(), items)).len() == items.len(),
        drained(p, pushed_all(p, Seq::empty(), items)).to_multiset() == items.to_multiset(),
        sorted_by(drained(p, pushed_all(p, Seq::empty(), items)), precedence(p)),
{
    let empty = Seq::<T>::empty();
    lemma_pushed_all(p, empty, items);
    lemma_drained_is_sorted(p, pushed_all(p, empty, items));
    vstd::seq_lib::to_multiset_len(empty);
}

/// Where the order tells all values apart, the values that a heap held have
/// one sorted arrangement, and popping until the heap is empty hands out that
/// one.
pub proof fn lemma_drained_is_the_sort<T: Ord>(p: Priority, s: Seq<T>)
    requires
        is_total_order::<T>(),
        is_antisymmetric::<T>(),
        is_heap(p, s),
    ensures
        drained(p, s) == s.sort_by(precedence(p)),
{
    lemma_precedence_is_total_ordering::<T>(p);
    lemma_drained_is_sorted(p, s);
    s.lemma_sort_by_ensures(precedence(p));
    vstd::seq_lib::lemma_sorted_unique(drained(p, s), s.sort_by(precedence(p)), precedence(p));
}

/// Where the order tells all values apart, popping a heap that was filled
/// from empty with `items`, until it is empty, hands out `items` sorted.
pub proof fn lemma_heapify_then_drain_is_the_sort<T: Ord>(p: Priority, items: Seq<T>)
    requires
        is_total_order::<T>(),
        is_antisymmetric::<T>(),
    ensures
        drained(p, pushed_all(p, Seq::empty(), items)) == items.sort_by(precedence(p)),
{
    lemma_precedence_is_total_ordering::<T>(p);
    lemma_heapify_then_drain_sorts(p, items);
    items.lemma_sort_by_ensures(precedence(p));
    vstd::seq_lib::lemma_sorted_unique(
        drained(p, pushed_all(p, Seq::empty(), items)),
        items.sort_by(precedence(p)),
        precedence(p),
    );
}

} // verus!
