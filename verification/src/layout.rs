//! A complete binary tree laid out in a sequence: the root at position 0, the
//! children of position `i` at `2i + 1` and `2i + 2`. This module says when
//! such a sequence is a heap and what the two restoring walks make of it.

use crate::order::{
    is_total_order, lemma_may_precede_reflexive, lemma_may_precede_transitive,
    lemma_outranks_may_precede, may_precede, outranks, Priority,
};
use vstd::prelude::*;

verus! {

/// The position above position `i`, for `i > 0`.
pub open spec fn parent(i: int) -> int {
    (i - 1) / 2
}

/// The position of the first child of position `i`.
pub open spec fn left_child(i: int) -> int {
    2 * i + 1
}

/// The position of the second child of position `i`.
pub open spec fn right_child(i: int) -> int {
    2 * i + 2
}

/// The sequence `s` with the values at positions `i` and `j` exchanged.
pub open spec fn exchanged<T>(s: Seq<T>, i: int, j: int) -> Seq<T> {
    s.update(i, s[j]).update(j, s[i])
}

/// The value at position `i` is in order with the value above it. This holds
/// of the root and of every position outside the sequence.
pub open spec fn ordered_at<T: Ord>(p: Priority, s: Seq<T>, i: int) -> bool {
    0 < i < s.len() ==> may_precede(p, s[parent(i)], s[i])
}

/// The heap invariant: no value outranks the value above it.
pub open spec fn is_heap<T: Ord>(p: Priority, s: Seq<T>) -> bool {
    forall|i: int| #[trigger] ordered_at(p, s, i)
}

/// The child of position `i` that rises if one does: the only child, or the
/// one that outranks its sibling, or the second of two that tie.
pub open spec fn rising_child<T: Ord>(p: Priority, s: Seq<T>, i: int) -> int {
    if right_child(i) < s.len() && !outranks(p, s[left_child(i)], s[right_child(i)]) {
        right_child(i)
    } else {
        left_child(i)
    }
}

/// What bubbling up from position `i` makes of `s`: while the value is not at
/// the root and outranks the value above it, the two are exchanged.
pub open spec fn sift_up<T: Ord>(p: Priority, s: Seq<T>, i: int) -> Seq<T>
    decreases i,
{
    if 0 < i < s.len() && outranks(p, s[i], s[parent(i)]) {
        sift_up(p, exchanged(s, i, parent(i)), parent(i))
    } else {
        s
    }
}

/// What sinking down from position `i` makes of `s`: while the value has a
/// child and its rising child outranks it, the two are exchanged.
pub open spec fn sift_down<T: Ord>(p: Priority, s: Seq<T>, i: int) -> Seq<T>
    decreases s.len() - i,
{
    if 0 <= i && left_child(i) < s.len() && outranks(p, s[rising_child(p, s, i)], s[i]) {
        sift_down(p, exchanged(s, i, rising_child(p, s, i)), rising_child(p, s, i))
    } else {
        s
    }
}

/// The value at position `c` is in order with the value two levels above it.
/// This holds of the root, of its children and of every position outside the
/// sequence.
pub open spec fn ordered_over<T: Ord>(p: Priority, s: Seq<T>, c: int) -> bool {
    0 < parent(c) && c < s.len() ==> may_precede(p, s[parent(parent(c))], s[c])
}

/// A heap but for the value at position `i`, which may outrank the value above
/// it: every other position is in order with the one above it, and the
/// children of `i` are in order with the position above `i`.
pub open spec fn is_heap_but_above<T: Ord>(p: Priority, s: Seq<T>, i: int) -> bool {
    &&& forall|j: int| j != i ==> #[trigger] ordered_at(p, s, j)
    &&& forall|c: int| parent(c) == i ==> #[trigger] ordered_over(p, s, c)
}

/// A heap but for the value at position `i`, which its children may outrank:
/// every position that is no child of `i` is in order with the one above it,
/// and the children of `i` are in order with the position above `i`.
pub open spec fn is_heap_but_below<T: Ord>(p: Priority, s: Seq<T>, i: int) -> bool {
    &&& forall|j: int| parent(j) != i ==> #[trigger] ordered_at(p, s, j)
    &&& forall|c: int| parent(c) == i ==> #[trigger] ordered_over(p, s, c)
}

/// Exchanging two values keeps the length and the values.
pub proof fn lemma_exchanged_keeps_values<T>(s: Seq<T>, i: int, j: int)
    requires
        0 <= i < s.len(),
        0 <= j < s.len(),
    ensures
        exchanged(s, i, j).len() == s.len(),
        exchanged(s, i, j).to_multiset() == s.to_multiset(),
{
    vstd::seq_lib::to_multiset_update(s, i, s[j]);
    vstd::seq_lib::to_multiset_update(s.update(i, s[j]), j, s[i]);
    vstd::seq_lib::to_multiset_contains(s, s[i]);
}

/// In a heap the root may precede the value at position `i`.
proof fn lemma_root_precedes<T: Ord>(p: Priority, s: Seq<T>, i: int)
    requires
        is_total_order::<T>(),
        is_heap(p, s),
        0 <= i < s.len(),
    ensures
        may_precede(p, s[0], s[i]),
    decreases i,
{
    if i == 0 {
        lemma_may_precede_reflexive(p, s[0]);
    } else {
        assert(ordered_at(p, s, i));
        lemma_root_precedes(p, s, parent(i));
        lemma_may_precede_transitive(p, s[0], s[parent(i)], s[i]);
    }
}

/// In a heap the root may precede every value.
pub proof fn lemma_root_precedes_all<T: Ord>(p: Priority, s: Seq<T>)
    requires
        is_total_order::<T>(),
        is_heap(p, s),
    ensures
        forall|i: int| 0 <= i < s.len() ==> may_precede(p, s[0], #[trigger] s[i]),
{
    assert forall|i: int| 0 <= i < s.len() implies may_precede(p, s[0], #[trigger] s[i]) by {
        lemma_root_precedes(p, s, i);
    }
}

/// Bubbling up keeps the length and the values.
pub proof fn lemma_sift_up_keeps_values<T: Ord>(p: Priority, s: Seq<T>, i: int)
    ensures
        sift_up(p, s, i).len() == s.len(),
        sift_up(p, s, i).to_multiset() == s.to_multiset(),
    decreases i,
{
    if 0 < i < s.len() && outranks(p, s[i], s[parent(i)]) {
        lemma_exchanged_keeps_values(s, i, parent(i));
        lemma_sift_up_keeps_values(p, exchanged(s, i, parent(i)), parent(i));
    }
}

/// Sinking down keeps the length and the values.
pub proof fn lemma_sift_down_keeps_values<T: Ord>(p: Priority, s: Seq<T>, i: int)
    ensures
        sift_down(p, s, i).len() == s.len(),
        sift_down(p, s, i).to_multiset() == s.to_multiset(),
    decreases s.len() - i,
{
    if 0 <= i && left_child(i) < s.len() && outranks(p, s[rising_child(p, s, i)], s[i]) {
        let c = rising_child(p, s, i);
        lemma_exchanged_keeps_values(s, i, c);
        lemma_sift_down_keeps_values(p, exchanged(s, i, c), c);
    }
}

/// Bubbling up from the one position that may be out of order with the value
/// above it gives a heap.
pub proof fn lemma_sift_up_restores<T: Ord>(p: Priority, s: Seq<T>, i: int)
    requires
        is_total_order::<T>(),
        0 <= i < s.len(),
        is_heap_but_above(p, s, i),
    ensures
        is_heap(p, sift_up(p, s, i)),
    decreases i,
{
    if 0 < i && outranks(p, s[i], s[parent(i)]) {
        let up = parent(i);
        let t = exchanged(s, i, up);
        lemma_outranks_may_precede(p, s[i], s[up]);
        assert forall|j: int| j != up implies #[trigger] ordered_at(p, t, j) by {
            if 0 < j < t.len() && j != i {
                if parent(j) == up {
                    assert(ordered_at(p, s, j));
                    lemma_may_precede_transitive(p, s[i], s[up], s[j]);
                } else if parent(j) == i {
                    assert(ordered_over(p, s, j));
                } else {
                    assert(ordered_at(p, s, j));
                }
            }
        }
        assert forall|c: int| parent(c) == up implies #[trigger] ordered_over(p, t, c) by {
            if 0 < up && c < t.len() {
                assert(ordered_at(p, s, up));
                if c != i {
                    assert(ordered_at(p, s, c));
                    lemma_may_precede_transitive(p, s[parent(up)], s[up], s[c]);
                }
            }
        }
        lemma_sift_up_restores(p, t, up);
    } else {
        assert forall|j: int| #[trigger] ordered_at(p, s, j) by {
            if j != i {
            }
        }
    }
}

/// Sinking down from the one position whose children may outrank it gives a
/// heap.
pub proof fn lemma_sift_down_restores<T: Ord>(p: Priority, s: Seq<T>, i: int)
    requires
        is_total_order::<T>(),
        0 <= i,
        is_heap_but_below(p, s, i),
    ensures
        is_heap(p, sift_down(p, s, i)),
    decreases s.len() - i,
{
    if left_child(i) < s.len() {
        let c = rising_child(p, s, i);
        let other = if c == left_child(i) { right_child(i) } else { left_child(i) };
        assert(other < s.len() ==> may_precede(p, s[c], s[other])) by {
            if other < s.len() && c == left_child(i) {
                lemma_outranks_may_precede(p, s[c], s[other]);
            }
        }
        if outranks(p, s[c], s[i]) {
            let t = exchanged(s, i, c);
            lemma_outranks_may_precede(p, s[c], s[i]);
            assert forall|j: int| parent(j) != c implies #[trigger] ordered_at(p, t, j) by {
                if 0 < j < t.len() && j != c && j != other {
                    if j == i {
                        assert(ordered_over(p, s, c));
                    } else {
                        assert(ordered_at(p, s, j));
                    }
                }
            }
            assert forall|d: int| parent(d) == c implies #[trigger] ordered_over(p, t, d) by {
                assert(ordered_at(p, s, d));
            }
            lemma_sift_down_restores(p, t, c);
        } else {
            assert forall|j: int| #[trigger] ordered_at(p, s, j) by {
                if parent(j) != i {
                } else if 0 < j < s.len() && j == other {
                    lemma_may_precede_transitive(p, s[i], s[c], s[other]);
                }
            }
        }
    } else {
        assert forall|j: int| #[trigger] ordered_at(p, s, j) by {
            if parent(j) != i {
            }
        }
    }
}

} // verus!
