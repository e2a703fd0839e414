//! The order of the elements and the policy that says which end of it a heap
//! keeps at its root.

use core::cmp::Ordering;
use vstd::prelude::*;
use vstd::std_specs::cmp::PartialOrdSpec;

verus! {

/// Which end of the order a heap keeps at its root.
#[derive(Clone, Copy, PartialEq, Eq, Debug)]
pub enum Priority {
    /// The root is a smallest element: a min-heap.
    Smallest,
    /// The root is a largest element: a max-heap.
    Largest,
}

/// The comparison operators of `T` compute what `vstd` says of them, and they
/// order any two values: of "smaller", "equivalent" and "larger" exactly one
/// holds, consistently and transitively. What this library says of the order
/// in a heap, it says of element types of which this holds. Of the integer
/// types `vstd::laws_cmp` shows it.
pub open spec fn is_total_order<T: Ord>() -> bool {
    vstd::laws_cmp::obeys_cmp::<T>()
}

/// `a` is strictly smaller than `b`.
pub open spec fn less<T: Ord>(a: T, b: T) -> bool {
    a.partial_cmp_spec(&b) == Some(Ordering::Less)
}

/// `a` must leave a heap of priority `p` strictly before `b`.
pub open spec fn outranks<T: Ord>(p: Priority, a: T, b: T) -> bool {
    match p {
        Priority::Smallest => less(a, b),
        Priority::Largest => less(b, a),
    }
}

/// `a` may leave a heap of priority `p` before `b`: `b` does not outrank it.
/// For `Priority::Smallest` this is `a <= b`, for `Priority::Largest` it is
/// `a >= b`.
pub open spec fn may_precede<T: Ord>(p: Priority, a: T, b: T) -> bool {
    !outranks(p, b, a)
}

/// `may_precede` for priority `p` as a relation, for use with the vocabulary of
/// `vstd::relations`.
pub open spec fn precedence<T: Ord>(p: Priority) -> spec_fn(T, T) -> bool {
    |a: T, b: T| may_precede(p, a, b)
}

/// The order tells all values apart: two values of which neither is smaller
/// are the same value.
pub open spec fn is_antisymmetric<T: Ord>() -> bool {
    forall|a: T, b: T| !#[trigger] less(a, b) && !less(b, a) ==> a == b
}

/// Every value may precede itself.
pub proof fn lemma_may_precede_reflexive<T: Ord>(p: Priority, a: T)
    requires
        is_total_order::<T>(),
    ensures
        may_precede(p, a, a),
{
    reveal(vstd::laws_cmp::obeys_partial_cmp_spec_properties);
}

/// Of two values, one may precede the other.
pub proof fn lemma_may_precede_total<T: Ord>(p: Priority, a: T, b: T)
    requires
        is_total_order::<T>(),
    ensures
        may_precede(p, a, b) || may_precede(p, b, a),
{
    reveal(vstd::laws_cmp::obeys_partial_cmp_spec_properties);
}

/// What may precede a value may precede all that the value may precede.
pub proof fn lemma_may_precede_transitive<T: Ord>(p: Priority, a: T, b: T, c: T)
    requires
        is_total_order::<T>(),
        may_precede(p, a, b),
        may_precede(p, b, c),
    ensures
        may_precede(p, a, c),
{
    reveal(vstd::laws_cmp::obeys_cmp_ord);
    reveal(vstd::laws_cmp::obeys_partial_cmp_spec_properties);
    reveal(vstd::laws_eq::obeys_eq_spec_properties);
}

/// A value that outranks another may precede it.
pub proof fn lemma_outranks_may_precede<T: Ord>(p: Priority, a: T, b: T)
    requires
        is_total_order::<T>(),
        outranks(p, a, b),
    ensures
        may_precede(p, a, b),
{
    reveal(vstd::laws_cmp::obeys_partial_cmp_spec_properties);
}

/// Where the order is total and tells all values apart, `precedence` is a
/// total ordering in the sense of `vstd::relations`.
pub proof fn lemma_precedence_is_total_ordering<T: Ord>(p: Priority)
    requires
        is_total_order::<T>(),
        is_antisymmetric::<T>(),
    ensures
        vstd::relations::total_ordering(precedence::<T>(p)),
{
    let r = precedence::<T>(p);
    assert forall|a: T| #[trigger] r(a, a) by {
        lemma_may_precede_reflexive(p, a);
    }
    assert forall|a: T, b: T| #[trigger] r(a, b) && #[trigger] r(b, a) implies a == b by {
    }
    assert forall|a: T, b: T, c: T| #[trigger] r(a, b) && #[trigger] r(b, c) implies r(a, c) by {
        lemma_may_precede_transitive(p, a, b, c);
    }
    assert forall|a: T, b: T| #[trigger] r(a, b) || #[trigger] r(b, a) by {
        lemma_may_precede_total(p, a, b);
    }
}

/// Decides by one comparison whether `a` outranks `b`: `a < b` in a min-heap,
/// `a > b` in a max-heap.
pub fn ranks_before<T: Ord>(p: Priority, a: &T, b: &T) -> (r: bool)
    ensures
        is_total_order::<T>() ==> r == outranks(p, *a, *b),
{
    proof {
        reveal(vstd::laws_cmp::obeys_cmp_partial_ord);
        reveal(vstd::laws_cmp::obeys_partial_cmp_spec_properties);
    }
    match p {
        Priority::Smallest => *a < *b,
        Priority::Largest => *a > *b,
    }
}

} // verus!
