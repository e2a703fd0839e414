//! The running median of a stream of integers, kept in two heaps: a max-heap
//! holds the smaller half of the values seen, a min-heap the larger half.

use crate::layout::{is_heap, lemma_root_precedes_all};
use crate::max_heap::MaxHeap;
use crate::min_heap::MinHeap;
use crate::model::{lemma_popped, lemma_pushed, popped, pushed};
use crate::order::Priority;
use vstd::prelude::*;
use vstd::relations::sorted_by;

verus! {

/// What the sum of the medians is reduced by at the end.
pub const MODULUS: i32 = 10000;

/// `<=` on `i32` as a relation.
pub open spec fn ascending() -> spec_fn(i32, i32) -> bool {
    |a: i32, b: i32| a <= b
}

/// The median of `values`, which are not empty: the middle one of the sorted
/// values, and the lower of the two middle ones where their number is even.
pub open spec fn lower_median(values: Seq<i32>) -> i32 {
    values.sort_by(ascending())[(values.len() - 1) / 2]
}

/// The two heaps hold the two halves of what was seen: each is a heap, no
/// value of `lower` is larger than a value of `upper`, and their sizes differ
/// by one at most.
pub open spec fn are_halves(lower: Seq<i32>, upper: Seq<i32>) -> bool {
    &&& is_heap(Priority::Largest, lower)
    &&& is_heap(Priority::Smallest, upper)
    &&& lower.len() <= upper.len() + 1
    &&& upper.len() <= lower.len() + 1
    &&& forall|i: int, j: int|
        0 <= i < lower.len() && 0 <= j < upper.len() ==> #[trigger] lower[i] <= #[trigger] upper[j]
}

/// Whether a new value joins the lower half: with values in the lower half,
/// where it is not larger than the largest of them; with values in the upper
/// half only, where it is smaller than the smallest of them. The first value
/// of all joins the upper half.
pub open spec fn goes_low(lower: Seq<i32>, upper: Seq<i32>, num: i32) -> bool {
    if lower.len() > 0 {
        num <= lower[0]
    } else {
        upper.len() > 0 && num < upper[0]
    }
}

/// The two heaps after `num` was pushed into the half that it joins.
pub open spec fn routed(lower: Seq<i32>, upper: Seq<i32>, num: i32) -> (Seq<i32>, Seq<i32>) {
    if goes_low(lower, upper, num) {
        (pushed(Priority::Largest, lower, num), upper)
    } else {
        (lower, pushed(Priority::Smallest, upper, num))
    }
}

/// The two heaps after the root of one that is ahead by more than one value
/// moved to the other.
pub open spec fn rebalanced(lower: Seq<i32>, upper: Seq<i32>) -> (Seq<i32>, Seq<i32>) {
    if lower.len() > upper.len() + 1 {
        (popped(Priority::Largest, lower), pushed(Priority::Smallest, upper, lower[0]))
    } else if upper.len() > lower.len() + 1 {
        (pushed(Priority::Largest, lower, upper[0]), popped(Priority::Smallest, upper))
    } else {
        (lower, upper)
    }
}

/// The two heaps after `num` was seen.
pub open spec fn stepped(lower: Seq<i32>, upper: Seq<i32>, num: i32) -> (Seq<i32>, Seq<i32>) {
    rebalanced(routed(lower, upper, num).0, routed(lower, upper, num).1)
}

/// The remainder of `sum` by `MODULUS`, with the sign of `sum`.
pub open spec fn remainder(sum: int) -> int {
    if sum >= 0 {
        sum % (MODULUS as int)
    } else {
        -((-sum) % (MODULUS as int))
    }
}

/// Adds a median to the sum of the medians before it, or gives `None` where
/// the sum no longer fits.
pub fn accumulate(sum: i32, median: i32) -> (total: Option<i32>)
    ensures
        i32::MIN <= sum + median <= i32::MAX ==> total == Some((sum + median) as i32),
        !(i32::MIN <= sum + median <= i32::MAX) ==> total.is_none(),
{
    sum.checked_add(median)
}

/// The sum of the medians reduced by `MODULUS`.
pub fn reduce(sum: i32) -> (rest: i32)
    ensures
        rest == remainder(sum as int),
{
    sum % MODULUS
}

/// What `insert` reports of one value.
#[derive(Clone, Copy, Debug, PartialEq, Eq)]
pub struct Inserted {
    /// The size of the lower half with the value in it, before any value
    /// moved to the other half.
    pub lower_len: usize,
    /// The size of the upper half at that moment.
    pub upper_len: usize,
    /// The median of all values seen, this one included.
    pub median: i32,
}

/// A value of `t` is `x` or a value of `s`, where `t` holds the values of `s`
/// and `x`.
proof fn lemma_value_after_insert(s: Seq<i32>, t: Seq<i32>, x: i32, i: int)
    requires
        t.to_multiset() == s.to_multiset().insert(x),
        0 <= i < t.len(),
    ensures
        t[i] == x || s.contains(t[i]),
{
    vstd::seq_lib::to_multiset_contains(t, t[i]);
    vstd::seq_lib::to_multiset_contains(s, t[i]);
}

/// A value of `t` is a value of `s`, where `t` holds the values of `s` but
/// one.
proof fn lemma_value_after_remove(s: Seq<i32>, t: Seq<i32>, x: i32, i: int)
    requires
        t.to_multiset() == s.to_multiset().remove(x),
        0 <= i < t.len(),
    ensures
        s.contains(t[i]),
{
    vstd::seq_lib::to_multiset_contains(t, t[i]);
    vstd::seq_lib::to_multiset_contains(s, t[i]);
}

/// The root of the lower half is its largest value, the root of the upper
/// half its smallest.
proof fn lemma_roots_are_extremes(lower: Seq<i32>, upper: Seq<i32>)
    requires
        is_heap(Priority::Largest, lower),
        is_heap(Priority::Smallest, upper),
    ensures
        forall|i: int| 0 <= i < lower.len() ==> #[trigger] lower[i] <= lower[0],
        forall|j: int| 0 <= j < upper.len() ==> upper[0] <= #[trigger] upper[j],
{
    lemma_root_precedes_all(Priority::Largest, lower);
    lemma_root_precedes_all(Priority::Smallest, upper);
}

/// Seeing a value keeps the two heaps the two halves, of the values that they
/// held and the new one.
pub proof fn lemma_stepped(lower: Seq<i32>, upper: Seq<i32>, num: i32)
    requires
        are_halves(lower, upper),
    ensures
        are_halves(stepped(lower, upper, num).0, stepped(lower, upper, num).1),
        stepped(lower, upper, num).0.to_multiset().add(stepped(lower, upper, num).1.to_multiset())
            == lower.to_multiset().add(upper.to_multiset()).insert(num),
        routed(lower, upper, num).0.len() + routed(lower, upper, num).1.len() == lower.len()
            + upper.len() + 1,
{
    lemma_roots_are_extremes(lower, upper);
    let (l1, u1) = routed(lower, upper, num);
    lemma_pushed(Priority::Largest, lower, num);
    lemma_pushed(Priority::Smallest, upper, num);
    assert forall|i: int, j: int| 0 <= i < l1.len() && 0 <= j < u1.len() implies #[trigger] l1[i]
        <= #[trigger] u1[j] by {
        if goes_low(lower, upper, num) {
            lemma_value_after_insert(lower, l1, num, i);
        } else {
            lemma_value_after_insert(upper, u1, num, j);
        }
    }
    assert(l1.to_multiset().add(u1.to_multiset()) =~= lower.to_multiset().add(
        upper.to_multiset(),
    ).insert(num));
    lemma_roots_are_extremes(l1, u1);
    let (l2, u2) = rebalanced(l1, u1);
    if l1.len() > u1.len() + 1 {
        lemma_popped(Priority::Largest, l1);
        lemma_pushed(Priority::Smallest, u1, l1[0]);
        assert forall|i: int, j: int| 0 <= i < l2.len() && 0 <= j < u2.len() implies #[trigger] l2[i]
            <= #[trigger] u2[j] by {
            lemma_value_after_remove(l1, l2, l1[0], i);
            lemma_value_after_insert(u1, u2, l1[0], j);
        }
        assert(l1.to_multiset().count(l1[0]) > 0) by {
            vstd::seq_lib::to_multiset_contains(l1, l1[0]);
        }
    } else if u1.len() > l1.len() + 1 {
        lemma_popped(Priority::Smallest, u1);
        lemma_pushed(Priority::Largest, l1, u1[0]);
        assert forall|i: int, j: int| 0 <= i < l2.len() && 0 <= j < u2.len() implies #[trigger] l2[i]
            <= #[trigger] u2[j] by {
            lemma_value_after_remove(u1, u2, u1[0], j);
            lemma_value_after_insert(l1, l2, u1[0], i);
        }
        assert(u1.to_multiset().count(u1[0]) > 0) by {
            vstd::seq_lib::to_multiset_contains(u1, u1[0]);
        }
    }
}

/// The median sits at a root: at the root of the upper half where that half
/// is ahead, else at the root of the lower half.
pub proof fn lemma_median_is_a_root(values: Seq<i32>, lower: Seq<i32>, upper: Seq<i32>)
    requires
        are_halves(lower, upper),
        values.to_multiset() == lower.to_multiset().add(upper.to_multiset()),
        values.len() > 0,
    ensures
        values.len() == lower.len() + upper.len(),
        upper.len() > lower.len() ==> lower_median(values) == upper[0],
        upper.len() <= lower.len() ==> lower.len() > 0 && lower_median(values) == lower[0],
{
    let leq = ascending();
    let low = lower.sort_by(leq);
    let high = upper.sort_by(leq);
    let all = values.sort_by(leq);
    lower.lemma_sort_by_ensures(leq);
    upper.lemma_sort_by_ensures(leq);
    values.lemma_sort_by_ensures(leq);
    vstd::seq_lib::to_multiset_len(lower);
    vstd::seq_lib::to_multiset_len(upper);
    vstd::seq_lib::to_multiset_len(values);
    vstd::seq_lib::to_multiset_len(high);
    vstd::seq_lib::to_multiset_len(all);
    lemma_roots_are_extremes(lower, upper);
    assert forall|i: int| 0 <= i < low.len() implies lower.contains(#[trigger] low[i]) by {
        assert(low.contains(low[i]));
    }
    assert forall|j: int| 0 <= j < high.len() implies upper.contains(#[trigger] high[j]) by {
        assert(high.contains(high[j]));
    }
    assert(sorted_by(low + high, leq)) by {
        assert forall|i: int, j: int| 0 <= i < j < (low + high).len() implies #[trigger] leq(
            (low + high)[i],
            (low + high)[j],
        ) by {
            if i < low.len() <= j {
                assert(lower.contains(low[i]));
                assert(upper.contains(high[j - low.len()]));
            }
        }
    }
    assert((low + high).to_multiset() == values.to_multiset()) by {
        vstd::seq_lib::lemma_multiset_commutative(low, high);
    }
    vstd::seq_lib::lemma_sorted_unique(low + high, all, leq);
    if upper.len() > lower.len() {
        vstd::seq_lib::to_multiset_contains(upper, upper[0]);
        vstd::seq_lib::to_multiset_contains(high, upper[0]);
        let k = choose|k: int| 0 <= k < high.len() && high[k] == upper[0];
        assert(k == 0 || leq(high[0], high[k]));
    } else {
        let last = lower.len() - 1;
        vstd::seq_lib::to_multiset_contains(lower, lower[0]);
        vstd::seq_lib::to_multiset_contains(low, lower[0]);
        let k = choose|k: int| 0 <= k < low.len() && low[k] == lower[0];
        assert(k == last || leq(low[k], low[last]));
    }
}

/// The running median of the integers that it was given.
///
/// Its view is the sequence of those integers, in the order in which they
/// came.
pub struct RunningMedian {
    lower: MaxHeap<i32>,
    upper: MinHeap<i32>,
    seen: Ghost<Seq<i32>>,
}

impl View for RunningMedian {
    type V = Seq<i32>;

    closed spec fn view(&self) -> Seq<i32> {
        self.seen@
    }
}

impl RunningMedian {
    #[verifier::type_invariant]
    spec fn well_formed(self) -> bool {
        &&& are_halves(self.lower@, self.upper@)
        &&& self.seen@.to_multiset() == self.lower@.to_multiset().add(self.upper@.to_multiset())
    }

    /// The max-heap of the lower half.
    pub closed spec fn lower(&self) -> Seq<i32> {
        self.lower@
    }

    /// The min-heap of the upper half.
    pub closed spec fn upper(&self) -> Seq<i32> {
        self.upper@
    }

    /// A median of nothing yet.
    pub fn new() -> (fresh: RunningMedian)
        ensures
            fresh@ == Seq::<i32>::empty(),
            fresh.lower() == Seq::<i32>::empty(),
            fresh.upper() == Seq::<i32>::empty(),
    {
        proof {
            vstd::seq_lib::to_multiset_len(Seq::<i32>::empty());
            assert(Seq::<i32>::empty().to_multiset() =~= Seq::<i32>::empty().to_multiset().add(
                Seq::<i32>::empty().to_multiset(),
            ));
        }
        RunningMedian { lower: MaxHeap::new(), upper: MinHeap::new(), seen: Ghost(Seq::empty()) }
    }

    /// The sizes of the lower and of the upper half.
    pub fn sizes(&self) -> (sizes: (usize, usize))
        ensures
            sizes.0 == self.lower().len(),
            sizes.1 == self.upper().len(),
            self@.len() == sizes.0 + sizes.1,
            are_halves(self.lower(), self.upper()),
            self@.to_multiset() == self.lower().to_multiset().add(self.upper().to_multiset()),
    {
        proof {
            use_type_invariant(self);
            vstd::seq_lib::to_multiset_len(self.seen@);
            vstd::seq_lib::to_multiset_len(self.lower@);
            vstd::seq_lib::to_multiset_len(self.upper@);
        }
        (self.lower.len(), self.upper.len())
    }

    /// The median of what was seen, or `None` where nothing was: the root of
    /// the half that is ahead, and of the lower half where neither is.
    pub fn median(&self) -> (median: Option<i32>)
        ensures
            self@.len() == 0 ==> median.is_none(),
            self@.len() > 0 ==> median == Some(lower_median(self@)),
    {
        proof {
            use_type_invariant(self);
            vstd::seq_lib::to_multiset_len(self.seen@);
            vstd::seq_lib::to_multiset_len(self.lower@);
            vstd::seq_lib::to_multiset_len(self.upper@);
            if self.seen@.len() > 0 {
                lemma_median_is_a_root(self.seen@, self.lower@, self.upper@);
            }
        }
        let root: Option<&i32> = if self.upper.len() > self.lower.len() {
            self.upper.peek()
        } else {
            self.lower.peek()
        };
        match root {
            Some(value) => Some(*value),
            None => None,
        }
    }

    /// Takes `num` in: it joins the half that `goes_low` names, and where that
    /// puts one half ahead by two, the root of that half moves to the other.
    /// Reports the sizes of the halves before that move, and the median of all
    /// that was seen.
    pub fn insert(&mut self, num: i32) -> (report: Inserted)
        ensures
            final(self)@ == old(self)@.push(num),
            final(self).lower() == stepped(old(self).lower(), old(self).upper(), num).0,
            final(self).upper() == stepped(old(self).lower(), old(self).upper(), num).1,
            report.lower_len == routed(old(self).lower(), old(self).upper(), num).0.len(),
            report.upper_len == routed(old(self).lower(), old(self).upper(), num).1.len(),
            report.median == lower_median(final(self)@),
            are_halves(final(self).lower(), final(self).upper()),
            final(self)@.to_multiset() == final(self).lower().to_multiset().add(
                final(self).upper().to_multiset(),
            ),
    {
        proof {
            use_type_invariant(&*self);
            lemma_stepped(self.lower@, self.upper@, num);
            vstd::seq_lib::to_multiset_build(self.seen@, num);
        }
        let mut taken = RunningMedian::new();
        core::mem::swap(self, &mut taken);
        let RunningMedian { mut lower, mut upper, seen } = taken;

        if upper.is_empty() && lower.is_empty() {
            upper.push(num);
        } else if lower.is_empty() {
            if num < *upper.peek().unwrap() {
                lower.push(num);
            } else {
                upper.push(num);
            }
        } else {
            if num > *lower.peek().unwrap() {
                upper.push(num);
            } else {
                lower.push(num);
            }
        }
        let lower_len: usize = lower.len();
        let upper_len: usize = upper.len();

        if lower.len() > upper.len() {
            if lower.len() - upper.len() > 1 {
                let rebalance_item: i32 = lower.pop().unwrap();
                upper.push(rebalance_item);
            }
        }
        if upper.len() > lower.len() {
            if upper.len() - lower.len() > 1 {
                let rebalance_item: i32 = upper.pop().unwrap();
                lower.push(rebalance_item);
            }
        }
        proof {
            lemma_median_is_a_root(seen@.push(num), lower@, upper@);
        }
        let median: i32 = if upper.len() > lower.len() {
            *upper.peek().unwrap()
        } else {
            *lower.peek().unwrap()
        };
        *self = RunningMedian { lower, upper, seen: Ghost(seen@.push(num)) };
        Inserted { lower_len, upper_len, median }
    }
}

} // verus!
