//! Measuring the utility of an object, and the sum over a list of measures.
use vstd::prelude::*;

verus! {

/// Implemented by objects that measure the utility of an object.
///
/// A utility is an integer: higher is better. An implementation that keeps the
/// default spec functions is never `measurable`, so verified code does not call it.
pub trait Utility<T> {
    /// The utility of `obj`.
    closed spec fn utility_of(&self, obj: T) -> int {
        arbitrary()
    }

    /// The utility of `obj` can be computed: it fits an `i64`, and so does
    /// every part that the computation adds up.
    closed spec fn measurable(&self, obj: T) -> bool {
        false
    }

    /// Computes the utility of an object.
    fn utility(&self, obj: &T) -> (r: i64)
        requires
            self.measurable(*obj),
        ensures
            r as int == self.utility_of(*obj),
    ;
}

/// The sum of the utilities that `terms` give to `obj`.
pub open spec fn total_utility<T, U: Utility<T>>(terms: Seq<U>, obj: T) -> int
    decreases terms.len(),
{
    if terms.len() == 0 {
        0
    } else {
        total_utility(terms.drop_last(), obj) + terms.last().utility_of(obj)
    }
}

/// Each of `terms` can compute its utility of `obj`.
pub open spec fn all_measurable<T, U: Utility<T>>(terms: Seq<U>, obj: T) -> bool {
    forall|i: int| 0 <= i < terms.len() ==> #[trigger] terms[i].measurable(obj)
}

/// A list of measures sums the utility of its members; an empty list gives 0.
impl<T, U: Utility<T>> Utility<T> for Vec<U> {
    open spec fn utility_of(&self, obj: T) -> int {
        total_utility(self@, obj)
    }

    open spec fn measurable(&self, obj: T) -> bool {
        &&& all_measurable(self@, obj)
        &&& i64::MIN <= total_utility(self@, obj) <= i64::MAX
    }

    fn utility(&self, obj: &T) -> (r: i64) {
        let mut sum: i128 = 0;
        let mut i: usize = 0;
        while i < self.len()
            invariant
                i <= self.len(),
                all_measurable(self@, *obj),
                sum as int == total_utility(self@.subrange(0, i as int), *obj),
                -(i as int) * 0x8000_0000_0000_0000 <= sum <= (i as int) * 0x8000_0000_0000_0000,
            decreases self.len() - i,
        {
            let x = self[i].utility(obj);
            assert(self@.subrange(0, i + 1).drop_last() =~= self@.subrange(0, i as int));
            sum = sum + x as i128;
            i = i + 1;
        }
        assert(self@.subrange(0, self.len() as int) =~= self@);
        sum as i64
    }
}

/// The utility that a list of two measures gives to an object is the sum of the
/// utilities that its two members give to it.
pub proof fn lemma_pair_sum<T, U: Utility<T>>(terms: Vec<U>, obj: T)
    requires
        terms.len() == 2,
    ensures
        terms.utility_of(obj) == terms[0].utility_of(obj) + terms[1].utility_of(obj),
{
    let s = terms@;
    assert(s.drop_last().drop_last() =~= Seq::<U>::empty());
    assert(s.drop_last().last() == s[0]);
    assert(total_utility(s.drop_last(), obj) == total_utility(s.drop_last().drop_last(), obj)
        + s[0].utility_of(obj));
}

} // verus!
