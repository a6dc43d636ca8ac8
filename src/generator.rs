//! Producing objects, and choosing among a list of producers.
use vstd::prelude::*;
use crate::random::random_index;

verus! {

/// Implemented by objects that generate other objects.
///
/// An implementation that keeps the default spec functions is never `ready`, so
/// verified code does not call it.
pub trait Generator {
    /// The type of the object generated.
    type Output;

    /// The generator can be called (a list, for one, has members).
    closed spec fn ready(&self) -> bool {
        false
    }

    /// `out` is an object that this generator may produce.
    closed spec fn may_produce(&self, out: Self::Output) -> bool {
        arbitrary()
    }

    /// Generates a new object.
    ///
    /// This might be indeterministic.
    fn generate(&mut self) -> (r: Self::Output)
        requires
            old(self).ready(),
        ensures
            final(self).ready(),
            old(self).may_produce(r),
    ;
}

/// A list of generators hands the call to one member picked at random.
impl<G: Generator> Generator for Vec<G> {
    type Output = G::Output;

    open spec fn ready(&self) -> bool {
        &&& self.len() > 0
        &&& forall|i: int| 0 <= i < self.len() ==> #[trigger] self@[i].ready()
    }

    open spec fn may_produce(&self, out: G::Output) -> bool {
        exists|i: int| 0 <= i < self.len() && #[trigger] self@[i].may_produce(out)
    }

    fn generate(&mut self) -> (r: G::Output)
        ensures
            final(self)@.len() == old(self)@.len(),
            exists|i: int|
                0 <= i < old(self)@.len() && #[trigger] old(self)@[i].may_produce(r) && forall|j: int|
                    0 <= j < old(self)@.len() && j != i ==> #[trigger] final(self)@[j] == old(self)@[j],
    {
        let index = random_index(self.len());
        let r = self[index].generate();
        assert(old(self)@[index as int].may_produce(r));
        r
    }
}

} // verus!
