//! Reversible changes to objects, the list form that picks one member, and the
//! laws of undoing and redoing a sequence of changes.
use vstd::prelude::*;
use crate::random::random_index;

verus! {

/// Modifies objects in a way that can be reversed.
///
/// The effect of a change is given by `redone` and `undone`, which depend on the
/// change and the object alone: undoing and redoing are deterministic. An
/// implementation that keeps the default spec functions is never `ready` and no
/// change `fits` it, so verified code does not call it.
pub trait Modifier<T> {
    /// The change applied to an object.
    type Change;

    /// The modifier can make a change (a list, for one, has members).
    closed spec fn ready(&self) -> bool {
        false
    }

    /// `change` is one that this modifier can undo and redo.
    closed spec fn fits(&self, change: Self::Change) -> bool {
        false
    }

    /// The object that redoing `change` on `before` gives.
    closed spec fn redone(&self, change: Self::Change, before: T) -> T {
        arbitrary()
    }

    /// The object that undoing `change` on `after` gives.
    closed spec fn undone(&self, change: Self::Change, after: T) -> T {
        arbitrary()
    }

    /// Modifies an object and returns the change: undoing it on the new object
    /// gives the old one back, and redoing it on the old one gives the new one.
    ///
    /// This might be indeterministic.
    fn modify(&mut self, obj: &mut T) -> (change: Self::Change)
        requires
            old(self).ready(),
        ensures
            final(self).ready(),
            forall|c: Self::Change| #[trigger] final(self).fits(c) == old(self).fits(c),
            forall|c: Self::Change, o: T| #[trigger] final(self).redone(c, o) == old(self).redone(c, o),
            forall|c: Self::Change, o: T| #[trigger] final(self).undone(c, o) == old(self).undone(c, o),
            final(self).fits(change),
            final(self).redone(change, *old(obj)) == *final(obj),
            final(self).undone(change, *final(obj)) == *old(obj),
    ;

    /// Undoes a change made to an object.
    fn undo(&mut self, change: &Self::Change, obj: &mut T)
        requires
            old(self).fits(*change),
        ensures
            final(self).ready() == old(self).ready(),
            forall|c: Self::Change| #[trigger] final(self).fits(c) == old(self).fits(c),
            forall|c: Self::Change, o: T| #[trigger] final(self).redone(c, o) == old(self).redone(c, o),
            forall|c: Self::Change, o: T| #[trigger] final(self).undone(c, o) == old(self).undone(c, o),
            *final(obj) == old(self).undone(*change, *old(obj)),
    ;

    /// Redoes a change made to an object.
    fn redo(&mut self, change: &Self::Change, obj: &mut T)
        requires
            old(self).fits(*change),
        ensures
            final(self).ready() == old(self).ready(),
            forall|c: Self::Change| #[trigger] final(self).fits(c) == old(self).fits(c),
            forall|c: Self::Change, o: T| #[trigger] final(self).redone(c, o) == old(self).redone(c, o),
            forall|c: Self::Change, o: T| #[trigger] final(self).undone(c, o) == old(self).undone(c, o),
            *final(obj) == old(self).redone(*change, *old(obj)),
    ;
}

/// `a` and `b` accept the same changes and give them the same effect.
pub open spec fn same_rules<T, M: Modifier<T>>(a: M, b: M) -> bool {
    &&& forall|c: M::Change| #![trigger a.fits(c)] #![trigger b.fits(c)] a.fits(c) == b.fits(c)
    &&& forall|c: M::Change, o: T|
        #![trigger a.redone(c, o)]
        #![trigger b.redone(c, o)]
        a.redone(c, o) == b.redone(c, o)
    &&& forall|c: M::Change, o: T|
        #![trigger a.undone(c, o)]
        #![trigger b.undone(c, o)]
        a.undone(c, o) == b.undone(c, o)
}

/// Every change of `changes` fits `m`.
pub open spec fn fits_all<T, M: Modifier<T>>(m: M, changes: Seq<M::Change>) -> bool {
    forall|i: int| 0 <= i < changes.len() ==> #[trigger] m.fits(changes[i])
}

/// The object that redoing `changes` in order on `start` gives.
pub open spec fn redo_all<T, M: Modifier<T>>(m: M, changes: Seq<M::Change>, start: T) -> T
    decreases changes.len(),
{
    if changes.len() == 0 {
        start
    } else {
        m.redone(changes.last(), redo_all(m, changes.drop_last(), start))
    }
}

/// The object that undoing `changes` in reverse order on `end` gives.
pub open spec fn undo_all<T, M: Modifier<T>>(m: M, changes: Seq<M::Change>, end: T) -> T
    decreases changes.len(),
{
    if changes.len() == 0 {
        end
    } else {
        undo_all(m, changes.drop_last(), m.undone(changes.last(), end))
    }
}

/// `states` are the objects that `changes` pass through: each change fits `m`,
/// redoing it takes one state to the next, and undoing it takes the next back.
pub open spec fn walks<T, M: Modifier<T>>(m: M, changes: Seq<M::Change>, states: Seq<T>) -> bool {
    &&& states.len() == changes.len() + 1
    &&& forall|i: int|
        #![trigger changes[i]]
        0 <= i < changes.len() ==> {
            &&& m.fits(changes[i])
            &&& m.redone(changes[i], states[i]) == states[i + 1]
            &&& m.undone(changes[i], states[i + 1]) == states[i]
        }
}

/// Along a walk, redoing all its changes in order on the first state gives the
/// last, and undoing them all in reverse order on the last state gives the first.
pub proof fn lemma_walk_round_trip<T, M: Modifier<T>>(m: M, changes: Seq<M::Change>, states: Seq<T>)
    requires
        walks(m, changes, states),
    ensures
        fits_all(m, changes),
        redo_all(m, changes, states[0]) == states.last(),
        undo_all(m, changes, states.last()) == states[0],
    decreases changes.len(),
{
    if changes.len() > 0 {
        let n = changes.len() - 1;
        let front = changes.drop_last();
        let before = states.drop_last();
        assert forall|i: int| 0 <= i < front.len() implies {
            &&& m.fits(#[trigger] front[i])
            &&& m.redone(front[i], before[i]) == before[i + 1]
            &&& m.undone(front[i], before[i + 1]) == before[i]
        } by {
            assert(front[i] == changes[i]);
        }
        lemma_walk_round_trip(m, front, before);
        assert(changes[n] == changes.last());
    }
}

/// The first `n` changes of a walk lead from its first state to its `n`-th:
/// redoing them in order on the first state gives it, and undoing them in
/// reverse order on it gives the first state back.
pub proof fn lemma_walk_prefix<T, M: Modifier<T>>(m: M, changes: Seq<M::Change>, states: Seq<T>, n: int)
    requires
        walks(m, changes, states),
        0 <= n <= changes.len(),
    ensures
        fits_all(m, changes.subrange(0, n)),
        redo_all(m, changes.subrange(0, n), states[0]) == states[n],
        undo_all(m, changes.subrange(0, n), states[n]) == states[0],
{
    let front = changes.subrange(0, n);
    let along = states.subrange(0, n + 1);
    assert forall|i: int| #![trigger front[i]] 0 <= i < front.len() implies {
        &&& m.fits(front[i])
        &&& m.redone(front[i], along[i]) == along[i + 1]
        &&& m.undone(front[i], along[i + 1]) == along[i]
    } by {
        assert(front[i] == changes[i]);
    }
    lemma_walk_round_trip(m, front, along);
}

/// Modifiers with the same rules give a sequence of changes the same effect.
pub proof fn lemma_same_rules_all<T, M: Modifier<T>>(a: M, b: M, changes: Seq<M::Change>)
    requires
        same_rules(a, b),
    ensures
        fits_all(a, changes) == fits_all(b, changes),
        forall|o: T| #[trigger] redo_all(a, changes, o) == redo_all(b, changes, o),
        forall|o: T| #[trigger] undo_all(a, changes, o) == undo_all(b, changes, o),
    decreases changes.len(),
{
    if changes.len() > 0 {
        let front = changes.drop_last();
        let last = changes.last();
        lemma_same_rules_all(a, b, front);
        assert forall|o: T| #[trigger] redo_all(a, changes, o) == redo_all(b, changes, o) by {
            let mid = redo_all(a, front, o);
            assert(mid == redo_all(b, front, o));
            assert(a.redone(last, mid) == b.redone(last, mid));
        }
        assert forall|o: T| #[trigger] undo_all(a, changes, o) == undo_all(b, changes, o) by {
            let mid = a.undone(last, o);
            assert(mid == b.undone(last, o));
            assert(undo_all(a, front, mid) == undo_all(b, front, mid));
        }
    }
    assert(fits_all(a, changes) ==> fits_all(b, changes));
    assert(fits_all(b, changes) ==> fits_all(a, changes));
}

/// After one member of a list of modifiers kept its rules and readiness, and the
/// others stayed as they were, each index still reaches a member with the same
/// rules, and the members are all ready exactly when they were before.
proof fn lemma_one_member_changed<T, U: Modifier<T>>(before: Seq<U>, after: Seq<U>, index: int)
    requires
        after.len() == before.len(),
        0 <= index < before.len(),
        forall|j: int| 0 <= j < before.len() && j != index ==> after[j] == before[j],
        same_rules(after[index], before[index]),
        after[index].ready() == before[index].ready(),
    ensures
        forall|j: int| 0 <= j < before.len() ==> same_rules(#[trigger] after[j], before[j]),
        (forall|j: int| 0 <= j < after.len() ==> #[trigger] after[j].ready())
            == (forall|j: int| 0 <= j < before.len() ==> #[trigger] before[j].ready()),
{
    if forall|j: int| 0 <= j < before.len() ==> #[trigger] before[j].ready() {
        assert forall|j: int| 0 <= j < after.len() implies #[trigger] after[j].ready() by {
            if j != index {
                assert(after[j] == before[j]);
            }
        }
    }
    if forall|j: int| 0 <= j < after.len() ==> #[trigger] after[j].ready() {
        assert forall|j: int| 0 <= j < before.len() implies #[trigger] before[j].ready() by {
            if j != index {
                assert(after[j] == before[j]);
            }
        }
    }
}

/// A list of modifiers hands `modify` to one member picked at random, and keeps
/// that member's index in the change, so that `undo` and `redo` reach it again.
impl<T, U: Modifier<T>> Modifier<T> for Vec<U> {
    type Change = (usize, U::Change);

    open spec fn ready(&self) -> bool {
        &&& self.len() > 0
        &&& forall|i: int| 0 <= i < self.len() ==> #[trigger] self@[i].ready()
    }

    open spec fn fits(&self, change: (usize, U::Change)) -> bool {
        change.0 < self.len() && self@[change.0 as int].fits(change.1)
    }

    open spec fn redone(&self, change: (usize, U::Change), before: T) -> T {
        if change.0 < self.len() {
            self@[change.0 as int].redone(change.1, before)
        } else {
            before
        }
    }

    open spec fn undone(&self, change: (usize, U::Change), after: T) -> T {
        if change.0 < self.len() {
            self@[change.0 as int].undone(change.1, after)
        } else {
            after
        }
    }

    fn modify(&mut self, obj: &mut T) -> (change: (usize, U::Change))
        ensures
            final(self)@.len() == old(self)@.len(),
            forall|j: int|
                0 <= j < old(self)@.len() && j != change.0 ==> #[trigger] final(self)@[j] == old(self)@[j],
    {
        let index = random_index(self.len());
        let inner = self[index].modify(obj);
        proof {
            lemma_one_member_changed(old(self)@, self@, index as int);
        }
        (index, inner)
    }

    fn undo(&mut self, change: &(usize, U::Change), obj: &mut T)
        ensures
            final(self)@.len() == old(self)@.len(),
            forall|j: int|
                0 <= j < old(self)@.len() && j != change.0 ==> #[trigger] final(self)@[j] == old(self)@[j],
    {
        self[change.0].undo(&change.1, obj);
        proof {
            lemma_one_member_changed(old(self)@, self@, change.0 as int);
        }
    }

    fn redo(&mut self, change: &(usize, U::Change), obj: &mut T)
        ensures
            final(self)@.len() == old(self)@.len(),
            forall|j: int|
                0 <= j < old(self)@.len() && j != change.0 ==> #[trigger] final(self)@[j] == old(self)@[j],
    {
        self[change.0].redo(&change.1, obj);
        proof {
            lemma_one_member_changed(old(self)@, self@, change.0 as int);
        }
    }
}

} // verus!
