//! The search engine: repeated restarts of bounded random walks that keep the
//! best sequence of changes found, and itself a `Modifier`.
use vstd::prelude::*;
use crate::modifier::{
    Modifier, fits_all, lemma_same_rules_all, lemma_walk_prefix, lemma_walk_round_trip, redo_all,
    same_rules, undo_all, walks,
};
use crate::utility::Utility;

verus! {

/// Modifies an object using a modifier by maximizing utility.
pub struct ModifyOptimizer<M, U> {
    /// The modifier to modify the object.
    pub modifier: M,
    /// The measured utility.
    pub utility: U,
    /// The number of tries before giving up.
    pub tries: usize,
    /// The number of repeated modifications before backtracking.
    pub depth: usize,
}

/// One search takes `before` to `after`: the object stays as it was, or it moves
/// to one of strictly higher utility.
pub open spec fn climbs<T, U: Utility<T>>(u: U, before: T, after: T) -> bool {
    after == before || u.utility_of(after) > u.utility_of(before)
}

/// Picks the winner of one attempt: given the best utility so far and the
/// utilities that the attempt's steps reached, in order, returns the highest of
/// them that beats the best so far, with the number of steps up to its first
/// occurrence (ties keep the earlier one); or the best so far and 0 where no
/// step beats it.
pub fn best_cut(best_utility: i64, trial: &Vec<i64>) -> (r: (i64, usize))
    ensures
        r.0 >= best_utility,
        forall|k: int| 0 <= k < trial@.len() ==> #[trigger] trial@[k] <= r.0,
        r.1 <= trial@.len(),
        r.1 == 0 ==> r.0 == best_utility,
        r.1 > 0 ==> r.0 > best_utility && trial@[r.1 - 1] == r.0,
        forall|k: int| 0 <= k < r.1 - 1 ==> #[trigger] trial@[k] < r.0,
{
    let mut best = best_utility;
    let mut cut: usize = 0;
    let mut i: usize = 0;
    while i < trial.len()
        invariant
            i <= trial.len(),
            best >= best_utility,
            forall|k: int| 0 <= k < i ==> #[trigger] trial@[k] <= best,
            cut <= i,
            cut == 0 ==> best == best_utility,
            cut > 0 ==> best > best_utility && trial@[cut - 1] == best,
            forall|k: int| 0 <= k < cut - 1 ==> #[trigger] trial@[k] < best,
        decreases trial.len() - i,
    {
        if trial[i] > best {
            best = trial[i];
            cut = i + 1;
        }
        i = i + 1;
    }
    (best, cut)
}

impl<M, U> ModifyOptimizer<M, U> {
    /// Runs `tries` attempts, each of `depth` modifications from the object as it
    /// was given, undone again afterwards, most recent first. After each attempt
    /// `best_cut` picks, from the utilities that its steps reached, the prefix
    /// that beat the best so far, if any. At the end the changes of the last such
    /// prefix are redone and returned: the object is left in the state of highest
    /// utility seen, or as it was given where no step beat it.
    pub fn optimize<T>(&mut self, obj: &mut T) -> (best: Vec<<M as Modifier<T>>::Change>) where
        M: Modifier<T>,
        U: Utility<T>,
        requires
            old(self).modifier.ready(),
            forall|o: T| #[trigger] old(self).utility.measurable(o),
        ensures
            final(self).utility == old(self).utility,
            final(self).tries == old(self).tries,
            final(self).depth == old(self).depth,
            final(self).modifier.ready(),
            same_rules(final(self).modifier, old(self).modifier),
            fits_all(old(self).modifier, best@),
            redo_all(old(self).modifier, best@, *old(obj)) == *final(obj),
            undo_all(old(self).modifier, best@, *final(obj)) == *old(obj),
            best@.len() <= old(self).depth,
            old(self).tries == 0 || old(self).depth == 0 ==> best@.len() == 0,
            old(self).tries == 0 || old(self).depth == 0 ==> final(self).modifier == old(self).modifier,
            best@.len() == 0 ==> *final(obj) == *old(obj),
            best@.len() > 0 ==> old(self).utility.utility_of(*final(obj)) > old(self).utility.utility_of(
                *old(obj),
            ),
            old(self).utility.utility_of(*final(obj)) >= old(self).utility.utility_of(*old(obj)),
            climbs(old(self).utility, *old(obj), *final(obj)),
    {
        let ghost m0 = self.modifier;
        let ghost u0 = self.utility;
        let ghost start = *obj;
        let mut best: Vec<<M as Modifier<T>>::Change> = Vec::new();
        let mut best_utility: i64 = self.utility.utility(obj);
        let mut attempt: usize = 0;
        while attempt < self.tries
            invariant
                self.utility == u0,
                self.tries == old(self).tries,
                self.depth == old(self).depth,
                forall|o: T| #[trigger] u0.measurable(o),
                *obj == start,
                self.modifier.ready(),
                same_rules(self.modifier, m0),
                fits_all(m0, best@),
                undo_all(m0, best@, redo_all(m0, best@, start)) == start,
                best_utility as int == u0.utility_of(redo_all(m0, best@, start)),
                best@.len() <= self.depth,
                best@.len() > 0 ==> best_utility as int > u0.utility_of(start),
                attempt <= self.tries,
                attempt == 0 ==> best@.len() == 0,
                attempt == 0 || self.depth == 0 ==> self.modifier == m0,
            decreases self.tries - attempt,
        {
            // Every attempt starts from the object as it was given.
            let ghost before_attempt = self.modifier;
            let (mut walk, scores) = self.attempt(obj);
            let (new_best, cut) = best_cut(best_utility, &scores);
            if cut > 0 {
                let ghost full = walk@;
                walk.truncate(cut);
                proof {
                    assert(walk@ == full.subrange(0, cut as int));
                    lemma_same_rules_all(before_attempt, m0, walk@);
                    assert(scores@[cut - 1] as int == u0.utility_of(
                        redo_all(before_attempt, full.subrange(0, cut - 1 + 1), start),
                    ));
                    assert(undo_all(before_attempt, full.subrange(0, cut as int),
                        redo_all(before_attempt, full.subrange(0, cut as int), start)) == start);
                    assert forall|k: int| 0 <= k < walk@.len() implies #[trigger] before_attempt.fits(walk@[k]) by {
                        assert(walk@[k] == full[k]);
                    }
                }
                best = walk;
                best_utility = new_best;
            }
            attempt = attempt + 1;
        }
        // Redo the best sequence found.
        let mut j: usize = 0;
        while j < best.len()
            invariant
                self.utility == u0,
                self.tries == old(self).tries,
                self.depth == old(self).depth,
                self.modifier.ready(),
                same_rules(self.modifier, m0),
                fits_all(m0, best@),
                j <= best@.len(),
                *obj == redo_all(m0, best@.subrange(0, j as int), start),
                old(self).tries == 0 || old(self).depth == 0 ==> best@.len() == 0 && self.modifier == m0,
            decreases best.len() - j,
        {
            let ghost prefix = best@.subrange(0, j + 1);
            assert(prefix.drop_last() =~= best@.subrange(0, j as int));
            assert(prefix.last() == best@[j as int]);
            assert(m0.fits(best@[j as int]));
            self.modifier.redo(&best[j], obj);
            j = j + 1;
        }
        assert(best@.subrange(0, best.len() as int) =~= best@);
        best
    }

    /// One attempt: `depth` modifications from `obj`, each followed by a measure
    /// of its utility, then all undone again, most recent first, so that `obj`
    /// is left as it was given. Returns the changes made, in order, and the
    /// utility after each of them.
    pub fn attempt<T>(&mut self, obj: &mut T) -> (r: (Vec<<M as Modifier<T>>::Change>, Vec<i64>)) where
        M: Modifier<T>,
        U: Utility<T>,
        requires
            old(self).modifier.ready(),
            forall|o: T| #[trigger] old(self).utility.measurable(o),
        ensures
            final(self).utility == old(self).utility,
            final(self).tries == old(self).tries,
            final(self).depth == old(self).depth,
            final(self).modifier.ready(),
            same_rules(final(self).modifier, old(self).modifier),
            old(self).depth == 0 ==> final(self).modifier == old(self).modifier,
            *final(obj) == *old(obj),
            r.0@.len() == old(self).depth,
            r.1@.len() == old(self).depth,
            fits_all(old(self).modifier, r.0@),
            forall|k: int|
                0 <= k < r.1@.len() ==> #[trigger] r.1@[k] as int == old(self).utility.utility_of(
                    redo_all(old(self).modifier, r.0@.subrange(0, k + 1), *old(obj)),
                ),
            forall|n: int|
                0 <= n <= r.0@.len() ==> #[trigger] undo_all(
                    old(self).modifier,
                    r.0@.subrange(0, n),
                    redo_all(old(self).modifier, r.0@.subrange(0, n), *old(obj)),
                ) == *old(obj),
    {
        let ghost m0 = self.modifier;
        let ghost u0 = self.utility;
        let ghost start = *obj;
        let mut stack: Vec<<M as Modifier<T>>::Change> = Vec::new();
        let ghost mut states: Seq<T> = seq![start];
        let mut scores: Vec<i64> = Vec::new();
        let mut step: usize = 0;
        while step < self.depth
            invariant
                self.utility == u0,
                self.tries == old(self).tries,
                self.depth == old(self).depth,
                forall|o: T| #[trigger] u0.measurable(o),
                self.modifier.ready(),
                same_rules(self.modifier, m0),
                step == 0 ==> self.modifier == m0,
                walks(m0, stack@, states),
                states[0] == start,
                *obj == states.last(),
                stack@.len() == step,
                scores@.len() == step,
                forall|k: int| 0 <= k < step ==> #[trigger] scores@[k] as int == u0.utility_of(states[k + 1]),
                step <= self.depth,
            decreases self.depth - step,
        {
            let change = self.modifier.modify(obj);
            proof {
                states = states.push(*obj);
            }
            stack.push(change);
            let utility = self.utility.utility(obj);
            scores.push(utility);
            step = step + 1;
            proof {
                assert forall|i: int| #![trigger stack@[i]] 0 <= i < stack@.len() implies {
                    &&& m0.fits(stack@[i])
                    &&& m0.redone(stack@[i], states[i]) == states[i + 1]
                    &&& m0.undone(stack@[i], states[i + 1]) == states[i]
                } by {
                    if i < stack@.len() - 1 {
                        assert(stack@[i] == stack@.drop_last()[i]);
                    }
                }
            }
        }
        // Undo every step, most recent first.
        let mut i: usize = stack.len();
        while i > 0
            invariant
                self.utility == u0,
                self.tries == old(self).tries,
                self.depth == old(self).depth,
                self.modifier.ready(),
                same_rules(self.modifier, m0),
                stack@.len() == 0 ==> self.modifier == m0,
                walks(m0, stack@, states),
                i <= stack@.len(),
                *obj == states[i as int],
            decreases i,
        {
            self.modifier.undo(&stack[i - 1], obj);
            i = i - 1;
        }
        proof {
            lemma_walk_round_trip(m0, stack@, states);
            assert forall|k: int| 0 <= k < scores@.len() implies #[trigger] scores@[k] as int
                == u0.utility_of(redo_all(m0, stack@.subrange(0, k + 1), start)) by {
                lemma_walk_prefix(m0, stack@, states, k + 1);
            }
            assert forall|n: int| 0 <= n <= stack@.len() implies #[trigger] undo_all(
                m0,
                stack@.subrange(0, n),
                redo_all(m0, stack@.subrange(0, n), start),
            ) == start by {
                lemma_walk_prefix(m0, stack@, states, n);
            }
        }
        (stack, scores)
    }
}

/// The search is a modifier in its own right: its change is the sequence of
/// changes that it redid, undone in reverse order and redone in order.
impl<T, M: Modifier<T>, U: Utility<T>> Modifier<T> for ModifyOptimizer<M, U> {
    type Change = Vec<M::Change>;

    open spec fn ready(&self) -> bool {
        &&& self.modifier.ready()
        &&& forall|o: T| #[trigger] self.utility.measurable(o)
    }

    open spec fn fits(&self, change: Vec<M::Change>) -> bool {
        fits_all(self.modifier, change@)
    }

    open spec fn redone(&self, change: Vec<M::Change>, before: T) -> T {
        redo_all(self.modifier, change@, before)
    }

    open spec fn undone(&self, change: Vec<M::Change>, after: T) -> T {
        undo_all(self.modifier, change@, after)
    }

    fn modify(&mut self, obj: &mut T) -> (change: Vec<M::Change>)
        ensures
            final(self).utility == old(self).utility,
            final(self).tries == old(self).tries,
            final(self).depth == old(self).depth,
            change@.len() <= old(self).depth,
            old(self).tries == 0 || old(self).depth == 0 ==> change@.len() == 0,
            old(self).tries == 0 || old(self).depth == 0 ==> final(self).modifier == old(self).modifier,
            change@.len() == 0 ==> *final(obj) == *old(obj),
            change@.len() > 0 ==> old(self).utility.utility_of(*final(obj)) > old(self).utility.utility_of(
                *old(obj),
            ),
            old(self).utility.utility_of(*final(obj)) >= old(self).utility.utility_of(*old(obj)),
            climbs(old(self).utility, *old(obj), *final(obj)),
    {
        let change = self.optimize(obj);
        proof {
            lemma_same_rules_all_changes(self.modifier, old(self).modifier);
            lemma_same_rules_all(self.modifier, old(self).modifier, change@);
        }
        change
    }

    fn undo(&mut self, change: &Vec<M::Change>, obj: &mut T)
        ensures
            final(self).utility == old(self).utility,
            final(self).tries == old(self).tries,
            final(self).depth == old(self).depth,
            change@.len() == 0 ==> *final(self) == *old(self),
    {
        let ghost m0 = self.modifier;
        let ghost end = *obj;
        let mut i: usize = change.len();
        assert(change@.subrange(0, i as int) =~= change@);
        while i > 0
            invariant
                self.utility == old(self).utility,
                self.tries == old(self).tries,
                self.depth == old(self).depth,
                change@.len() == 0 ==> *self == *old(self),
                self.modifier.ready() == m0.ready(),
                same_rules(self.modifier, m0),
                fits_all(m0, change@),
                i <= change.len(),
                undo_all(m0, change@, end) == undo_all(m0, change@.subrange(0, i as int), *obj),
            decreases i,
        {
            let ghost prefix = change@.subrange(0, i as int);
            assert(prefix.drop_last() =~= change@.subrange(0, i - 1));
            assert(prefix.last() == change@[i - 1]);
            assert(m0.fits(change@[i - 1]));
            self.modifier.undo(&change[i - 1], obj);
            i = i - 1;
        }
        assert(change@.subrange(0, 0) =~= Seq::<M::Change>::empty());
        proof {
            lemma_same_rules_all_changes(self.modifier, m0);
        }
    }

    fn redo(&mut self, change: &Vec<M::Change>, obj: &mut T)
        ensures
            final(self).utility == old(self).utility,
            final(self).tries == old(self).tries,
            final(self).depth == old(self).depth,
            change@.len() == 0 ==> *final(self) == *old(self),
    {
        let ghost m0 = self.modifier;
        let ghost begin = *obj;
        let mut i: usize = 0;
        while i < change.len()
            invariant
                self.utility == old(self).utility,
                self.tries == old(self).tries,
                self.depth == old(self).depth,
                change@.len() == 0 ==> *self == *old(self),
                self.modifier.ready() == m0.ready(),
                same_rules(self.modifier, m0),
                fits_all(m0, change@),
                i <= change.len(),
                *obj == redo_all(m0, change@.subrange(0, i as int), begin),
            decreases change.len() - i,
        {
            let ghost prefix = change@.subrange(0, i + 1);
            assert(prefix.drop_last() =~= change@.subrange(0, i as int));
            assert(prefix.last() == change@[i as int]);
            assert(m0.fits(change@[i as int]));
            self.modifier.redo(&change[i], obj);
            i = i + 1;
        }
        assert(change@.subrange(0, change.len() as int) =~= change@);
        proof {
            lemma_same_rules_all_changes(self.modifier, m0);
        }
    }
}

/// Searches whose modifiers have the same rules give every sequence of changes
/// the same effect.
proof fn lemma_same_rules_all_changes<T, M: Modifier<T>>(a: M, b: M)
    requires
        same_rules(a, b),
    ensures
        forall|c: Seq<M::Change>| #[trigger] fits_all(a, c) == fits_all(b, c),
        forall|c: Seq<M::Change>, o: T| #[trigger] redo_all(a, c, o) == redo_all(b, c, o),
        forall|c: Seq<M::Change>, o: T| #[trigger] undo_all(a, c, o) == undo_all(b, c, o),
{
    assert forall|c: Seq<M::Change>| #[trigger] fits_all(a, c) == fits_all(b, c) by {
        lemma_same_rules_all(a, b, c);
    }
    assert forall|c: Seq<M::Change>, o: T| #[trigger] redo_all(a, c, o) == redo_all(b, c, o) by {
        lemma_same_rules_all(a, b, c);
    }
    assert forall|c: Seq<M::Change>, o: T| #[trigger] undo_all(a, c, o) == undo_all(b, c, o) by {
        lemma_same_rules_all(a, b, c);
    }
}

/// Feeding each search's result to the next search reaches a fixed point: in a
/// run of objects where each step climbs, as every call of `optimize` does, and
/// whose utilities stay within `low..=high`, some object equals the one before it
/// once the run is longer than `high - low + 1`.
pub proof fn lemma_fixed_point<T, U: Utility<T>>(u: U, run: Seq<T>, low: int, high: int)
    requires
        forall|k: int| 0 <= k < run.len() - 1 ==> #[trigger] climbs(u, run[k], run[k + 1]),
        forall|k: int| 0 <= k < run.len() ==> low <= #[trigger] u.utility_of(run[k]) <= high,
        low <= high,
        run.len() > high - low + 1,
    ensures
        exists|k: int| 0 <= k < run.len() - 1 && #[trigger] run[k + 1] == run[k],
{
    if forall|k: int| 0 <= k < run.len() - 1 ==> #[trigger] run[k + 1] != run[k] {
        let last = run.len() - 1;
        lemma_strict_climb(u, run, 0, last);
        assert(low <= u.utility_of(run[0]));
        assert(u.utility_of(run[last]) <= high);
    }
}

/// Feeding each search's result to the next search reaches a fixed point within
/// a finite set of objects: in a run where each step climbs, as every call of
/// `optimize` does, and that stays within `domain`, some object equals the one
/// before it once the run is longer than `domain` is large.
pub proof fn lemma_fixed_point_in_domain<T, U: Utility<T>>(u: U, run: Seq<T>, domain: Set<T>)
    requires
        domain.finite(),
        forall|k: int| 0 <= k < run.len() - 1 ==> #[trigger] climbs(u, run[k], run[k + 1]),
        forall|k: int| 0 <= k < run.len() ==> domain.contains(#[trigger] run[k]),
        run.len() > domain.len(),
    ensures
        exists|k: int| 0 <= k < run.len() - 1 && #[trigger] run[k + 1] == run[k],
{
    if forall|k: int| 0 <= k < run.len() - 1 ==> #[trigger] run[k + 1] != run[k] {
        assert forall|i: int, j: int| 0 <= i < run.len() && 0 <= j < run.len() && i != j implies run[i]
            != run[j] by {
            if i < j {
                lemma_strict_climb(u, run, i, j);
            } else {
                lemma_strict_climb(u, run, j, i);
            }
        }
        assert(run.no_duplicates());
        run.unique_seq_to_set();
        assert(run.to_set().subset_of(domain));
        vstd::set_lib::lemma_len_subset(run.to_set(), domain);
    }
}

/// Along a run in which each step climbs and changes the object, the utility
/// rises by at least one at each step.
proof fn lemma_strict_climb<T, U: Utility<T>>(u: U, run: Seq<T>, i: int, k: int)
    requires
        0 <= i <= k < run.len(),
        forall|j: int| 0 <= j < run.len() - 1 ==> #[trigger] climbs(u, run[j], run[j + 1]),
        forall|j: int| 0 <= j < run.len() - 1 ==> #[trigger] run[j + 1] != run[j],
    ensures
        u.utility_of(run[k]) >= u.utility_of(run[i]) + (k - i),
    decreases k - i,
{
    if k > i {
        lemma_strict_climb(u, run, i, k - 1);
        let j = k - 1;
        assert(climbs(u, run[j], run[j + 1]));
        assert(run[j + 1] != run[j]);
    }
}

} // verus!
