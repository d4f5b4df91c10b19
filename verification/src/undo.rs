use vstd::prelude::*;

use std::collections::VecDeque;

verus! {

/// How many past states can be restored.
pub const UNDO_LIMIT: usize = 5;

/// The history after saving `state` onto `states`.
pub open spec fn saved<T>(states: Seq<T>, state: T) -> Seq<T> {
    (if states.len() >= UNDO_LIMIT {
        states.drop_first()
    } else {
        states
    }).push(state)
}

/// The history after saving each of `xs`, in order, onto `states`.
pub open spec fn saved_all<T>(states: Seq<T>, xs: Seq<T>) -> Seq<T>
    decreases xs.len(),
{
    if xs.len() == 0 {
        states
    } else {
        saved(saved_all(states, xs.drop_last()), xs.last())
    }
}

/// The last `n` entries of `s`, or all of them when there are fewer.
pub open spec fn last_n<T>(s: Seq<T>, n: nat) -> Seq<T> {
    if s.len() <= n {
        s
    } else {
        s.skip(s.len() - n)
    }
}

/// Saving states one after another keeps exactly the most recent `UNDO_LIMIT` of all the
/// states saved so far, oldest first.
pub proof fn lemma_history_keeps_latest<T>(states: Seq<T>, xs: Seq<T>)
    requires
        states.len() <= UNDO_LIMIT,
    ensures
        saved_all(states, xs) == last_n(states + xs, UNDO_LIMIT as nat),
    decreases xs.len(),
{
    if xs.len() == 0 {
        assert(states + xs =~= states);
    } else {
        let a = states + xs.drop_last();
        let x = xs.last();
        lemma_history_keeps_latest(states, xs.drop_last());
        assert(a.push(x) =~= states + xs);
        let l = last_n(a, UNDO_LIMIT as nat);
        if a.len() >= UNDO_LIMIT {
            assert(l.drop_first().push(x) =~= last_n(a.push(x), UNDO_LIMIT as nat));
        } else {
            assert(l.push(x) =~= last_n(a.push(x), UNDO_LIMIT as nat));
        }
    }
}

/// Undoing right after saving a state hands that state back and leaves the earlier
/// history, less its oldest entry when the history was full.
pub proof fn lemma_undo_after_save<T>(states: Seq<T>, state: T)
    ensures
        saved(states, state).last() == state,
        saved(states, state).drop_last() == (if states.len() >= UNDO_LIMIT {
            states.drop_first()
        } else {
            states
        }),
        states.len() <= UNDO_LIMIT ==> saved(states, state).len() <= UNDO_LIMIT,
{
    let kept = if states.len() >= UNDO_LIMIT {
        states.drop_first()
    } else {
        states
    };
    assert(kept.push(state).drop_last() =~= kept);
}

/// The most recent saved states, oldest first; at most `UNDO_LIMIT` of them.
pub struct UndoHistory<T> {
    entries: VecDeque<T>,
}

impl<T> UndoHistory<T> {
    /// The saved states, oldest first.
    pub closed spec fn states(&self) -> Seq<T> {
        self.entries@
    }

    pub closed spec fn wf(&self) -> bool {
        self.entries@.len() <= UNDO_LIMIT
    }

    pub fn new() -> (r: Self)
        ensures
            r.wf(),
            r.states() == Seq::<T>::empty(),
    {
        UndoHistory { entries: VecDeque::new() }
    }

    pub fn len(&self) -> (r: usize)
        ensures
            r == self.states().len(),
    {
        self.entries.len()
    }

    /// Saves `state`; when the history is full the oldest state is dropped first.
    pub fn push(&mut self, state: T)
        requires
            old(self).wf(),
        ensures
            final(self).wf(),
            final(self).states() == saved(old(self).states(), state),
    {
        if self.entries.len() >= UNDO_LIMIT {
            self.entries.pop_front();
        }
        self.entries.push_back(state);
    }

    /// Takes out the most recently saved state.
    pub fn pop(&mut self) -> (r: Option<T>)
        requires
            old(self).wf(),
        ensures
            final(self).wf(),
            old(self).states().len() == 0 ==> r is None && final(self).states() == old(self).states(),
            old(self).states().len() > 0 ==> r == Some(old(self).states().last())
                && final(self).states() == old(self).states().drop_last(),
    {
        self.entries.pop_back()
    }
}

} // verus!
