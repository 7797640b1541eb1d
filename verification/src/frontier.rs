//! A ranked frontier of not-yet-expanded search states.
//!
//! States are ranked by their `evaluated_score`. Removal takes the first
//! highest-ranked state in insertion order, so equal keys are broken toward
//! the earliest insertion — callers may rely on the contracts below, but the
//! ranking among equal keys is an implementation detail of this frontier.

use vstd::prelude::*;

use crate::state::MazeState;

verus! {

/// `i` indexes the first highest-ranked state of `q`: no state outranks it,
/// and every earlier state ranks strictly lower.
pub open spec fn is_first_max(q: Seq<MazeState>, i: int) -> bool {
    &&& 0 <= i < q.len()
    &&& forall|j: int| 0 <= j < q.len() ==> q[j]@.evaluated_score <= q[i]@.evaluated_score
    &&& forall|j: int| 0 <= j < i ==> q[j]@.evaluated_score < q[i]@.evaluated_score
}

/// The first highest-ranked index is unique.
pub proof fn lemma_first_max_unique(q: Seq<MazeState>, i: int, j: int)
    requires
        is_first_max(q, i),
        is_first_max(q, j),
    ensures
        i == j,
{
    if i < j {
        assert(q[i]@.evaluated_score < q[j]@.evaluated_score);
    }
    if j < i {
        assert(q[j]@.evaluated_score < q[i]@.evaluated_score);
    }
}

/// An ordered frontier: insert anywhere, remove the highest-ranked state.
pub struct Beam {
    items: Vec<MazeState>,
}

impl View for Beam {
    type V = Seq<MazeState>;

    closed spec fn view(&self) -> Seq<MazeState> {
        self.items@
    }
}

impl Beam {
    pub fn new() -> (r: Beam)
        ensures
            r@.len() == 0,
    {
        Beam { items: Vec::new() }
    }

    pub fn len(&self) -> (r: usize)
        ensures
            r == self@.len(),
    {
        self.items.len()
    }

    pub fn push(&mut self, s: MazeState)
        ensures
            final(self)@ == old(self)@.push(s),
    {
        self.items.push(s);
    }

    /// Index of the first highest-ranked state.
    fn best_index(&self) -> (r: usize)
        requires
            self@.len() > 0,
        ensures
            is_first_max(self@, r as int),
    {
        let mut best: usize = 0;
        let mut k: usize = 1;
        while k < self.items.len()
            invariant
                best < k,
                k <= self@.len(),
                self@.len() > 0,
                forall|j: int|
                    0 <= j < k ==> self@[j]@.evaluated_score <= self@[
                        best as int
                    ]@.evaluated_score,
                forall|j: int|
                    0 <= j < best ==> self@[j]@.evaluated_score < self@[
                        best as int
                    ]@.evaluated_score,
            decreases self@.len() - k,
        {
            if self.items[k].evaluated_score > self.items[best].evaluated_score {
                best = k;
            }
            k = k + 1;
        }
        best
    }

    /// Borrows the highest-ranked state without removing it.
    pub fn peek_best(&self) -> (r: &MazeState)
        requires
            self@.len() > 0,
        ensures
            exists|i: int| is_first_max(self@, i) && *r == self@[i],
    {
        let b = self.best_index();
        &self.items[b]
    }

    /// Removes and returns the highest-ranked state.
    pub fn pop_best(&mut self) -> (r: MazeState)
        requires
            old(self)@.len() > 0,
        ensures
            exists|i: int|
                is_first_max(old(self)@, i) && r == old(self)@[i] && final(self)@ == old(
                    self,
                )@.remove(i),
    {
        let b = self.best_index();
        self.items.remove(b)
    }
}

} // verus!
