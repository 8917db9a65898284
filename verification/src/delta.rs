//! A batch of pending board mutations.
//!
//! Deduction rules read the board immutably and record their conclusions
//! here: constraints to retire, constraints to add, and cells to resolve.
//! The batch is append-only until it is applied to the board in one step.

use crate::hint::Hint;
use vstd::prelude::*;

verus! {

broadcast use vstd::set::group_set_axioms, vstd::seq::group_seq_axioms;

/// Pending changes: constraint handles to retire, new constraints to
/// register, and cells to resolve as bombs or as empty.
#[derive(PartialEq, Debug)]
pub struct Delta {
    pub hints2rm: Vec<usize>,
    pub hints2add: Vec<Hint>,
    pub squares2bomb: Vec<usize>,
    pub squares2empty: Vec<usize>,
}

impl Delta {
    /// An empty batch: nothing to retire, add or resolve.
    pub open spec fn spec_is_empty(self) -> bool {
        &&& self.hints2rm@.len() == 0
        &&& self.hints2add@.len() == 0
        &&& self.squares2bomb@.len() == 0
        &&& self.squares2empty@.len() == 0
    }

    pub fn new() -> (d: Delta)
        ensures
            d.hints2rm@ == Seq::<usize>::empty(),
            d.hints2add@ == Seq::<Hint>::empty(),
            d.squares2bomb@ == Seq::<usize>::empty(),
            d.squares2empty@ == Seq::<usize>::empty(),
    {
        Delta {
            hints2rm: Vec::new(),
            hints2add: Vec::new(),
            squares2bomb: Vec::new(),
            squares2empty: Vec::new(),
        }
    }

    /// Schedule a freshly derived constraint for registration.  A degenerate
    /// (invalid) constraint carries no information and is silently dropped.
    pub fn add_hint(&mut self, hint: Hint)
        ensures
            hint.valid ==> final(self).hints2add@ == old(self).hints2add@.push(hint),
            !hint.valid ==> final(self).hints2add@ == old(self).hints2add@,
            final(self).hints2rm@ == old(self).hints2rm@,
            final(self).squares2bomb@ == old(self).squares2bomb@,
            final(self).squares2empty@ == old(self).squares2empty@,
    {
        if !hint.valid {
            return ;
        }
        self.hints2add.push(hint);
    }

    /// Schedule the constraint with handle `h` for retirement.
    pub fn rm_hint(&mut self, h: usize)
        ensures
            final(self).hints2rm@ == old(self).hints2rm@.push(h),
            final(self).hints2add@ == old(self).hints2add@,
            final(self).squares2bomb@ == old(self).squares2bomb@,
            final(self).squares2empty@ == old(self).squares2empty@,
    {
        self.hints2rm.push(h);
    }

    /// Schedule cell `s` to be resolved as a bomb.
    pub fn set_square_bomb(&mut self, s: usize)
        ensures
            final(self).squares2bomb@ == old(self).squares2bomb@.push(s),
            final(self).hints2rm@ == old(self).hints2rm@,
            final(self).hints2add@ == old(self).hints2add@,
            final(self).squares2empty@ == old(self).squares2empty@,
    {
        self.squares2bomb.push(s);
    }

    /// Schedule cell `s` to be resolved as empty.
    pub fn set_square_empty(&mut self, s: usize)
        ensures
            final(self).squares2empty@ == old(self).squares2empty@.push(s),
            final(self).hints2rm@ == old(self).hints2rm@,
            final(self).hints2add@ == old(self).hints2add@,
            final(self).squares2bomb@ == old(self).squares2bomb@,
    {
        self.squares2empty.push(s);
    }

    /// Drop every pending change.
    pub fn reset(&mut self)
        ensures
            final(self).spec_is_empty(),
    {
        self.hints2rm.truncate(0);
        self.hints2add.truncate(0);
        self.squares2bomb.truncate(0);
        self.squares2empty.truncate(0);
    }

    /// A batch is empty exactly when all four of its lists are empty; an
    /// empty batch is the sign that no deduction rule fired.
    pub fn is_empty(&self) -> (r: bool)
        ensures
            r == self.spec_is_empty(),
    {
        self.hints2rm.is_empty() && self.hints2add.is_empty() && self.squares2bomb.is_empty()
            && self.squares2empty.is_empty()
    }
}

} // verus!
