//! Grid cells and their tri-state resolution.

use vstd::prelude::*;

verus! {

broadcast use vstd::set::group_set_axioms, vstd::seq::group_seq_axioms;

/// What is known about one cell of the grid.
#[derive(PartialEq, Eq, Structural, Clone, Copy, Debug)]
pub enum SquareState {
    Unknown,
    Empty,
    Bomb,
}

/// One grid cell: its resolution state, a flag telling whether it already
/// sits on the worklist, and the handles of the live constraints that
/// mention it.
#[derive(Debug)]
pub struct Square {
    pub state: SquareState,
    pub on_stack: bool,
    pub hints: Vec<usize>,
}

impl Square {
    /// A fresh, unresolved cell mentioned by no constraint.
    pub fn new() -> (s: Square)
        ensures
            s.state == SquareState::Unknown,
            !s.on_stack,
            s.hints@ == Seq::<usize>::empty(),
    {
        Square { state: SquareState::Unknown, hints: Vec::with_capacity(8), on_stack: false }
    }

    /// Record that constraint `h` mentions this cell.
    pub fn add_hint(&mut self, h: usize)
        ensures
            final(self).hints@ == old(self).hints@.push(h),
            final(self).state == old(self).state,
            final(self).on_stack == old(self).on_stack,
    {
        self.hints.push(h);
    }

    /// Drop constraint `h` from this cell's back-references.
    pub fn rm_hint(&mut self, h: usize)
        requires
            old(self).hints@.contains(h),
            old(self).hints@.no_duplicates(),
        ensures
            final(self).hints@.no_duplicates(),
            final(self).hints@.to_set() == old(self).hints@.to_set().remove(h),
            final(self).hints@.len() == old(self).hints@.len() - 1,
            final(self).state == old(self).state,
            final(self).on_stack == old(self).on_stack,
    {
        let ghost before = self.hints@;
        let mut idx: usize = 0;
        while idx < self.hints.len() && self.hints[idx] != h
            invariant
                0 <= idx <= self.hints@.len(),
                forall|j: int| 0 <= j < idx ==> self.hints@[j] != h,
                self.hints@ == before,
                before.contains(h),
            decreases self.hints@.len() - idx,
        {
            idx += 1;
        }
        assert(idx < self.hints@.len() && self.hints@[idx as int] == h) by {
            if idx == self.hints@.len() {
                let w = choose|j: int| 0 <= j < before.len() && before[j] == h;
                assert(before[w] != h);
            }
        }
        self.hints.swap_remove(idx);
        proof {
            let after = self.hints@;
            let n = before.len() as int;
            let i = idx as int;
            assert forall|j: int, k: int|
                0 <= j < after.len() && 0 <= k < after.len() && j != k implies after[j]
                != after[k] by {
                assert(after[j] == if j == i {
                    before[n - 1]
                } else {
                    before[j]
                });
                assert(after[k] == if k == i {
                    before[n - 1]
                } else {
                    before[k]
                });
            }
            assert(after.to_set() =~= before.to_set().remove(h)) by {
                assert forall|x: usize| after.to_set().contains(x) implies before.to_set().remove(
                    h,
                ).contains(x) by {
                    let j = choose|j: int| 0 <= j < after.len() && after[j] == x;
                    if j == i {
                        assert(before[n - 1] == x);
                        assert(x != h || n - 1 == i);
                    } else {
                        assert(before[j] == x);
                        assert(x != h);
                    }
                }
                assert forall|x: usize| before.to_set().remove(h).contains(x) implies after.to_set()
                    .contains(x) by {
                    let j = choose|j: int| 0 <= j < before.len() && before[j] == x;
                    assert(x != h && before[j] == x);
                    assert(j != i);
                    if j < n - 1 {
                        assert(after[j] == x);
                    } else {
                        assert(j == n - 1);
                        assert(i < n - 1);
                        assert(after[i] == x);
                    }
                }
            }
        }
    }
}

} // verus!
