//! Constraints ("hints"): a set of cells known to hold an exact number of
//! bombs.

use crate::sets::bombs_in;
use crate::sets::lemma_sorted_push;
use crate::sets::lemma_take_step;
use crate::sets::lemma_sorted_strict_set_len;
use crate::sets::sorted_strict;
use vstd::prelude::*;

verus! {

broadcast use vstd::set::group_set_axioms, vstd::seq::group_seq_axioms;

/// A constraint: the cells listed in `squares` (kept strictly sorted) hold
/// exactly `bombs` bombs.  A constraint whose cell list is empty carries no
/// information and is marked invalid; retired constraints are also flagged
/// invalid and left as tombstones.
#[derive(PartialEq, Debug)]
pub struct Hint {
    pub bombs: u32,
    pub squares: Vec<usize>,
    pub valid: bool,
}

/// The assignment `a` satisfies the constraint `h`: it places exactly
/// `h.bombs` bombs on the cells of `h`.
pub open spec fn sat_hint(a: Seq<bool>, h: Hint) -> bool {
    bombs_in(a, h.squares@.to_set()) == h.bombs as int
}

/// Structural well-formedness of a live constraint whose cells range below
/// `n`: sorted cell list without duplicates, and a bomb count that its cells
/// can hold.
pub open spec fn hint_ok(h: Hint, n: int) -> bool {
    &&& sorted_strict(h.squares@)
    &&& forall|k: int| 0 <= k < h.squares@.len() ==> (h.squares@[k] as int) < n
    &&& h.bombs as int <= h.squares@.len()
    &&& h.squares@.len() > 0
}

impl Hint {
    /// Build a constraint from a raw cell list: the list is sorted and
    /// deduplicated, and the constraint is valid exactly when it mentions at
    /// least one cell.  The bomb count may not exceed the number of distinct
    /// cells.
    pub fn new(bombs: u32, squares: Vec<usize>) -> (r: Hint)
        requires
            bombs as int <= squares@.to_set().len(),
        ensures
            r.bombs == bombs,
            sorted_strict(r.squares@),
            r.squares@.to_set() == squares@.to_set(),
            r.squares@.len() == squares@.to_set().len(),
            r.valid <==> r.squares@.len() > 0,
    {
        let mut out: Vec<usize> = Vec::new();
        let mut i: usize = 0;
        while i < squares.len()
            invariant
                0 <= i <= squares@.len(),
                sorted_strict(out@),
                out@.to_set() == squares@.take(i as int).to_set(),
            decreases squares@.len() - i,
        {
            let x = squares[i];
            let mut j: usize = 0;
            while j < out.len() && out[j] < x
                invariant
                    0 <= j <= out@.len(),
                    forall|k: int| 0 <= k < j ==> out@[k] < x,
                    sorted_strict(out@),
                decreases out@.len() - j,
            {
                j += 1;
            }
            let ghost before = out@;
            if j == out.len() || out[j] != x {
                out.insert(j, x);
                proof {
                    let jj = j as int;
                    assert forall|p: int, q: int|
                        0 <= p < q < out@.len() implies out@[p] < out@[q] by {
                        assert(out@[p] == if p < jj {
                            before[p]
                        } else if p == jj {
                            x
                        } else {
                            before[p - 1]
                        });
                        assert(out@[q] == if q < jj {
                            before[q]
                        } else if q == jj {
                            x
                        } else {
                            before[q - 1]
                        });
                        if q > jj && jj < before.len() {
                            assert(before[jj] > x || before[jj] != x);
                            if q - 1 == jj {
                                assert(!(before[jj] < x) && before[jj] != x);
                            } else {
                                assert(!(before[jj] < x) && before[jj] != x);
                                assert(before[jj] <= before[q - 1]);
                            }
                        }
                    }
                    assert(out@.to_set() =~= before.to_set().insert(x)) by {
                        assert forall|y: usize| out@.to_set().contains(y) implies before.to_set()
                            .insert(x).contains(y) by {
                            let p = choose|p: int| 0 <= p < out@.len() && out@[p] == y;
                            if p < jj {
                                assert(before[p] == y);
                            } else if p > jj {
                                assert(before[p - 1] == y);
                            }
                        }
                        assert forall|y: usize| before.to_set().insert(x).contains(y)
                            implies out@.to_set().contains(y) by {
                            if y == x {
                                assert(out@[jj] == y);
                            } else {
                                let p = choose|p: int| 0 <= p < before.len() && before[p] == y;
                                if p < jj {
                                    assert(out@[p] == y);
                                } else {
                                    assert(out@[p + 1] == y);
                                }
                            }
                        }
                    }
                }
            } else {
                proof {
                    assert(out@[j as int] == x);
                    assert(out@.to_set().contains(x));
                    assert(out@.to_set() =~= before.to_set().insert(x));
                }
            }
            i += 1;
            proof {
                assert(squares@.take(i as int) =~= squares@.take(i as int - 1).push(x));
                squares@.take(i as int - 1).lemma_push_to_set_commute(x);
            }
        }
        proof {
            assert(squares@.take(squares@.len() as int) =~= squares@);
            lemma_sorted_strict_set_len(out@);
        }
        let empty = out.len() == 0;
        Hint { bombs, squares: out, valid: !empty }
    }

    /// Partition the cells of two constraints by a single ascending merge
    /// pass: the cells only in `hint1`, the cells only in `hint2`, and the
    /// cells in both.
    pub fn compare_squares(hint1: &Hint, hint2: &Hint) -> (r: (Vec<usize>, Vec<usize>, Vec<usize>))
        requires
            sorted_strict(hint1.squares@),
            sorted_strict(hint2.squares@),
        ensures
            sorted_strict(r.0@),
            sorted_strict(r.1@),
            sorted_strict(r.2@),
            r.0@.to_set() == hint1.squares@.to_set().difference(hint2.squares@.to_set()),
            r.1@.to_set() == hint2.squares@.to_set().difference(hint1.squares@.to_set()),
            r.2@.to_set() == hint1.squares@.to_set().intersect(hint2.squares@.to_set()),
    {
        let s1 = &hint1.squares;
        let s2 = &hint2.squares;
        let ghost v1 = s1@;
        let ghost v2 = s2@;
        let mut out1: Vec<usize> = Vec::new();
        let mut out2: Vec<usize> = Vec::new();
        let mut both: Vec<usize> = Vec::new();
        let mut i: usize = 0;
        let mut j: usize = 0;
        while i < s1.len() || j < s2.len()
            invariant
                0 <= i <= v1.len(),
                0 <= j <= v2.len(),
                s1@ == v1,
                s2@ == v2,
                sorted_strict(v1),
                sorted_strict(v2),
                i < v1.len() ==> forall|k: int| 0 <= k < j ==> v2[k] < v1[i as int],
                j < v2.len() ==> forall|k: int| 0 <= k < i ==> v1[k] < v2[j as int],
                sorted_strict(out1@),
                sorted_strict(out2@),
                sorted_strict(both@),
                out1@.to_set() == v1.take(i as int).to_set().difference(v2.to_set()),
                out2@.to_set() == v2.take(j as int).to_set().difference(v1.to_set()),
                both@.to_set() == v1.take(i as int).to_set().intersect(v2.to_set()),
                both@.to_set() == v2.take(j as int).to_set().intersect(v1.to_set()),
            decreases v1.len() + v2.len() - i - j,
        {
            let ghost o1 = out1@;
            let ghost o2 = out2@;
            let ghost ob = both@;
            let ghost ii = i as int;
            let ghost jj = j as int;
            if i < s1.len() && j < s2.len() {
                let c1 = s1[i];
                let c2 = s2[j];
                if c1 == c2 {
                    both.push(c1);
                    i += 1;
                    j += 1;
                    proof {
                        lemma_take_step(v1, ii);
                        lemma_take_step(v2, jj);
                        lemma_sorted_push(ob, v1, ii, c1);
                        ob.lemma_push_to_set_commute(c1);
                        assert(v2.to_set().contains(c1));
                        assert(v1.to_set().contains(c2));
                        assert(out1@.to_set() =~= v1.take(ii + 1).to_set().difference(v2.to_set()));
                        assert(out2@.to_set() =~= v2.take(jj + 1).to_set().difference(v1.to_set()));
                        assert(both@.to_set() =~= v1.take(ii + 1).to_set().intersect(v2.to_set()));
                        assert(both@.to_set() =~= v2.take(jj + 1).to_set().intersect(v1.to_set()));
                    }
                } else if c1 < c2 {
                    out1.push(c1);
                    i += 1;
                    proof {
                        lemma_take_step(v1, ii);
                        lemma_sorted_push(o1, v1, ii, c1);
                        o1.lemma_push_to_set_commute(c1);
                        assert(!v2.to_set().contains(c1)) by {
                            if v2.to_set().contains(c1) {
                                let k = choose|k: int| 0 <= k < v2.len() && v2[k] == c1;
                                if k < jj {
                                    assert(v2[k] < v1[ii]);
                                } else {
                                    assert(v2[jj] <= v2[k]);
                                }
                            }
                        }
                        assert(out1@.to_set() =~= v1.take(ii + 1).to_set().difference(v2.to_set()));
                        assert(both@.to_set() =~= v1.take(ii + 1).to_set().intersect(v2.to_set()));
                    }
                } else {
                    out2.push(c2);
                    j += 1;
                    proof {
                        lemma_take_step(v2, jj);
                        lemma_sorted_push(o2, v2, jj, c2);
                        o2.lemma_push_to_set_commute(c2);
                        assert(!v1.to_set().contains(c2)) by {
                            if v1.to_set().contains(c2) {
                                let k = choose|k: int| 0 <= k < v1.len() && v1[k] == c2;
                                if k < ii {
                                    assert(v1[k] < v2[jj]);
                                } else {
                                    assert(v1[ii] <= v1[k]);
                                }
                            }
                        }
                        assert(out2@.to_set() =~= v2.take(jj + 1).to_set().difference(v1.to_set()));
                        assert(both@.to_set() =~= v2.take(jj + 1).to_set().intersect(v1.to_set()));
                    }
                }
            } else if i < s1.len() {
                let c1 = s1[i];
                out1.push(c1);
                i += 1;
                proof {
                    lemma_take_step(v1, ii);
                    lemma_sorted_push(o1, v1, ii, c1);
                    o1.lemma_push_to_set_commute(c1);
                    assert(!v2.to_set().contains(c1)) by {
                        if v2.to_set().contains(c1) {
                            let k = choose|k: int| 0 <= k < v2.len() && v2[k] == c1;
                            assert(v2[k] < v1[ii]);
                        }
                    }
                    assert(out1@.to_set() =~= v1.take(ii + 1).to_set().difference(v2.to_set()));
                    assert(both@.to_set() =~= v1.take(ii + 1).to_set().intersect(v2.to_set()));
                }
            } else {
                let c2 = s2[j];
                out2.push(c2);
                j += 1;
                proof {
                    lemma_take_step(v2, jj);
                    lemma_sorted_push(o2, v2, jj, c2);
                    o2.lemma_push_to_set_commute(c2);
                    assert(!v1.to_set().contains(c2)) by {
                        if v1.to_set().contains(c2) {
                            let k = choose|k: int| 0 <= k < v1.len() && v1[k] == c2;
                            assert(v1[k] < v2[jj]);
                        }
                    }
                    assert(out2@.to_set() =~= v2.take(jj + 1).to_set().difference(v1.to_set()));
                    assert(both@.to_set() =~= v2.take(jj + 1).to_set().intersect(v1.to_set()));
                }
            }
        }
        proof {
            assert(v1.take(v1.len() as int) =~= v1);
            assert(v2.take(v2.len() as int) =~= v2);
        }
        (out1, out2, both)
    }
}

} // verus!
