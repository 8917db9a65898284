//! The board: cells, the constraint store, and the propagation engine.
//!
//! All deduction logic reads the board immutably and records its
//! conclusions in a [`Delta`]; applying a delta is the only place that
//! mutates cells and constraints.  Soundness is stated against bomb
//! assignments: every assignment that satisfies the board before a step
//! still satisfies it afterwards, so the engine only draws logically
//! certain conclusions.

use crate::delta::Delta;
use crate::hint::hint_ok;
use crate::hint::sat_hint;
use crate::hint::Hint;
use crate::sets::all_cells;
use crate::sets::bombs_in;
use crate::sets::lemma_all_cells_len;
use crate::sets::lemma_bombs_in_all;
use crate::sets::lemma_bombs_in_bounds;
use crate::sets::lemma_bombs_in_disjoint_union;
use crate::sets::lemma_bombs_in_empty_cell;
use crate::sets::lemma_bombs_in_none;
use crate::sets::lemma_bombs_in_saturated;
use crate::sets::lemma_sorted_push;
use crate::sets::lemma_sorted_strict_len;
use crate::sets::lemma_take_step;
use crate::sets::lemma_sorted_strict_set_len;
use crate::sets::lemma_subset_same_len;
use crate::sets::sorted_strict;
use crate::square::Square;
use crate::square::SquareState;
use vstd::prelude::*;

verus! {

broadcast use vstd::set::group_set_axioms, vstd::seq::group_seq_axioms;

/// The whole puzzle state: a `w` by `h` grid of cells, the store of
/// constraints, the number of bombs on the level, and the worklist of cells
/// still to investigate.
pub struct Board {
    pub w: u32,
    pub h: u32,
    pub bombs: u32,
    pub squares: Vec<Square>,
    pub hints: Vec<Hint>,
    pub stack: Vec<usize>,
}

/// The assignment `a` is compatible with what is already resolved on the
/// cells: resolved bombs carry a bomb, resolved empty cells do not.
pub open spec fn respects(a: Seq<bool>, squares: Seq<Square>) -> bool {
    &&& a.len() == squares.len()
    &&& forall|c: int|
        0 <= c < squares.len() && (#[trigger] squares[c]).state == SquareState::Bomb ==> a[c]
    &&& forall|c: int|
        0 <= c < squares.len() && (#[trigger] squares[c]).state == SquareState::Empty ==> !a[c]
}

/// The assignment `a` satisfies the whole board: it is compatible with the
/// resolved cells, satisfies every live constraint, and places exactly the
/// level's number of bombs on the grid.
pub open spec fn board_sat(b: Board, a: Seq<bool>) -> bool {
    &&& respects(a, b.squares@)
    &&& forall|h: int|
        0 <= h < b.hints@.len() && (#[trigger] b.hints@[h]).valid ==> sat_hint(a, b.hints@[h])
    &&& bombs_in(a, all_cells(b.squares@.len() as int)) == b.bombs as int
}

/// Some assignment satisfies the board.  This is the engine's precondition:
/// clue grids that admit no bomb placement at all are outside its contract.
pub open spec fn consistent(b: Board) -> bool {
    exists|a: Seq<bool>| board_sat(b, a)
}

/// The worklist flag is honest: a cell marked queued really is on the
/// worklist.
pub open spec fn queue_ok(b: Board) -> bool {
    forall|c: int|
        0 <= c < b.n() && (#[trigger] b.squares@[c]).on_stack ==> b.stack@.contains(c as usize)
}

/// The weight of one stored constraint: the number of cells it mentions if
/// it is live, nothing if it is a tombstone.
pub open spec fn hint_weight(h: Hint) -> int {
    if h.valid {
        h.squares@.len() as int
    } else {
        0
    }
}

/// Total weight of the constraint store.  Every deduction rule strictly
/// shrinks this sum, which bounds the propagation loop.
pub open spec fn hsum(hints: Seq<Hint>) -> int
    decreases hints.len(),
{
    if hints.len() == 0 {
        0
    } else {
        hsum(hints.drop_last()) + hint_weight(hints.last())
    }
}

/// Total weight of the constraints a delta retires, measured on the store
/// it was derived from.
pub open spec fn rm_sum(hints: Seq<Hint>, rm: Seq<usize>) -> int
    decreases rm.len(),
{
    if rm.len() == 0 {
        0
    } else {
        rm_sum(hints, rm.drop_last()) + if (rm.last() as int) < hints.len() {
            hint_weight(hints[rm.last() as int])
        } else {
            0
        }
    }
}

/// Total weight of the constraints a delta adds.
pub open spec fn add_sum(adds: Seq<Hint>) -> int
    decreases adds.len(),
{
    if adds.len() == 0 {
        0
    } else {
        add_sum(adds.drop_last()) + hint_weight(adds.last())
    }
}

/// The delta's entries make sense against board `b`: retired handles are
/// live and pairwise distinct, added constraints are well formed, and
/// resolved cells are on the grid.
pub open spec fn delta_wf(b: Board, d: Delta) -> bool {
    &&& d.hints2rm@.no_duplicates()
    &&& forall|k: int|
        0 <= k < d.hints2rm@.len() ==> (#[trigger] d.hints2rm@[k] as int) < b.hints@.len()
            && b.hints@[d.hints2rm@[k] as int].valid
    &&& forall|k: int|
        0 <= k < d.hints2add@.len() ==> (#[trigger] d.hints2add@[k]).valid && hint_ok(
            d.hints2add@[k],
            b.n(),
        )
    &&& forall|k: int|
        0 <= k < d.squares2bomb@.len() ==> (#[trigger] d.squares2bomb@[k] as int) < b.n()
    &&& forall|k: int|
        0 <= k < d.squares2empty@.len() ==> (#[trigger] d.squares2empty@[k] as int) < b.n()
}

/// The assignment `a` agrees with everything the delta concludes: it
/// satisfies each added constraint, bombs every cell resolved as bomb, and
/// spares every cell resolved as empty.
pub open spec fn delta_holds_for(a: Seq<bool>, d: Delta) -> bool {
    &&& forall|k: int|
        0 <= k < d.hints2add@.len() ==> sat_hint(a, #[trigger] d.hints2add@[k])
    &&& forall|k: int|
        0 <= k < d.squares2bomb@.len() ==> a[#[trigger] d.squares2bomb@[k] as int]
    &&& forall|k: int|
        0 <= k < d.squares2empty@.len() ==> !a[#[trigger] d.squares2empty@[k] as int]
}

/// The delta records only logically certain conclusions: every assignment
/// satisfying the board agrees with it.
pub open spec fn delta_sound(b: Board, d: Delta) -> bool {
    forall|a: Seq<bool>| board_sat(b, a) ==> delta_holds_for(a, d)
}

/// A delta that retires strictly more constraint weight than it adds; every
/// fired deduction rule produces such a delta.
pub open spec fn delta_shrinks(b: Board, d: Delta) -> bool {
    rm_sum(b.hints@, d.hints2rm@) > add_sum(d.hints2add@)
}

/// After a batch is applied the board is well formed, and re-queueing a
/// cell only touches the worklist and that cell's flag, so the board stays
/// well formed.
pub proof fn lemma_wf_after_queue(mid: Board, cur: Board, s: usize)
    requires
        mid.wf(),
        (s as int) < mid.n(),
        cur.w == mid.w,
        cur.h == mid.h,
        cur.bombs == mid.bombs,
        cur.hints@ == mid.hints@,
        cur.squares@.len() == mid.squares@.len(),
        forall|c: int| 0 <= c < mid.n() && c != s as int ==> cur.squares@[c] == mid.squares@[c],
        cur.squares@[s as int].hints@ == mid.squares@[s as int].hints@,
        cur.stack@ == mid.stack@ || cur.stack@ == mid.stack@.push(s),
    ensures
        cur.wf(),
{
    assert forall|c: int| 0 <= c < cur.n() implies cur.square_links_ok(c) by {
        assert(mid.square_links_ok(c));
        assert(cur.squares@[c].hints@ == mid.squares@[c].hints@);
    }
    assert(cur.links_ok()) by {
        assert forall|h2: int, k2: int|
            0 <= h2 < cur.hints@.len() && cur.hints@[h2].valid && 0 <= k2
                < cur.hints@[h2].squares@.len() implies cur.squares@[#[trigger] cur.hints@[h2].squares@[k2] as int].hints@.contains(
            h2 as usize,
        ) by {
            assert(mid.hints@[h2].valid);
            assert((mid.hints@[h2].squares@[k2] as int) < mid.n());
            assert(cur.squares@[mid.hints@[h2].squares@[k2] as int].hints@
                == mid.squares@[mid.hints@[h2].squares@[k2] as int].hints@);
        }
    }
    assert(cur.stack_ok());
}

/// Two deltas that agree on everything an assignment is asked about: only
/// the retire list differs.
pub open spec fn delta_holds_for_unchanged(d1: Delta, d2: Delta) -> bool {
    &&& d2.hints2add@ == d1.hints2add@
    &&& d2.squares2bomb@ == d1.squares2bomb@
    &&& d2.squares2empty@ == d1.squares2empty@
}

/// Everything the propagation loop needs of a delta produced by one rule.
pub open spec fn delta_good(b: Board, d: Delta) -> bool {
    &&& delta_wf(b, d)
    &&& delta_sound(b, d)
    &&& delta_shrinks(b, d)
}

/// The same constraint, flagged as a tombstone.
pub open spec fn retired(x: Hint) -> Hint {
    Hint { bombs: x.bombs, squares: x.squares, valid: false }
}

/// The store with the listed handles tombstoned, positions kept.
pub open spec fn retire_all(hints: Seq<Hint>, rm: Seq<usize>) -> Seq<Hint> {
    Seq::new(
        hints.len(),
        |j: int|
            if rm.contains(j as usize) {
                retired(hints[j])
            } else {
                hints[j]
            },
    )
}

/// The store with its trailing tombstones removed.
pub open spec fn trim_live(hints: Seq<Hint>) -> Seq<Hint>
    decreases hints.len(),
{
    if hints.len() == 0 || hints.last().valid {
        hints
    } else {
        trim_live(hints.drop_last())
    }
}

/// Trimming keeps a prefix, drops only tombstones, and ends on a live
/// constraint.
pub proof fn lemma_trim_live_props(hints: Seq<Hint>)
    ensures
        trim_live(hints).len() <= hints.len(),
        forall|j: int| 0 <= j < trim_live(hints).len() ==> trim_live(hints)[j] == hints[j],
        forall|j: int| trim_live(hints).len() <= j < hints.len() ==> !hints[j].valid,
        trim_live(hints).len() > 0 ==> trim_live(hints).last().valid,
    decreases hints.len(),
{
    if hints.len() > 0 && !hints.last().valid {
        lemma_trim_live_props(hints.drop_last());
        let t = trim_live(hints);
        assert(t == trim_live(hints.drop_last()));
        assert forall|j: int| 0 <= j < t.len() implies t[j] == hints[j] by {
            assert(hints.drop_last()[j] == hints[j]);
        }
        assert forall|j: int| t.len() <= j < hints.len() implies !hints[j].valid by {
            if j < hints.len() - 1 {
                assert(hints.drop_last()[j] == hints[j]);
            }
        }
    }
}

/// A prefix that ends on a live constraint and is followed only by
/// tombstones is exactly the trimmed store.
pub proof fn lemma_trim_live_unique(p: Seq<Hint>, s: Seq<Hint>)
    requires
        p.len() <= s.len(),
        forall|j: int| 0 <= j < p.len() ==> p[j] == s[j],
        forall|j: int| p.len() <= j < s.len() ==> !s[j].valid,
        p.len() > 0 ==> p.last().valid,
    ensures
        p == trim_live(s),
    decreases s.len(),
{
    if s.len() == 0 {
        assert(p =~= s);
    } else if s.last().valid {
        assert(p.len() == s.len());
        assert(p =~= s);
    } else {
        assert(p.len() < s.len());
        lemma_trim_live_unique(p, s.drop_last());
    }
}

/// The no-deduction case of the pairwise rule, stated for the
/// normalized pair, applies to the pair in either order.
pub proof fn lemma_pair_nofire(b: Board, h1: int, h2: int)
    requires
        b.wf(),
        0 <= h1 < b.hints@.len(),
        0 <= h2 < b.hints@.len(),
        h1 != h2,
        b.hints@[h1].valid,
        b.hints@[h2].valid,
        !b.hint_cells(b.pair_first(h1, h2)).subset_of(b.hint_cells(b.pair_second(h1, h2))),
        b.pair_both_min(b.pair_first(h1, h2), b.pair_second(h1, h2)) != b.pair_both_max(
            b.pair_first(h1, h2),
            b.pair_second(h1, h2),
        ),
    ensures
        b.no_pair_fire(h1, h2),
        b.no_pair_fire(h2, h1),
{
    let p = b.pair_first(h1, h2);
    let q = b.pair_second(h1, h2);
    let ps = b.hint_cells(p);
    let qs = b.hint_cells(q);
    assert(hint_ok(b.hints@[p], b.n()));
    assert(hint_ok(b.hints@[q], b.n()));
    lemma_sorted_strict_set_len(b.hints@[p].squares@);
    lemma_sorted_strict_set_len(b.hints@[q].squares@);
    assert(ps.len() <= qs.len());
    assert(!qs.subset_of(ps)) by {
        if qs.subset_of(ps) {
            vstd::set_lib::lemma_len_subset(qs, ps);
            crate::sets::lemma_subset_same_len(qs, ps);
            assert(ps.subset_of(qs));
        }
    }
    assert(b.hint_cells(h1).intersect(b.hint_cells(h2)) =~= b.hint_cells(h2).intersect(
        b.hint_cells(h1),
    ));
    assert(b.pair_both_min(h1, h2) == b.pair_both_min(p, q));
    assert(b.pair_both_max(h1, h2) == b.pair_both_max(p, q));
    assert(b.pair_both_min(h2, h1) == b.pair_both_min(p, q));
    assert(b.pair_both_max(h2, h1) == b.pair_both_max(p, q));
}

/// Every unresolved cell below `k` appears in `unknown_seq(k)`.
pub proof fn lemma_unknown_seq_complete(b: Board, k: int, c: usize)
    requires
        0 <= c as int,
        (c as int) < k,
        k <= b.n(),
        b.squares@[c as int].state == SquareState::Unknown,
    ensures
        b.unknown_seq(k).contains(c),
    decreases k,
{
    if c as int == k - 1 {
        assert(b.unknown_seq(k).last() == c);
    } else {
        lemma_unknown_seq_complete(b, k - 1, c);
        let w = choose|w: int|
            0 <= w < b.unknown_seq(k - 1).len() && (#[trigger] b.unknown_seq(k - 1)[w]) == c;
        assert(b.unknown_seq(k)[w] == c);
    }
}

/// Unordered symmetry of the pairwise no-deduction condition.
pub proof fn lemma_nofire_symmetric(b: Board, h1: int, h2: int)
    requires
        b.no_pair_fire(h1, h2),
    ensures
        b.no_pair_fire(h2, h1),
{
    assert(b.hint_cells(h1).intersect(b.hint_cells(h2)) =~= b.hint_cells(h2).intersect(
        b.hint_cells(h1),
    ));
}

/// After a cell is taken off the worklist and every rule centred on it
/// has been tried without effect, the board is still at a fixpoint.
pub proof fn lemma_fixpoint_after_visit(at_top: Board, cur: Board, s: usize, hl: Seq<usize>)
    requires
        at_top.wf(),
        at_top.at_fixpoint(),
        (s as int) < at_top.n(),
        cur.hints@.len() <= usize::MAX,
        cur.wf(),
        cur.hints@ == at_top.hints@,
        cur.squares@.len() == at_top.squares@.len(),
        forall|c: int|
            0 <= c < at_top.n() && c != s as int ==> cur.squares@[c] == at_top.squares@[c],
        cur.squares@[s as int].state == at_top.squares@[s as int].state,
        cur.squares@[s as int].hints@ == at_top.squares@[s as int].hints@,
        hl == cur.squares@[s as int].hints@,
        forall|k2: int| 0 <= k2 < hl.len() ==> cur.no_single_fire(#[trigger] hl[k2] as int),
        forall|i2: int, j2: int|
            0 <= i2 < hl.len() && i2 < j2 < hl.len() ==> cur.no_pair_fire(
                #[trigger] hl[i2] as int,
                #[trigger] hl[j2] as int,
            ),
    ensures
        cur.at_fixpoint(),
{
    assert forall|h: int|
        0 <= h < cur.hints@.len() && (#[trigger] cur.hints@[h]).valid && cur.hint_unqueued(h)
        implies cur.no_single_fire(h) by {
        if cur.hint_cells(h).contains(s) {
            let k = choose|k: int|
                0 <= k < cur.hints@[h].squares@.len() && cur.hints@[h].squares@[k] == s;
            assert(cur.squares@[cur.hints@[h].squares@[k] as int].hints@.contains(h as usize));
            let k2 = choose|k2: int| 0 <= k2 < hl.len() && hl[k2] == h as usize;
            assert(cur.no_single_fire(hl[k2] as int));
        } else {
            assert(at_top.hint_unqueued(h)) by {
                assert forall|k: int|
                    0 <= k < at_top.hints@[h].squares@.len() implies !at_top.squares@[#[trigger] at_top.hints@[h].squares@[k] as int].on_stack by {
                    let c = at_top.hints@[h].squares@[k];
                    assert(hint_ok(at_top.hints@[h], at_top.n()));
                    assert(cur.hint_cells(h).contains(c));
                    assert(c != s);
                    assert(!cur.squares@[c as int].on_stack);
                }
            }
            assert(at_top.no_single_fire(h));
            assert(cur.no_single_fire(h)) by {
                assert forall|k: int|
                    0 <= k < cur.hints@[h].squares@.len() implies cur.squares@[#[trigger] cur.hints@[h].squares@[k] as int].state
                    == SquareState::Unknown by {
                    let c = cur.hints@[h].squares@[k];
                    if c == s {
                        assert(cur.hint_cells(h).contains(s));
                    }
                    assert(at_top.squares@[c as int].state == SquareState::Unknown);
                }
            }
        }
    }
    assert forall|h1: int, h2: int|
        0 <= h1 < cur.hints@.len() && 0 <= h2 < cur.hints@.len() && h1 != h2
            && cur.hints@[h1].valid && cur.hints@[h2].valid && cur.pair_shares_cell(h1, h2)
            && #[trigger] cur.shared_unqueued(h1, h2) implies cur.no_pair_fire(h1, h2) by {
        if cur.hint_cells(h1).contains(s) && cur.hint_cells(h2).contains(s) {
            let k1 = choose|k: int|
                0 <= k < cur.hints@[h1].squares@.len() && cur.hints@[h1].squares@[k] == s;
            assert(cur.squares@[cur.hints@[h1].squares@[k1] as int].hints@.contains(h1 as usize));
            let k2 = choose|k: int|
                0 <= k < cur.hints@[h2].squares@.len() && cur.hints@[h2].squares@[k] == s;
            assert(cur.squares@[cur.hints@[h2].squares@[k2] as int].hints@.contains(h2 as usize));
            let a = choose|a: int| 0 <= a < hl.len() && hl[a] == h1 as usize;
            let b = choose|b: int| 0 <= b < hl.len() && hl[b] == h2 as usize;
            assert(a != b);
            if a < b {
                assert(cur.no_pair_fire(hl[a] as int, hl[b] as int));
            } else {
                assert(cur.no_pair_fire(hl[b] as int, hl[a] as int));
                lemma_nofire_symmetric(cur, h2, h1);
            }
        } else {
            assert(at_top.hint_cells(h1) == cur.hint_cells(h1));
            assert(at_top.hint_cells(h2) == cur.hint_cells(h2));
            assert(at_top.shared_unqueued(h1, h2)) by {
                assert forall|c: usize| #![trigger at_top.hint_cells(h1).contains(c), at_top.hint_cells(h2).contains(c)]
                    at_top.hint_cells(h1).contains(c) && at_top.hint_cells(h2).contains(c)
                        implies !at_top.squares@[c as int].on_stack by {
                    assert(c != s);
                    assert(hint_ok(at_top.hints@[h1], at_top.n()));
                    let k = choose|k: int|
                        0 <= k < at_top.hints@[h1].squares@.len() && at_top.hints@[h1].squares@[k]
                            == c;
                    assert(!cur.squares@[c as int].on_stack);
                }
            }
            assert(at_top.pair_shares_cell(h1, h2));
            assert(at_top.no_pair_fire(h1, h2));
        }
    }
}

/// After a batch produced by one rule is applied and the visited cell is
/// re-queued, the board is still at a fixpoint: every cell whose state
/// changed, and every cell of a freshly registered constraint, is back on
/// the worklist.
pub proof fn lemma_fixpoint_after_apply(bpre: Board, dpre: Delta, mid: Board, cur: Board, s: usize)
    requires
        bpre.wf(),
        bpre.at_fixpoint(),
        (s as int) < bpre.n(),
        delta_wf(bpre, dpre),
        mid.wf(),
        mid.squares@.len() == bpre.squares@.len(),
        mid.hints@ == (if dpre.hints2rm@.len() == 0 {
            bpre.hints@
        } else {
            trim_live(retire_all(bpre.hints@, dpre.hints2rm@))
        }) + dpre.hints2add@.reverse(),
        forall|c: int|
            0 <= c < bpre.n() && !dpre.squares2bomb@.contains(c as usize)
                && !dpre.squares2empty@.contains(c as usize)
                ==> (#[trigger] mid.squares@[c]).state == bpre.squares@[c].state,
        forall|k: int|
            0 <= k < dpre.squares2bomb@.len()
                ==> mid.squares@[#[trigger] dpre.squares2bomb@[k] as int].state
                == SquareState::Bomb && (bpre.squares@[dpre.squares2bomb@[k] as int].state
                != SquareState::Bomb ==> mid.squares@[dpre.squares2bomb@[k] as int].on_stack),
        forall|k: int|
            0 <= k < dpre.squares2empty@.len()
                ==> mid.squares@[#[trigger] dpre.squares2empty@[k] as int].state
                == SquareState::Empty && (bpre.squares@[dpre.squares2empty@[k] as int].state
                != SquareState::Empty ==> mid.squares@[dpre.squares2empty@[k] as int].on_stack),
        forall|c: int|
            0 <= c < bpre.n() && c != s as int && bpre.squares@[c].on_stack
                ==> (#[trigger] mid.squares@[c]).on_stack,
        forall|m: int, k: int|
            0 <= m < dpre.hints2add@.len() && 0 <= k < dpre.hints2add@[m].squares@.len()
                ==> mid.squares@[#[trigger] dpre.hints2add@[m].squares@[k] as int].on_stack,
        cur.wf(),
        cur.hints@ == mid.hints@,
        cur.squares@.len() == mid.squares@.len(),
        forall|c: int| 0 <= c < mid.n() && c != s as int ==> cur.squares@[c] == mid.squares@[c],
        cur.squares@[s as int].state == mid.squares@[s as int].state,
        cur.squares@[s as int].on_stack,
    ensures
        cur.at_fixpoint(),
{
    let base = if dpre.hints2rm@.len() == 0 {
        bpre.hints@
    } else {
        trim_live(retire_all(bpre.hints@, dpre.hints2rm@))
    };
    if dpre.hints2rm@.len() > 0 {
        lemma_trim_live_props(retire_all(bpre.hints@, dpre.hints2rm@));
    }
    // a cell that is unqueued now kept its state through the whole step
    assert forall|c: int|
        0 <= c < cur.n() && !(#[trigger] cur.squares@[c]).on_stack implies cur.squares@[c].state
        == bpre.squares@[c].state && !bpre.squares@[c].on_stack && c != s as int by {
        assert(c != s as int);
        assert(cur.squares@[c] == mid.squares@[c]);
        assert(!mid.squares@[c].on_stack);
        assert(!bpre.squares@[c].on_stack);
        if dpre.squares2bomb@.contains(c as usize) {
            let k = choose|k: int|
                0 <= k < dpre.squares2bomb@.len() && (#[trigger] dpre.squares2bomb@[k])
                    == c as usize;
            assert(mid.squares@[c].state == SquareState::Bomb);
            assert(bpre.squares@[c].state == SquareState::Bomb);
        } else if dpre.squares2empty@.contains(c as usize) {
            let k = choose|k: int|
                0 <= k < dpre.squares2empty@.len() && (#[trigger] dpre.squares2empty@[k])
                    == c as usize;
            assert(mid.squares@[c].state == SquareState::Empty);
            assert(bpre.squares@[c].state == SquareState::Empty);
        }
    }
    // a surviving constraint is one of the old ones, unchanged
    assert forall|h: int|
        0 <= h < base.len() && (#[trigger] cur.hints@[h]).valid implies h < bpre.hints@.len()
        && cur.hints@[h] == bpre.hints@[h] by {
        assert(cur.hints@[h] == base[h]);
        if dpre.hints2rm@.len() > 0 {
            assert(base[h] == retire_all(bpre.hints@, dpre.hints2rm@)[h]);
            assert(!dpre.hints2rm@.contains(h as usize));
        }
    }
    assert forall|h: int|
        0 <= h < cur.hints@.len() && (#[trigger] cur.hints@[h]).valid && cur.hint_unqueued(h)
        implies cur.no_single_fire(h) by {
        assert(hint_ok(cur.hints@[h], cur.n()));
        if h >= base.len() {
            let m = dpre.hints2add@.len() - 1 - (h - base.len());
            assert(cur.hints@[h] == dpre.hints2add@.reverse()[h - base.len()]);
            assert(cur.hints@[h] == dpre.hints2add@[m]);
            assert(hint_ok(dpre.hints2add@[m], bpre.n()));
            assert(mid.squares@[dpre.hints2add@[m].squares@[0] as int].on_stack);
            let c0 = cur.hints@[h].squares@[0];
            assert(cur.squares@[c0 as int].on_stack) by {
                if c0 != s {
                    assert(cur.squares@[c0 as int] == mid.squares@[c0 as int]);
                }
            }
            assert(!cur.squares@[c0 as int].on_stack);
        } else {
            assert(cur.hints@[h] == bpre.hints@[h]);
            assert(bpre.hint_unqueued(h)) by {
                assert forall|k: int|
                    0 <= k < bpre.hints@[h].squares@.len() implies !bpre.squares@[#[trigger] bpre.hints@[h].squares@[k] as int].on_stack by {
                    let c = bpre.hints@[h].squares@[k];
                    assert(!cur.squares@[c as int].on_stack);
                }
            }
            assert(bpre.no_single_fire(h));
            assert(cur.no_single_fire(h)) by {
                assert forall|k: int|
                    0 <= k < cur.hints@[h].squares@.len() implies cur.squares@[#[trigger] cur.hints@[h].squares@[k] as int].state
                    == SquareState::Unknown by {
                    let c = cur.hints@[h].squares@[k];
                    assert(!cur.squares@[c as int].on_stack);
                    assert(cur.squares@[c as int].state == bpre.squares@[c as int].state);
                    assert(bpre.squares@[c as int].state == SquareState::Unknown);
                }
            }
        }
    }
    assert forall|h1: int, h2: int|
        0 <= h1 < cur.hints@.len() && 0 <= h2 < cur.hints@.len() && h1 != h2
            && cur.hints@[h1].valid && cur.hints@[h2].valid && cur.pair_shares_cell(h1, h2)
            && #[trigger] cur.shared_unqueued(h1, h2) implies cur.no_pair_fire(h1, h2) by {
        let c = choose|c: usize| #![trigger cur.hint_cells(h1).contains(c), cur.hint_cells(h2).contains(c)]
            cur.hint_cells(h1).contains(c) && cur.hint_cells(h2).contains(c);
        assert(!cur.squares@[c as int].on_stack);
        assert(hint_ok(cur.hints@[h1], cur.n()));
        assert(hint_ok(cur.hints@[h2], cur.n()));
        if h1 >= base.len() || h2 >= base.len() {
            let hx = if h1 >= base.len() {
                h1
            } else {
                h2
            };
            let m = dpre.hints2add@.len() - 1 - (hx - base.len());
            assert(cur.hints@[hx] == dpre.hints2add@.reverse()[hx - base.len()]);
            assert(cur.hints@[hx] == dpre.hints2add@[m]);
            assert(cur.hint_cells(hx).contains(c));
            let k = choose|k: int|
                0 <= k < cur.hints@[hx].squares@.len() && cur.hints@[hx].squares@[k] == c;
            assert(mid.squares@[dpre.hints2add@[m].squares@[k] as int].on_stack);
            assert(cur.squares@[c as int].on_stack);
        } else {
            assert(cur.hints@[h1] == bpre.hints@[h1]);
            assert(cur.hints@[h2] == bpre.hints@[h2]);
            assert(bpre.pair_shares_cell(h1, h2)) by {
                assert(bpre.hint_cells(h1).contains(c) && bpre.hint_cells(h2).contains(c));
            }
            assert(bpre.shared_unqueued(h1, h2)) by {
                assert forall|c2: usize| #![trigger bpre.hint_cells(h1).contains(c2), bpre.hint_cells(h2).contains(c2)]
                    bpre.hint_cells(h1).contains(c2) && bpre.hint_cells(h2).contains(c2)
                        implies !bpre.squares@[c2 as int].on_stack by {
                    assert(cur.hint_cells(h1).contains(c2) && cur.hint_cells(h2).contains(c2));
                    assert(!cur.squares@[c2 as int].on_stack);
                }
            }
            assert(bpre.no_pair_fire(h1, h2));
        }
    }
}

/// After the single global counting pass, the board is still at a
/// fixpoint and the counting rule itself is spent.
pub proof fn lemma_fixpoint_after_pass(atloc: Board, dfin: Delta, cur: Board)
    requires
        atloc.wf(),
        atloc.at_fixpoint(),
        atloc.n() <= usize::MAX,
        forall|c: int| 0 <= c < atloc.n() ==> !(#[trigger] atloc.squares@[c]).on_stack,
        dfin.hints2rm@.len() == 0,
        dfin.hints2add@.len() == 0,
        dfin.squares2empty@.len() == 0,
        atloc.pigeonhole_applies() ==> dfin.squares2bomb@ == atloc.unknown_seq(atloc.n()),
        !atloc.pigeonhole_applies() ==> dfin.squares2bomb@.len() == 0,
        cur.wf(),
        cur.bombs == atloc.bombs,
        cur.hints@ == atloc.hints@,
        cur.squares@.len() == atloc.squares@.len(),
        forall|c: int|
            0 <= c < atloc.n() && !dfin.squares2bomb@.contains(c as usize)
                ==> (#[trigger] cur.squares@[c]).state == atloc.squares@[c].state,
        forall|k: int|
            0 <= k < dfin.squares2bomb@.len()
                ==> cur.squares@[#[trigger] dfin.squares2bomb@[k] as int].state
                == SquareState::Bomb && (atloc.squares@[dfin.squares2bomb@[k] as int].state
                != SquareState::Bomb ==> cur.squares@[dfin.squares2bomb@[k] as int].on_stack),
    ensures
        cur.at_fixpoint(),
        !cur.pigeonhole_applies(),
{
    let n = atloc.n();
    // resolved-by-the-pass cells are exactly the formerly unresolved ones
    if atloc.pigeonhole_applies() {
        atloc.lemma_unknown_seq_props(n);
    }
    assert forall|c: int|
        0 <= c < n implies (#[trigger] cur.squares@[c]).state == (
    if atloc.squares@[c].state == SquareState::Unknown && atloc.pigeonhole_applies() {
        SquareState::Bomb
    } else {
        atloc.squares@[c].state
    }) by {
        if atloc.pigeonhole_applies() {
            if atloc.squares@[c].state == SquareState::Unknown {
                lemma_unknown_seq_complete(atloc, n, c as usize);
                let k = choose|k: int|
                    0 <= k < dfin.squares2bomb@.len() && (#[trigger] dfin.squares2bomb@[k])
                        == c as usize;
                assert(cur.squares@[c].state == SquareState::Bomb);
            } else {
                assert(!dfin.squares2bomb@.contains(c as usize)) by {
                    if dfin.squares2bomb@.contains(c as usize) {
                        let k = choose|k: int|
                            0 <= k < dfin.squares2bomb@.len() && (#[trigger] dfin.squares2bomb@[k])
                                == c as usize;
                        assert(atloc.squares@[c].state == SquareState::Unknown);
                    }
                }
            }
        } else {
            assert(!dfin.squares2bomb@.contains(c as usize));
        }
    }
    // cells whose state survived: everything that was not unresolved
    assert forall|h: int|
        0 <= h < cur.hints@.len() && (#[trigger] cur.hints@[h]).valid && cur.hint_unqueued(h)
        implies cur.no_single_fire(h) by {
        assert(hint_ok(cur.hints@[h], cur.n()));
        assert(atloc.hint_unqueued(h)) by {
            assert forall|k: int|
                0 <= k < atloc.hints@[h].squares@.len() implies !atloc.squares@[#[trigger] atloc.hints@[h].squares@[k] as int].on_stack by {}
        }
        assert(atloc.no_single_fire(h));
        assert(cur.no_single_fire(h)) by {
            assert forall|k: int|
                0 <= k < cur.hints@[h].squares@.len() implies cur.squares@[#[trigger] cur.hints@[h].squares@[k] as int].state
                == SquareState::Unknown by {
                let c = cur.hints@[h].squares@[k];
                assert(atloc.squares@[c as int].state == SquareState::Unknown);
                if atloc.pigeonhole_applies() {
                    // the pass resolved this cell and queued it, so the
                    // constraint would not be off the worklist
                    lemma_unknown_seq_complete(atloc, n, c);
                    let m = choose|m: int|
                        0 <= m < dfin.squares2bomb@.len() && (#[trigger] dfin.squares2bomb@[m])
                            == c;
                    assert(cur.squares@[c as int].on_stack);
                    assert(!cur.squares@[c as int].on_stack);
                } else {
                    assert(!dfin.squares2bomb@.contains(c));
                }
            }
        }
    }
    assert forall|h1: int, h2: int|
        0 <= h1 < cur.hints@.len() && 0 <= h2 < cur.hints@.len() && h1 != h2
            && cur.hints@[h1].valid && cur.hints@[h2].valid && cur.pair_shares_cell(h1, h2)
            && #[trigger] cur.shared_unqueued(h1, h2) implies cur.no_pair_fire(h1, h2) by {
        let c = choose|c: usize| #![trigger cur.hint_cells(h1).contains(c), cur.hint_cells(h2).contains(c)]
            cur.hint_cells(h1).contains(c) && cur.hint_cells(h2).contains(c);
        assert(atloc.pair_shares_cell(h1, h2)) by {
            assert(atloc.hint_cells(h1).contains(c) && atloc.hint_cells(h2).contains(c));
        }
        assert(atloc.shared_unqueued(h1, h2)) by {
            assert forall|c2: usize| #![trigger atloc.hint_cells(h1).contains(c2), atloc.hint_cells(h2).contains(c2)]
                atloc.hint_cells(h1).contains(c2) && atloc.hint_cells(h2).contains(c2)
                    implies !atloc.squares@[c2 as int].on_stack by {
                assert(hint_ok(atloc.hints@[h1], n));
                let k = choose|k: int|
                    0 <= k < atloc.hints@[h1].squares@.len() && atloc.hints@[h1].squares@[k] == c2;
            }
        }
        assert(atloc.no_pair_fire(h1, h2));
    }
    // the counting rule is spent
    let bs0 = atloc.state_set_upto(n, SquareState::Bomb);
    let us0 = atloc.state_set_upto(n, SquareState::Unknown);
    let bs1 = cur.state_set_upto(n, SquareState::Bomb);
    let us1 = cur.state_set_upto(n, SquareState::Unknown);
    lemma_all_cells_len(n);
    assert(bs0.subset_of(all_cells(n)));
    assert(us0.subset_of(all_cells(n)));
    assert(bs1.subset_of(all_cells(n)));
    vstd::set_lib::lemma_len_subset(bs0, all_cells(n));
    vstd::set_lib::lemma_len_subset(us0, all_cells(n));
    vstd::set_lib::lemma_len_subset(bs1, all_cells(n));
    if atloc.pigeonhole_applies() {
        assert(bs1 =~= bs0.union(us0));
        assert(us1 =~= Set::<usize>::empty());
        assert(bs0.disjoint(us0));
        vstd::set_lib::lemma_set_disjoint_lens(bs0, us0);
        assert(bs0 + us0 == bs0.union(us0));
        assert(bs1.len() == cur.bombs as int);
        assert(!cur.pigeonhole_applies());
    } else {
        assert(bs1 =~= bs0);
        assert(us1 =~= us0);
        assert(!cur.pigeonhole_applies());
    }
}

/// Membership in one more entry of a prefix.
pub proof fn lemma_take_contains_step(rm: Seq<usize>, i: int, x: usize)
    requires
        0 < i <= rm.len(),
    ensures
        rm.take(i).contains(x) <==> (rm.take(i - 1).contains(x) || rm[i - 1] == x),
{
    if rm.take(i - 1).contains(x) {
        let w = choose|w: int|
            0 <= w < rm.take(i - 1).len() && (#[trigger] rm.take(i - 1)[w]) == x;
        assert(rm.take(i)[w] == x);
    }
    if rm[i - 1] == x {
        assert(rm.take(i)[i - 1] == x);
    }
    if rm.take(i).contains(x) {
        let w = choose|w: int| 0 <= w < rm.take(i).len() && (#[trigger] rm.take(i)[w]) == x;
        if w < i - 1 {
            assert(rm.take(i - 1)[w] == x);
        }
    }
}

/// In a duplicate-free list, an entry never occurs among those before it.
pub proof fn lemma_nodup_take_excludes(rm: Seq<usize>, i: int)
    requires
        rm.no_duplicates(),
        0 < i <= rm.len(),
    ensures
        !rm.take(i - 1).contains(rm[i - 1]),
{
    if rm.take(i - 1).contains(rm[i - 1]) {
        let w = choose|w: int|
            0 <= w < rm.take(i - 1).len() && (#[trigger] rm.take(i - 1)[w]) == rm[i - 1];
        assert(rm[w] == rm[i - 1]);
    }
}

/// On a grid of cells below `n`, every cell set splits by state, and a
/// compatible assignment counts its bombs accordingly: all of the resolved
/// bombs, none of the resolved empty cells, and some of the unknowns.
pub proof fn lemma_count_by_state(b: Board, a: Seq<bool>, cells: Set<usize>)
    requires
        cells.finite(),
        forall|c: usize| cells.contains(c) ==> (c as int) < b.n(),
        respects(a, b.squares@),
    ensures
        b.cells_in_state(cells, SquareState::Unknown).finite(),
        b.cells_in_state(cells, SquareState::Empty).finite(),
        b.cells_in_state(cells, SquareState::Bomb).finite(),
        cells.len() == b.cells_in_state(cells, SquareState::Unknown).len() + b.cells_in_state(
            cells,
            SquareState::Empty,
        ).len() + b.cells_in_state(cells, SquareState::Bomb).len(),
        bombs_in(a, cells) == b.cells_in_state(cells, SquareState::Bomb).len() + bombs_in(
            a,
            b.cells_in_state(cells, SquareState::Unknown),
        ),
{
    let u = b.cells_in_state(cells, SquareState::Unknown);
    let e = b.cells_in_state(cells, SquareState::Empty);
    let bo = b.cells_in_state(cells, SquareState::Bomb);
    assert(u.subset_of(cells) && e.subset_of(cells) && bo.subset_of(cells));
    vstd::set_lib::lemma_len_subset(u, cells);
    vstd::set_lib::lemma_len_subset(e, cells);
    vstd::set_lib::lemma_len_subset(bo, cells);
    assert(cells =~= u.union(e.union(bo)));
    assert(u.disjoint(e.union(bo)));
    assert(e.disjoint(bo));
    vstd::set_lib::lemma_set_disjoint_lens(e, bo);
    vstd::set_lib::lemma_set_disjoint_lens(u, e.union(bo));
    assert(e + bo == e.union(bo));
    assert(u + e.union(bo) == u.union(e.union(bo)));
    lemma_bombs_in_disjoint_union(a, u, e.union(bo));
    lemma_bombs_in_disjoint_union(a, e, bo);
    lemma_bombs_in_all(a, bo);
    lemma_bombs_in_none(a, e);
}

pub proof fn lemma_hsum_nonneg(hints: Seq<Hint>)
    ensures
        hsum(hints) >= 0,
    decreases hints.len(),
{
    if hints.len() > 0 {
        lemma_hsum_nonneg(hints.drop_last());
    }
}

pub proof fn lemma_hsum_push(hints: Seq<Hint>, h: Hint)
    ensures
        hsum(hints.push(h)) == hsum(hints) + hint_weight(h),
{
    assert(hints.push(h).drop_last() =~= hints);
    assert(hints.push(h).last() == h);
}

pub proof fn lemma_hsum_drop_last(hints: Seq<Hint>)
    requires
        hints.len() > 0,
    ensures
        hsum(hints.drop_last()) == hsum(hints) - hint_weight(hints.last()),
{
}

pub proof fn lemma_hsum_update(hints: Seq<Hint>, j: int, h2: Hint)
    requires
        0 <= j < hints.len(),
    ensures
        hsum(hints.update(j, h2)) == hsum(hints) - hint_weight(hints[j]) + hint_weight(h2),
    decreases hints.len(),
{
    let u = hints.update(j, h2);
    if j == hints.len() - 1 {
        assert(u.drop_last() =~= hints.drop_last());
        assert(u.last() == h2);
    } else {
        assert(u.drop_last() =~= hints.drop_last().update(j, h2));
        assert(u.last() == hints.last());
        lemma_hsum_update(hints.drop_last(), j, h2);
        assert(hints.drop_last()[j] == hints[j]);
    }
}

/// A retire list holding one live handle weighs that constraint.
pub proof fn lemma_rm_sum_single(hints: Seq<Hint>, rm: Seq<usize>, h: usize)
    requires
        rm =~= Seq::<usize>::empty().push(h),
        (h as int) < hints.len(),
    ensures
        rm_sum(hints, rm) == hint_weight(hints[h as int]),
{
    assert(rm.drop_last() =~= Seq::<usize>::empty());
    assert(rm_sum(hints, rm.drop_last()) == 0);
    assert(rm.last() == h);
}

/// Retiring one more handle adds that constraint's weight.
pub proof fn lemma_rm_sum_push(hints: Seq<Hint>, rm: Seq<usize>, h: usize)
    ensures
        rm_sum(hints, rm.push(h)) == rm_sum(hints, rm) + (if (h as int) < hints.len() {
            hint_weight(hints[h as int])
        } else {
            0
        }),
{
    assert(rm.push(h).drop_last() =~= rm);
    assert(rm.push(h).last() == h);
}

/// Adding one more constraint adds its weight.
pub proof fn lemma_add_sum_push(adds: Seq<Hint>, nh: Hint)
    ensures
        add_sum(adds.push(nh)) == add_sum(adds) + hint_weight(nh),
{
    assert(adds.push(nh).drop_last() =~= adds);
    assert(adds.push(nh).last() == nh);
}

/// An addition list holding one constraint weighs that constraint.
pub proof fn lemma_add_sum_single(adds: Seq<Hint>, nh: Hint)
    requires
        adds =~= Seq::<Hint>::empty().push(nh),
    ensures
        add_sum(adds) == hint_weight(nh),
{
    assert(adds.drop_last() =~= Seq::<Hint>::empty());
    assert(add_sum(adds.drop_last()) == 0);
    assert(adds.last() == nh);
}

/// The linear handle of the cell at `(nx, ny)` on a grid `w` cells wide.
pub open spec fn cell_at(nx: int, ny: int, w: int) -> int {
    ny * w + nx
}

/// Cell `c` is an in-bounds 8-directional neighbour of `(x, y)` on a
/// `w` by `h` grid.
pub open spec fn is_neighbor(c: usize, x: int, y: int, w: int, h: int) -> bool {
    exists|nx: int, ny: int|
        0 <= nx < w && 0 <= ny < h && -1 <= nx - x <= 1 && -1 <= ny - y <= 1 && !(nx == x && ny
            == y) && c as int == #[trigger] cell_at(nx, ny, w)
}

/// The in-bounds 8-directional neighbours of `(x, y)`.
pub open spec fn neighbor_set(x: int, y: int, w: int, h: int) -> Set<usize> {
    Set::new(|c: usize| is_neighbor(c, x, y, w, h))
}

/// Distinct grid positions have distinct linear handles.
pub proof fn lemma_cell_at_inj(x1: int, y1: int, x2: int, y2: int, w: int, h: int)
    requires
        0 <= x1 < w,
        0 <= y1 < h,
        0 <= x2 < w,
        0 <= y2 < h,
    ensures
        (x1, y1) != (x2, y2) ==> cell_at(x1, y1, w) != cell_at(x2, y2, w),
        0 <= cell_at(x1, y1, w) < w * h,
{
    assert((x1 != x2 || y1 != y2) ==> y1 * w + x1 != y2 * w + x2) by (nonlinear_arith)
        requires
            0 <= x1 < w,
            0 <= x2 < w,
    ;
    assert(0 <= y1 * w + x1 < w * h) by (nonlinear_arith)
        requires
            0 <= x1 < w,
            0 <= y1 < h,
    ;
}

/// A neighbour's handle lies on the grid.
pub proof fn lemma_neighbor_below(c: usize, x: int, y: int, w: int, h: int)
    requires
        is_neighbor(c, x, y, w, h),
    ensures
        (c as int) < w * h,
{
    let (nx, ny) = choose|nx: int, ny: int|
        0 <= nx < w && 0 <= ny < h && -1 <= nx - x <= 1 && -1 <= ny - y <= 1 && !(nx == x && ny
            == y) && c as int == #[trigger] cell_at(nx, ny, w);
    assert(ny * w + nx < w * h) by (nonlinear_arith)
        requires
            0 <= nx < w,
            0 <= ny < h,
    ;
}

/// The numeric value of a clue character.
pub open spec fn clue_digit(ch: char) -> int {
    ch as int - '0' as int
}

/// The constraint `hh` is exactly the one a clue of value `d` at
/// `(xx, yy)` gives rise to.
pub open spec fn matches_clue(hh: Hint, xx: int, yy: int, w: int, h: int, d: int) -> bool {
    &&& hh.bombs as int == d
    &&& hh.squares@.to_set() == neighbor_set(xx, yy, w, h)
}

impl Board {
    /// The number of cells on the grid.
    pub open spec fn n(self) -> int {
        self.squares@.len() as int
    }

    /// The set of cells mentioned by constraint `h`.
    pub open spec fn hint_cells(self, h: int) -> Set<usize> {
        self.hints@[h].squares@.to_set()
    }

    /// The cells of `cells` currently in state `st`.
    pub open spec fn cells_in_state(self, cells: Set<usize>, st: SquareState) -> Set<usize> {
        cells.filter(|c: usize| self.squares@[c as int].state == st)
    }

    /// Every cell mentioned by constraint `h` is still unresolved.
    pub open spec fn all_unknown(self, h: int) -> bool {
        forall|k: int|
            0 <= k < self.hints@[h].squares@.len()
                ==> self.squares@[#[trigger] self.hints@[h].squares@[k] as int].state
                == SquareState::Unknown
    }

    /// Every live constraint is structurally well formed for this grid.
    pub open spec fn hints_ok(self) -> bool {
        forall|h: int|
            0 <= h < self.hints@.len() && (#[trigger] self.hints@[h]).valid ==> hint_ok(
                self.hints@[h],
                self.n(),
            )
    }

    /// The back-references of cell `s` name pairwise distinct live
    /// constraints, each of which indeed mentions `s`.
    pub open spec fn square_links_ok(self, s: int) -> bool {
        let hl = self.squares@[s].hints@;
        &&& hl.no_duplicates()
        &&& forall|k: int|
            0 <= k < hl.len() ==> (#[trigger] hl[k] as int) < self.hints@.len()
                && self.hints@[hl[k] as int].valid && self.hints@[hl[k] as int].squares@.to_set()
                .contains(s as usize)
    }

    /// Cells and constraints cross-reference each other consistently.
    pub open spec fn links_ok(self) -> bool {
        &&& forall|s: int| 0 <= s < self.n() ==> #[trigger] self.square_links_ok(s)
        &&& forall|h: int, k: int|
            0 <= h < self.hints@.len() && self.hints@[h].valid && 0 <= k
                < self.hints@[h].squares@.len() ==> self.squares@[#[trigger] self.hints@[h].squares@[k] as int].hints@.contains(
                h as usize,
            )
    }

    /// Every queued cell is on the grid.
    pub open spec fn stack_ok(self) -> bool {
        forall|k: int| 0 <= k < self.stack@.len() ==> (#[trigger] self.stack@[k] as int) < self.n()
    }

    /// The board invariant: grid dimensions match the cell array, and the
    /// constraint store, cell back-references and worklist are well formed.
    pub open spec fn wf(self) -> bool {
        &&& self.squares@.len() == self.w as int * self.h as int
        &&& self.w as int * self.h as int <= u32::MAX as int
        &&& self.hints_ok()
        &&& self.links_ok()
        &&& self.stack_ok()
    }

    /// Build a board of `w` by `h` unresolved cells with no constraints.
    pub fn new(w: u32, h: u32, bombs: u32) -> (b: Board)
        requires
            w as int * h as int <= u32::MAX as int,
        ensures
            b.wf(),
            b.w == w,
            b.h == h,
            b.bombs == bombs,
            b.hints@.len() == 0,
            b.stack@.len() == 0,
            b.squares@.len() == w as int * h as int,
            forall|c: int|
                0 <= c < b.n() ==> (#[trigger] b.squares@[c]).state == SquareState::Unknown
                    && b.squares@[c].hints@.len() == 0 && !b.squares@[c].on_stack,
            bombs as int <= w as int * h as int ==> consistent(b),
    {
        let total = w * h;
        let mut squares: Vec<Square> = Vec::new();
        let mut i: u32 = 0;
        while i < total
            invariant
                0 <= i <= total,
                squares@.len() == i as int,
                forall|c: int|
                    0 <= c < i as int ==> (#[trigger] squares@[c]).state == SquareState::Unknown
                        && squares@[c].hints@.len() == 0 && !squares@[c].on_stack,
            decreases total - i,
        {
            squares.push(Square::new());
            i += 1;
        }
        let b = Board { w, h, bombs, squares, hints: Vec::new(), stack: Vec::new() };
        proof {
            assert forall|s: int| 0 <= s < b.n() implies b.square_links_ok(s) by {
                assert(b.squares@[s].hints@.len() == 0);
            }
            if bombs as int <= w as int * h as int {
                let n = b.n();
                let a = Seq::new(n as nat, |c: int| c < bombs as int);
                assert(respects(a, b.squares@));
                lemma_all_cells_len(bombs as int);
                assert(all_cells(n).filter(|c: usize| a[c as int]) =~= all_cells(bombs as int));
                assert(board_sat(b, a));
            }
        }
        b
    }

    /// Map grid coordinates to the linear cell handle `w * y + x`.
    pub fn xy2s(&self, x: u32, y: u32) -> (s: usize)
        requires
            x < self.w,
            y < self.h,
            self.w as int * self.h as int <= u32::MAX as int,
        ensures
            s as int == self.w as int * y as int + x as int,
            (s as int) < self.w as int * self.h as int,
    {
        proof {
            assert((self.w as int * y as int + x as int) < self.w as int * self.h as int) by (nonlinear_arith)
                requires
                    x < self.w,
                    y < self.h,
            ;
        }
        (self.w * y + x) as usize
    }

    /// Put cell `s` on the worklist unless it is already queued; the
    /// queued flag prevents duplicate worklist entries, so queueing an
    /// already-queued cell changes nothing at all.
    pub fn update_square(&mut self, s: usize)
        requires
            (s as int) < old(self).n(),
            old(self).stack_ok(),
        ensures
            final(self).w == old(self).w,
            final(self).h == old(self).h,
            final(self).bombs == old(self).bombs,
            final(self).hints@ == old(self).hints@,
            final(self).squares@.len() == old(self).squares@.len(),
            old(self).squares@[s as int].on_stack ==> *final(self) == *old(self),
            !old(self).squares@[s as int].on_stack ==> final(self).stack@ == old(
                self,
            ).stack@.push(s),
            forall|c: int|
                0 <= c < old(self).n() && c != s as int ==> final(self).squares@[c] == old(
                    self,
                ).squares@[c],
            final(self).squares@[s as int].state == old(self).squares@[s as int].state,
            final(self).squares@[s as int].hints@ == old(self).squares@[s as int].hints@,
            final(self).squares@[s as int].on_stack,
            forall|c: int|
                0 <= c < old(self).n() && old(self).squares@[c].on_stack
                    ==> (#[trigger] final(self).squares@[c]).on_stack,
            final(self).stack@ == old(self).stack@ || final(self).stack@ == old(self).stack@.push(
                s,
            ),
            final(self).stack_ok(),
            queue_ok(*old(self)) ==> queue_ok(*final(self)),
    {
        let ghost pre = *self;
        if !self.squares[s].on_stack {
            self.stack.push(s);
            let q = &mut self.squares[s];
            q.on_stack = true;
        }
        proof {
            if queue_ok(pre) {
                assert forall|c: int|
                    0 <= c < self.n() && (#[trigger] self.squares@[c]).on_stack
                    implies self.stack@.contains(c as usize) by {
                    if c == s as int && !pre.squares@[s as int].on_stack {
                        assert(self.stack@[self.stack@.len() - 1] == s);
                    } else {
                        assert(pre.squares@[c].on_stack);
                        assert(pre.stack@.contains(c as usize));
                        let k = choose|k: int|
                            0 <= k < pre.stack@.len() && pre.stack@[k] == c as usize;
                        assert(self.stack@[k] == c as usize);
                    }
                }
            }
        }
    }


    /// Resolve cell `s`.  Resolution is monotonic: a cell that is already
    /// resolved may only be "re-resolved" to the same state, and a freshly
    /// resolved cell is queued for further investigation.
    pub fn set_square_state(&mut self, s: usize, state: SquareState)
        requires
            old(self).wf(),
            (s as int) < old(self).n(),
            state != SquareState::Unknown,
            old(self).squares@[s as int].state == SquareState::Unknown || old(
                self,
            ).squares@[s as int].state == state,
        ensures
            final(self).wf(),
            final(self).w == old(self).w,
            final(self).h == old(self).h,
            final(self).bombs == old(self).bombs,
            final(self).hints@ == old(self).hints@,
            final(self).squares@.len() == old(self).squares@.len(),
            forall|c: int|
                0 <= c < old(self).n() && c != s as int ==> final(self).squares@[c] == old(
                    self,
                ).squares@[c],
            final(self).squares@[s as int].state == state,
            final(self).squares@[s as int].hints@ == old(self).squares@[s as int].hints@,
            final(self).stack@ == old(self).stack@ || final(self).stack@ == old(self).stack@.push(
                s,
            ),
            old(self).squares@[s as int].state == state ==> *final(self) == *old(self),
            old(self).squares@[s as int].state != state ==> final(self).squares@[s as int].on_stack,
            forall|c: int|
                0 <= c < old(self).n() && old(self).squares@[c].on_stack
                    ==> (#[trigger] final(self).squares@[c]).on_stack,
            queue_ok(*old(self)) ==> queue_ok(*final(self)),
            forall|a: Seq<bool>|
                board_sat(*old(self), a) && (state == SquareState::Bomb ==> a[s as int]) && (state
                    == SquareState::Empty ==> !a[s as int]) ==> board_sat(*final(self), a),
    {
        let ghost pre = *self;
        let cur = self.squares[s].state;
        if cur != state {
            let q = &mut self.squares[s];
            q.state = state;
            self.update_square(s);
        }
        proof {
            assert forall|c: int|
                0 <= c < self.n() implies #[trigger] self.squares@[c].hints@
                == pre.squares@[c].hints@ by {}
            assert forall|c: int| 0 <= c < self.n() implies self.square_links_ok(c) by {
                assert(pre.square_links_ok(c));
            }
            assert(self.links_ok()) by {
                assert forall|h2: int, k: int|
                    0 <= h2 < self.hints@.len() && self.hints@[h2].valid && 0 <= k
                        < self.hints@[h2].squares@.len() implies self.squares@[#[trigger] self.hints@[h2].squares@[k] as int].hints@.contains(
                    h2 as usize,
                ) by {
                    assert(pre.hints@[h2].valid);
                    assert((pre.hints@[h2].squares@[k] as int) < pre.n());
                }
            }
            assert(self.wf());
            assert forall|a: Seq<bool>|
                board_sat(pre, a) && (state == SquareState::Bomb ==> a[s as int]) && (state
                    == SquareState::Empty ==> !a[s as int]) implies board_sat(*self, a) by {
                assert(respects(a, self.squares@)) by {
                    assert forall|c: int|
                        0 <= c < self.squares@.len() && (#[trigger] self.squares@[c]).state
                            == SquareState::Bomb implies a[c] by {
                        if c != s as int {
                            assert(pre.squares@[c].state == SquareState::Bomb);
                        }
                    }
                    assert forall|c: int|
                        0 <= c < self.squares@.len() && (#[trigger] self.squares@[c]).state
                            == SquareState::Empty implies !a[c] by {
                        if c != s as int {
                            assert(pre.squares@[c].state == SquareState::Empty);
                        }
                    }
                }
            }
        }
    }

    /// Register a freshly built constraint: link it into every referenced
    /// cell's back-references and queue those cells, since a new constraint
    /// may immediately enable a deduction.
    pub fn add_hint(&mut self, hint: Hint)
        requires
            old(self).wf(),
            hint.valid,
            hint_ok(hint, old(self).n()),
        ensures
            final(self).wf(),
            final(self).w == old(self).w,
            final(self).h == old(self).h,
            final(self).bombs == old(self).bombs,
            final(self).hints@ == old(self).hints@.push(hint),
            final(self).squares@.len() == old(self).squares@.len(),
            forall|c: int|
                0 <= c < old(self).n() ==> (#[trigger] final(self).squares@[c]).state == old(
                    self,
                ).squares@[c].state,
            forall|k: int|
                0 <= k < hint.squares@.len() ==> final(self).squares@[#[trigger] hint.squares@[k] as int].on_stack,
            forall|c: int|
                0 <= c < old(self).n() && old(self).squares@[c].on_stack
                    ==> (#[trigger] final(self).squares@[c]).on_stack,
            forall|k: int|
                0 <= k < old(self).stack@.len() ==> final(self).stack@[k] == old(self).stack@[k],
            final(self).stack@.len() >= old(self).stack@.len(),
            forall|k: int|
                old(self).stack@.len() <= k < final(self).stack@.len() ==> hint.squares@.contains(
                    #[trigger] final(self).stack@[k],
                ),
            queue_ok(*old(self)) ==> queue_ok(*final(self)),
            hsum(final(self).hints@) == hsum(old(self).hints@) + hint.squares@.len(),
            forall|a: Seq<bool>|
                board_sat(*old(self), a) && sat_hint(a, hint) ==> board_sat(*final(self), a),
    {
        let ghost pre = *self;
        let hh = self.hints.len();
        let mut i: usize = 0;
        while i < hint.squares.len()
            invariant
                0 <= i <= hint.squares@.len(),
                hint_ok(hint, pre.n()),
                self.w == pre.w,
                self.h == pre.h,
                self.bombs == pre.bombs,
                self.hints@ == pre.hints@,
                hh as int == pre.hints@.len(),
                self.squares@.len() == pre.squares@.len(),
                self.stack_ok(),
                forall|k: int|
                    0 <= k < i ==> (#[trigger] self.squares@[hint.squares@[k] as int]).hints@
                        == pre.squares@[hint.squares@[k] as int].hints@.push(hh),
                forall|c: int|
                    0 <= c < pre.n() && !hint.squares@.take(i as int).to_set().contains(c as usize)
                        ==> #[trigger] self.squares@[c].hints@ == pre.squares@[c].hints@,
                forall|c: int|
                    0 <= c < pre.n() ==> (#[trigger] self.squares@[c]).state
                        == pre.squares@[c].state,
                forall|k: int|
                    0 <= k < i ==> self.squares@[#[trigger] hint.squares@[k] as int].on_stack,
                forall|c: int|
                    0 <= c < pre.n() && pre.squares@[c].on_stack
                        ==> (#[trigger] self.squares@[c]).on_stack,
                forall|k: int|
                    0 <= k < pre.stack@.len() ==> self.stack@[k] == pre.stack@[k],
                self.stack@.len() >= pre.stack@.len(),
                forall|k: int|
                    pre.stack@.len() <= k < self.stack@.len() ==> hint.squares@.contains(
                        #[trigger] self.stack@[k],
                    ),
                queue_ok(pre) ==> queue_ok(*self),
            decreases hint.squares@.len() - i,
        {
            let s = hint.squares[i];
            let ghost at_it = *self;
            self.update_square(s);
            let q = &mut self.squares[s];
            q.add_hint(hh);
            i += 1;
            proof {
                assert(hint.squares@.take(i as int) =~= hint.squares@.take(i as int - 1).push(
                    hint.squares@[i as int - 1],
                ));
                assert forall|k: int|
                    0 <= k < i implies (#[trigger] self.squares@[hint.squares@[k] as int]).hints@
                    == pre.squares@[hint.squares@[k] as int].hints@.push(hh) by {
                    if k < i - 1 {
                        assert(hint.squares@[k] != hint.squares@[i - 1]);
                    }
                }
                assert forall|c: int|
                    0 <= c < pre.n() && !hint.squares@.take(i as int).to_set().contains(c as usize)
                        implies #[trigger] self.squares@[c].hints@
                    == pre.squares@[c].hints@ by {
                    assert(hint.squares@.take(i as int)[i - 1] == hint.squares@[i - 1]);
                    assert(hint.squares@.take(i as int).to_set().contains(hint.squares@[i - 1]));
                    assert(c != hint.squares@[i - 1] as int);
                }
                assert forall|k: int|
                    0 <= k < i implies self.squares@[#[trigger] hint.squares@[k] as int].on_stack by {
                    assert(at_it.squares@[hint.squares@[k] as int].on_stack || k == i - 1);
                }
                assert forall|k: int|
                    pre.stack@.len() <= k < self.stack@.len() implies hint.squares@.contains(
                    #[trigger] self.stack@[k],
                ) by {
                    if k < at_it.stack@.len() {
                        assert(self.stack@[k] == at_it.stack@[k]);
                    } else {
                        assert(self.stack@[k] == hint.squares@[i - 1]);
                    }
                }
            }
        }
        self.hints.push(hint);
        proof {
            assert(hint.squares@.take(hint.squares@.len() as int) =~= hint.squares@);
            let cur = *self;
            assert forall|c: int| 0 <= c < cur.n() implies cur.square_links_ok(c) by {
                assert(pre.square_links_ok(c));
                if hint.squares@.to_set().contains(c as usize) {
                    let k = choose|k: int|
                        0 <= k < hint.squares@.len() && hint.squares@[k] == c as usize;
                    assert(cur.squares@[c].hints@ == pre.squares@[c].hints@.push(hh));
                    let hl = cur.squares@[c].hints@;
                    assert forall|p: int, q: int|
                        0 <= p < hl.len() && 0 <= q < hl.len() && p != q implies hl[p] != hl[q] by {
                        assert(pre.square_links_ok(c));
                        if p < hl.len() - 1 && q < hl.len() - 1 {
                        } else if p == hl.len() - 1 {
                            assert((hl[q] as int) < pre.hints@.len());
                        } else if q == hl.len() - 1 {
                            assert((hl[p] as int) < pre.hints@.len());
                        }
                    }
                } else {
                    assert(cur.squares@[c].hints@ == pre.squares@[c].hints@);
                }
            }
            assert(cur.links_ok()) by {
                assert forall|h2: int, k: int|
                    0 <= h2 < cur.hints@.len() && cur.hints@[h2].valid && 0 <= k
                        < cur.hints@[h2].squares@.len() implies cur.squares@[#[trigger] cur.hints@[h2].squares@[k] as int].hints@.contains(
                    h2 as usize,
                ) by {
                    let c = cur.hints@[h2].squares@[k] as int;
                    if h2 < pre.hints@.len() {
                        assert(pre.hints@[h2].valid);
                        assert(c == pre.hints@[h2].squares@[k] as int);
                        assert(pre.squares@[c].hints@.contains(h2 as usize));
                        if hint.squares@.to_set().contains(c as usize) {
                            let w = choose|w: int|
                                0 <= w < pre.squares@[c].hints@.len() && pre.squares@[c].hints@[w]
                                    == h2 as usize;
                            assert(cur.squares@[c].hints@[w] == h2 as usize);
                        }
                    } else {
                        assert(h2 == hh as int);
                        assert(hint.squares@.to_set().contains(hint.squares@[k]));
                        assert(cur.squares@[c].hints@ == pre.squares@[c].hints@.push(hh));
                        assert(cur.squares@[c].hints@.last() == hh);
                    }
                }
            }
            assert(cur.hints_ok()) by {
                assert forall|h2: int|
                    0 <= h2 < cur.hints@.len() && (#[trigger] cur.hints@[h2]).valid implies hint_ok(
                    cur.hints@[h2],
                    cur.n(),
                ) by {
                    if h2 < pre.hints@.len() {
                        assert(pre.hints@[h2].valid);
                    }
                }
            }
            lemma_hsum_push(pre.hints@, hint);
            assert forall|a: Seq<bool>|
                board_sat(pre, a) && sat_hint(a, hint) implies board_sat(*self, a) by {
                assert forall|h2: int|
                    0 <= h2 < cur.hints@.len() && (#[trigger] cur.hints@[h2]).valid
                    implies sat_hint(a, cur.hints@[h2]) by {
                    if h2 < pre.hints@.len() {
                        assert(pre.hints@[h2].valid);
                    }
                }
                assert(respects(a, cur.squares@)) by {
                    assert forall|c: int|
                        0 <= c < cur.squares@.len() && (#[trigger] cur.squares@[c]).state
                            == SquareState::Bomb implies a[c] by {
                        assert(pre.squares@[c].state == SquareState::Bomb);
                    }
                    assert forall|c: int|
                        0 <= c < cur.squares@.len() && (#[trigger] cur.squares@[c]).state
                            == SquareState::Empty implies !a[c] by {
                        assert(pre.squares@[c].state == SquareState::Empty);
                    }
                }
            }
        }
    }

    /// Retire constraint `h`: unlink it from every cell it mentions and
    /// tombstone it.  Trailing tombstones are physically removed so the
    /// store does not grow without bound, but no live constraint ever
    /// changes its handle.
    pub fn rm_hint(&mut self, h: usize)
        requires
            old(self).wf(),
            (h as int) < old(self).hints@.len(),
            old(self).hints@[h as int].valid,
        ensures
            final(self).wf(),
            final(self).w == old(self).w,
            final(self).h == old(self).h,
            final(self).bombs == old(self).bombs,
            final(self).stack@ == old(self).stack@,
            final(self).squares@.len() == old(self).squares@.len(),
            forall|c: int|
                0 <= c < old(self).n() ==> (#[trigger] final(self).squares@[c]).state == old(
                    self,
                ).squares@[c].state && final(self).squares@[c].on_stack == old(
                    self,
                ).squares@[c].on_stack,
            final(self).hints@.len() <= old(self).hints@.len(),
            forall|j: int|
                0 <= j < final(self).hints@.len() ==> final(self).hints@[j] == (if j == h as int {
                    retired(old(self).hints@[j])
                } else {
                    old(self).hints@[j]
                }),
            forall|j: int|
                final(self).hints@.len() <= j < old(self).hints@.len() ==> j == h as int || !old(
                    self,
                ).hints@[j].valid,
            forall|j: int|
                0 <= j < old(self).hints@.len() && j != h as int && old(self).hints@[j].valid ==> j
                    < final(self).hints@.len() && final(self).hints@[j] == old(self).hints@[j],
            hsum(final(self).hints@) == hsum(old(self).hints@) - old(
                self,
            ).hints@[h as int].squares@.len(),
            final(self).hints@.len() > 0 ==> final(self).hints@.last().valid,
            forall|a: Seq<bool>| board_sat(*old(self), a) ==> board_sat(*final(self), a),
    {
        let ghost pre = *self;
        let ghost cells = pre.hints@[h as int].squares@;
        let m = self.hints[h].squares.len();
        let mut i: usize = 0;
        while i < m
            invariant
                0 <= i <= m,
                pre.wf(),
                (h as int) < pre.hints@.len(),
                pre.hints@[h as int].valid,
                cells == pre.hints@[h as int].squares@,
                m as int == cells.len(),
                self.w == pre.w,
                self.h == pre.h,
                self.bombs == pre.bombs,
                self.hints@ == pre.hints@,
                self.stack@ == pre.stack@,
                self.squares@.len() == pre.squares@.len(),
                forall|k: int|
                    0 <= k < i ==> {
                        let c = #[trigger] cells[k] as int;
                        &&& self.squares@[c].hints@.no_duplicates()
                        &&& self.squares@[c].hints@.to_set() == pre.squares@[c].hints@.to_set()
                            .remove(h)
                        &&& self.squares@[c].state == pre.squares@[c].state
                        &&& self.squares@[c].on_stack == pre.squares@[c].on_stack
                    },
                forall|c: int|
                    0 <= c < pre.n() && !cells.take(i as int).to_set().contains(c as usize)
                        ==> #[trigger] self.squares@[c] == pre.squares@[c],
            decreases m - i,
        {
            let s = self.hints[h].squares[i];
            proof {
                assert(pre.links_ok());
                assert(pre.square_links_ok(s as int));
                assert(pre.squares@[s as int].hints@.contains(h));
                assert(!cells.take(i as int).to_set().contains(s)) by {
                    if cells.take(i as int).to_set().contains(s) {
                        let k = choose|k: int|
                            0 <= k < i && cells.take(i as int)[k] == s;
                        assert(cells[k] == cells[i as int]);
                        assert(hint_ok(pre.hints@[h as int], pre.n()));
                    }
                }
                assert(self.squares@[s as int] == pre.squares@[s as int]);
            }
            let q = &mut self.squares[s];
            q.rm_hint(h);
            i += 1;
            proof {
                assert(cells.take(i as int) =~= cells.take(i as int - 1).push(cells[i as int - 1]));
                assert forall|c: int|
                    0 <= c < pre.n() && !cells.take(i as int).to_set().contains(c as usize)
                        implies #[trigger] self.squares@[c] == pre.squares@[c] by {
                    assert(cells.take(i as int)[i - 1] == cells[i - 1]);
                    assert(cells.take(i as int).to_set().contains(cells[i - 1]));
                    assert(c != cells[i - 1] as int);
                }
            }
        }
        let ghost tomb = pre.hints@.update(h as int, retired(pre.hints@[h as int]));
        {
            let q = &mut self.hints[h];
            q.valid = false;
        }
        proof {
            assert(self.hints@ =~= tomb);
            lemma_hsum_update(pre.hints@, h as int, retired(pre.hints@[h as int]));
            assert(cells.take(m as int) =~= cells);
        }
        let ghost mid = *self;
        while self.hints.len() > 0 && !self.hints[self.hints.len() - 1].valid
            invariant
                self.w == pre.w,
                self.h == pre.h,
                self.bombs == pre.bombs,
                self.stack@ == pre.stack@,
                self.squares@ == mid.squares@,
                self.hints@.len() <= tomb.len(),
                forall|j: int| 0 <= j < self.hints@.len() ==> self.hints@[j] == tomb[j],
                forall|j: int| self.hints@.len() <= j < tomb.len() ==> !tomb[j].valid,
                hsum(self.hints@) == hsum(tomb),
            decreases self.hints@.len(),
        {
            proof {
                lemma_hsum_drop_last(self.hints@);
            }
            self.hints.pop();
        }
        proof {
            let cur = *self;
            let cset = cells.to_set();
            assert(hint_ok(pre.hints@[h as int], pre.n()));
            // which cells changed, and how
            assert forall|c: int|
                0 <= c < pre.n() implies (#[trigger] cur.squares@[c]).state
                == pre.squares@[c].state && cur.squares@[c].on_stack == pre.squares@[c].on_stack
                && cur.squares@[c].hints@.no_duplicates() && (if cset.contains(c as usize) {
                cur.squares@[c].hints@.to_set() == pre.squares@[c].hints@.to_set().remove(h)
            } else {
                cur.squares@[c].hints@ == pre.squares@[c].hints@
            }) by {
                assert(pre.square_links_ok(c));
                if cset.contains(c as usize) {
                    let k = choose|k: int| 0 <= k < cells.len() && cells[k] == c as usize;
                } else {
                }
            }
            // the invariant is re-established
            assert forall|c: int| 0 <= c < cur.n() implies cur.square_links_ok(c) by {
                assert(pre.square_links_ok(c));
                let hl = cur.squares@[c].hints@;
                assert forall|k: int|
                    0 <= k < hl.len() implies (#[trigger] hl[k] as int) < cur.hints@.len()
                    && cur.hints@[hl[k] as int].valid && cur.hints@[hl[k] as int].squares@.to_set()
                    .contains(c as usize) by {
                    let e = hl[k];
                    assert(hl.to_set().contains(e));
                    assert(pre.squares@[c].hints@.to_set().contains(e));
                    let k0 = choose|k0: int|
                        0 <= k0 < pre.squares@[c].hints@.len() && pre.squares@[c].hints@[k0] == e;
                    assert((e as int) < pre.hints@.len() && pre.hints@[e as int].valid
                        && pre.hints@[e as int].squares@.to_set().contains(c as usize));
                    assert(e != h) by {
                        if e == h {
                            assert(cset.contains(c as usize));
                            assert(!hl.to_set().contains(h));
                        }
                    }
                    assert(tomb[e as int] == pre.hints@[e as int]);
                    assert((e as int) < cur.hints@.len()) by {
                        if e as int >= cur.hints@.len() {
                            assert(!tomb[e as int].valid);
                        }
                    }
                }
            }
            assert(cur.links_ok()) by {
                assert forall|h2: int, k: int|
                    0 <= h2 < cur.hints@.len() && cur.hints@[h2].valid && 0 <= k
                        < cur.hints@[h2].squares@.len() implies cur.squares@[#[trigger] cur.hints@[h2].squares@[k] as int].hints@.contains(
                    h2 as usize,
                ) by {
                    assert(cur.hints@[h2] == tomb[h2]);
                    assert(h2 != h as int);
                    assert(pre.hints@[h2].valid);
                    let c = cur.hints@[h2].squares@[k] as int;
                    assert((c as int) < pre.n());
                    assert(cur.squares@[c].state == pre.squares@[c].state);
                    assert(pre.squares@[c].hints@.contains(h2 as usize));
                    if cset.contains(c as usize) {
                        assert(pre.squares@[c].hints@.to_set().contains(h2 as usize));
                        assert(cur.squares@[c].hints@.to_set().contains(h2 as usize));
                    }
                }
            }
            assert(cur.hints_ok()) by {
                assert forall|h2: int|
                    0 <= h2 < cur.hints@.len() && (#[trigger] cur.hints@[h2]).valid
                    implies hint_ok(cur.hints@[h2], cur.n()) by {
                    assert(cur.hints@[h2] == tomb[h2]);
                    assert(pre.hints@[h2].valid);
                }
            }
            assert(cur.wf());
            assert forall|j: int|
                0 <= j < cur.hints@.len() implies cur.hints@[j] == (if j == h as int {
                retired(pre.hints@[j])
            } else {
                pre.hints@[j]
            }) by {
                assert(cur.hints@[j] == tomb[j]);
            }
            assert forall|j: int|
                0 <= j < pre.hints@.len() && j != h as int && pre.hints@[j].valid implies j
                < cur.hints@.len() && cur.hints@[j] == pre.hints@[j] by {
                if j >= cur.hints@.len() {
                    assert(!tomb[j].valid);
                }
            }
            assert forall|a: Seq<bool>| board_sat(pre, a) implies board_sat(cur, a) by {
                assert(respects(a, cur.squares@)) by {
                    assert forall|c: int|
                        0 <= c < cur.squares@.len() && (#[trigger] cur.squares@[c]).state
                            == SquareState::Bomb implies a[c] by {
                        assert(pre.squares@[c].state == SquareState::Bomb);
                    }
                    assert forall|c: int|
                        0 <= c < cur.squares@.len() && (#[trigger] cur.squares@[c]).state
                            == SquareState::Empty implies !a[c] by {
                        assert(pre.squares@[c].state == SquareState::Empty);
                    }
                }
                assert forall|h2: int|
                    0 <= h2 < cur.hints@.len() && (#[trigger] cur.hints@[h2]).valid
                    implies sat_hint(a, cur.hints@[h2]) by {
                    assert(cur.hints@[h2] == tomb[h2]);
                    assert(pre.hints@[h2].valid && pre.hints@[h2] == cur.hints@[h2]);
                }
            }
        }
    }

    /// No single-constraint rule applies to live constraint `h`: its
    /// cells are all unresolved and its count is strictly between zero
    /// and the number of cells.
    pub open spec fn no_single_fire(self, h: int) -> bool {
        &&& self.all_unknown(h)
        &&& self.hints@[h].bombs != 0
        &&& self.hints@[h].bombs as int != self.hints@[h].squares@.len()
    }

    /// No cell of constraint `h` is on the worklist.
    pub open spec fn hint_unqueued(self, h: int) -> bool {
        forall|k: int|
            0 <= k < self.hints@[h].squares@.len()
                ==> !self.squares@[#[trigger] self.hints@[h].squares@[k] as int].on_stack
    }

    /// The pairwise rule draws nothing from `h1` and `h2`: neither cell
    /// set contains the other and the pigeonhole bounds on the shared
    /// cells do not collapse.
    pub open spec fn no_pair_fire(self, h1: int, h2: int) -> bool {
        &&& !self.hint_cells(h1).subset_of(self.hint_cells(h2))
        &&& !self.hint_cells(h2).subset_of(self.hint_cells(h1))
        &&& self.pair_both_min(h1, h2) != self.pair_both_max(h1, h2)
    }

    /// No cell shared by `h1` and `h2` is on the worklist.
    pub open spec fn shared_unqueued(self, h1: int, h2: int) -> bool {
        forall|c: usize| #![trigger self.hint_cells(h1).contains(c), self.hint_cells(h2).contains(c)]
            self.hint_cells(h1).contains(c) && self.hint_cells(h2).contains(c)
                ==> !self.squares@[c as int].on_stack
    }

    /// The constraints `h1` and `h2` mention a common cell.
    pub open spec fn pair_shares_cell(self, h1: int, h2: int) -> bool {
        exists|c: usize| #![trigger self.hint_cells(h1).contains(c), self.hint_cells(h2).contains(c)]
            self.hint_cells(h1).contains(c) && self.hint_cells(h2).contains(c)
    }

    /// A local fixpoint, up to the worklist: wherever every relevant cell
    /// has come off the worklist, no deduction rule applies.
    pub open spec fn at_fixpoint(self) -> bool {
        &&& forall|h: int|
            0 <= h < self.hints@.len() && (#[trigger] self.hints@[h]).valid
                && self.hint_unqueued(h) ==> self.no_single_fire(h)
        &&& forall|h1: int, h2: int|
            0 <= h1 < self.hints@.len() && 0 <= h2 < self.hints@.len() && h1 != h2
                && self.hints@[h1].valid && self.hints@[h2].valid && self.pair_shares_cell(h1, h2)
                && #[trigger] self.shared_unqueued(h1, h2) ==> self.no_pair_fire(h1, h2)
    }

    /// The global counting rule applies: the bombs still missing are
    /// exactly as many as the unresolved cells.
    pub open spec fn pigeonhole_applies(self) -> bool {
        let nb = self.state_set_upto(self.n(), SquareState::Bomb).len() as int;
        let nu = self.state_set_upto(self.n(), SquareState::Unknown).len() as int;
        nb < self.bombs as int && nb + nu == self.bombs as int
    }

    /// The cells below `k` currently in state `st`.
    pub open spec fn state_set_upto(self, k: int, st: SquareState) -> Set<usize> {
        Set::new(|c: usize| (c as int) < k && self.squares@[c as int].state == st)
    }

    /// The unresolved cells below `k`, in ascending order.
    pub open spec fn unknown_seq(self, k: int) -> Seq<usize>
        decreases k,
    {
        if k <= 0 {
            Seq::empty()
        } else {
            self.unknown_seq(k - 1) + (if self.squares@[k - 1].state == SquareState::Unknown {
                seq![(k - 1) as usize]
            } else {
                Seq::empty()
            })
        }
    }

    /// Partial resolution: some referenced cell is already resolved, so a
    /// replacement constraint over the still-unknown cells is derived, its
    /// bomb count reduced by the bombs already resolved among the
    /// originals, and the original constraint is retired.
    #[verifier::loop_isolation(false)]
    #[verifier::rlimit(100)]
    fn rule_partial(&self, h: usize, delta: &mut Delta)
        requires
            self.wf(),
            consistent(*self),
            (h as int) < self.hints@.len(),
            self.hints@[h as int].valid,
            !self.all_unknown(h as int),
        ensures
            ({
                let cs = self.hint_cells(h as int);
                let u = self.cells_in_state(cs, SquareState::Unknown);
                let nb = self.cells_in_state(cs, SquareState::Bomb).len() as int;
                &&& final(delta).hints2rm@ == old(delta).hints2rm@.push(h)
                &&& final(delta).squares2bomb@ == old(delta).squares2bomb@
                &&& final(delta).squares2empty@ == old(delta).squares2empty@
                &&& (u.len() == 0 ==> final(delta).hints2add@ == old(delta).hints2add@)
                &&& (u.len() > 0 ==> {
                    let nh = final(delta).hints2add@.last();
                    &&& final(delta).hints2add@ == old(delta).hints2add@.push(nh)
                    &&& nh.valid
                    &&& nh.bombs as int == self.hints@[h as int].bombs - nb
                    &&& sorted_strict(nh.squares@)
                    &&& nh.squares@.to_set() == u
                    &&& nh.squares@.len() == u.len()
                })
            }),
            old(delta).spec_is_empty() && !final(delta).spec_is_empty() ==> delta_good(*self, *final(delta)),
            forall|a: Seq<bool>|
                board_sat(*self, a) && delta_holds_for(a, *old(delta)) ==> delta_holds_for(a, *final(delta)),
    {
        let ghost pre_d = *delta;
        let ghost hi = h as int;
        let ghost csq = self.hints@[hi].squares@;
        let ghost cs = self.hint_cells(hi);
        proof {
            assert(hint_ok(self.hints@[hi], self.n()));
            lemma_sorted_strict_set_len(csq);
            assert forall|c: usize| cs.contains(c) implies (c as int) < self.n() by {
                let k = choose|k: int| 0 <= k < csq.len() && csq[k] == c;
            }
        }
        let m = self.hints[h].squares.len();
            // partial resolution: restrict to the still-unknown cells and
            // subtract the bombs already resolved among the originals
            let ghost u = self.cells_in_state(cs, SquareState::Unknown);
            let ghost bset = self.cells_in_state(cs, SquareState::Bomb);
            proof {
                let a0 = choose|a0: Seq<bool>| board_sat(*self, a0);
                assert(sat_hint(a0, self.hints@[hi]));
                lemma_count_by_state(*self, a0, cs);
                lemma_bombs_in_bounds(a0, u);
                assert(bset.len() <= self.hints@[hi].bombs);
                assert(self.hints@[hi].bombs - bset.len() <= u.len());
            }
            let mut squares2: Vec<usize> = Vec::new();
            let mut bombs2 = self.hints[h].bombs;
            proof {
                assert(csq.take(0).to_set() =~= Set::<usize>::empty());
                assert(self.cells_in_state(csq.take(0).to_set(), SquareState::Unknown)
                    =~= Set::<usize>::empty());
                assert(self.cells_in_state(csq.take(0).to_set(), SquareState::Bomb)
                    =~= Set::<usize>::empty());
                assert(squares2@.to_set() =~= Set::<usize>::empty());
            }
            let mut i: usize = 0;
            while i < m
                invariant
                    0 <= i <= m,
                    sorted_strict(squares2@),
                    squares2@.to_set() == self.cells_in_state(
                        csq.take(i as int).to_set(),
                        SquareState::Unknown,
                    ),
                    bombs2 as int == self.hints@[hi].bombs as int - self.cells_in_state(
                        csq.take(i as int).to_set(),
                        SquareState::Bomb,
                    ).len(),
                    bombs2 <= self.hints@[hi].bombs,
                decreases m - i,
            {
                let ghost pset = csq.take(i as int).to_set();
                let ghost upfx = self.cells_in_state(pset, SquareState::Unknown);
                let ghost bpfx = self.cells_in_state(pset, SquareState::Bomb);
                let c = self.hints[h].squares[i];
                proof {
                    lemma_take_step(csq, i as int);
                    crate::sets::lemma_sorted_take_not_contains(csq, i as int);
                    vstd::seq_lib::seq_to_set_is_finite(csq.take(i as int));
                    vstd::set_lib::lemma_len_subset(upfx, pset);
                    vstd::set_lib::lemma_len_subset(bpfx, pset);
                    assert(upfx.subset_of(u)) by {
                        assert forall|y: usize| upfx.contains(y) implies u.contains(y) by {
                            assert(pset.contains(y));
                            let k = choose|k: int|
                                0 <= k < csq.take(i as int).len() && csq.take(i as int)[k] == y;
                            assert(csq[k] == y);
                        }
                    }
                    assert(bpfx.subset_of(bset)) by {
                        assert forall|y: usize| bpfx.contains(y) implies bset.contains(y) by {
                            assert(pset.contains(y));
                            let k = choose|k: int|
                                0 <= k < csq.take(i as int).len() && csq.take(i as int)[k] == y;
                            assert(csq[k] == y);
                        }
                    }
                }
                match self.squares[c].state {
                    SquareState::Unknown => {
                        proof {
                            assert forall|y: usize| squares2@.to_set().contains(y)
                                implies csq.take(i as int).to_set().contains(y) by {}
                            lemma_sorted_push(squares2@, csq, i as int, c);
                            squares2@.lemma_push_to_set_commute(c);
                        }
                        squares2.push(c);
                        proof {
                            assert(self.cells_in_state(pset.insert(c), SquareState::Unknown)
                                =~= upfx.insert(c));
                            assert(self.cells_in_state(pset.insert(c), SquareState::Bomb)
                                =~= bpfx);
                        }
                    },
                    SquareState::Empty => {
                        proof {
                            assert(self.cells_in_state(pset.insert(c), SquareState::Unknown)
                                =~= upfx);
                            assert(self.cells_in_state(pset.insert(c), SquareState::Bomb)
                                =~= bpfx);
                        }
                    },
                    SquareState::Bomb => {
                        proof {
                            assert(self.cells_in_state(pset.insert(c), SquareState::Unknown)
                                =~= upfx);
                            assert(self.cells_in_state(pset.insert(c), SquareState::Bomb)
                                =~= bpfx.insert(c));
                            assert(!bpfx.contains(c));
                            assert(bpfx.insert(c).subset_of(bset)) by {
                                assert(cs.contains(c));
                            }
                            vstd::set_lib::lemma_len_subset(bpfx.insert(c), bset);
                            assert(bpfx.insert(c).len() == bpfx.len() + 1);
                            assert(bombs2 >= 1);
                        }
                        bombs2 = bombs2 - 1;
                    },
                }
                i += 1;
            }
            proof {
                assert(csq.take(m as int) =~= csq);
                assert(squares2@.to_set() == u);
                assert(bombs2 as int == self.hints@[hi].bombs - bset.len());
                lemma_sorted_strict_set_len(squares2@);
            }
            let nh = Hint::new(bombs2, squares2);
            delta.add_hint(nh);
            delta.rm_hint(h);
            proof {
                let fd = *delta;
                // the new constraint mentions only cells of the original
                assert forall|k: int|
                    0 <= k < nh.squares@.len() implies (#[trigger] nh.squares@[k] as int)
                    < self.n() by {
                    assert(nh.squares@.to_set().contains(nh.squares@[k]));
                    assert(cs.contains(nh.squares@[k]));
                }
                if u.len() > 0 {
                    assert(nh.valid);
                    assert(hint_ok(nh, self.n()));
                }
                assert forall|a: Seq<bool>|
                    board_sat(*self, a) && delta_holds_for(a, pre_d) implies delta_holds_for(
                    a,
                    fd,
                ) by {
                    assert(sat_hint(a, self.hints@[hi]));
                    lemma_count_by_state(*self, a, cs);
                    if u.len() > 0 {
                        assert(sat_hint(a, nh));
                        assert forall|k: int|
                            0 <= k < fd.hints2add@.len() implies sat_hint(
                            a,
                            #[trigger] fd.hints2add@[k],
                        ) by {
                            if k < pre_d.hints2add@.len() {
                                assert(fd.hints2add@[k] == pre_d.hints2add@[k]);
                            }
                        }
                    }
                }
                if pre_d.spec_is_empty() {
                    // the rule retires more constraint weight than it adds
                    assert(fd.hints2rm@ =~= Seq::<usize>::empty().push(h));
                    lemma_rm_sum_single(self.hints@, fd.hints2rm@, h);
                    assert(rm_sum(self.hints@, fd.hints2rm@) == csq.len());
                    let c0 = choose|c0: int|
                        0 <= c0 < csq.len() && self.squares@[csq[c0] as int].state
                            != SquareState::Unknown;
                    assert(cs.contains(csq[c0]));
                    assert(!u.contains(csq[c0]));
                    assert(u.subset_of(cs.remove(csq[c0])));
                    vstd::set_lib::lemma_len_subset(u, cs.remove(csq[c0]));
                    if u.len() > 0 {
                        assert(fd.hints2add@ =~= Seq::<Hint>::empty().push(nh));
                        lemma_add_sum_single(fd.hints2add@, nh);
                        assert(add_sum(fd.hints2add@) == u.len());
                    } else {
                        assert(fd.hints2add@ =~= Seq::<Hint>::empty());
                        assert(add_sum(fd.hints2add@) == 0);
                    }
                    assert(delta_shrinks(*self, fd));
                    assert(delta_wf(*self, fd));
                }
            }
    }

    /// The zero rule: a live constraint with no bombs resolves every one of
    /// its cells as empty and is retired.
    #[verifier::loop_isolation(false)]
    #[verifier::rlimit(100)]
    fn rule_zero(&self, h: usize, delta: &mut Delta)
        requires
            self.wf(),
            (h as int) < self.hints@.len(),
            self.hints@[h as int].valid,
            self.hints@[h as int].bombs == 0,
        ensures
            final(delta).hints2rm@ == old(delta).hints2rm@.push(h),
            final(delta).hints2add@ == old(delta).hints2add@,
            final(delta).squares2bomb@ == old(delta).squares2bomb@,
            final(delta).squares2empty@ == old(delta).squares2empty@ + self.hints@[h as int].squares@,
            old(delta).spec_is_empty() && !final(delta).spec_is_empty() ==> delta_good(*self, *final(delta)),
            forall|a: Seq<bool>|
                board_sat(*self, a) && delta_holds_for(a, *old(delta)) ==> delta_holds_for(a, *final(delta)),
    {
        let ghost pre_d = *delta;
        let ghost hi = h as int;
        let ghost csq = self.hints@[hi].squares@;
        let ghost cs = self.hint_cells(hi);
        proof {
            assert(hint_ok(self.hints@[hi], self.n()));
            lemma_sorted_strict_set_len(csq);
            assert forall|c: usize| cs.contains(c) implies (c as int) < self.n() by {
                let k = choose|k: int| 0 <= k < csq.len() && csq[k] == c;
            }
        }
        let m = self.hints[h].squares.len();
            // zero rule: no bombs at all among the referenced cells
            let mut i: usize = 0;
            while i < m
                invariant
                    0 <= i <= m,
                    delta.hints2rm@ == pre_d.hints2rm@,
                    delta.hints2add@ == pre_d.hints2add@,
                    delta.squares2bomb@ == pre_d.squares2bomb@,
                    delta.squares2empty@ == pre_d.squares2empty@ + csq.take(i as int),
                decreases m - i,
            {
                let c = self.hints[h].squares[i];
                delta.set_square_empty(c);
                i += 1;
                proof {
                    assert(csq.take(i as int) =~= csq.take(i as int - 1).push(csq[i as int - 1]));
                    assert(delta.squares2empty@ =~= pre_d.squares2empty@ + csq.take(i as int));
                }
            }
            delta.rm_hint(h);
            proof {
                let fd = *delta;
                assert(csq.take(m as int) =~= csq);
                assert forall|a: Seq<bool>|
                    board_sat(*self, a) && delta_holds_for(a, pre_d) implies delta_holds_for(
                    a,
                    fd,
                ) by {
                    assert(sat_hint(a, self.hints@[hi]));
                    assert forall|k: int|
                        0 <= k < fd.squares2empty@.len() implies !a[#[trigger] fd.squares2empty@[k] as int] by {
                        if k >= pre_d.squares2empty@.len() {
                            let c = fd.squares2empty@[k];
                            assert(c == csq[k - pre_d.squares2empty@.len()]);
                            assert(cs.contains(c));
                            lemma_bombs_in_empty_cell(a, cs, c);
                        }
                    }
                }
                if pre_d.spec_is_empty() {
                    assert(fd.hints2rm@ =~= Seq::<usize>::empty().push(h));
                    lemma_rm_sum_single(self.hints@, fd.hints2rm@, h);
                    assert(rm_sum(self.hints@, fd.hints2rm@) == csq.len());
                    assert(fd.hints2add@ =~= Seq::<Hint>::empty());
                    assert(add_sum(fd.hints2add@) == 0);
                    assert(fd.squares2empty@ =~= csq);
                    assert(delta_wf(*self, fd));
                }
            }
    }

    /// The saturation rule: a live constraint with as many bombs as cells
    /// resolves every one of its cells as a bomb and is retired.
    #[verifier::loop_isolation(false)]
    #[verifier::rlimit(100)]
    fn rule_saturate(&self, h: usize, delta: &mut Delta)
        requires
            self.wf(),
            (h as int) < self.hints@.len(),
            self.hints@[h as int].valid,
            self.hints@[h as int].bombs as int == self.hints@[h as int].squares@.len(),
        ensures
            final(delta).hints2rm@ == old(delta).hints2rm@.push(h),
            final(delta).hints2add@ == old(delta).hints2add@,
            final(delta).squares2bomb@ == old(delta).squares2bomb@ + self.hints@[h as int].squares@,
            final(delta).squares2empty@ == old(delta).squares2empty@,
            old(delta).spec_is_empty() && !final(delta).spec_is_empty() ==> delta_good(*self, *final(delta)),
            forall|a: Seq<bool>|
                board_sat(*self, a) && delta_holds_for(a, *old(delta)) ==> delta_holds_for(a, *final(delta)),
    {
        let ghost pre_d = *delta;
        let ghost hi = h as int;
        let ghost csq = self.hints@[hi].squares@;
        let ghost cs = self.hint_cells(hi);
        proof {
            assert(hint_ok(self.hints@[hi], self.n()));
            lemma_sorted_strict_set_len(csq);
            assert forall|c: usize| cs.contains(c) implies (c as int) < self.n() by {
                let k = choose|k: int| 0 <= k < csq.len() && csq[k] == c;
            }
        }
        let m = self.hints[h].squares.len();
            // saturation rule: every referenced cell must hold a bomb
            let mut i: usize = 0;
            while i < m
                invariant
                    0 <= i <= m,
                    delta.hints2rm@ == pre_d.hints2rm@,
                    delta.hints2add@ == pre_d.hints2add@,
                    delta.squares2empty@ == pre_d.squares2empty@,
                    delta.squares2bomb@ == pre_d.squares2bomb@ + csq.take(i as int),
                decreases m - i,
            {
                let c = self.hints[h].squares[i];
                delta.set_square_bomb(c);
                i += 1;
                proof {
                    assert(csq.take(i as int) =~= csq.take(i as int - 1).push(csq[i as int - 1]));
                    assert(delta.squares2bomb@ =~= pre_d.squares2bomb@ + csq.take(i as int));
                }
            }
            delta.rm_hint(h);
            proof {
                let fd = *delta;
                assert(csq.take(m as int) =~= csq);
                assert forall|a: Seq<bool>|
                    board_sat(*self, a) && delta_holds_for(a, pre_d) implies delta_holds_for(
                    a,
                    fd,
                ) by {
                    assert(sat_hint(a, self.hints@[hi]));
                    assert forall|k: int|
                        0 <= k < fd.squares2bomb@.len() implies a[#[trigger] fd.squares2bomb@[k] as int] by {
                        if k >= pre_d.squares2bomb@.len() {
                            let c = fd.squares2bomb@[k];
                            assert(c == csq[k - pre_d.squares2bomb@.len()]);
                            assert(cs.contains(c));
                            lemma_bombs_in_saturated(a, cs, c);
                        }
                    }
                }
                if pre_d.spec_is_empty() {
                    assert(fd.hints2rm@ =~= Seq::<usize>::empty().push(h));
                    lemma_rm_sum_single(self.hints@, fd.hints2rm@, h);
                    assert(rm_sum(self.hints@, fd.hints2rm@) == csq.len());
                    assert(fd.hints2add@ =~= Seq::<Hint>::empty());
                    assert(add_sum(fd.hints2add@) == 0);
                    assert(fd.squares2bomb@ =~= csq);
                    assert(delta_wf(*self, fd));
                }
            }
    }

    /// Every entry of `unknown_seq(k)` is an unresolved cell below `k`.
    pub proof fn lemma_unknown_seq_props(self, k: int)
        requires
            k <= self.n(),
            self.n() <= usize::MAX,
        ensures
            forall|j: int|
                0 <= j < self.unknown_seq(k).len() ==> (#[trigger] self.unknown_seq(k)[j] as int)
                    < k && self.squares@[self.unknown_seq(k)[j] as int].state
                    == SquareState::Unknown,
        decreases k,
    {
        if k > 0 {
            self.lemma_unknown_seq_props(k - 1);
            let s0 = self.unknown_seq(k - 1);
            let sk = self.unknown_seq(k);
            reveal_with_fuel(Board::unknown_seq, 2);
            if self.squares@[k - 1].state == SquareState::Unknown {
                assert(sk == s0 + seq![(k - 1) as usize]);
                assert(sk =~= s0.push((k - 1) as usize));
            } else {
                assert(sk == s0 + Seq::<usize>::empty());
                assert(sk =~= s0);
            }
            assert forall|j: int|
                0 <= j < sk.len() implies (#[trigger] sk[j] as int) < k
                && self.squares@[sk[j] as int].state == SquareState::Unknown by {
                if j < s0.len() {
                    assert(sk[j] == s0[j]);
                } else {
                    assert(j == s0.len());
                    assert(sk[j] == (k - 1) as usize);
                }
            }
        }
    }

    /// The global counting pass.  If the bombs still missing are exactly as
    /// many as the unresolved cells, every unresolved cell must hold a bomb
    /// (a pigeonhole argument over the whole grid); they are all scheduled
    /// as bombs.  Otherwise nothing is concluded.
    #[verifier::loop_isolation(false)]
    #[verifier::rlimit(100)]
    pub fn process_remaining(&self, delta: &mut Delta)
        requires
            self.wf(),
        ensures
            ({
                let nb = self.state_set_upto(self.n(), SquareState::Bomb).len() as int;
                let nu = self.state_set_upto(self.n(), SquareState::Unknown).len() as int;
                if nb < self.bombs as int && nb + nu == self.bombs as int {
                    &&& final(delta).hints2rm@ == old(delta).hints2rm@
                    &&& final(delta).hints2add@ == old(delta).hints2add@
                    &&& final(delta).squares2empty@ == old(delta).squares2empty@
                    &&& final(delta).squares2bomb@ == old(delta).squares2bomb@
                        + self.unknown_seq(self.n())
                } else {
                    *final(delta) == *old(delta)
                }
            }),
            delta_wf(*self, *old(delta)) ==> delta_wf(*self, *final(delta)),
            forall|a: Seq<bool>|
                board_sat(*self, a) && delta_holds_for(a, *old(delta)) ==> delta_holds_for(
                    a,
                    *final(delta),
                ),
    {
        let ghost pre_d = *delta;
        let n = self.squares.len();
        let mut n_bombs: u32 = 0;
        let mut n_unknown: u32 = 0;
        proof {
            assert(self.state_set_upto(0, SquareState::Bomb) =~= Set::<usize>::empty());
            assert(self.state_set_upto(0, SquareState::Unknown) =~= Set::<usize>::empty());
        }
        let mut i: usize = 0;
        while i < n
            invariant
                0 <= i <= n,
                self.state_set_upto(i as int, SquareState::Bomb).finite(),
                self.state_set_upto(i as int, SquareState::Unknown).finite(),
                n_bombs as int == self.state_set_upto(i as int, SquareState::Bomb).len(),
                n_unknown as int == self.state_set_upto(i as int, SquareState::Unknown).len(),
                n_bombs as int + n_unknown as int <= i as int,
            decreases n - i,
        {
            proof {
                let bp = self.state_set_upto(i as int, SquareState::Bomb);
                let up = self.state_set_upto(i as int, SquareState::Unknown);
                assert(!bp.contains(i as usize));
                assert(!up.contains(i as usize));
                if self.squares@[i as int].state == SquareState::Bomb {
                    assert(self.state_set_upto(i as int + 1, SquareState::Bomb) =~= bp.insert(
                        i as usize,
                    ));
                    assert(self.state_set_upto(i as int + 1, SquareState::Unknown) =~= up);
                } else if self.squares@[i as int].state == SquareState::Unknown {
                    assert(self.state_set_upto(i as int + 1, SquareState::Bomb) =~= bp);
                    assert(self.state_set_upto(i as int + 1, SquareState::Unknown) =~= up.insert(
                        i as usize,
                    ));
                } else {
                    assert(self.state_set_upto(i as int + 1, SquareState::Bomb) =~= bp);
                    assert(self.state_set_upto(i as int + 1, SquareState::Unknown) =~= up);
                }
            }
            match self.squares[i].state {
                SquareState::Bomb => {
                    n_bombs += 1;
                },
                SquareState::Unknown => {
                    n_unknown += 1;
                },
                SquareState::Empty => {},
            }
            i += 1;
        }
        if n_bombs < self.bombs && n_bombs + n_unknown == self.bombs {
            proof {
                assert(self.unknown_seq(0) =~= Seq::<usize>::empty());
            }
            let mut c: usize = 0;
            while c < n
                invariant
                    0 <= c <= n,
                    delta.hints2rm@ == pre_d.hints2rm@,
                    delta.hints2add@ == pre_d.hints2add@,
                    delta.squares2empty@ == pre_d.squares2empty@,
                    delta.squares2bomb@ == pre_d.squares2bomb@ + self.unknown_seq(c as int),
                decreases n - c,
            {
                if self.squares[c].state == SquareState::Unknown {
                    delta.set_square_bomb(c);
                    proof {
                        assert(self.unknown_seq(c as int + 1) =~= self.unknown_seq(c as int)
                            + seq![c]);
                        assert(delta.squares2bomb@ =~= pre_d.squares2bomb@ + self.unknown_seq(
                            c as int + 1,
                        ));
                    }
                } else {
                    proof {
                        assert(self.unknown_seq(c as int + 1) =~= self.unknown_seq(c as int));
                    }
                }
                c += 1;
            }
            proof {
                let fd = *delta;
                let all = all_cells(self.n());
                let bset = self.cells_in_state(all, SquareState::Bomb);
                let uset = self.cells_in_state(all, SquareState::Unknown);
                assert(self.n() <= usize::MAX) by {
                    assert(self.n() == n as int);
                }
                self.lemma_unknown_seq_props(self.n());
                lemma_all_cells_len(self.n());
                assert(bset =~= self.state_set_upto(self.n(), SquareState::Bomb));
                assert(uset =~= self.state_set_upto(self.n(), SquareState::Unknown));
                assert(fd.squares2bomb@ == pre_d.squares2bomb@ + self.unknown_seq(self.n()));
                assert forall|c2: usize| self.unknown_seq(self.n()).to_set().contains(c2)
                    implies uset.contains(c2) by {
                    let j = choose|j: int|
                        0 <= j < self.unknown_seq(self.n()).len() && self.unknown_seq(self.n())[j]
                            == c2;
                }
                if delta_wf(*self, pre_d) {
                    assert forall|k: int|
                        0 <= k < fd.squares2bomb@.len() implies (#[trigger] fd.squares2bomb@[k] as int)
                        < self.n() by {
                        if k >= pre_d.squares2bomb@.len() {
                            assert((pre_d.squares2bomb@ + self.unknown_seq(self.n()))[k]
                                == self.unknown_seq(self.n())[k - pre_d.squares2bomb@.len()]);
                            assert(fd.squares2bomb@[k] == self.unknown_seq(self.n())[k
                                - pre_d.squares2bomb@.len()]);
                        } else {
                            assert(fd.squares2bomb@[k] == pre_d.squares2bomb@[k]);
                        }
                    }
                    assert(delta_wf(*self, fd));
                }
                assert forall|a: Seq<bool>|
                    board_sat(*self, a) && delta_holds_for(a, pre_d) implies delta_holds_for(
                    a,
                    fd,
                ) by {
                    lemma_count_by_state(*self, a, all);
                    assert(bombs_in(a, uset) == self.bombs as int - bset.len());
                    lemma_bombs_in_bounds(a, uset);
                    assert(bombs_in(a, uset) == uset.len());
                    assert forall|k: int|
                        0 <= k < fd.squares2bomb@.len() implies a[#[trigger] fd.squares2bomb@[k] as int] by {
                        if k >= pre_d.squares2bomb@.len() {
                            let cc = fd.squares2bomb@[k];
                            assert((pre_d.squares2bomb@ + self.unknown_seq(self.n()))[k]
                                == self.unknown_seq(self.n())[k - pre_d.squares2bomb@.len()]);
                            assert(cc == self.unknown_seq(self.n())[k - pre_d.squares2bomb@.len()]);
                            assert(uset.contains(cc));
                            lemma_bombs_in_saturated(a, uset, cc);
                        }
                    }
                }
            }
        }
    }

    /// Of two constraints, the handle of the one with no more cells; ties
    /// keep the first.
    pub open spec fn pair_first(self, h1: int, h2: int) -> int {
        if self.hints@[h1].squares@.len() > self.hints@[h2].squares@.len() {
            h2
        } else {
            h1
        }
    }

    /// The other handle of the normalized pair.
    pub open spec fn pair_second(self, h1: int, h2: int) -> int {
        if self.hints@[h1].squares@.len() > self.hints@[h2].squares@.len() {
            h1
        } else {
            h2
        }
    }

    /// Containment step: the cells of constraint `p` all lie inside those
    /// of constraint `q`, so `q`'s exclusive cells hold exactly the
    /// difference of the two bomb counts; `q` is retired in favour of that
    /// derived constraint.
    #[verifier::loop_isolation(false)]
    #[verifier::rlimit(100)]
    fn rule_contain(&self, p: usize, q: usize, sqh2: Vec<usize>, delta: &mut Delta)
        requires
            self.wf(),
            consistent(*self),
            (p as int) < self.hints@.len(),
            (q as int) < self.hints@.len(),
            p != q,
            self.hints@[p as int].valid,
            self.hints@[q as int].valid,
            sorted_strict(sqh2@),
            sqh2@.to_set() == self.hint_cells(q as int).difference(self.hint_cells(p as int)),
            self.hint_cells(p as int).difference(self.hint_cells(q as int)) == Set::<usize>::empty(),
            sqh2@.len() > 0,
        ensures
            ({
                let nh = final(delta).hints2add@.last();
                &&& final(delta).hints2add@ == old(delta).hints2add@.push(nh)
                &&& nh.valid
                &&& nh.bombs as int == self.hints@[q as int].bombs - self.hints@[p as int].bombs
                &&& sorted_strict(nh.squares@)
                &&& nh.squares@.to_set() == self.hint_cells(q as int).difference(
                    self.hint_cells(p as int),
                )
                &&& nh.squares@.len() == self.hint_cells(q as int).difference(
                    self.hint_cells(p as int),
                ).len()
            }),
            final(delta).hints2rm@ == old(delta).hints2rm@.push(q),
            final(delta).squares2bomb@ == old(delta).squares2bomb@,
            final(delta).squares2empty@ == old(delta).squares2empty@,
            old(delta).spec_is_empty() ==> delta_good(*self, *final(delta)),
            forall|a: Seq<bool>|
                board_sat(*self, a) && delta_holds_for(a, *old(delta)) ==> delta_holds_for(
                    a,
                    *final(delta),
                ),
    {
        let ghost pre_d = *delta;
        let ghost ps = self.hint_cells(p as int);
        let ghost qs = self.hint_cells(q as int);
        let ghost exq = qs.difference(ps);
        let ghost bp = self.hints@[p as int].bombs as int;
        let ghost bq = self.hints@[q as int].bombs as int;
        proof {
            assert(hint_ok(self.hints@[p as int], self.n()));
            assert(hint_ok(self.hints@[q as int], self.n()));
            lemma_sorted_strict_set_len(self.hints@[p as int].squares@);
            lemma_sorted_strict_set_len(self.hints@[q as int].squares@);
            lemma_sorted_strict_set_len(sqh2@);
            assert forall|c: usize| qs.contains(c) implies (c as int) < self.n() by {
                let k = choose|k: int|
                    0 <= k < self.hints@[q as int].squares@.len()
                        && self.hints@[q as int].squares@[k] == c;
            }
            assert(ps.subset_of(qs)) by {
                assert forall|c: usize| ps.contains(c) implies qs.contains(c) by {
                    assert(!ps.difference(qs).contains(c) ==> qs.contains(c));
                }
            }
            assert(qs =~= exq.union(ps));
            assert(exq.disjoint(ps));
            vstd::set_lib::lemma_len_subset(exq, qs);
            vstd::set_lib::lemma_len_subset(ps, qs);
            // every satisfying assignment fixes the difference
            let a0 = choose|a0: Seq<bool>| board_sat(*self, a0);
            assert(sat_hint(a0, self.hints@[p as int]));
            assert(sat_hint(a0, self.hints@[q as int]));
            lemma_bombs_in_disjoint_union(a0, exq, ps);
            assert(exq + ps == exq.union(ps));
            lemma_bombs_in_bounds(a0, exq);
            assert(0 <= bq - bp <= exq.len());
            assert(bq - bp <= sqh2@.len());
        }
        let bombs2 = self.hints[q].bombs - self.hints[p].bombs;
        let nh = Hint::new(bombs2, sqh2);
        delta.add_hint(nh);
        delta.rm_hint(q);
        proof {
            let fd = *delta;
            assert(nh.valid);
            assert forall|k: int|
                0 <= k < nh.squares@.len() implies (#[trigger] nh.squares@[k] as int)
                < self.n() by {
                assert(nh.squares@.to_set().contains(nh.squares@[k]));
                assert(qs.contains(nh.squares@[k]));
            }
            assert(hint_ok(nh, self.n()));
            assert forall|a: Seq<bool>|
                board_sat(*self, a) && delta_holds_for(a, pre_d) implies delta_holds_for(
                a,
                fd,
            ) by {
                assert(sat_hint(a, self.hints@[p as int]));
                assert(sat_hint(a, self.hints@[q as int]));
                lemma_bombs_in_disjoint_union(a, exq, ps);
                assert(exq + ps == exq.union(ps));
                assert(bombs_in(a, nh.squares@.to_set()) == bq - bp);
                assert forall|k: int|
                    0 <= k < fd.hints2add@.len() implies sat_hint(
                    a,
                    #[trigger] fd.hints2add@[k],
                ) by {
                    if k < pre_d.hints2add@.len() {
                        assert(fd.hints2add@[k] == pre_d.hints2add@[k]);
                    }
                }
            }
            if pre_d.spec_is_empty() {
                assert(fd.hints2rm@ =~= Seq::<usize>::empty().push(q));
                lemma_rm_sum_single(self.hints@, fd.hints2rm@, q);
                assert(fd.hints2add@ =~= Seq::<Hint>::empty().push(nh));
                lemma_add_sum_single(fd.hints2add@, nh);
                assert(self.hints@[q as int].squares@.len() == qs.len());
                assert(qs.len() == exq.len() + ps.len()) by {
                    vstd::set_lib::lemma_set_disjoint_lens(exq, ps);
                    assert(exq + ps == exq.union(ps));
                }
                assert(ps.len() >= 1) by {
                    assert(self.hints@[p as int].squares@.len() >= 1);
                    assert(ps.contains(self.hints@[p as int].squares@[0]));
                    vstd::set_lib::lemma_len_subset(ps, qs);
                    if ps.len() == 0 {
                        assert(ps =~= Set::<usize>::empty());
                    }
                }
                assert(delta_shrinks(*self, fd));
                assert(delta_wf(*self, fd));
            }
        }
    }

    /// The exact bounds on the bombs that the shared cells of a
    /// normalized, overlapping pair must hold.
    pub open spec fn pair_both_min(self, p: int, q: int) -> int {
        let bp = self.hints@[p].bombs as int;
        let bq = self.hints@[q].bombs as int;
        let ep = self.hint_cells(p).difference(self.hint_cells(q)).len() as int;
        let eq = self.hint_cells(q).difference(self.hint_cells(p)).len() as int;
        vstd::math::max(0, vstd::math::max(bp - ep, bq - eq))
    }

    pub open spec fn pair_both_max(self, p: int, q: int) -> int {
        let bp = self.hints@[p].bombs as int;
        let bq = self.hints@[q].bombs as int;
        let nb = self.hint_cells(p).intersect(self.hint_cells(q)).len() as int;
        vstd::math::min(nb, vstd::math::min(bp, bq))
    }

    /// Overlap split: when the pigeonhole bounds on the shared cells
    /// collapse to one value, the pair is replaced by three constraints:
    /// the shared cells with that exact count, and each side's exclusive
    /// cells with the remainder of its own count.
    #[verifier::loop_isolation(false)]
    #[verifier::rlimit(100)]
    fn rule_split(
        &self,
        p: usize,
        q: usize,
        sqh1: Vec<usize>,
        sqh2: Vec<usize>,
        sqboth: Vec<usize>,
        delta: &mut Delta,
    )
        requires
            self.wf(),
            consistent(*self),
            (p as int) < self.hints@.len(),
            (q as int) < self.hints@.len(),
            p != q,
            self.hints@[p as int].valid,
            self.hints@[q as int].valid,
            sorted_strict(sqh1@),
            sorted_strict(sqh2@),
            sorted_strict(sqboth@),
            sqh1@.to_set() == self.hint_cells(p as int).difference(self.hint_cells(q as int)),
            sqh2@.to_set() == self.hint_cells(q as int).difference(self.hint_cells(p as int)),
            sqboth@.to_set() == self.hint_cells(p as int).intersect(self.hint_cells(q as int)),
            sqh1@.len() > 0,
            sqh2@.len() > 0,
            sqboth@.len() > 0,
            self.pair_both_min(p as int, q as int) == self.pair_both_max(p as int, q as int),
        ensures
            ({
                let m = self.pair_both_min(p as int, q as int);
                let na = final(delta).hints2add@[old(delta).hints2add@.len() as int];
                let nb = final(delta).hints2add@[old(delta).hints2add@.len() as int + 1];
                let nc = final(delta).hints2add@[old(delta).hints2add@.len() as int + 2];
                &&& final(delta).hints2add@ == old(delta).hints2add@.push(na).push(nb).push(nc)
                &&& na.valid && nb.valid && nc.valid
                &&& na.bombs as int == m
                &&& na.squares@.to_set() == self.hint_cells(p as int).intersect(
                    self.hint_cells(q as int),
                )
                &&& nb.bombs as int == self.hints@[p as int].bombs - m
                &&& nb.squares@.to_set() == self.hint_cells(p as int).difference(
                    self.hint_cells(q as int),
                )
                &&& nc.bombs as int == self.hints@[q as int].bombs - m
                &&& nc.squares@.to_set() == self.hint_cells(q as int).difference(
                    self.hint_cells(p as int),
                )
                &&& sorted_strict(na.squares@) && sorted_strict(nb.squares@) && sorted_strict(
                    nc.squares@,
                )
            }),
            final(delta).hints2rm@ == old(delta).hints2rm@.push(p).push(q),
            final(delta).squares2bomb@ == old(delta).squares2bomb@,
            final(delta).squares2empty@ == old(delta).squares2empty@,
            old(delta).spec_is_empty() ==> delta_good(*self, *final(delta)),
            forall|a: Seq<bool>|
                board_sat(*self, a) && delta_holds_for(a, *old(delta)) ==> delta_holds_for(
                    a,
                    *final(delta),
                ),
    {
        let ghost pre_d = *delta;
        let ghost ps = self.hint_cells(p as int);
        let ghost qs = self.hint_cells(q as int);
        let ghost exp = ps.difference(qs);
        let ghost exq = qs.difference(ps);
        let ghost bo = ps.intersect(qs);
        let ghost bp = self.hints@[p as int].bombs as int;
        let ghost bq = self.hints@[q as int].bombs as int;
        let ghost m = self.pair_both_min(p as int, q as int);
        proof {
            assert(hint_ok(self.hints@[p as int], self.n()));
            assert(hint_ok(self.hints@[q as int], self.n()));
            lemma_sorted_strict_set_len(self.hints@[p as int].squares@);
            lemma_sorted_strict_set_len(self.hints@[q as int].squares@);
            lemma_sorted_strict_set_len(sqh1@);
            lemma_sorted_strict_set_len(sqh2@);
            lemma_sorted_strict_set_len(sqboth@);
            lemma_sorted_strict_len(self.hints@[p as int].squares@, self.n());
            lemma_sorted_strict_len(self.hints@[q as int].squares@, self.n());
            assert forall|c: usize| ps.contains(c) implies (c as int) < self.n() by {
                let k = choose|k: int|
                    0 <= k < self.hints@[p as int].squares@.len()
                        && self.hints@[p as int].squares@[k] == c;
            }
            assert forall|c: usize| qs.contains(c) implies (c as int) < self.n() by {
                let k = choose|k: int|
                    0 <= k < self.hints@[q as int].squares@.len()
                        && self.hints@[q as int].squares@[k] == c;
            }
            assert(ps =~= exp.union(bo));
            assert(exp.disjoint(bo));
            assert(qs =~= exq.union(bo));
            assert(exq.disjoint(bo));
            vstd::set_lib::lemma_set_disjoint_lens(exp, bo);
            vstd::set_lib::lemma_set_disjoint_lens(exq, bo);
            assert(exp + bo == exp.union(bo));
            assert(exq + bo == exq.union(bo));
            assert(ps.len() == exp.len() + bo.len());
            assert(qs.len() == exq.len() + bo.len());
            // the exact count in the shared part, for any satisfying assignment
            assert forall|a: Seq<bool>| board_sat(*self, a) implies bombs_in(a, bo) == m
                && bombs_in(a, exp) == bp - m && bombs_in(a, exq) == bq - m by {
                assert(sat_hint(a, self.hints@[p as int]));
                assert(sat_hint(a, self.hints@[q as int]));
                lemma_bombs_in_disjoint_union(a, exp, bo);
                lemma_bombs_in_disjoint_union(a, exq, bo);
                lemma_bombs_in_bounds(a, exp);
                lemma_bombs_in_bounds(a, exq);
                lemma_bombs_in_bounds(a, bo);
            }
            // those counts are in range, so the u32 arithmetic is safe
            let a0 = choose|a0: Seq<bool>| board_sat(*self, a0);
            lemma_bombs_in_bounds(a0, exp);
            lemma_bombs_in_bounds(a0, exq);
            lemma_bombs_in_bounds(a0, bo);
            assert(0 <= m <= bo.len());
            assert(0 <= bp - m <= exp.len());
            assert(0 <= bq - m <= exq.len());
        }
        let mut both_min: u32 = 0;
        if self.hints[p].bombs >= sqh1.len() as u32 {
            let d = self.hints[p].bombs - sqh1.len() as u32;
            if d > both_min {
                both_min = d;
            }
        }
        if self.hints[q].bombs >= sqh2.len() as u32 {
            let d = self.hints[q].bombs - sqh2.len() as u32;
            if d > both_min {
                both_min = d;
            }
        }
        proof {
            assert(both_min as int == m);
        }
        let na = Hint::new(both_min, sqboth);
        let nb = Hint::new(self.hints[p].bombs - both_min, sqh1);
        let nc = Hint::new(self.hints[q].bombs - both_min, sqh2);
        delta.add_hint(na);
        delta.add_hint(nb);
        delta.add_hint(nc);
        delta.rm_hint(p);
        delta.rm_hint(q);
        proof {
            let fd = *delta;
            assert(na.valid && nb.valid && nc.valid);
            assert forall|k: int|
                0 <= k < na.squares@.len() implies (#[trigger] na.squares@[k] as int)
                < self.n() by {
                assert(na.squares@.to_set().contains(na.squares@[k]));
                assert(ps.contains(na.squares@[k]));
            }
            assert forall|k: int|
                0 <= k < nb.squares@.len() implies (#[trigger] nb.squares@[k] as int)
                < self.n() by {
                assert(nb.squares@.to_set().contains(nb.squares@[k]));
                assert(ps.contains(nb.squares@[k]));
            }
            assert forall|k: int|
                0 <= k < nc.squares@.len() implies (#[trigger] nc.squares@[k] as int)
                < self.n() by {
                assert(nc.squares@.to_set().contains(nc.squares@[k]));
                assert(qs.contains(nc.squares@[k]));
            }
            assert(hint_ok(na, self.n()) && hint_ok(nb, self.n()) && hint_ok(nc, self.n()));
            assert(fd.hints2add@ == pre_d.hints2add@.push(na).push(nb).push(nc));
            assert forall|a: Seq<bool>|
                board_sat(*self, a) && delta_holds_for(a, pre_d) implies delta_holds_for(
                a,
                fd,
            ) by {
                assert(bombs_in(a, bo) == m && bombs_in(a, exp) == bp - m && bombs_in(a, exq)
                    == bq - m);
                assert(sat_hint(a, na));
                assert(sat_hint(a, nb));
                assert(sat_hint(a, nc));
                assert forall|k: int|
                    0 <= k < fd.hints2add@.len() implies sat_hint(
                    a,
                    #[trigger] fd.hints2add@[k],
                ) by {
                    if k < pre_d.hints2add@.len() {
                        assert(fd.hints2add@[k] == pre_d.hints2add@[k]);
                    } else if k == pre_d.hints2add@.len() {
                        assert(fd.hints2add@[k] == na);
                    } else if k == pre_d.hints2add@.len() + 1 {
                        assert(fd.hints2add@[k] == nb);
                    } else {
                        assert(fd.hints2add@[k] == nc);
                    }
                }
            }
            if pre_d.spec_is_empty() {
                lemma_rm_sum_push(self.hints@, Seq::<usize>::empty(), p);
                lemma_rm_sum_push(self.hints@, Seq::<usize>::empty().push(p), q);
                assert(fd.hints2rm@ == Seq::<usize>::empty().push(p).push(q));
                assert(rm_sum(self.hints@, fd.hints2rm@) == ps.len() + qs.len());
                lemma_add_sum_push(Seq::<Hint>::empty(), na);
                lemma_add_sum_push(Seq::<Hint>::empty().push(na), nb);
                lemma_add_sum_push(Seq::<Hint>::empty().push(na).push(nb), nc);
                assert(fd.hints2add@ == Seq::<Hint>::empty().push(na).push(nb).push(nc));
                assert(add_sum(fd.hints2add@) == bo.len() + exp.len() + exq.len());
                assert(bo.len() >= 1) by {
                    assert(bo.contains(sqboth@[0]));
                    if bo.len() == 0 {
                        assert(bo =~= Set::<usize>::empty());
                    }
                }
                assert(delta_shrinks(*self, fd));
                assert(fd.hints2rm@.no_duplicates());
                assert(delta_wf(*self, fd));
            }
        }
    }

    /// Pairwise deduction on two live constraints that share a cell.  The
    /// pair is first normalized so that the constraint with fewer cells
    /// comes first.  Identical cell sets retire the first constraint; a
    /// contained constraint retires the superset in favour of the
    /// difference; otherwise, when the pigeonhole bounds on the shared
    /// cells collapse, the pair is split into three constraints.  If no
    /// rule applies the delta is left untouched.
    #[verifier::loop_isolation(false)]
    #[verifier::rlimit(100)]
    pub fn process_hint_pair(&self, h1: usize, h2: usize, delta: &mut Delta)
        requires
            self.wf(),
            consistent(*self),
            (h1 as int) < self.hints@.len(),
            (h2 as int) < self.hints@.len(),
            h1 != h2,
            self.hints@[h1 as int].valid,
            self.hints@[h2 as int].valid,
            exists|c: usize|
                self.hint_cells(h1 as int).contains(c) && self.hint_cells(h2 as int).contains(c),
        ensures
            ({
                let p = self.pair_first(h1 as int, h2 as int);
                let q = self.pair_second(h1 as int, h2 as int);
                let ps = self.hint_cells(p);
                let qs = self.hint_cells(q);
                &&& (ps.subset_of(qs) && qs.subset_of(ps) ==> {
                    &&& final(delta).hints2rm@ == old(delta).hints2rm@.push(p as usize)
                    &&& final(delta).hints2add@ == old(delta).hints2add@
                    &&& final(delta).squares2bomb@ == old(delta).squares2bomb@
                    &&& final(delta).squares2empty@ == old(delta).squares2empty@
                })
                &&& (ps.subset_of(qs) && !qs.subset_of(ps) ==> {
                    let nh = final(delta).hints2add@.last();
                    &&& final(delta).hints2add@ == old(delta).hints2add@.push(nh)
                    &&& nh.valid
                    &&& nh.bombs as int == self.hints@[q].bombs - self.hints@[p].bombs
                    &&& sorted_strict(nh.squares@)
                    &&& nh.squares@.to_set() == qs.difference(ps)
                    &&& final(delta).hints2rm@ == old(delta).hints2rm@.push(q as usize)
                    &&& final(delta).squares2bomb@ == old(delta).squares2bomb@
                    &&& final(delta).squares2empty@ == old(delta).squares2empty@
                })
                &&& (!ps.subset_of(qs) && self.pair_both_min(p, q) == self.pair_both_max(p, q)
                    ==> {
                    let m = self.pair_both_min(p, q);
                    let na = final(delta).hints2add@[old(delta).hints2add@.len() as int];
                    let nb = final(delta).hints2add@[old(delta).hints2add@.len() as int + 1];
                    let nc = final(delta).hints2add@[old(delta).hints2add@.len() as int + 2];
                    &&& final(delta).hints2add@ == old(delta).hints2add@.push(na).push(nb).push(
                        nc,
                    )
                    &&& na.valid && nb.valid && nc.valid
                    &&& na.bombs as int == m && na.squares@.to_set() == ps.intersect(qs)
                    &&& nb.bombs as int == self.hints@[p].bombs - m && nb.squares@.to_set()
                        == ps.difference(qs)
                    &&& nc.bombs as int == self.hints@[q].bombs - m && nc.squares@.to_set()
                        == qs.difference(ps)
                    &&& sorted_strict(na.squares@) && sorted_strict(nb.squares@) && sorted_strict(
                        nc.squares@,
                    )
                    &&& final(delta).hints2rm@ == old(delta).hints2rm@.push(p as usize).push(
                        q as usize,
                    )
                    &&& final(delta).squares2bomb@ == old(delta).squares2bomb@
                    &&& final(delta).squares2empty@ == old(delta).squares2empty@
                })
                &&& (!ps.subset_of(qs) && self.pair_both_min(p, q) != self.pair_both_max(p, q)
                    ==> *final(delta) == *old(delta))
            }),
            old(delta).spec_is_empty() && !final(delta).spec_is_empty() ==> delta_good(
                *self,
                *final(delta),
            ),
            forall|a: Seq<bool>|
                board_sat(*self, a) && delta_holds_for(a, *old(delta)) ==> delta_holds_for(
                    a,
                    *final(delta),
                ),
    {
        let ghost pre_d = *delta;
        let (p, q) = if self.hints[h1].squares.len() > self.hints[h2].squares.len() {
            (h2, h1)
        } else {
            (h1, h2)
        };
        let ghost ps = self.hint_cells(p as int);
        let ghost qs = self.hint_cells(q as int);
        proof {
            assert(p as int == self.pair_first(h1 as int, h2 as int));
            assert(q as int == self.pair_second(h1 as int, h2 as int));
            assert(hint_ok(self.hints@[p as int], self.n()));
            assert(hint_ok(self.hints@[q as int], self.n()));
            lemma_sorted_strict_set_len(self.hints@[p as int].squares@);
            lemma_sorted_strict_set_len(self.hints@[q as int].squares@);
            lemma_sorted_strict_len(self.hints@[p as int].squares@, self.n());
            lemma_sorted_strict_len(self.hints@[q as int].squares@, self.n());
        }
        let (sqh1, pair_rest) = {
            let r = Hint::compare_squares(&self.hints[p], &self.hints[q]);
            (r.0, (r.1, r.2))
        };
        let (sqh2, sqboth) = pair_rest;
        proof {
            lemma_sorted_strict_set_len(sqh1@);
            lemma_sorted_strict_set_len(sqh2@);
            lemma_sorted_strict_set_len(sqboth@);
            let c = choose|c: usize|
                self.hint_cells(h1 as int).contains(c) && self.hint_cells(h2 as int).contains(c);
            assert(ps.intersect(qs).contains(c));
            assert(sqboth@.to_set().contains(c));
            assert(sqboth@.len() > 0) by {
                if sqboth@.len() == 0 {
                    assert(!sqboth@.contains(c));
                }
            }
            vstd::set_lib::lemma_len_subset(ps.intersect(qs), ps);
            vstd::set_lib::lemma_len_subset(ps.difference(qs), ps);
            vstd::set_lib::lemma_len_subset(qs.difference(ps), qs);
        }
        if sqh1.len() == 0 && sqh2.len() == 0 {
            // duplicated constraints: retire the first of the pair
            proof {
                assert(sqh1@.to_set() =~= Set::<usize>::empty());
                assert(sqh2@.to_set() =~= Set::<usize>::empty());
                assert(ps.subset_of(qs)) by {
                    assert forall|y: usize| ps.contains(y) implies qs.contains(y) by {
                        assert(!ps.difference(qs).contains(y) ==> qs.contains(y));
                    }
                }
                assert(qs.subset_of(ps)) by {
                    assert forall|y: usize| qs.contains(y) implies ps.contains(y) by {
                        assert(!qs.difference(ps).contains(y) ==> ps.contains(y));
                    }
                }
            }
            delta.rm_hint(p);
            proof {
                let fd = *delta;
                assert(delta_holds_for_unchanged(pre_d, fd));
                if pre_d.spec_is_empty() {
                    assert(fd.hints2rm@ =~= Seq::<usize>::empty().push(p));
                    lemma_rm_sum_single(self.hints@, fd.hints2rm@, p);
                    assert(fd.hints2add@ =~= Seq::<Hint>::empty());
                    assert(add_sum(fd.hints2add@) == 0);
                    assert(delta_shrinks(*self, fd));
                    assert(delta_wf(*self, fd));
                }
            }
            return ;
        }
        if sqh1.len() == 0 {
            // the first constraint's cells lie inside the second's
            proof {
                assert(sqh1@.to_set() =~= Set::<usize>::empty());
                assert(ps.difference(qs) =~= Set::<usize>::empty());
                assert(ps.subset_of(qs)) by {
                    assert forall|y: usize| ps.contains(y) implies qs.contains(y) by {
                        assert(!ps.difference(qs).contains(y) ==> qs.contains(y));
                    }
                }
                assert(!qs.subset_of(ps)) by {
                    assert(sqh2@.to_set().contains(sqh2@[0]));
                    assert(qs.difference(ps).contains(sqh2@[0]));
                }
            }
            self.rule_contain(p, q, sqh2, delta);
            return ;
        }
        proof {
            assert(!ps.subset_of(qs)) by {
                assert(sqh1@.to_set().contains(sqh1@[0]));
                assert(ps.difference(qs).contains(sqh1@[0]));
            }
            assert(sqh2@.len() > 0) by {
                if sqh2@.len() == 0 {
                    assert(sqh2@.to_set() =~= Set::<usize>::empty());
                    assert(qs.subset_of(ps)) by {
                        assert forall|y: usize| qs.contains(y) implies ps.contains(y) by {
                            assert(!qs.difference(ps).contains(y) ==> ps.contains(y));
                        }
                    }
                    crate::sets::lemma_subset_same_len(qs, ps);
                    assert(ps.difference(qs) =~= Set::<usize>::empty());
                    assert(sqh1@.to_set().contains(sqh1@[0]));
                }
            }
        }
        let bp = self.hints[p].bombs;
        let bq = self.hints[q].bombs;
        let mut both_min: u32 = 0;
        if bp >= sqh1.len() as u32 {
            let d = bp - sqh1.len() as u32;
            if d > both_min {
                both_min = d;
            }
        }
        if bq >= sqh2.len() as u32 {
            let d = bq - sqh2.len() as u32;
            if d > both_min {
                both_min = d;
            }
        }
        let mut both_max: u32 = sqboth.len() as u32;
        if bp < both_max {
            both_max = bp;
        }
        if bq < both_max {
            both_max = bq;
        }
        proof {
            assert(both_min as int == self.pair_both_min(p as int, q as int));
            assert(both_max as int == self.pair_both_max(p as int, q as int));
        }
        if both_min == both_max {
            self.rule_split(p, q, sqh1, sqh2, sqboth, delta);
        }
    }

    /// Apply a batch in one step: retire the scheduled constraints (their
    /// trailing tombstones trimmed), register the derived ones, resolve
    /// the scheduled cells (a cell whose state changes is re-queued), and
    /// clear the batch.  The final store is the old one with the listed
    /// handles retired and the listed constraints appended; the scheduled
    /// cells end up resolved as scheduled and every other cell keeps its
    /// state.  Every assignment that satisfied the board before still
    /// satisfies it afterwards.
    #[verifier::loop_isolation(false)]
    #[verifier::rlimit(100)]
    pub fn update_delta(&mut self, delta: &mut Delta)
        requires
            old(self).wf(),
            consistent(*old(self)),
            delta_wf(*old(self), *old(delta)),
            delta_sound(*old(self), *old(delta)),
        ensures
            final(self).wf(),
            final(self).w == old(self).w,
            final(self).h == old(self).h,
            final(self).bombs == old(self).bombs,
            final(self).squares@.len() == old(self).squares@.len(),
            final(delta).spec_is_empty(),
            final(self).hints@ == (if old(delta).hints2rm@.len() == 0 {
                old(self).hints@
            } else {
                trim_live(retire_all(old(self).hints@, old(delta).hints2rm@))
            }) + old(delta).hints2add@.reverse(),
            forall|k: int|
                0 <= k < old(delta).squares2bomb@.len()
                    ==> final(self).squares@[#[trigger] old(delta).squares2bomb@[k] as int].state
                    == SquareState::Bomb && (old(self).squares@[old(delta).squares2bomb@[k] as int].state
                    != SquareState::Bomb ==> final(self).squares@[old(delta).squares2bomb@[k] as int].on_stack),
            forall|k: int|
                0 <= k < old(delta).squares2empty@.len()
                    ==> final(self).squares@[#[trigger] old(delta).squares2empty@[k] as int].state
                    == SquareState::Empty && (old(self).squares@[old(delta).squares2empty@[k] as int].state
                    != SquareState::Empty ==> final(self).squares@[old(delta).squares2empty@[k] as int].on_stack),
            forall|c: int|
                0 <= c < old(self).n() && !old(delta).squares2bomb@.contains(c as usize) && !old(
                    delta,
                ).squares2empty@.contains(c as usize) ==> (#[trigger] final(self).squares@[c]).state
                    == old(self).squares@[c].state,
            forall|c: int|
                0 <= c < old(self).n() && old(self).squares@[c].on_stack
                    ==> (#[trigger] final(self).squares@[c]).on_stack,
            queue_ok(*old(self)) ==> queue_ok(*final(self)),
            forall|k: int|
                0 <= k < old(self).stack@.len() ==> final(self).stack@[k] == old(self).stack@[k],
            final(self).stack@.len() >= old(self).stack@.len(),
            forall|m: int, k: int|
                0 <= m < old(delta).hints2add@.len() && 0 <= k < old(
                    delta,
                ).hints2add@[m].squares@.len() ==> final(self).squares@[#[trigger] old(
                    delta,
                ).hints2add@[m].squares@[k] as int].on_stack,
            old(delta).hints2add@.len() == 0 && old(delta).squares2empty@.len() == 0
                ==> forall|k: int| #![trigger final(self).stack@[k]]
                old(self).stack@.len() <= k < final(self).stack@.len() ==> old(
                    delta,
                ).squares2bomb@.contains(final(self).stack@[k]),
            forall|c: int|
                0 <= c < old(self).n() && old(self).squares@[c].state != SquareState::Unknown
                    ==> final(self).squares@[c].state == old(self).squares@[c].state,
            forall|a: Seq<bool>| board_sat(*old(self), a) ==> board_sat(*final(self), a),
            consistent(*final(self)),
            hsum(final(self).hints@) == hsum(old(self).hints@) - rm_sum(
                old(self).hints@,
                old(delta).hints2rm@,
            ) + add_sum(old(delta).hints2add@),
    {
        let ghost orig = *self;
        let ghost d0 = *delta;
        let nhints = self.hints.len();
        let nrm = delta.hints2rm.len();
        let mut i: usize = 0;
        proof {
            assert(orig.hints@.len() == nhints as int);
            assert(d0.hints2rm@.take(0) =~= Seq::<usize>::empty());
        }
        while i < nrm
            invariant
                0 <= i <= nrm,
                *delta == d0,
                self.wf(),
                self.w == orig.w,
                self.h == orig.h,
                self.bombs == orig.bombs,
                self.squares@.len() == orig.squares@.len(),
                self.stack@ == orig.stack@,
                forall|c: int|
                    0 <= c < orig.n() ==> (#[trigger] self.squares@[c]).state
                        == orig.squares@[c].state && self.squares@[c].on_stack
                        == orig.squares@[c].on_stack,
                self.hints@ == (if i == 0 {
                    orig.hints@
                } else {
                    trim_live(retire_all(orig.hints@, d0.hints2rm@.take(i as int)))
                }),
                forall|k: int|
                    i <= k < nrm ==> (#[trigger] d0.hints2rm@[k] as int) < self.hints@.len()
                        && self.hints@[d0.hints2rm@[k] as int] == orig.hints@[d0.hints2rm@[k] as int]
                        && self.hints@[d0.hints2rm@[k] as int].valid,
                forall|a: Seq<bool>| board_sat(orig, a) ==> board_sat(*self, a),
                hsum(self.hints@) == hsum(orig.hints@) - rm_sum(
                    orig.hints@,
                    d0.hints2rm@.take(i as int),
                ),
            decreases nrm - i,
        {
            let hh = delta.hints2rm[i];
            let ghost mid = *self;
            self.rm_hint(hh);
            i += 1;
            proof {
                assert(d0.hints2rm@.take(i as int) =~= d0.hints2rm@.take(i as int - 1).push(hh));
                lemma_rm_sum_push(orig.hints@, d0.hints2rm@.take(i as int - 1), hh);
                assert(mid.hints@[hh as int] == orig.hints@[hh as int]);
                let ra0 = retire_all(orig.hints@, d0.hints2rm@.take(i as int - 1));
                let ra1 = retire_all(orig.hints@, d0.hints2rm@.take(i as int));
                lemma_trim_live_props(ra0);
                assert forall|j: int|
                    0 <= j < d0.hints2rm@.take(i as int - 1).len()
                        implies #[trigger] d0.hints2rm@.take(i as int - 1)[j] != hh by {
                    assert(d0.hints2rm@[j] != d0.hints2rm@[i - 1]);
                }
                assert(ra1 =~= ra0.update(hh as int, retired(orig.hints@[hh as int]))) by {
                    assert forall|j: int| 0 <= j < ra1.len() implies ra1[j] == ra0.update(
                        hh as int,
                        retired(orig.hints@[hh as int]),
                    )[j] by {
                        lemma_take_contains_step(d0.hints2rm@, i as int, j as usize);
                        assert(d0.hints2rm@[i - 1] == hh);
                        if j == hh as int {
                            lemma_nodup_take_excludes(d0.hints2rm@, i as int);
                            assert(d0.hints2rm@.take(i as int).contains(hh));
                            assert(ra1[j] == retired(orig.hints@[j]));
                        } else {
                            assert(j < nhints as int);
                            assert(j as usize != hh);
                            assert(d0.hints2rm@.take(i as int).contains(j as usize)
                                == d0.hints2rm@.take(i as int - 1).contains(j as usize));
                            assert(ra1[j] == ra0[j]);
                        }
                    }
                }
                // the new store is exactly the trimmed, retired store
                assert(self.hints@ == trim_live(ra1)) by {
                    lemma_trim_live_unique(self.hints@, ra1);
                }
                assert forall|k: int|
                    i <= k < nrm implies (#[trigger] d0.hints2rm@[k] as int) < self.hints@.len()
                    && self.hints@[d0.hints2rm@[k] as int] == orig.hints@[d0.hints2rm@[k] as int]
                    && self.hints@[d0.hints2rm@[k] as int].valid by {
                    assert(d0.hints2rm@[k] != hh);
                    assert(mid.hints@[d0.hints2rm@[k] as int].valid);
                }
            }
        }
        proof {
            assert(d0.hints2rm@.take(nrm as int) =~= d0.hints2rm@);
            assert(d0.hints2add@.take(d0.hints2add@.len() as int) =~= d0.hints2add@);
            assert(d0.hints2add@.skip(d0.hints2add@.len() as int).reverse()
                =~= Seq::<Hint>::empty());
        }
        let ghost mid_hints = self.hints@;
        while delta.hints2add.len() > 0
            invariant
                self.wf(),
                self.w == orig.w,
                self.h == orig.h,
                self.bombs == orig.bombs,
                self.squares@.len() == orig.squares@.len(),
                delta.hints2rm@ == d0.hints2rm@,
                delta.squares2bomb@ == d0.squares2bomb@,
                delta.squares2empty@ == d0.squares2empty@,
                delta.hints2add@.len() <= d0.hints2add@.len(),
                delta.hints2add@ == d0.hints2add@.take(delta.hints2add@.len() as int),
                self.hints@ == mid_hints + d0.hints2add@.skip(
                    delta.hints2add@.len() as int,
                ).reverse(),
                forall|c: int|
                    0 <= c < orig.n() ==> (#[trigger] self.squares@[c]).state
                        == orig.squares@[c].state,
                forall|c: int|
                    0 <= c < orig.n() && orig.squares@[c].on_stack
                        ==> (#[trigger] self.squares@[c]).on_stack,
                queue_ok(orig) ==> queue_ok(*self),
                forall|k: int|
                    0 <= k < orig.stack@.len() ==> self.stack@[k] == orig.stack@[k],
                self.stack@.len() >= orig.stack@.len(),
                d0.hints2add@.len() == 0 ==> self.stack@ == orig.stack@,
                forall|m: int, k: int|
                    delta.hints2add@.len() <= m < d0.hints2add@.len() && 0 <= k
                        < d0.hints2add@[m].squares@.len()
                        ==> self.squares@[#[trigger] d0.hints2add@[m].squares@[k] as int].on_stack,
                forall|a: Seq<bool>| board_sat(orig, a) ==> board_sat(*self, a),
                hsum(self.hints@) == hsum(orig.hints@) - rm_sum(orig.hints@, d0.hints2rm@)
                    + add_sum(d0.hints2add@) - add_sum(delta.hints2add@),
            decreases delta.hints2add@.len(),
        {
            let ghost ll = delta.hints2add@.len() as int;
            let hint = delta.hints2add.pop().unwrap();
            proof {
                assert(hint == d0.hints2add@[ll - 1]);
                assert(delta.hints2add@ =~= d0.hints2add@.take(ll - 1));
                assert(d0.hints2add@.take(ll) =~= d0.hints2add@.take(ll - 1).push(hint));
                lemma_add_sum_push(d0.hints2add@.take(ll - 1), hint);
                assert(hint.valid && hint_ok(hint, orig.n()));
            }
            let ghost mid = *self;
            self.add_hint(hint);
            proof {
                assert(self.hints@ =~= mid_hints + d0.hints2add@.skip(ll - 1).reverse()) by {
                    assert(d0.hints2add@.skip(ll - 1).reverse() =~= d0.hints2add@.skip(
                        ll,
                    ).reverse().push(hint));
                }
                assert forall|a: Seq<bool>| board_sat(orig, a) implies board_sat(*self, a) by {
                    assert(board_sat(mid, a));
                    assert(delta_holds_for(a, d0));
                    assert(sat_hint(a, d0.hints2add@[ll - 1]));
                }
                assert forall|m: int, k: int|
                    ll - 1 <= m < d0.hints2add@.len() && 0 <= k
                        < d0.hints2add@[m].squares@.len()
                        implies self.squares@[#[trigger] d0.hints2add@[m].squares@[k] as int].on_stack by {
                    assert(hint_ok(d0.hints2add@[m], orig.n()));
                    if m == ll - 1 {
                        assert(self.squares@[hint.squares@[k] as int].on_stack);
                    } else {
                        assert(mid.squares@[d0.hints2add@[m].squares@[k] as int].on_stack);
                    }
                }
            }
        }
        proof {
            assert(delta.hints2add@.len() == 0);
            assert(d0.hints2add@.skip(0) =~= d0.hints2add@);
            assert(self.hints@ == mid_hints + d0.hints2add@.reverse());
        }
        let ghost post_add = *self;
        let nb = delta.squares2bomb.len();
        let mut i: usize = 0;
        while i < nb
            invariant
                0 <= i <= nb,
                nb as int == d0.squares2bomb@.len(),
                self.wf(),
                self.w == orig.w,
                self.h == orig.h,
                self.bombs == orig.bombs,
                self.squares@.len() == orig.squares@.len(),
                *delta == *old(delta) || true,
                delta.hints2rm@ == d0.hints2rm@,
                delta.squares2bomb@ == d0.squares2bomb@,
                delta.squares2empty@ == d0.squares2empty@,
                delta.hints2add@.len() == 0,
                self.hints@ == post_add.hints@,
                forall|k: int|
                    0 <= k < i ==> self.squares@[#[trigger] d0.squares2bomb@[k] as int].state
                        == SquareState::Bomb && (orig.squares@[d0.squares2bomb@[k] as int].state
                        != SquareState::Bomb ==> self.squares@[d0.squares2bomb@[k] as int].on_stack),
                forall|c: int|
                    0 <= c < orig.n() && !d0.squares2bomb@.take(i as int).contains(c as usize)
                        ==> (#[trigger] self.squares@[c]).state == orig.squares@[c].state,
                forall|c: int|
                    0 <= c < orig.n() && post_add.squares@[c].on_stack
                        ==> (#[trigger] self.squares@[c]).on_stack,
                queue_ok(post_add) ==> queue_ok(*self),
                forall|k: int|
                    0 <= k < post_add.stack@.len() ==> self.stack@[k] == post_add.stack@[k],
                self.stack@.len() >= post_add.stack@.len(),
                d0.hints2add@.len() == 0 && d0.squares2empty@.len() == 0 ==> (post_add.stack@
                    == orig.stack@ && forall|k: int| #![trigger self.stack@[k]]
                    orig.stack@.len() <= k < self.stack@.len() ==> d0.squares2bomb@.contains(
                        self.stack@[k],
                    )),
                forall|m: int, k: int|
                    0 <= m < d0.hints2add@.len() && 0 <= k < d0.hints2add@[m].squares@.len()
                        ==> self.squares@[#[trigger] d0.hints2add@[m].squares@[k] as int].on_stack,
                forall|a: Seq<bool>| board_sat(orig, a) ==> board_sat(*self, a),
            decreases nb - i,
        {
            let s = delta.squares2bomb[i];
            proof {
                let a0 = choose|a0: Seq<bool>| board_sat(orig, a0);
                assert(board_sat(*self, a0));
                assert(delta_holds_for(a0, d0));
                assert(a0[d0.squares2bomb@[i as int] as int]);
                assert(self.squares@[s as int].state != SquareState::Empty);
            }
            let ghost mid = *self;
            self.set_square_state(s, SquareState::Bomb);
            i += 1;
            proof {
                assert(d0.squares2bomb@.take(i as int) =~= d0.squares2bomb@.take(
                    i as int - 1,
                ).push(s));
                assert forall|c: int|
                    0 <= c < orig.n() && !d0.squares2bomb@.take(i as int).contains(c as usize)
                        implies (#[trigger] self.squares@[c]).state
                    == orig.squares@[c].state by {
                    assert(d0.squares2bomb@.take(i as int)[i - 1] == s);
                    assert(d0.squares2bomb@.take(i as int).contains(s));
                    assert(c != s as int);
                    assert(!d0.squares2bomb@.take(i as int - 1).contains(c as usize)) by {
                        if d0.squares2bomb@.take(i as int - 1).contains(c as usize) {
                            let w = choose|w: int|
                                0 <= w < i - 1 && (#[trigger] d0.squares2bomb@.take(
                                    i as int - 1,
                                )[w]) == c as usize;
                            assert(d0.squares2bomb@.take(i as int)[w] == c as usize);
                        }
                    }
                }
                assert forall|k: int|
                    0 <= k < i implies self.squares@[#[trigger] d0.squares2bomb@[k] as int].state
                    == SquareState::Bomb && (orig.squares@[d0.squares2bomb@[k] as int].state
                    != SquareState::Bomb ==> self.squares@[d0.squares2bomb@[k] as int].on_stack) by {
                    if k < i - 1 {
                        assert(mid.squares@[d0.squares2bomb@[k] as int].state
                            == SquareState::Bomb);
                    }
                }
                assert forall|a: Seq<bool>| board_sat(orig, a) implies board_sat(*self, a) by {
                    assert(board_sat(mid, a));
                    assert(delta_holds_for(a, d0));
                    assert(a[d0.squares2bomb@[i - 1] as int]);
                }
                if d0.hints2add@.len() == 0 && d0.squares2empty@.len() == 0 {
                    assert forall|k: int| #![trigger self.stack@[k]]
                        orig.stack@.len() <= k < self.stack@.len()
                            implies d0.squares2bomb@.contains(self.stack@[k]) by {
                        if k < mid.stack@.len() {
                            assert(self.stack@[k] == mid.stack@[k]);
                        } else {
                            assert(self.stack@[k] == s);
                            assert(d0.squares2bomb@[i - 1] == s);
                        }
                    }
                }
            }
        }
        let ghost post_bomb = *self;
        let ne = delta.squares2empty.len();
        let mut i: usize = 0;
        while i < ne
            invariant
                0 <= i <= ne,
                ne as int == d0.squares2empty@.len(),
                self.wf(),
                self.w == orig.w,
                self.h == orig.h,
                self.bombs == orig.bombs,
                self.squares@.len() == orig.squares@.len(),
                delta.hints2rm@ == d0.hints2rm@,
                delta.squares2bomb@ == d0.squares2bomb@,
                delta.squares2empty@ == d0.squares2empty@,
                delta.hints2add@.len() == 0,
                self.hints@ == post_add.hints@,
                forall|k: int|
                    0 <= k < d0.squares2bomb@.len()
                        ==> self.squares@[#[trigger] d0.squares2bomb@[k] as int].state
                        == SquareState::Bomb && (orig.squares@[d0.squares2bomb@[k] as int].state
                        != SquareState::Bomb ==> self.squares@[d0.squares2bomb@[k] as int].on_stack),
                forall|k: int|
                    0 <= k < i ==> self.squares@[#[trigger] d0.squares2empty@[k] as int].state
                        == SquareState::Empty && (orig.squares@[d0.squares2empty@[k] as int].state
                        != SquareState::Empty ==> self.squares@[d0.squares2empty@[k] as int].on_stack),
                forall|c: int|
                    0 <= c < orig.n() && !d0.squares2bomb@.contains(c as usize)
                        && !d0.squares2empty@.take(i as int).contains(c as usize)
                        ==> (#[trigger] self.squares@[c]).state == orig.squares@[c].state,
                forall|c: int|
                    0 <= c < orig.n() && post_bomb.squares@[c].on_stack
                        ==> (#[trigger] self.squares@[c]).on_stack,
                queue_ok(post_bomb) ==> queue_ok(*self),
                forall|k: int|
                    0 <= k < post_bomb.stack@.len() ==> self.stack@[k] == post_bomb.stack@[k],
                self.stack@.len() >= post_bomb.stack@.len(),
                d0.hints2add@.len() == 0 && d0.squares2empty@.len() == 0 ==> (post_bomb.stack@
                    == self.stack@ && post_add.stack@ == orig.stack@ && forall|k: int|
                    #![trigger self.stack@[k]]
                    orig.stack@.len() <= k < self.stack@.len() ==> d0.squares2bomb@.contains(
                        self.stack@[k],
                    )),
                forall|m: int, k: int|
                    0 <= m < d0.hints2add@.len() && 0 <= k < d0.hints2add@[m].squares@.len()
                        ==> self.squares@[#[trigger] d0.hints2add@[m].squares@[k] as int].on_stack,
                forall|a: Seq<bool>| board_sat(orig, a) ==> board_sat(*self, a),
            decreases ne - i,
        {
            let s = delta.squares2empty[i];
            proof {
                let a0 = choose|a0: Seq<bool>| board_sat(orig, a0);
                assert(board_sat(*self, a0));
                assert(delta_holds_for(a0, d0));
                assert(!a0[d0.squares2empty@[i as int] as int]);
                assert(self.squares@[s as int].state != SquareState::Bomb);
            }
            let ghost mid = *self;
            self.set_square_state(s, SquareState::Empty);
            i += 1;
            proof {
                assert(d0.squares2empty@.take(i as int) =~= d0.squares2empty@.take(
                    i as int - 1,
                ).push(s));
                let a0 = choose|a0: Seq<bool>| board_sat(orig, a0);
                assert(delta_holds_for(a0, d0));
                assert forall|k: int|
                    0 <= k < d0.squares2bomb@.len()
                        implies self.squares@[#[trigger] d0.squares2bomb@[k] as int].state
                    == SquareState::Bomb && (orig.squares@[d0.squares2bomb@[k] as int].state
                    != SquareState::Bomb ==> self.squares@[d0.squares2bomb@[k] as int].on_stack) by {
                    assert(a0[d0.squares2bomb@[k] as int]);
                    assert(!a0[d0.squares2empty@[i - 1] as int]);
                    assert(d0.squares2bomb@[k] != s);
                }
                assert forall|k: int|
                    0 <= k < i implies self.squares@[#[trigger] d0.squares2empty@[k] as int].state
                    == SquareState::Empty && (orig.squares@[d0.squares2empty@[k] as int].state
                    != SquareState::Empty ==> self.squares@[d0.squares2empty@[k] as int].on_stack) by {
                    if k < i - 1 {
                        assert(mid.squares@[d0.squares2empty@[k] as int].state
                            == SquareState::Empty);
                    }
                }
                assert forall|c: int|
                    0 <= c < orig.n() && !d0.squares2bomb@.contains(c as usize)
                        && !d0.squares2empty@.take(i as int).contains(c as usize)
                        implies (#[trigger] self.squares@[c]).state == orig.squares@[c].state by {
                    assert(d0.squares2empty@.take(i as int)[i - 1] == s);
                    assert(d0.squares2empty@.take(i as int).contains(s));
                    assert(c != s as int);
                    assert(!d0.squares2empty@.take(i as int - 1).contains(c as usize)) by {
                        if d0.squares2empty@.take(i as int - 1).contains(c as usize) {
                            let w = choose|w: int|
                                0 <= w < i - 1 && (#[trigger] d0.squares2empty@.take(
                                    i as int - 1,
                                )[w]) == c as usize;
                            assert(d0.squares2empty@.take(i as int)[w] == c as usize);
                        }
                    }
                }
                assert forall|a: Seq<bool>| board_sat(orig, a) implies board_sat(*self, a) by {
                    assert(board_sat(mid, a));
                    assert(delta_holds_for(a, d0));
                    assert(!a[d0.squares2empty@[i - 1] as int]);
                }

            }
        }
        delta.reset();
        proof {
            assert(d0.squares2empty@.take(ne as int) =~= d0.squares2empty@);
            assert(d0.squares2bomb@.take(nb as int) =~= d0.squares2bomb@);
            assert forall|c: int|
                0 <= c < orig.n() && !d0.squares2bomb@.contains(c as usize)
                    && !d0.squares2empty@.contains(c as usize) implies (
            #[trigger] self.squares@[c]).state == orig.squares@[c].state by {}

        }
    }

    /// The propagation engine.  Pop a cell from the worklist; try the
    /// single-constraint rules against each constraint mentioning it, in
    /// stored order, stopping at the first batch produced; if none, try
    /// the pairwise rule on every pair of those constraints in ascending
    /// index order.  A produced batch is applied at once and the cell
    /// re-queued.  When the worklist runs dry, one global counting pass
    /// runs and its batch is applied.  The engine never changes a
    /// resolved cell, every bomb assignment satisfying the initial board
    /// still satisfies the final one, and it stops at a fixpoint: no rule
    /// applies anywhere off the worklist, the global rule is spent, and
    /// the only cells left queued are bombs the global pass resolved.
    #[verifier::loop_isolation(false)]
    #[verifier::rlimit(100)]
    pub fn process_stack(&mut self)
        requires
            old(self).wf(),
            consistent(*old(self)),
            queue_ok(*old(self)),
            old(self).at_fixpoint(),
        ensures
            final(self).wf(),
            final(self).w == old(self).w,
            final(self).h == old(self).h,
            final(self).bombs == old(self).bombs,
            final(self).squares@.len() == old(self).squares@.len(),
            forall|c: int|
                0 <= c < old(self).n() && old(self).squares@[c].state != SquareState::Unknown
                    ==> final(self).squares@[c].state == old(self).squares@[c].state,
            forall|a: Seq<bool>| board_sat(*old(self), a) ==> board_sat(*final(self), a),
            consistent(*final(self)),
            queue_ok(*final(self)),
            final(self).at_fixpoint(),
            !final(self).pigeonhole_applies(),
            forall|k: int|
                0 <= k < final(self).stack@.len()
                    ==> final(self).squares@[#[trigger] final(self).stack@[k] as int].state
                    == SquareState::Bomb,
    {
        let ghost orig = *self;
        let mut delta = Delta::new();
        while self.stack.len() > 0
            invariant
                self.wf(),
                self.w == orig.w,
                self.h == orig.h,
                self.bombs == orig.bombs,
                self.squares@.len() == orig.squares@.len(),
                delta.spec_is_empty(),
                queue_ok(*self),
                self.at_fixpoint(),
                forall|c: int|
                    0 <= c < orig.n() && orig.squares@[c].state != SquareState::Unknown
                        ==> (#[trigger] self.squares@[c]).state == orig.squares@[c].state,
                forall|a: Seq<bool>| board_sat(orig, a) ==> board_sat(*self, a),
            decreases hsum(self.hints@), self.stack@.len(),
        {
            let ghost at_top = *self;
            proof {
                lemma_hsum_nonneg(self.hints@);
            }
            let s = self.stack.pop().unwrap();
            proof {
                assert(at_top.stack@[at_top.stack@.len() - 1] == s);
                assert((s as int) < self.n());
            }
            let ghost popped = *self;
            {
                let qq = &mut self.squares[s];
                qq.on_stack = false;
            }
            let ghost bcur = *self;
            proof {
                assert forall|c: int| 0 <= c < self.n() implies self.square_links_ok(c) by {
                    assert(at_top.square_links_ok(c));
                    assert(self.squares@[c].hints@ == at_top.squares@[c].hints@);
                }
                assert(self.links_ok()) by {
                    assert forall|h2: int, k2: int|
                        0 <= h2 < self.hints@.len() && self.hints@[h2].valid && 0 <= k2
                            < self.hints@[h2].squares@.len() implies self.squares@[#[trigger] self.hints@[h2].squares@[k2] as int].hints@.contains(
                        h2 as usize,
                    ) by {
                        assert(at_top.hints@[h2].valid);
                        assert((at_top.hints@[h2].squares@[k2] as int) < at_top.n());
                    }
                }
                assert(self.wf());
                assert forall|a: Seq<bool>| board_sat(orig, a) implies board_sat(*self, a) by {
                    assert(board_sat(at_top, a));
                    assert forall|c: int|
                        0 <= c < self.squares@.len() implies (#[trigger] self.squares@[c]).state
                        == at_top.squares@[c].state by {}
                }
                assert(hsum(self.hints@) == hsum(at_top.hints@));
                // popping keeps the worklist flag honest
                assert(queue_ok(bcur)) by {
                    assert forall|c: int|
                        0 <= c < bcur.n() && (#[trigger] bcur.squares@[c]).on_stack
                        implies bcur.stack@.contains(c as usize) by {
                        assert(at_top.squares@[c].on_stack);
                        assert(at_top.stack@.contains(c as usize));
                        let k = choose|k: int|
                            0 <= k < at_top.stack@.len() && at_top.stack@[k] == c as usize;
                        assert(k < at_top.stack@.len() - 1);
                        assert(bcur.stack@[k] == c as usize);
                    }
                }
            }
            let hl_len = self.squares[s].hints.len();
            let ghost hl = self.squares@[s as int].hints@;
            let mut fired = false;
            let mut k: usize = 0;
            while k < hl_len && !fired
                invariant
                    0 <= k <= hl_len,
                    *self == bcur,
                    hl_len as int == hl.len(),
                    hl == self.squares@[s as int].hints@,
                    !fired ==> delta.spec_is_empty(),
                    !fired ==> forall|k2: int|
                        0 <= k2 < k ==> self.no_single_fire(#[trigger] hl[k2] as int),
                    fired ==> delta_good(*self, delta) && !delta.spec_is_empty(),
                decreases hl_len - k,
            {
                let hh = self.squares[s].hints[k];
                proof {
                    assert(self.square_links_ok(s as int));
                    assert(consistent(*self)) by {
                        let a0 = choose|a0: Seq<bool>| board_sat(orig, a0);
                        assert(board_sat(*self, a0));
                    }
                }
                self.process_hint(hh, &mut delta);
                fired = !delta.is_empty();
                proof {
                    if !fired {
                        assert(self.no_single_fire(hh as int)) by {
                            if !self.all_unknown(hh as int) {
                                assert(delta.hints2rm@.len() > 0);
                            }
                            if self.all_unknown(hh as int) && self.hints@[hh as int].bombs == 0 {
                                assert(delta.hints2rm@.len() > 0);
                            }
                            if self.all_unknown(hh as int) && self.hints@[hh as int].bombs != 0
                                && self.hints@[hh as int].bombs as int
                                == self.hints@[hh as int].squares@.len() {
                                assert(delta.hints2rm@.len() > 0);
                            }
                        }
                    }
                }
                k += 1;
            }
            if !fired {
                let mut i: usize = 0;
                while i < hl_len && !fired
                    invariant
                        0 <= i <= hl_len,
                        *self == bcur,
                        hl_len as int == hl.len(),
                        hl == self.squares@[s as int].hints@,
                        !fired ==> delta.spec_is_empty(),
                        !fired ==> forall|i2: int, j2: int|
                            0 <= i2 < i && i2 < j2 < hl.len() ==> self.no_pair_fire(
                                #[trigger] hl[i2] as int,
                                #[trigger] hl[j2] as int,
                            ),
                        fired ==> delta_good(*self, delta) && !delta.spec_is_empty(),
                    decreases hl_len - i,
                {
                    let mut j: usize = i + 1;
                    while j < hl_len && !fired
                        invariant
                            0 <= i < hl_len,
                            i < j <= hl_len,
                            *self == bcur,
                            hl_len as int == hl.len(),
                            hl == self.squares@[s as int].hints@,
                            !fired ==> delta.spec_is_empty(),
                            !fired ==> forall|i2: int, j2: int|
                                0 <= i2 < i && i2 < j2 < hl.len() ==> self.no_pair_fire(
                                    #[trigger] hl[i2] as int,
                                    #[trigger] hl[j2] as int,
                                ),
                            !fired ==> forall|j2: int|
                                i < j2 < j ==> self.no_pair_fire(
                                    hl[i as int] as int,
                                    #[trigger] hl[j2] as int,
                                ),
                            fired ==> delta_good(*self, delta) && !delta.spec_is_empty(),
                        decreases hl_len - j,
                    {
                        let ha = self.squares[s].hints[i];
                        let hb = self.squares[s].hints[j];
                        proof {
                            assert(self.square_links_ok(s as int));
                            assert(ha != hb);
                            assert(self.hint_cells(ha as int).contains(s));
                            assert(self.hint_cells(hb as int).contains(s));
                            assert(consistent(*self)) by {
                                let a0 = choose|a0: Seq<bool>| board_sat(orig, a0);
                                assert(board_sat(*self, a0));
                            }
                        }
                        self.process_hint_pair(ha, hb, &mut delta);
                        fired = !delta.is_empty();
                        proof {
                            if !fired {
                                let p = self.pair_first(ha as int, hb as int);
                                let q = self.pair_second(ha as int, hb as int);
                                assert(!self.hint_cells(p).subset_of(self.hint_cells(q))
                                    && self.pair_both_min(p, q) != self.pair_both_max(p, q)) by {
                                    if self.hint_cells(p).subset_of(self.hint_cells(q)) {
                                        assert(delta.hints2rm@.len() > 0);
                                    }
                                    if !self.hint_cells(p).subset_of(self.hint_cells(q))
                                        && self.pair_both_min(p, q) == self.pair_both_max(p, q) {
                                        assert(delta.hints2rm@.len() > 0);
                                    }
                                }
                                lemma_pair_nofire(*self, ha as int, hb as int);
                            }
                        }
                        j += 1;
                    }
                    i += 1;
                }
            }
            if fired {
                let ghost dpre = delta;
                self.update_delta(&mut delta);
                let ghost mid = *self;
                self.update_square(s);
                proof {
                    assert(self.wf()) by {
                        lemma_wf_after_queue(mid, *self, s);
                    }
                    assert(hsum(self.hints@) < hsum(at_top.hints@));
                    lemma_hsum_nonneg(self.hints@);
                    // the batch clauses, read against the state at the top
                    // of the iteration (states and store agree with the
                    // popped state; only this cell's flag differs)
                    assert(delta_wf(at_top, dpre)) by {
                        assert(at_top.hints@ == bcur.hints@ && at_top.n() == bcur.n());
                    }
                    assert forall|c: int|
                        0 <= c < at_top.n() && c != s as int && at_top.squares@[c].on_stack
                            implies (#[trigger] mid.squares@[c]).on_stack by {
                        assert(bcur.squares@[c].on_stack);
                    }
                    assert forall|c: int|
                        0 <= c < at_top.n() && !dpre.squares2bomb@.contains(c as usize)
                            && !dpre.squares2empty@.contains(c as usize)
                            implies (#[trigger] mid.squares@[c]).state
                        == at_top.squares@[c].state by {
                        assert(mid.squares@[c].state == bcur.squares@[c].state);
                    }
                    assert forall|k: int|
                        0 <= k < dpre.squares2bomb@.len()
                            implies mid.squares@[#[trigger] dpre.squares2bomb@[k] as int].state
                        == SquareState::Bomb && (at_top.squares@[dpre.squares2bomb@[k] as int].state
                        != SquareState::Bomb ==> mid.squares@[dpre.squares2bomb@[k] as int].on_stack) by {
                        assert(at_top.squares@[dpre.squares2bomb@[k] as int].state
                            == bcur.squares@[dpre.squares2bomb@[k] as int].state);
                    }
                    assert forall|k: int|
                        0 <= k < dpre.squares2empty@.len()
                            implies mid.squares@[#[trigger] dpre.squares2empty@[k] as int].state
                        == SquareState::Empty && (at_top.squares@[dpre.squares2empty@[k] as int].state
                        != SquareState::Empty ==> mid.squares@[dpre.squares2empty@[k] as int].on_stack) by {
                        assert(at_top.squares@[dpre.squares2empty@[k] as int].state
                            == bcur.squares@[dpre.squares2empty@[k] as int].state);
                    }
                    lemma_fixpoint_after_apply(at_top, dpre, mid, *self, s);
                    assert(self.at_fixpoint());
                    assert(queue_ok(*self));
                }
            } else {
                let nh_now = self.hints.len();
                proof {
                    // all rules for this cell were tried and none applied
                    assert(self.hints@.len() == nh_now as int);
                    assert(self.at_fixpoint()) by {
                        lemma_fixpoint_after_visit(at_top, *self, s, hl);
                    }
                }
            }
        }
        proof {
            assert(delta_wf(*self, delta));
            assert(delta_sound(*self, delta));
            assert(consistent(*self)) by {
                let a0 = choose|a0: Seq<bool>| board_sat(orig, a0);
                assert(board_sat(*self, a0));
            }
            // the worklist is empty, so no cell is flagged at all
            assert forall|c: int|
                0 <= c < self.n() implies !(#[trigger] self.squares@[c]).on_stack by {
                if self.squares@[c].on_stack {
                    assert(self.stack@.contains(c as usize));
                }
            }
        }
        let ghost atloc = *self;
        self.process_remaining(&mut delta);
        proof {
            assert(delta_sound(*self, delta)) by {
                assert forall|a: Seq<bool>| board_sat(*self, a) implies delta_holds_for(
                    a,
                    delta,
                ) by {}
            }
        }
        let ghost dfin = delta;
        proof {
            assert(atloc.n() <= usize::MAX) by {
                assert(atloc.squares@.len() == self.squares.len() as int);
            }
            if atloc.pigeonhole_applies() {
                assert(dfin.squares2bomb@ =~= atloc.unknown_seq(atloc.n()));
            }
        }
        self.update_delta(&mut delta);
        proof {
            assert(self.hints@ == atloc.hints@) by {
                assert(dfin.hints2add@.reverse() =~= Seq::<Hint>::empty());
                assert(atloc.hints@ + dfin.hints2add@.reverse() =~= atloc.hints@);
            }
            lemma_fixpoint_after_pass(atloc, dfin, *self);
            assert forall|k: int|
                0 <= k < self.stack@.len()
                    implies self.squares@[#[trigger] self.stack@[k] as int].state
                == SquareState::Bomb by {
                assert(atloc.stack@.len() == 0);
                assert(dfin.squares2bomb@.contains(self.stack@[k]));
                let m = choose|m: int|
                    0 <= m < dfin.squares2bomb@.len() && (#[trigger] dfin.squares2bomb@[m])
                        == self.stack@[k];
            }
        }
    }

    /// Build the constraint for a clue at `(x, y)`: its cells are the
    /// in-bounds 8-directional neighbours of the clue cell, and its bomb
    /// count is the clue digit.  On a degenerate grid the clue may have no
    /// neighbours at all; the constraint is then marked invalid.
    #[verifier::loop_isolation(false)]
    #[verifier::rlimit(100)]
    #[verifier::spinoff_prover]
    pub fn bomb2hint(&self, x: u32, y: u32, bombs: u32) -> (r: Hint)
        requires
            x < self.w,
            y < self.h,
            self.w as int * self.h as int <= u32::MAX as int,
            bombs as int <= neighbor_set(x as int, y as int, self.w as int, self.h as int).len(),
        ensures
            r.bombs == bombs,
            sorted_strict(r.squares@),
            r.squares@.to_set() == neighbor_set(x as int, y as int, self.w as int, self.h as int),
            r.squares@.len() == neighbor_set(x as int, y as int, self.w as int, self.h as int).len(),
            r.valid <==> r.squares@.len() > 0,
    {
        let ghost wi = self.w as int;
        let ghost hi = self.h as int;
        let ghost xi = x as int;
        let ghost yi = y as int;
        let mut squares: Vec<usize> = Vec::new();
        let ghost mut gs = Set::<usize>::empty();
        if x > 0 && y > 0 {
            let v = self.xy2s(x - 1, y - 1);
            proof {
                squares@.lemma_push_to_set_commute(v);
                assert(is_neighbor(v, xi, yi, wi, hi)) by {
                    assert(wi * (yi - 1) == (yi - 1) * wi) by (nonlinear_arith);
                    assert(v as int == cell_at(xi - 1, yi - 1, wi));
                }
                gs = gs.insert(v);
            }
            squares.push(v);
        }
        proof {
            assert(squares@.to_set() == gs);
            assert(forall|c: usize| gs.contains(c) ==> is_neighbor(c, xi, yi, wi, hi));
        }
        if y > 0 {
            let v = self.xy2s(x, y - 1);
            proof {
                squares@.lemma_push_to_set_commute(v);
                assert(is_neighbor(v, xi, yi, wi, hi)) by {
                    assert(wi * (yi - 1) == (yi - 1) * wi) by (nonlinear_arith);
                    assert(v as int == cell_at(xi, yi - 1, wi));
                }
                gs = gs.insert(v);
            }
            squares.push(v);
        }
        proof {
            assert(squares@.to_set() == gs);
            assert(forall|c: usize| gs.contains(c) ==> is_neighbor(c, xi, yi, wi, hi));
        }
        if x < self.w - 1 && y > 0 {
            let v = self.xy2s(x + 1, y - 1);
            proof {
                squares@.lemma_push_to_set_commute(v);
                assert(is_neighbor(v, xi, yi, wi, hi)) by {
                    assert(wi * (yi - 1) == (yi - 1) * wi) by (nonlinear_arith);
                    assert(v as int == cell_at(xi + 1, yi - 1, wi));
                }
                gs = gs.insert(v);
            }
            squares.push(v);
        }
        proof {
            assert(squares@.to_set() == gs);
            assert(forall|c: usize| gs.contains(c) ==> is_neighbor(c, xi, yi, wi, hi));
        }
        if x < self.w - 1 {
            let v = self.xy2s(x + 1, y);
            proof {
                squares@.lemma_push_to_set_commute(v);
                assert(is_neighbor(v, xi, yi, wi, hi)) by {
                    assert(wi * (yi) == (yi) * wi) by (nonlinear_arith);
                    assert(v as int == cell_at(xi + 1, yi, wi));
                }
                gs = gs.insert(v);
            }
            squares.push(v);
        }
        proof {
            assert(squares@.to_set() == gs);
            assert(forall|c: usize| gs.contains(c) ==> is_neighbor(c, xi, yi, wi, hi));
        }
        if x < self.w - 1 && y < self.h - 1 {
            let v = self.xy2s(x + 1, y + 1);
            proof {
                squares@.lemma_push_to_set_commute(v);
                assert(is_neighbor(v, xi, yi, wi, hi)) by {
                    assert(wi * (yi + 1) == (yi + 1) * wi) by (nonlinear_arith);
                    assert(v as int == cell_at(xi + 1, yi + 1, wi));
                }
                gs = gs.insert(v);
            }
            squares.push(v);
        }
        proof {
            assert(squares@.to_set() == gs);
            assert(forall|c: usize| gs.contains(c) ==> is_neighbor(c, xi, yi, wi, hi));
        }
        if y < self.h - 1 {
            let v = self.xy2s(x, y + 1);
            proof {
                squares@.lemma_push_to_set_commute(v);
                assert(is_neighbor(v, xi, yi, wi, hi)) by {
                    assert(wi * (yi + 1) == (yi + 1) * wi) by (nonlinear_arith);
                    assert(v as int == cell_at(xi, yi + 1, wi));
                }
                gs = gs.insert(v);
            }
            squares.push(v);
        }
        proof {
            assert(squares@.to_set() == gs);
            assert(forall|c: usize| gs.contains(c) ==> is_neighbor(c, xi, yi, wi, hi));
        }
        if x > 0 && y < self.h - 1 {
            let v = self.xy2s(x - 1, y + 1);
            proof {
                squares@.lemma_push_to_set_commute(v);
                assert(is_neighbor(v, xi, yi, wi, hi)) by {
                    assert(wi * (yi + 1) == (yi + 1) * wi) by (nonlinear_arith);
                    assert(v as int == cell_at(xi - 1, yi + 1, wi));
                }
                gs = gs.insert(v);
            }
            squares.push(v);
        }
        proof {
            assert(squares@.to_set() == gs);
            assert(forall|c: usize| gs.contains(c) ==> is_neighbor(c, xi, yi, wi, hi));
        }
        if x > 0 {
            let v = self.xy2s(x - 1, y);
            proof {
                squares@.lemma_push_to_set_commute(v);
                assert(is_neighbor(v, xi, yi, wi, hi)) by {
                    assert(wi * (yi) == (yi) * wi) by (nonlinear_arith);
                    assert(v as int == cell_at(xi - 1, yi, wi));
                }
                gs = gs.insert(v);
            }
            squares.push(v);
        }
        proof {
            assert(squares@.to_set() == gs);
            assert(forall|c: usize| gs.contains(c) ==> is_neighbor(c, xi, yi, wi, hi));
        }
        proof {
            assert(squares@.to_set() == gs);
            assert(gs =~= neighbor_set(xi, yi, wi, hi)) by {
                assert(forall|c: usize| gs.contains(c) ==> is_neighbor(c, xi, yi, wi, hi));
                assert forall|c: usize| is_neighbor(c, xi, yi, wi, hi) implies gs.contains(c) by {
                    let (nx, ny) = choose|nx: int, ny: int|
                        0 <= nx < wi && 0 <= ny < hi && -1 <= nx - xi <= 1 && -1 <= ny - yi <= 1
                            && !(nx == xi && ny == yi) && c as int == #[trigger] cell_at(
                            nx,
                            ny,
                            wi,
                        );
                    assert(nx == xi - 1 || nx == xi || nx == xi + 1);
                    assert(ny == yi - 1 || ny == yi || ny == yi + 1);
                }
            }
        }
        Hint::new(bombs, squares)
    }

    /// There is a bomb resolved at grid position `(x, yy)`.
    pub open spec fn bomb_at(self, x: int, yy: int) -> bool {
        &&& 0 <= cell_at(x, yy, self.w as int) < self.n()
        &&& self.squares@[cell_at(x, yy, self.w as int)].state == SquareState::Bomb
    }

    /// The resolved bombs of column `x` among rows below `k`, top down.
    pub open spec fn col_bombs(self, x: int, k: int) -> Seq<(u32, u32)>
        decreases k,
    {
        if k <= 0 {
            Seq::empty()
        } else {
            self.col_bombs(x, k - 1) + (if self.bomb_at(x, k - 1) {
                seq![(x as u32, (k - 1) as u32)]
            } else {
                Seq::empty()
            })
        }
    }

    /// The resolved bombs of the columns below `k`, column-major.
    pub open spec fn all_bombs(self, k: int) -> Seq<(u32, u32)>
        decreases k,
    {
        if k <= 0 {
            Seq::empty()
        } else {
            self.all_bombs(k - 1) + self.col_bombs(k - 1, self.h as int)
        }
    }

    /// List the coordinates of every cell proven to hold a bomb, in
    /// column-major order: for each `x` from left to right, each `y` from
    /// top to bottom.
    #[verifier::loop_isolation(false)]
    pub fn bomb_coords(&self) -> (r: Vec<(u32, u32)>)
        requires
            self.wf(),
        ensures
            r@ == self.all_bombs(self.w as int),
    {
        let mut r: Vec<(u32, u32)> = Vec::new();
        proof {
            assert(self.all_bombs(0) =~= Seq::<(u32, u32)>::empty());
        }
        let mut x: u32 = 0;
        while x < self.w
            invariant
                0 <= x <= self.w,
                r@ == self.all_bombs(x as int),
            decreases self.w - x,
        {
            proof {
                assert(self.col_bombs(x as int, 0) =~= Seq::<(u32, u32)>::empty());
                assert(r@ =~= self.all_bombs(x as int) + self.col_bombs(x as int, 0));
            }
            let mut y: u32 = 0;
            while y < self.h
                invariant
                    0 <= y <= self.h,
                    x < self.w,
                    r@ == self.all_bombs(x as int) + self.col_bombs(x as int, y as int),
                decreases self.h - y,
            {
                let c = self.xy2s(x, y);
                proof {
                    assert(self.w as int * y as int == y as int * self.w as int)
                        by (nonlinear_arith);
                    assert(c as int == cell_at(x as int, y as int, self.w as int));
                }
                if self.squares[c].state == SquareState::Bomb {
                    r.push((x, y));
                    proof {
                        assert(self.col_bombs(x as int, y as int + 1) =~= self.col_bombs(
                            x as int,
                            y as int,
                        ).push((x, y)));
                        assert(r@ =~= self.all_bombs(x as int) + self.col_bombs(
                            x as int,
                            y as int + 1,
                        ));
                    }
                } else {
                    proof {
                        assert(self.col_bombs(x as int, y as int + 1) =~= self.col_bombs(
                            x as int,
                            y as int,
                        ));
                    }
                }
                y += 1;
            }
            x += 1;
            proof {
                assert(r@ =~= self.all_bombs(x as int));
            }
        }
        r
    }

    /// Build a board from already-parsed input: the grid dimensions, the
    /// level's bomb count, and one row of clue characters per grid row.  A
    /// question mark leaves its cell unresolved; a digit resolves its cell
    /// as empty and registers a constraint of that count over the cell's
    /// in-bounds neighbours, unless the constraint would be degenerate.
    #[verifier::rlimit(100)]
    pub fn from_rows(w: u32, h: u32, bombs: u32, rows: &Vec<Vec<char>>) -> (b: Board)
        requires
            w as int * h as int <= u32::MAX as int,
            rows@.len() == h as int,
            forall|yy: int| 0 <= yy < h as int ==> (#[trigger] rows@[yy])@.len() == w as int,
            forall|yy: int, xx: int|
                0 <= yy < h as int && 0 <= xx < w as int ==> #[trigger] rows@[yy]@[xx] == '?' || (
                '0' <= rows@[yy]@[xx] <= '8'),
            forall|yy: int, xx: int|
                0 <= yy < h as int && 0 <= xx < w as int && #[trigger] rows@[yy]@[xx] != '?'
                    ==> clue_digit(rows@[yy]@[xx]) <= neighbor_set(
                    xx,
                    yy,
                    w as int,
                    h as int,
                ).len(),
        ensures
            b.wf(),
            b.w == w,
            b.h == h,
            b.bombs == bombs,
            b.squares@.len() == w as int * h as int,
            forall|yy: int, xx: int|
                0 <= yy < h as int && 0 <= xx < w as int ==> b.squares@[#[trigger] cell_at(
                    xx,
                    yy,
                    w as int,
                )].state == (if rows@[yy]@[xx] == '?' {
                    SquareState::Unknown
                } else {
                    SquareState::Empty
                }),
            forall|k: int|
                0 <= k < b.hints@.len() && (#[trigger] b.hints@[k]).valid ==> exists|yy: int, xx: int|
                    0 <= yy < h as int && 0 <= xx < w as int && rows@[yy]@[xx] != '?'
                        && matches_clue(
                        b.hints@[k],
                        xx,
                        yy,
                        w as int,
                        h as int,
                        clue_digit(rows@[yy]@[xx]),
                    ),
            forall|yy: int, xx: int|
                0 <= yy < h as int && 0 <= xx < w as int && #[trigger] rows@[yy]@[xx] != '?'
                    && neighbor_set(xx, yy, w as int, h as int).len() > 0 ==> exists|k: int|
                    0 <= k < b.hints@.len() && (#[trigger] b.hints@[k]).valid && matches_clue(
                        b.hints@[k],
                        xx,
                        yy,
                        w as int,
                        h as int,
                        clue_digit(rows@[yy]@[xx]),
                    ),
            queue_ok(b),
            b.at_fixpoint(),
    {
        let mut b = Board::new(w, h, bombs);
        proof {
            assert forall|yy: int, xx: int|
                0 <= yy < h as int && 0 <= xx < w as int implies b.squares@[#[trigger] cell_at(
                xx,
                yy,
                w as int,
            )].state == SquareState::Unknown by {
                lemma_cell_at_inj(xx, yy, xx, yy, w as int, h as int);
            }
        }
        let mut y: u32 = 0;
        while y < h
            invariant
                0 <= y <= h,
                w as int * h as int <= u32::MAX as int,
                rows@.len() == h as int,
                forall|yy: int| 0 <= yy < h as int ==> (#[trigger] rows@[yy])@.len() == w as int,
                forall|yy: int, xx: int|
                    0 <= yy < h as int && 0 <= xx < w as int ==> #[trigger] rows@[yy]@[xx] == '?'
                        || ('0' <= rows@[yy]@[xx] <= '8'),
                forall|yy: int, xx: int|
                    0 <= yy < h as int && 0 <= xx < w as int && #[trigger] rows@[yy]@[xx] != '?'
                        ==> clue_digit(rows@[yy]@[xx]) <= neighbor_set(
                        xx,
                        yy,
                        w as int,
                        h as int,
                    ).len(),
                b.wf(),
                b.w == w,
                b.h == h,
                b.bombs == bombs,
                b.squares@.len() == w as int * h as int,
                forall|yy: int, xx: int|
                    0 <= yy < h as int && 0 <= xx < w as int ==> b.squares@[#[trigger] cell_at(
                        xx,
                        yy,
                        w as int,
                    )].state == (if yy < y as int && rows@[yy]@[xx] != '?' {
                        SquareState::Empty
                    } else {
                        SquareState::Unknown
                    }),
                forall|k: int|
                    0 <= k < b.hints@.len() && (#[trigger] b.hints@[k]).valid ==> exists|yy: int, xx: int|
                        0 <= yy < h as int && 0 <= xx < w as int && rows@[yy]@[xx] != '?'
                            && matches_clue(
                            b.hints@[k],
                            xx,
                            yy,
                            w as int,
                            h as int,
                            clue_digit(rows@[yy]@[xx]),
                        ),
                queue_ok(b),
                forall|k2: int, m: int|
                    0 <= k2 < b.hints@.len() && b.hints@[k2].valid && 0 <= m
                        < b.hints@[k2].squares@.len()
                        ==> b.squares@[#[trigger] b.hints@[k2].squares@[m] as int].on_stack,
                forall|yy: int, xx: int|
                    0 <= yy < y as int && 0 <= xx < w as int && #[trigger] rows@[yy]@[xx] != '?'
                        && neighbor_set(xx, yy, w as int, h as int).len() > 0 ==> exists|k: int|
                        0 <= k < b.hints@.len() && (#[trigger] b.hints@[k]).valid && matches_clue(
                            b.hints@[k],
                            xx,
                            yy,
                            w as int,
                            h as int,
                            clue_digit(rows@[yy]@[xx]),
                        ),
            decreases h - y,
        {
            b.load_row(w, h, y, rows);
            y += 1;
        }
        proof {
            assert forall|h2: int|
                0 <= h2 < b.hints@.len() && (#[trigger] b.hints@[h2]).valid && b.hint_unqueued(h2)
                implies b.no_single_fire(h2) by {
                assert(hint_ok(b.hints@[h2], b.n()));
                assert(b.squares@[b.hints@[h2].squares@[0] as int].on_stack);
            }
            assert forall|h1: int, h2: int|
                0 <= h1 < b.hints@.len() && 0 <= h2 < b.hints@.len() && h1 != h2
                    && b.hints@[h1].valid && b.hints@[h2].valid && b.pair_shares_cell(h1, h2)
                    && #[trigger] b.shared_unqueued(h1, h2) implies b.no_pair_fire(h1, h2) by {
                let c = choose|c: usize| #![trigger b.hint_cells(h1).contains(c), b.hint_cells(h2).contains(c)]
                    b.hint_cells(h1).contains(c) && b.hint_cells(h2).contains(c);
                let m = choose|m: int|
                    0 <= m < b.hints@[h1].squares@.len() && (#[trigger] b.hints@[h1].squares@[m])
                        == c;
                assert(b.squares@[c as int].on_stack);
                assert(!b.squares@[c as int].on_stack);
            }
            assert(b.at_fixpoint());
        }
        b
    }

    /// Process one row of clue characters during board construction.
    #[verifier::rlimit(100)]
    fn load_row(&mut self, w: u32, h: u32, y: u32, rows: &Vec<Vec<char>>)
        requires
            y < h,
            w as int * h as int <= u32::MAX as int,
            rows@.len() == h as int,
            forall|yy: int| 0 <= yy < h as int ==> (#[trigger] rows@[yy])@.len() == w as int,
            forall|yy: int, xx: int|
                0 <= yy < h as int && 0 <= xx < w as int ==> #[trigger] rows@[yy]@[xx] == '?' || (
                '0' <= rows@[yy]@[xx] <= '8'),
            forall|yy: int, xx: int|
                0 <= yy < h as int && 0 <= xx < w as int && #[trigger] rows@[yy]@[xx] != '?'
                    ==> clue_digit(rows@[yy]@[xx]) <= neighbor_set(
                    xx,
                    yy,
                    w as int,
                    h as int,
                ).len(),
            old(self).wf(),
            old(self).w == w,
            old(self).h == h,
            old(self).squares@.len() == w as int * h as int,
            forall|yy: int, xx: int|
                0 <= yy < h as int && 0 <= xx < w as int ==> old(self).squares@[#[trigger] cell_at(
                    xx,
                    yy,
                    w as int,
                )].state == (if yy < y as int && rows@[yy]@[xx] != '?' {
                    SquareState::Empty
                } else {
                    SquareState::Unknown
                }),
            forall|k: int|
                0 <= k < old(self).hints@.len() && (#[trigger] old(self).hints@[k]).valid
                    ==> exists|yy: int, xx: int|
                    0 <= yy < h as int && 0 <= xx < w as int && rows@[yy]@[xx] != '?'
                        && matches_clue(
                        old(self).hints@[k],
                        xx,
                        yy,
                        w as int,
                        h as int,
                        clue_digit(rows@[yy]@[xx]),
                    ),
            queue_ok(*old(self)),
            forall|k2: int, m: int|
                0 <= k2 < old(self).hints@.len() && old(self).hints@[k2].valid && 0 <= m
                    < old(self).hints@[k2].squares@.len() ==> old(self).squares@[#[trigger] old(
                    self,
                ).hints@[k2].squares@[m] as int].on_stack,
            forall|yy: int, xx: int|
                0 <= yy < y as int && 0 <= xx < w as int && #[trigger] rows@[yy]@[xx] != '?'
                    && neighbor_set(xx, yy, w as int, h as int).len() > 0 ==> exists|k: int|
                    0 <= k < old(self).hints@.len() && (#[trigger] old(self).hints@[k]).valid
                        && matches_clue(
                        old(self).hints@[k],
                        xx,
                        yy,
                        w as int,
                        h as int,
                        clue_digit(rows@[yy]@[xx]),
                    ),
        ensures
            final(self).wf(),
            final(self).w == w,
            final(self).h == h,
            final(self).bombs == old(self).bombs,
            final(self).squares@.len() == w as int * h as int,
            forall|yy: int, xx: int|
                0 <= yy < h as int && 0 <= xx < w as int ==> final(self).squares@[#[trigger] cell_at(
                    xx,
                    yy,
                    w as int,
                )].state == (if yy < y as int + 1 && rows@[yy]@[xx] != '?' {
                    SquareState::Empty
                } else {
                    SquareState::Unknown
                }),
            forall|k: int|
                0 <= k < final(self).hints@.len() && (#[trigger] final(self).hints@[k]).valid
                    ==> exists|yy: int, xx: int|
                    0 <= yy < h as int && 0 <= xx < w as int && rows@[yy]@[xx] != '?'
                        && matches_clue(
                        final(self).hints@[k],
                        xx,
                        yy,
                        w as int,
                        h as int,
                        clue_digit(rows@[yy]@[xx]),
                    ),
            queue_ok(*final(self)),
            forall|k2: int, m: int|
                0 <= k2 < final(self).hints@.len() && final(self).hints@[k2].valid && 0 <= m
                    < final(self).hints@[k2].squares@.len()
                    ==> final(self).squares@[#[trigger] final(self).hints@[k2].squares@[m] as int].on_stack,
            forall|yy: int, xx: int|
                0 <= yy < y as int + 1 && 0 <= xx < w as int && #[trigger] rows@[yy]@[xx] != '?'
                    && neighbor_set(xx, yy, w as int, h as int).len() > 0 ==> exists|k: int|
                    0 <= k < final(self).hints@.len() && (#[trigger] final(self).hints@[k]).valid
                        && matches_clue(
                        final(self).hints@[k],
                        xx,
                        yy,
                        w as int,
                        h as int,
                        clue_digit(rows@[yy]@[xx]),
                    ),
    {
        let mut x: u32 = 0;
        proof {
            assert forall|yy: int, xx: int|
                0 <= yy < h as int && 0 <= xx < w as int implies self.squares@[#[trigger] cell_at(
                xx,
                yy,
                w as int,
            )].state == (if (yy < y as int || (yy == y as int && xx < 0))
                && rows@[yy]@[xx] != '?' {
                SquareState::Empty
            } else {
                SquareState::Unknown
            }) by {
                assert(old(self).squares@[cell_at(xx, yy, w as int)].state == (if yy < y as int
                    && rows@[yy]@[xx] != '?' {
                    SquareState::Empty
                } else {
                    SquareState::Unknown
                }));
                assert(self.squares@ == old(self).squares@);
            }
        }
        while x < w
            invariant
                0 <= x <= w,
                y < h,
                w as int * h as int <= u32::MAX as int,
                rows@.len() == h as int,
                forall|yy: int| 0 <= yy < h as int ==> (#[trigger] rows@[yy])@.len() == w as int,
                forall|yy: int, xx: int|
                    0 <= yy < h as int && 0 <= xx < w as int ==> #[trigger] rows@[yy]@[xx] == '?'
                        || ('0' <= rows@[yy]@[xx] <= '8'),
                forall|yy: int, xx: int|
                    0 <= yy < h as int && 0 <= xx < w as int && #[trigger] rows@[yy]@[xx] != '?'
                        ==> clue_digit(rows@[yy]@[xx]) <= neighbor_set(
                        xx,
                        yy,
                        w as int,
                        h as int,
                    ).len(),
                self.wf(),
                self.w == w,
                self.h == h,
                self.bombs == old(self).bombs,
                self.squares@.len() == w as int * h as int,
                forall|yy: int, xx: int|
                    0 <= yy < h as int && 0 <= xx < w as int ==> self.squares@[#[trigger] cell_at(
                        xx,
                        yy,
                        w as int,
                    )].state == (if (yy < y as int || (yy == y as int && xx < x as int))
                        && rows@[yy]@[xx] != '?' {
                        SquareState::Empty
                    } else {
                        SquareState::Unknown
                    }),
                forall|k: int|
                    0 <= k < self.hints@.len() && (#[trigger] self.hints@[k]).valid
                        ==> exists|yy: int, xx: int|
                        0 <= yy < h as int && 0 <= xx < w as int && rows@[yy]@[xx] != '?'
                            && matches_clue(
                            self.hints@[k],
                            xx,
                            yy,
                            w as int,
                            h as int,
                            clue_digit(rows@[yy]@[xx]),
                        ),
                queue_ok(*self),
                forall|k2: int, m: int|
                    0 <= k2 < self.hints@.len() && self.hints@[k2].valid && 0 <= m
                        < self.hints@[k2].squares@.len()
                        ==> self.squares@[#[trigger] self.hints@[k2].squares@[m] as int].on_stack,
                forall|yy: int, xx: int|
                    0 <= yy < h as int && 0 <= xx < w as int && (yy < y as int || (yy == y as int
                        && xx < x as int)) && #[trigger] rows@[yy]@[xx] != '?' && neighbor_set(
                        xx,
                        yy,
                        w as int,
                        h as int,
                    ).len() > 0 ==> exists|k: int|
                        0 <= k < self.hints@.len() && (#[trigger] self.hints@[k]).valid
                            && matches_clue(
                            self.hints@[k],
                            xx,
                            yy,
                            w as int,
                            h as int,
                            clue_digit(rows@[yy]@[xx]),
                        ),
            decreases w - x,
        {
            let ch = rows[y as usize][x as usize];
            let ghost before = *self;
            let ghost mut mid_add = *self;
            proof {
                assert(ch == rows@[y as int]@[x as int]);
                lemma_cell_at_inj(x as int, y as int, x as int, y as int, w as int, h as int);
            }
            if ch != '?' {
                let d = (ch as u32) - ('0' as u32);
                proof {
                    assert(d as int == clue_digit(rows@[y as int]@[x as int]));
                }
                let hint = self.bomb2hint(x, y, d);
                if hint.valid {
                    proof {
                        assert(hint_ok(hint, self.n())) by {
                            assert forall|k: int|
                                0 <= k < hint.squares@.len() implies (
                            #[trigger] hint.squares@[k] as int) < self.n() by {
                                assert(hint.squares@.to_set().contains(hint.squares@[k]));
                                lemma_neighbor_below(
                                    hint.squares@[k],
                                    x as int,
                                    y as int,
                                    w as int,
                                    h as int,
                                );
                            }
                        }
                        assert(matches_clue(
                            hint,
                            x as int,
                            y as int,
                            w as int,
                            h as int,
                            clue_digit(rows@[y as int]@[x as int]),
                        ));
                    }
                    self.add_hint(hint);
                }
                proof {
                    mid_add = *self;
                }
                let s = self.xy2s(x, y);
                proof {
                    assert(w as int * y as int == y as int * w as int) by (nonlinear_arith);
                    assert(s as int == cell_at(x as int, y as int, w as int));
                    assert(before.squares@[s as int].state == SquareState::Unknown);
                    assert(self.squares@[s as int].state == SquareState::Unknown);
                }
                self.set_square_state(s, SquareState::Empty);
            }
            x += 1;
            proof {
                assert forall|yy: int, xx: int|
                    0 <= yy < h as int && 0 <= xx < w as int implies self.squares@[#[trigger] cell_at(
                    xx,
                    yy,
                    w as int,
                )].state == (if (yy < y as int || (yy == y as int && xx < x as int))
                    && rows@[yy]@[xx] != '?' {
                    SquareState::Empty
                } else {
                    SquareState::Unknown
                }) by {
                    lemma_cell_at_inj(xx, yy, x as int - 1, y as int, w as int, h as int);
                    assert(before.squares@[cell_at(xx, yy, w as int)].state == (if (yy < y as int
                        || (yy == y as int && xx < x as int - 1)) && rows@[yy]@[xx] != '?' {
                        SquareState::Empty
                    } else {
                        SquareState::Unknown
                    }));
                }
                assert forall|k2: int, m: int|
                    0 <= k2 < self.hints@.len() && self.hints@[k2].valid && 0 <= m
                        < self.hints@[k2].squares@.len()
                        implies self.squares@[#[trigger] self.hints@[k2].squares@[m] as int].on_stack by {
                    if ch != '?' {
                        if k2 < before.hints@.len() {
                            assert(self.hints@[k2] == before.hints@[k2]);
                            assert(before.squares@[before.hints@[k2].squares@[m] as int].on_stack);
                            assert(mid_add.squares@[before.hints@[k2].squares@[m] as int].on_stack);
                        } else {
                            assert(mid_add.squares@[self.hints@[k2].squares@[m] as int].on_stack);
                        }
                    } else {
                        assert(before.squares@[before.hints@[k2].squares@[m] as int].on_stack);
                    }
                }
                assert forall|yy: int, xx: int|
                    0 <= yy < h as int && 0 <= xx < w as int && (yy < y as int || (yy == y as int
                        && xx < x as int)) && #[trigger] rows@[yy]@[xx] != '?' && neighbor_set(
                        xx,
                        yy,
                        w as int,
                        h as int,
                    ).len() > 0 implies exists|k: int|
                        0 <= k < self.hints@.len() && (#[trigger] self.hints@[k]).valid
                            && matches_clue(
                            self.hints@[k],
                            xx,
                            yy,
                            w as int,
                            h as int,
                            clue_digit(rows@[yy]@[xx]),
                        ) by {
                    if yy == y as int && xx == x as int - 1 {
                        let k = before.hints@.len() as int;
                        assert(0 <= k < self.hints@.len() && self.hints@[k].valid && matches_clue(
                            self.hints@[k],
                            xx,
                            yy,
                            w as int,
                            h as int,
                            clue_digit(rows@[yy]@[xx]),
                        ));
                    } else {
                        let k = choose|k: int|
                            0 <= k < before.hints@.len() && (#[trigger] before.hints@[k]).valid
                                && matches_clue(
                                before.hints@[k],
                                xx,
                                yy,
                                w as int,
                                h as int,
                                clue_digit(rows@[yy]@[xx]),
                            );
                        assert(self.hints@[k] == before.hints@[k]);
                        assert(0 <= k < self.hints@.len() && self.hints@[k].valid && matches_clue(
                            self.hints@[k],
                            xx,
                            yy,
                            w as int,
                            h as int,
                            clue_digit(rows@[yy]@[xx]),
                        ));
                    }
                }
            }
        }
        proof {
            assert forall|yy: int, xx: int|
                0 <= yy < h as int && 0 <= xx < w as int implies self.squares@[#[trigger] cell_at(
                xx,
                yy,
                w as int,
            )].state == (if yy < y as int + 1 && rows@[yy]@[xx] != '?' {
                SquareState::Empty
            } else {
                SquareState::Unknown
            }) by {
                assert(self.squares@[cell_at(xx, yy, w as int)].state == (if (yy < y as int || (yy
                    == y as int && xx < x as int)) && rows@[yy]@[xx] != '?' {
                    SquareState::Empty
                } else {
                    SquareState::Unknown
                }));
            }
            assert forall|yy: int, xx: int|
                0 <= yy < y as int + 1 && 0 <= xx < w as int && #[trigger] rows@[yy]@[xx] != '?'
                    && neighbor_set(xx, yy, w as int, h as int).len() > 0 implies exists|k: int|
                    0 <= k < self.hints@.len() && (#[trigger] self.hints@[k]).valid
                        && matches_clue(
                        self.hints@[k],
                        xx,
                        yy,
                        w as int,
                        h as int,
                        clue_digit(rows@[yy]@[xx]),
                    ) by {
                assert(yy < y as int || (yy == y as int && xx < x as int));
            }
        }
    }

    /// Try the single-constraint rules on live constraint `h`, in priority
    /// order: partial resolution if some referenced cell is already
    /// resolved, else the zero rule, else the saturation rule.  The first
    /// rule that applies appends its conclusions to `delta`; if none
    /// applies the delta is left untouched.
    #[verifier::loop_isolation(false)]
    pub fn process_hint(&self, h: usize, delta: &mut Delta)
        requires
            self.wf(),
            consistent(*self),
            (h as int) < self.hints@.len(),
            self.hints@[h as int].valid,
        ensures
            !self.all_unknown(h as int) ==> {
                let cs = self.hint_cells(h as int);
                let u = self.cells_in_state(cs, SquareState::Unknown);
                let nb = self.cells_in_state(cs, SquareState::Bomb).len() as int;
                &&& final(delta).hints2rm@ == old(delta).hints2rm@.push(h)
                &&& final(delta).squares2bomb@ == old(delta).squares2bomb@
                &&& final(delta).squares2empty@ == old(delta).squares2empty@
                &&& (u.len() == 0 ==> final(delta).hints2add@ == old(delta).hints2add@)
                &&& (u.len() > 0 ==> {
                    let nh = final(delta).hints2add@.last();
                    &&& final(delta).hints2add@ == old(delta).hints2add@.push(nh)
                    &&& nh.valid
                    &&& nh.bombs as int == self.hints@[h as int].bombs - nb
                    &&& sorted_strict(nh.squares@)
                    &&& nh.squares@.to_set() == u
                    &&& nh.squares@.len() == u.len()
                })
            },
            self.all_unknown(h as int) && self.hints@[h as int].bombs == 0 ==> {
                &&& final(delta).hints2rm@ == old(delta).hints2rm@.push(h)
                &&& final(delta).hints2add@ == old(delta).hints2add@
                &&& final(delta).squares2bomb@ == old(delta).squares2bomb@
                &&& final(delta).squares2empty@ == old(delta).squares2empty@ + self.hints@[h as int].squares@
            },
            self.all_unknown(h as int) && self.hints@[h as int].bombs != 0 && self.hints@[h as int].bombs as int == self.hints@[h as int].squares@.len() ==> {
                &&& final(delta).hints2rm@ == old(delta).hints2rm@.push(h)
                &&& final(delta).hints2add@ == old(delta).hints2add@
                &&& final(delta).squares2bomb@ == old(delta).squares2bomb@ + self.hints@[h as int].squares@
                &&& final(delta).squares2empty@ == old(delta).squares2empty@
            },
            self.all_unknown(h as int) && self.hints@[h as int].bombs != 0 && self.hints@[h as int].bombs as int != self.hints@[h as int].squares@.len() ==> *final(delta) == *old(delta),
            old(delta).spec_is_empty() && !final(delta).spec_is_empty() ==> delta_good(*self, *final(delta)),
            forall|a: Seq<bool>|
                board_sat(*self, a) && delta_holds_for(a, *old(delta)) ==> delta_holds_for(a, *final(delta)),
    {
        let ghost hi = h as int;
        let ghost csq = self.hints@[hi].squares@;
        proof {
            assert(hint_ok(self.hints@[hi], self.n()));
            lemma_sorted_strict_len(csq, self.n());
        }
        let m = self.hints[h].squares.len();
        let mut all_unk = true;
        let mut i: usize = 0;
        while i < m
            invariant
                0 <= i <= m,
                all_unk == (forall|k: int|
                    0 <= k < i ==> self.squares@[#[trigger] csq[k] as int].state
                        == SquareState::Unknown),
            decreases m - i,
        {
            let c = self.hints[h].squares[i];
            if self.squares[c].state != SquareState::Unknown {
                all_unk = false;
            }
            i += 1;
        }
        if !all_unk {
            self.rule_partial(h, delta);
            return ;
        }
        if self.hints[h].bombs == 0 {
            self.rule_zero(h, delta);
            return ;
        }
        if self.hints[h].bombs == m as u32 {
            self.rule_saturate(h, delta);
            return ;
        }
    }
}

} // verus!
