//! Sorted cell-handle sequences and bomb counting over cell sets.
//!
//! An *assignment* `a: Seq<bool>` places a bomb on cell `c` exactly when
//! `a[c]` is true.  `bombs_in(a, cells)` counts the bombs that `a` places on
//! a set of cells; the lemmas here are the counting arguments behind every
//! deduction rule of the solver.

use vstd::prelude::*;
use vstd::set_lib::lemma_len_subset;
use vstd::set_lib::lemma_set_disjoint_lens;

verus! {

broadcast use vstd::set::group_set_axioms, vstd::seq::group_seq_axioms;

/// A strictly increasing sequence: sorted, with no duplicate entries.
pub open spec fn sorted_strict(s: Seq<usize>) -> bool {
    forall|i: int, j: int| 0 <= i < j < s.len() ==> s[i] < s[j]
}

/// How many cells of `cells` hold a bomb under the assignment `a`.
pub open spec fn bombs_in(a: Seq<bool>, cells: Set<usize>) -> int {
    cells.filter(|c: usize| a[c as int]).len() as int
}

/// The set of all cell handles below `n`.
pub open spec fn all_cells(n: int) -> Set<usize> {
    Set::new(|c: usize| (c as int) < n)
}

/// A bomb count is between zero and the size of the counted set.
pub proof fn lemma_bombs_in_bounds(a: Seq<bool>, cells: Set<usize>)
    requires
        cells.finite(),
    ensures
        0 <= bombs_in(a, cells) <= cells.len(),
        cells.filter(|c: usize| a[c as int]).finite(),
{
    let f = |c: usize| a[c as int];
    assert(cells.filter(f).subset_of(cells));
    lemma_len_subset(cells.filter(f), cells);
}

/// Bomb counts add over disjoint unions of cell sets.
pub proof fn lemma_bombs_in_disjoint_union(a: Seq<bool>, c1: Set<usize>, c2: Set<usize>)
    requires
        c1.finite(),
        c2.finite(),
        c1.disjoint(c2),
    ensures
        bombs_in(a, c1.union(c2)) == bombs_in(a, c1) + bombs_in(a, c2),
{
    let f = |c: usize| a[c as int];
    lemma_bombs_in_bounds(a, c1);
    lemma_bombs_in_bounds(a, c2);
    assert(c1.union(c2).filter(f) =~= c1.filter(f).union(c2.filter(f)));
    assert(c1.filter(f).disjoint(c2.filter(f)));
    lemma_set_disjoint_lens(c1.filter(f), c2.filter(f));
    assert(c1.filter(f) + c2.filter(f) == c1.filter(f).union(c2.filter(f)));
}

/// A set whose cells all hold bombs counts its full size.
pub proof fn lemma_bombs_in_all(a: Seq<bool>, cells: Set<usize>)
    requires
        cells.finite(),
        forall|c: usize| cells.contains(c) ==> a[c as int],
    ensures
        bombs_in(a, cells) == cells.len(),
{
    let f = |c: usize| a[c as int];
    assert(cells.filter(f) =~= cells);
}

/// A set none of whose cells holds a bomb counts zero.
pub proof fn lemma_bombs_in_none(a: Seq<bool>, cells: Set<usize>)
    requires
        forall|c: usize| cells.contains(c) ==> !a[c as int],
    ensures
        bombs_in(a, cells) == 0,
{
    let f = |c: usize| a[c as int];
    assert(cells.filter(f) =~= Set::<usize>::empty());
}

/// If a set holds as many bombs as it has cells, every cell of it is a bomb.
pub proof fn lemma_bombs_in_saturated(a: Seq<bool>, cells: Set<usize>, c: usize)
    requires
        cells.finite(),
        bombs_in(a, cells) == cells.len(),
        cells.contains(c),
    ensures
        a[c as int],
{
    let f = |x: usize| a[x as int];
    if !a[c as int] {
        assert(cells.filter(f).subset_of(cells.remove(c)));
        lemma_len_subset(cells.filter(f), cells.remove(c));
        assert(cells.remove(c).len() == cells.len() - 1);
    }
}

/// If a set holds no bomb at all, no cell of it is a bomb.
pub proof fn lemma_bombs_in_empty_cell(a: Seq<bool>, cells: Set<usize>, c: usize)
    requires
        cells.finite(),
        bombs_in(a, cells) == 0,
        cells.contains(c),
    ensures
        !a[c as int],
{
    let f = |x: usize| a[x as int];
    if a[c as int] {
        assert(cells.filter(f).contains(c));
        assert(cells.filter(f).len() >= 1);
    }
}

/// A subset of a finite set with the same size is that whole set.
pub proof fn lemma_subset_same_len(s1: Set<usize>, s2: Set<usize>)
    requires
        s2.finite(),
        s1.subset_of(s2),
        s1.len() >= s2.len(),
    ensures
        s1 =~= s2,
{
    lemma_len_subset(s1, s2);
    if exists|c: usize| s2.contains(c) && !s1.contains(c) {
        let c = choose|c: usize| s2.contains(c) && !s1.contains(c);
        assert(s1.subset_of(s2.remove(c)));
        lemma_len_subset(s1, s2.remove(c));
        assert(s2.remove(c).len() == s2.len() - 1);
    }
}

/// The set of all cells below `n` is finite and has exactly `n` members.
pub proof fn lemma_all_cells_len(n: int)
    requires
        0 <= n <= usize::MAX,
    ensures
        all_cells(n).finite(),
        all_cells(n).len() == n,
    decreases n,
{
    if n == 0 {
        assert(all_cells(0) =~= Set::<usize>::empty());
    } else {
        lemma_all_cells_len(n - 1);
        assert(all_cells(n) =~= all_cells(n - 1).insert((n - 1) as usize));
        assert(!all_cells(n - 1).contains((n - 1) as usize));
    }
}

/// Every entry of a strictly sorted sequence is at least its index.
pub proof fn lemma_sorted_strict_index_bound(s: Seq<usize>, i: int)
    requires
        sorted_strict(s),
        0 <= i < s.len(),
    ensures
        s[i] >= i,
    decreases i,
{
    if i > 0 {
        lemma_sorted_strict_index_bound(s, i - 1);
        assert(s[i - 1] < s[i]);
    }
}

/// A strictly sorted sequence of handles below `n` has at most `n` entries.
pub proof fn lemma_sorted_strict_len(s: Seq<usize>, n: int)
    requires
        n >= 0,
        sorted_strict(s),
        forall|k: int| 0 <= k < s.len() ==> (s[k] as int) < n,
    ensures
        s.len() <= n,
{
    if s.len() > 0 {
        lemma_sorted_strict_index_bound(s, s.len() - 1);
        assert((s[s.len() - 1] as int) < n);
    }
}

/// A strictly sorted sequence has as many entries as its set of values.
pub proof fn lemma_sorted_strict_set_len(s: Seq<usize>)
    requires
        sorted_strict(s),
    ensures
        s.to_set().finite(),
        s.to_set().len() == s.len(),
{
    assert(s.no_duplicates()) by {
        assert forall|i: int, j: int| 0 <= i < s.len() && 0 <= j < s.len() && i != j
            implies s[i] != s[j] by {
            if i < j {
                assert(s[i] < s[j]);
            } else {
                assert(s[j] < s[i]);
            }
        }
    }
    vstd::seq_lib::seq_to_set_is_finite(s);
    s.unique_seq_to_set();
}

/// One more element of a prefix: taking `i + 1` entries is taking `i` and
/// pushing the next.
pub proof fn lemma_take_step(s: Seq<usize>, i: int)
    requires
        0 <= i < s.len(),
    ensures
        s.take(i + 1) =~= s.take(i).push(s[i]),
        s.take(i + 1).to_set() == s.take(i).to_set().insert(s[i]),
{
    assert(s.take(i + 1) =~= s.take(i).push(s[i]));
    s.take(i).lemma_push_to_set_commute(s[i]);
}

/// In a strictly sorted sequence, an entry never occurs among the entries
/// before it.
pub proof fn lemma_sorted_take_not_contains(s: Seq<usize>, i: int)
    requires
        sorted_strict(s),
        0 <= i < s.len(),
    ensures
        !s.take(i).to_set().contains(s[i]),
{
    if s.take(i).to_set().contains(s[i]) {
        let k = choose|k: int| 0 <= k < s.take(i).len() && s.take(i)[k] == s[i];
        assert(s[k] < s[i]);
    }
}

/// Pushing the next value of a sorted source onto an output drawn from the
/// values before it keeps the output strictly sorted.
pub proof fn lemma_sorted_push(out: Seq<usize>, src: Seq<usize>, i: int, x: usize)
    requires
        0 <= i < src.len(),
        sorted_strict(src),
        src[i] == x,
        sorted_strict(out),
        forall|y: usize| out.to_set().contains(y) ==> src.take(i).to_set().contains(y),
    ensures
        sorted_strict(out.push(x)),
{
    assert forall|p: int, q: int| 0 <= p < q < out.push(x).len() implies out.push(x)[p] < out.push(
        x,
    )[q] by {
        if q == out.len() {
            let y = out[p];
            assert(out.to_set().contains(y));
            let k = choose|k: int| 0 <= k < src.take(i).len() && src.take(i)[k] == y;
            assert(src[k] == y && k < i);
        }
    }
}

} // verus!
