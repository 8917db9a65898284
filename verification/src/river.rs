//! Digit-sum rivers: starting from a number, each step adds the number's
//! decimal digit sum.  Two rivers that meet do so at a unique first common
//! value, which `meeting_point` computes.

use vstd::prelude::*;

verus! {

/// The decimal digit sum of `n`.
pub open spec fn sum_digits(n: int) -> int
    decreases n,
{
    if n <= 0 {
        0
    } else {
        n % 10 + sum_digits(n / 10)
    }
}

/// One river step.
pub open spec fn river_next(n: int) -> int {
    n + sum_digits(n)
}

/// The river value `k` steps downstream of `n`.
pub open spec fn river_iter(n: int, k: nat) -> int
    decreases k,
{
    if k == 0 {
        n
    } else {
        river_next(river_iter(n, (k - 1) as nat))
    }
}

/// The river starting at `a` passes through `b`.
pub open spec fn river_reaches(a: int, b: int) -> bool {
    exists|k: nat| river_iter(a, k) == b
}

/// The rivers starting at `r1` and `r2` both pass through `c`.
pub open spec fn rivers_meet_at(r1: int, r2: int, c: int) -> bool {
    river_reaches(r1, c) && river_reaches(r2, c)
}

/// A digit sum is between zero and its number, and positive for positive
/// numbers.
pub proof fn lemma_sum_digits_bounds(n: int)
    requires
        n >= 0,
    ensures
        0 <= sum_digits(n) <= n,
        n >= 1 ==> sum_digits(n) >= 1,
    decreases n,
{
    if n > 0 {
        lemma_sum_digits_bounds(n / 10);
    }
}

/// Rivers never flow backwards: every downstream value is at least the
/// start, and stays positive.
pub proof fn lemma_iter_lower(n: int, k: nat)
    requires
        n >= 1,
    ensures
        river_iter(n, k) >= n,
        river_iter(n, k) >= 1,
    decreases k,
{
    if k > 0 {
        lemma_iter_lower(n, (k - 1) as nat);
        lemma_sum_digits_bounds(river_iter(n, (k - 1) as nat));
    }
}

/// Rivers are strictly increasing step by step.
pub proof fn lemma_iter_strict(n: int, j: nat, k: nat)
    requires
        n >= 1,
        j < k,
    ensures
        river_iter(n, j) < river_iter(n, k),
    decreases k,
{
    lemma_iter_lower(n, (k - 1) as nat);
    lemma_sum_digits_bounds(river_iter(n, (k - 1) as nat));
    if j < k - 1 {
        lemma_iter_strict(n, j, (k - 1) as nat);
    }
}

/// Going `k` steps from `n` is one step and then `k - 1` more.
pub proof fn lemma_iter_shift(n: int, k: nat)
    requires
        k >= 1,
    ensures
        river_iter(n, k) == river_iter(river_next(n), (k - 1) as nat),
    decreases k,
{
    if k > 1 {
        lemma_iter_shift(n, (k - 1) as nat);
        assert(river_iter(n, k) == river_next(river_iter(n, (k - 1) as nat)));
        assert(river_iter(river_next(n), (k - 1) as nat) == river_next(
            river_iter(river_next(n), (k - 2) as nat),
        ));
    } else {
        assert(river_iter(n, 1) == river_next(river_iter(n, 0)));
        assert(river_iter(n, 0) == n);
        assert(river_iter(river_next(n), 0) == river_next(n));
    }
}

/// Of two values on the same river, the larger is downstream of the
/// smaller.
pub proof fn lemma_reaches_between(a: int, b: int, c: int)
    requires
        a >= 1,
        river_reaches(a, b),
        river_reaches(a, c),
        b <= c,
    ensures
        river_reaches(b, c),
{
    let j = choose|j: nat| river_iter(a, j) == b;
    let k = choose|k: nat| river_iter(a, k) == c;
    if j <= k {
        lemma_iter_chain(a, j, (k - j) as nat);
        assert(river_iter(b, (k - j) as nat) == c);
    } else {
        lemma_iter_strict(a, k, j);
    }
}

/// Iterating `j + d` steps is iterating `j`, then `d` from there.
pub proof fn lemma_iter_chain(n: int, j: nat, d: nat)
    ensures
        river_iter(n, (j + d) as nat) == river_iter(river_iter(n, j), d),
    decreases d,
{
    if d > 0 {
        lemma_iter_chain(n, j, (d - 1) as nat);
        assert(river_iter(n, (j + d) as nat) == river_next(river_iter(n, (j + d - 1) as nat)));
    }
}

/// A strictly later river value is downstream of the next step too.
pub proof fn lemma_reaches_step(a: int, c: int)
    requires
        a >= 1,
        river_reaches(a, c),
        c > a,
    ensures
        river_reaches(river_next(a), c),
        c >= river_next(a),
{
    let k = choose|k: nat| river_iter(a, k) == c;
    assert(k != 0);
    lemma_iter_shift(a, k);
    assert(river_iter(river_next(a), (k - 1) as nat) == c);
    lemma_sum_digits_bounds(a);
    lemma_iter_lower(river_next(a), (k - 1) as nat);
}

/// The decimal digit sum of a number.
#[verifier::loop_isolation(false)]
pub fn sumdigits(num: u32) -> (r: u32)
    ensures
        r as int == sum_digits(num as int),
{
    let mut sum: u32 = 0;
    let mut n: u32 = num;
    proof {
        lemma_sum_digits_bounds(num as int);
    }
    while n > 0
        invariant
            sum as int + sum_digits(n as int) == sum_digits(num as int),
            0 <= sum_digits(num as int) <= num as int,
            0 <= sum_digits(n as int),
        decreases n,
    {
        proof {
            lemma_sum_digits_bounds(n as int / 10);
        }
        sum += n % 10;
        n /= 10;
    }
    sum
}

/// Walk the two rivers forward, always advancing the one that is behind,
/// until they meet.  The result is the first common value of the two
/// rivers: both pass through it, and no common value is smaller.
#[verifier::loop_isolation(false)]
pub fn meeting_point(r1: u32, r2: u32) -> (r: u32)
    requires
        r1 >= 1,
        r2 >= 1,
        exists|c: int| 0 <= c <= u32::MAX as int && rivers_meet_at(r1 as int, r2 as int, c),
    ensures
        rivers_meet_at(r1 as int, r2 as int, r as int),
        forall|c: int| rivers_meet_at(r1 as int, r2 as int, c) ==> r as int <= c,
{
    let ghost m = choose|c: int|
        0 <= c <= u32::MAX as int && rivers_meet_at(r1 as int, r2 as int, c);
    let mut n1: u32 = r1;
    let mut n2: u32 = r2;
    proof {
        assert(river_iter(r1 as int, 0) == r1 as int);
        assert(river_iter(r2 as int, 0) == r2 as int);
        assert forall|c: int| rivers_meet_at(r1 as int, r2 as int, c) implies c >= n1 as int && c
            >= n2 as int by {
            lemma_iter_lower(r1 as int, choose|k: nat| river_iter(r1 as int, k) == c);
            lemma_iter_lower(r2 as int, choose|k: nat| river_iter(r2 as int, k) == c);
        }
    }
    while n1 != n2
        invariant
            1 <= n1,
            1 <= n2,
            n1 as int <= m,
            n2 as int <= m,
            0 <= m <= u32::MAX as int,
            rivers_meet_at(r1 as int, r2 as int, m),
            river_reaches(r1 as int, n1 as int),
            river_reaches(r2 as int, n2 as int),
            river_reaches(n1 as int, m),
            river_reaches(n2 as int, m),
            forall|c: int|
                rivers_meet_at(r1 as int, r2 as int, c) ==> c >= n1 as int && c >= n2 as int,
        decreases 2 * m - n1 as int - n2 as int,
    {
        if n1 < n2 {
            proof {
                assert(m >= n2 > n1);
                lemma_reaches_step(n1 as int, m);
                lemma_sum_digits_bounds(n1 as int);
            }
            let ghost old1 = n1 as int;
            n1 = n1 + sumdigits(n1);
            proof {
                assert(n1 as int == river_next(old1));
                let k = choose|k: nat| river_iter(r1 as int, k) == old1;
                assert(river_iter(r1 as int, (k + 1) as nat) == river_next(old1));
                assert(river_reaches(r1 as int, n1 as int));
                assert forall|c: int| rivers_meet_at(r1 as int, r2 as int, c) implies c
                    >= n1 as int && c >= n2 as int by {
                    assert(c >= old1 && c >= n2 as int);
                    assert(c > old1);
                    lemma_reaches_between(r1 as int, old1, c);
                    lemma_reaches_step(old1, c);
                }
            }
        } else {
            proof {
                assert(m >= n1 > n2);
                lemma_reaches_step(n2 as int, m);
                lemma_sum_digits_bounds(n2 as int);
            }
            let ghost old2 = n2 as int;
            n2 = n2 + sumdigits(n2);
            proof {
                assert(n2 as int == river_next(old2));
                let k = choose|k: nat| river_iter(r2 as int, k) == old2;
                assert(river_iter(r2 as int, (k + 1) as nat) == river_next(old2));
                assert(river_reaches(r2 as int, n2 as int));
                assert forall|c: int| rivers_meet_at(r1 as int, r2 as int, c) implies c
                    >= n1 as int && c >= n2 as int by {
                    assert(c >= old2 && c >= n1 as int);
                    assert(c > old2);
                    lemma_reaches_between(r2 as int, old2, c);
                    lemma_reaches_step(old2, c);
                }
            }
        }
    }
    n1
}

} // verus!
