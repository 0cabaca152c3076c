//! Counting and summing over initial segments of the integers.

use vstd::prelude::*;

verus! {

/// The number of `i` with `0 <= i < n` for which `p` holds.
pub open spec fn tally(p: spec_fn(int) -> bool, n: int) -> int
    decreases n,
{
    if n <= 0 {
        0
    } else {
        tally(p, n - 1) + if p(n - 1) {
            1int
        } else {
            0int
        }
    }
}

/// The sum of `f(i)` over `0 <= i < n`.
pub open spec fn total(f: spec_fn(int) -> int, n: int) -> int
    decreases n,
{
    if n <= 0 {
        0
    } else {
        total(f, n - 1) + f(n - 1)
    }
}

/// A tally over `n` candidates lies between zero and `n`.
pub proof fn lemma_tally_bounds(p: spec_fn(int) -> bool, n: int)
    requires
        0 <= n,
    ensures
        0 <= tally(p, n) <= n,
    decreases n,
{
    if n > 0 {
        lemma_tally_bounds(p, n - 1);
    }
}

/// Tallies grow with the segment.
pub proof fn lemma_tally_monotone(p: spec_fn(int) -> bool, m: int, n: int)
    requires
        0 <= m <= n,
    ensures
        tally(p, m) <= tally(p, n),
    decreases n,
{
    if m < n {
        lemma_tally_monotone(p, m, n - 1);
    }
}

/// Two predicates that agree below `n` have the same tally there.
pub proof fn lemma_tally_same(p: spec_fn(int) -> bool, q: spec_fn(int) -> bool, n: int)
    requires
        forall|i: int| 0 <= i < n ==> #[trigger] p(i) == q(i),
    ensures
        tally(p, n) == tally(q, n),
    decreases n,
{
    if n > 0 {
        lemma_tally_same(p, q, n - 1);
    }
}

/// A predicate that is nowhere weaker has no larger tally.
pub proof fn lemma_tally_implies(p: spec_fn(int) -> bool, q: spec_fn(int) -> bool, n: int)
    requires
        forall|i: int| 0 <= i < n && #[trigger] p(i) ==> q(i),
    ensures
        tally(p, n) <= tally(q, n),
    decreases n,
{
    if n > 0 {
        lemma_tally_implies(p, q, n - 1);
    }
}

/// Losing a candidate makes the tally strictly smaller.
pub proof fn lemma_tally_strict(
    p: spec_fn(int) -> bool,
    q: spec_fn(int) -> bool,
    k: int,
    n: int,
)
    requires
        0 <= k < n,
        !p(k),
        q(k),
        forall|i: int| 0 <= i < n && #[trigger] p(i) ==> q(i),
    ensures
        tally(p, n) < tally(q, n),
    decreases n,
{
    if k == n - 1 {
        lemma_tally_implies(p, q, n - 1);
    } else {
        lemma_tally_strict(p, q, k, n - 1);
    }
}

/// A candidate makes the tally positive.
pub proof fn lemma_tally_positive(p: spec_fn(int) -> bool, k: int, n: int)
    requires
        0 <= k < n,
        p(k),
    ensures
        0 < tally(p, n),
    decreases n,
{
    if k < n - 1 {
        lemma_tally_positive(p, k, n - 1);
    } else {
        lemma_tally_bounds(p, n - 1);
    }
}

/// Without a candidate the tally is zero.
pub proof fn lemma_tally_none(p: spec_fn(int) -> bool, n: int)
    requires
        forall|i: int| 0 <= i < n ==> !#[trigger] p(i),
    ensures
        tally(p, n) == 0,
    decreases n,
{
    if n > 0 {
        lemma_tally_none(p, n - 1);
    }
}

/// A sum of terms between zero and `top` lies between zero and `n * top`.
pub proof fn lemma_total_bounds(f: spec_fn(int) -> int, n: int, top: int)
    requires
        0 <= n,
        0 <= top,
        forall|i: int| 0 <= i < n ==> 0 <= #[trigger] f(i) <= top,
    ensures
        0 <= total(f, n) <= n * top,
    decreases n,
{
    if n > 0 {
        lemma_total_bounds(f, n - 1, top);
        assert((n - 1) * top + top == n * top) by (nonlinear_arith);
    }
}

/// Sums of nonnegative terms grow with the segment.
pub proof fn lemma_total_monotone(f: spec_fn(int) -> int, m: int, n: int)
    requires
        0 <= m <= n,
        forall|i: int| 0 <= i < n ==> 0 <= #[trigger] f(i),
    ensures
        total(f, m) <= total(f, n),
    decreases n,
{
    if m < n {
        lemma_total_monotone(f, m, n - 1);
    }
}

/// Terms that are all zero sum up to zero.
pub proof fn lemma_total_none(f: spec_fn(int) -> int, n: int)
    requires
        forall|i: int| 0 <= i < n ==> #[trigger] f(i) == 0,
    ensures
        total(f, n) == 0,
    decreases n,
{
    if n > 0 {
        lemma_total_none(f, n - 1);
    }
}

/// A change of one term changes the sum by as much.
pub proof fn lemma_total_change(f: spec_fn(int) -> int, g: spec_fn(int) -> int, k: int, n: int)
    requires
        0 <= k < n,
        forall|i: int| 0 <= i < n && i != k ==> #[trigger] f(i) == g(i),
    ensures
        total(g, n) - total(f, n) == g(k) - f(k),
    decreases n,
{
    if k == n - 1 {
        lemma_total_same(f, g, n - 1);
    } else {
        lemma_total_change(f, g, k, n - 1);
    }
}

/// A change of one candidate changes the tally by one or not at all.
pub proof fn lemma_tally_change(
    p: spec_fn(int) -> bool,
    q: spec_fn(int) -> bool,
    k: int,
    n: int,
)
    requires
        0 <= k < n,
        forall|i: int| 0 <= i < n && i != k ==> #[trigger] p(i) == q(i),
    ensures
        tally(q, n) - tally(p, n) == (if q(k) {
            1int
        } else {
            0int
        }) - (if p(k) {
            1int
        } else {
            0int
        }),
    decreases n,
{
    if k == n - 1 {
        lemma_tally_same(p, q, n - 1);
    } else {
        lemma_tally_change(p, q, k, n - 1);
    }
}

/// A sum of terms that are each at least `low` and at most `top` where `p` holds, and zero
/// elsewhere, lies between the tally of `p` times `low` and times `top`.
pub proof fn lemma_total_per_tally(
    f: spec_fn(int) -> int,
    p: spec_fn(int) -> bool,
    n: int,
    low: int,
    top: int,
)
    requires
        forall|i: int| 0 <= i < n && p(i) ==> low <= #[trigger] f(i) <= top,
        forall|i: int| 0 <= i < n && !p(i) ==> #[trigger] f(i) == 0,
    ensures
        low * tally(p, n) <= total(f, n) <= top * tally(p, n),
    decreases n,
{
    if n > 0 {
        lemma_total_per_tally(f, p, n - 1, low, top);
        let t = tally(p, n - 1);
        assert(low * (t + 1) == low * t + low) by (nonlinear_arith);
        assert(top * (t + 1) == top * t + top) by (nonlinear_arith);
    } else {
        assert(low * 0 == 0 && top * 0 == 0) by (nonlinear_arith);
    }
}

/// The sum of termwise sums is the sum of the sums.
pub proof fn lemma_total_plus(
    f: spec_fn(int) -> int,
    g: spec_fn(int) -> int,
    h: spec_fn(int) -> int,
    n: int,
)
    requires
        forall|i: int| 0 <= i < n ==> #[trigger] h(i) == f(i) + g(i),
    ensures
        total(h, n) == total(f, n) + total(g, n),
    decreases n,
{
    if n > 0 {
        lemma_total_plus(f, g, h, n - 1);
    }
}

/// Two terms that agree below `n` have the same sum there.
pub proof fn lemma_total_same(f: spec_fn(int) -> int, g: spec_fn(int) -> int, n: int)
    requires
        forall|i: int| 0 <= i < n ==> #[trigger] f(i) == g(i),
    ensures
        total(f, n) == total(g, n),
    decreases n,
{
    if n > 0 {
        lemma_total_same(f, g, n - 1);
    }
}

} // verus!
