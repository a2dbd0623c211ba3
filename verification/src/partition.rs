//! Work partitioner for the triangular pairwise-interaction loop.
//!
//! The force kernel visits every unordered particle pair `(i, j)` with
//! `i < j` once, so outer index `i` owns `n - i - 1` inner iterations:
//! early outer indices carry far more work than late ones. Splitting the
//! outer range `[0, n)` into `k` equal-length pieces would therefore be
//! badly unbalanced. Instead the boundaries are placed at
//! `n - sqrt(n * n * (k - j) / k)` (rounded down), the closed-form inverse
//! of the cumulative-work curve of a triangular loop, so every range owns
//! roughly `n * (n - 1) / (2 * k)` pairs.
//!
//! What is proved here: the ranges are contiguous, non-overlapping, and
//! cover `[0, n)` exactly, and the per-range pair counts sum to exactly
//! `n * (n - 1) / 2` — no pair is dropped or visited twice, whichever
//! worker owns it.

use vstd::prelude::*;
use vstd::arithmetic::div_mod::{
    lemma_div_is_ordered, lemma_div_multiples_vanish, lemma_div_pos_is_pos,
    lemma_fundamental_div_mod, lemma_mod_bound,
};

verus! {

/// The integer square root: the greatest `r >= 0` with `r * r <= x`
/// (and `0` for negative `x`, which never arises below).
pub open spec fn sqrt_floor(x: int) -> int
    decreases x,
{
    if x <= 0 {
        0
    } else {
        let r = sqrt_floor(x - 1);
        if (r + 1) * (r + 1) <= x {
            r + 1
        } else {
            r
        }
    }
}

/// `sqrt_floor(x)` brackets `x` between two consecutive squares.
pub proof fn lemma_sqrt_floor_bounds(x: int)
    requires
        x >= 0,
    ensures
        0 <= sqrt_floor(x),
        sqrt_floor(x) * sqrt_floor(x) <= x,
        x < (sqrt_floor(x) + 1) * (sqrt_floor(x) + 1),
    decreases x,
{
    if x > 0 {
        lemma_sqrt_floor_bounds(x - 1);
        let r = sqrt_floor(x - 1);
        if (r + 1) * (r + 1) <= x {
            assert(x < (r + 2) * (r + 2)) by (nonlinear_arith)
                requires
                    0 <= r,
                    x - 1 < (r + 1) * (r + 1),
            ;
        }
    }
}

/// Only one value brackets `x` that way, so any such value is `sqrt_floor(x)`.
pub proof fn lemma_sqrt_floor_unique(x: int, r: int)
    requires
        0 <= r,
        r * r <= x,
        x < (r + 1) * (r + 1),
    ensures
        r == sqrt_floor(x),
{
    lemma_sqrt_floor_bounds(x);
    let s = sqrt_floor(x);
    assert(r == s) by (nonlinear_arith)
        requires
            0 <= r,
            0 <= s,
            r * r <= x,
            x < (r + 1) * (r + 1),
            s * s <= x,
            x < (s + 1) * (s + 1),
    ;
}

/// The integer square root is monotone.
pub proof fn lemma_sqrt_floor_monotone(x: int, y: int)
    requires
        0 <= x <= y,
    ensures
        sqrt_floor(x) <= sqrt_floor(y),
{
    lemma_sqrt_floor_bounds(x);
    lemma_sqrt_floor_bounds(y);
    let a = sqrt_floor(x);
    let b = sqrt_floor(y);
    assert(a <= b) by (nonlinear_arith)
        requires
            0 <= a,
            0 <= b,
            a * a <= x,
            x < (a + 1) * (a + 1),
            b * b <= y,
            y < (b + 1) * (b + 1),
            x <= y,
    ;
}

/// On a perfect square the integer square root is exact.
pub proof fn lemma_sqrt_floor_square(n: int)
    requires
        n >= 0,
    ensures
        sqrt_floor(n * n) == n,
{
    assert(n * n >= 0 && n * n < (n + 1) * (n + 1)) by (nonlinear_arith)
        requires
            n >= 0,
    ;
    lemma_sqrt_floor_unique(n * n, n);
}

/// Computes `sqrt_floor` of a machine integer by bisection.
pub fn isqrt(x: u128) -> (r: u128)
    ensures
        r as int == sqrt_floor(x as int),
        r * r <= x,
{
    if x == 0 {
        proof {
            lemma_sqrt_floor_bounds(0);
        }
        return 0;
    }
    let mut lo: u128 = 0;
    let mut hi: u128 = 0x1_0000_0000_0000_0000;
    proof {
        assert((x as int) < hi * hi) by (nonlinear_arith)
            requires
                hi == 0x1_0000_0000_0000_0000,
                x <= u128::MAX,
        ;
    }
    while lo + 1 < hi
        invariant
            lo < hi,
            hi <= 0x1_0000_0000_0000_0000,
            (lo as int) * (lo as int) <= x as int,
            (x as int) < (hi as int) * (hi as int),
        decreases hi - lo,
    {
        let mid: u128 = lo + (hi - lo) / 2;
        proof {
            assert(mid * mid <= u128::MAX) by (nonlinear_arith)
                requires
                    mid < 0x1_0000_0000_0000_0000,
            ;
        }
        if mid * mid <= x {
            lo = mid;
        } else {
            hi = mid;
        }
    }
    proof {
        lemma_sqrt_floor_unique(x as int, lo as int);
    }
    lo
}

/// The square-root argument used when placing boundary `j` of a `k`-way
/// partition of `[0, n)`: the squared distance from `n` that leaves
/// `(k - j) / k` of the triangular work to the right of the boundary.
pub open spec fn split_work_arg(n: int, k: int, j: int) -> int {
    (n * n * (k - j)) / k
}

/// Boundary `j` (for `0 <= j <= k`) of the balanced partition:
/// `n - sqrt(n * n * (k - j) / k)`, everything rounded down. Boundary `0`
/// is `0` and boundary `k` is `n`; a range `j` spans boundary `j` to
/// boundary `j + 1`.
pub open spec fn split_bound(n: int, k: int, j: int) -> int {
    n - sqrt_floor(split_work_arg(n, k, j))
}

/// Every boundary lies inside `[0, n]`.
pub proof fn lemma_split_bound_range(n: int, k: int, j: int)
    requires
        0 <= n,
        1 <= k,
        0 <= j <= k,
    ensures
        0 <= split_bound(n, k, j) <= n,
        0 <= split_work_arg(n, k, j),
        sqrt_floor(split_work_arg(n, k, j)) <= n,
{
    let num = n * n * (k - j);
    assert(0 <= num && num <= n * n * k && n * n * k == k * (n * n)) by (nonlinear_arith)
        requires
            0 <= n,
            0 <= j <= k,
            num == n * n * (k - j),
    ;
    lemma_div_pos_is_pos(num, k);
    lemma_div_is_ordered(num, n * n * k, k);
    lemma_div_multiples_vanish(n * n, k);
    lemma_sqrt_floor_monotone(split_work_arg(n, k, j), n * n);
    lemma_sqrt_floor_square(n);
    lemma_sqrt_floor_bounds(split_work_arg(n, k, j));
}

/// Boundaries are placed in order: a later boundary never lies left of an
/// earlier one.
pub proof fn lemma_split_bound_monotone(n: int, k: int, j1: int, j2: int)
    requires
        0 <= n,
        1 <= k,
        0 <= j1 <= j2 <= k,
    ensures
        split_bound(n, k, j1) <= split_bound(n, k, j2),
{
    let num1 = n * n * (k - j1);
    let num2 = n * n * (k - j2);
    assert(0 <= num2 && num2 <= num1) by (nonlinear_arith)
        requires
            0 <= n,
            j1 <= j2 <= k,
            num1 == n * n * (k - j1),
            num2 == n * n * (k - j2),
    ;
    lemma_div_pos_is_pos(num2, k);
    lemma_div_is_ordered(num2, num1, k);
    lemma_sqrt_floor_monotone(split_work_arg(n, k, j2), split_work_arg(n, k, j1));
}

/// The first boundary is `0` and the last is `n`: the ranges span exactly
/// `[0, n)`.
pub proof fn lemma_split_bound_ends(n: int, k: int)
    requires
        0 <= n,
        1 <= k,
    ensures
        split_bound(n, k, 0) == 0,
        split_bound(n, k, k) == n,
{
    assert(n * n * (k - k) == 0 && n * n * (k - 0) == k * (n * n)) by (nonlinear_arith);
    lemma_div_multiples_vanish(n * n, k);
    lemma_div_multiples_vanish(0, k);
    lemma_sqrt_floor_square(n);
    assert(sqrt_floor(0) == 0);
}

/// The partition shape the force kernel relies on: at least one range,
/// starting at `0`, ending at `n`, each range well-formed, and each range
/// starting exactly where the one before it ended. Together these make
/// the ranges a contiguous, non-overlapping, exact cover of `[0, n)`.
pub open spec fn splits_cover(s: Seq<(usize, usize)>, n: int) -> bool {
    &&& s.len() > 0
    &&& s[0].0 == 0
    &&& s[s.len() - 1].1 == n
    &&& forall|i: int| 0 <= i < s.len() ==> ((#[trigger] s[i]).0 as int) <= (s[i].1 as int)
    &&& forall|i: int| 0 < i < s.len() ==> ((#[trigger] s[i]).0 as int) == (s[i - 1].1 as int)
}

/// Partitions the outer indices `[0, n)` of the triangular pair loop into
/// `k` contiguous ranges of roughly equal pairwise work, one per worker.
///
/// Range `j` spans `split_bound(n, k, j)` to `split_bound(n, k, j + 1)`,
/// so early ranges are short and late ranges are long, balancing the
/// `n - i - 1` inner iterations that outer index `i` owns. The bound on
/// `n` keeps the exact boundary arithmetic `n * n * (k - j)` inside a
/// machine word pair; it is far beyond any feasible particle count for an
/// `n`-squared interaction loop.
pub fn make_splits(n: usize, k: usize) -> (r: Vec<(usize, usize)>)
    requires
        1 <= k,
        n <= 0x1_0000_0000,
    ensures
        r@.len() == k as int,
        forall|j: int| 0 <= j < k ==> ((#[trigger] r@[j]).0 as int) == split_bound(n as int, k as int, j),
        forall|j: int| 0 <= j < k ==> ((#[trigger] r@[j]).1 as int) == split_bound(n as int, k as int, j + 1),
        splits_cover(r@, n as int),
{
    let mut r: Vec<(usize, usize)> = Vec::new();
    let mut prev: usize = 0;
    proof {
        lemma_split_bound_ends(n as int, k as int);
        assert((n as int) * (n as int) <= 0x1_0000_0000_0000_0000) by (nonlinear_arith)
            requires
                n <= 0x1_0000_0000,
        ;
    }
    let n2: u128 = (n as u128) * (n as u128);
    let mut idx: usize = 0;
    while idx < k
        invariant
            0 <= idx <= k,
            1 <= k,
            n <= 0x1_0000_0000,
            n2 == (n as int) * (n as int),
            n2 <= 0x1_0000_0000_0000_0000u128,
            r@.len() == idx as int,
            prev <= n,
            (prev as int) == split_bound(n as int, k as int, idx as int),
            forall|i: int| 0 <= i < idx ==> ((#[trigger] r@[i]).0 as int) == split_bound(
                n as int,
                k as int,
                i,
            ),
            forall|i: int| 0 <= i < idx ==> ((#[trigger] r@[i]).1 as int) == split_bound(
                n as int,
                k as int,
                i + 1,
            ),
        decreases k - idx,
    {
        let j: usize = idx + 1;
        let rem: u128 = (k - j) as u128;
        proof {
            assert(n2 * rem < u128::MAX) by (nonlinear_arith)
                requires
                    n2 <= 0x1_0000_0000_0000_0000u128,
                    rem < 0x1_0000_0000_0000_0000u128,
            ;
        }
        let t: u128 = (n2 * rem) / (k as u128);
        let s: u128 = isqrt(t);
        proof {
            assert((t as int) == split_work_arg(n as int, k as int, j as int));
            lemma_split_bound_range(n as int, k as int, j as int);
            lemma_split_bound_monotone(n as int, k as int, idx as int, j as int);
        }
        let b: usize = n - (s as usize);
        r.push((prev, b));
        prev = b;
        idx = j;
    }
    proof {
        assert(forall|i: int| 0 < i < r@.len() ==> ((#[trigger] r@[i]).0 as int) == (r@[i - 1].1 as int));
        assert forall|i: int| 0 <= i < r@.len() implies ((#[trigger] r@[i]).0 as int) <= (r@[i].1 as int) by {
            lemma_split_bound_monotone(n as int, k as int, i, i + 1);
        }
    }
    r
}

/// The number of pairs owned by outer indices `lo` (inclusive) up to `hi`
/// (exclusive): index `i` pairs with every `j` in `(i, n)`, so it owns
/// `n - i - 1` pairs.
pub open spec fn range_work(n: int, lo: int, hi: int) -> int
    decreases hi - lo,
{
    if lo >= hi {
        0
    } else {
        (n - 1 - lo) + range_work(n, lo + 1, hi)
    }
}

/// The pairs owned by a sequence of ranges, counted range by range.
pub open spec fn total_work(s: Seq<(usize, usize)>, n: int) -> int
    decreases s.len(),
{
    if s.len() == 0 {
        0
    } else {
        range_work(n, s[0].0 as int, s[0].1 as int) + total_work(s.drop_first(), n)
    }
}

/// Splitting a range at any interior point splits its pair count.
proof fn lemma_range_work_concat(n: int, lo: int, mid: int, hi: int)
    requires
        lo <= mid <= hi,
    ensures
        range_work(n, lo, hi) == range_work(n, lo, mid) + range_work(n, mid, hi),
    decreases mid - lo,
{
    if lo < mid {
        lemma_range_work_concat(n, lo + 1, mid, hi);
    }
}

/// Twice the pair count of the suffix `[lo, n)` is `(n - lo) * (n - lo - 1)`.
proof fn lemma_range_work_suffix(n: int, lo: int)
    requires
        0 <= lo <= n,
    ensures
        2 * range_work(n, lo, n) == (n - lo) * (n - lo - 1),
    decreases n - lo,
{
    if lo < n {
        lemma_range_work_suffix(n, lo + 1);
        let m = n - lo;
        assert(m * (m - 1) == 2 * (m - 1) + (m - 1) * (m - 2)) by (nonlinear_arith);
    } else {
        assert((n - lo) * (n - lo - 1) == 0) by (nonlinear_arith)
            requires
                n == lo,
        ;
    }
}

/// Closed form of a range's pair count: the triangular count below `lo`
/// minus the triangular count below `hi`, both measured from `n`.
pub proof fn lemma_range_work_closed(n: int, lo: int, hi: int)
    requires
        0 <= lo <= hi <= n,
    ensures
        2 * range_work(n, lo, hi) == (n - lo) * (n - lo - 1) - (n - hi) * (n - hi - 1),
{
    lemma_range_work_concat(n, lo, hi, n);
    lemma_range_work_suffix(n, lo);
    lemma_range_work_suffix(n, hi);
}

/// LAW (balance). Every range of the partition owns at most the even
/// share of the pairs plus a boundary-rounding term: doubled and scaled
/// by `k`, range `j`'s pair count stays below `n * n + 2 * n * k + k`,
/// that is, below `n * n / (2 * k) + n + 1` pairs per worker.
pub proof fn lemma_split_balanced(n: int, k: int, j: int)
    requires
        0 <= n,
        1 <= k,
        0 <= j < k,
    ensures
        2 * k * range_work(n, split_bound(n, k, j), split_bound(n, k, j + 1)) <= n * n + 2 * n * k
            + k,
{
    let num1 = n * n * (k - j);
    let num2 = n * n * (k - j - 1);
    let a1 = split_work_arg(n, k, j);
    let a2 = split_work_arg(n, k, j + 1);
    let s1 = sqrt_floor(a1);
    let s2 = sqrt_floor(a2);
    let b1 = split_bound(n, k, j);
    let b2 = split_bound(n, k, j + 1);
    lemma_split_bound_range(n, k, j);
    lemma_split_bound_range(n, k, j + 1);
    lemma_split_bound_monotone(n, k, j, j + 1);
    lemma_range_work_closed(n, b1, b2);
    let w = range_work(n, b1, b2);
    assert(2 * w == s1 * (s1 - 1) - s2 * (s2 - 1));
    lemma_sqrt_floor_bounds(a1);
    lemma_sqrt_floor_bounds(a2);
    assert(a2 <= s2 * s2 + 2 * s2) by (nonlinear_arith)
        requires
            a2 < (s2 + 1) * (s2 + 1),
    ;
    assert(2 * w <= a1 - a2 + 2 * s2) by (nonlinear_arith)
        requires
            2 * w == s1 * (s1 - 1) - s2 * (s2 - 1),
            s2 <= s1,
            s1 * s1 <= a1,
            a2 <= s2 * s2 + 2 * s2,
    ;
    lemma_fundamental_div_mod(num1, k);
    lemma_fundamental_div_mod(num2, k);
    lemma_mod_bound(num1, k);
    lemma_mod_bound(num2, k);
    assert(num1 - num2 == n * n) by (nonlinear_arith)
        requires
            num1 == n * n * (k - j),
            num2 == n * n * (k - j - 1),
    ;
    assert(k * (a1 - a2) == k * a1 - k * a2) by (nonlinear_arith);
    assert(k * (a1 - a2) <= n * n + k - 1);
    assert(2 * k * w <= k * (a1 - a2 + 2 * s2)) by (nonlinear_arith)
        requires
            2 * w <= a1 - a2 + 2 * s2,
            1 <= k,
    ;
    assert(k * (a1 - a2 + 2 * s2) <= k * (a1 - a2) + 2 * k * n) by (nonlinear_arith)
        requires
            s2 <= n,
            1 <= k,
    ;
    assert(2 * k * w <= n * n + 2 * n * k + k) by (nonlinear_arith)
        requires
            2 * k * w <= k * (a1 - a2 + 2 * s2),
            k * (a1 - a2 + 2 * s2) <= k * (a1 - a2) + 2 * k * n,
            k * (a1 - a2) <= n * n + k - 1,
    ;
}

/// A contiguous chain of well-formed ranges owns exactly the pairs of the
/// interval it spans.
proof fn lemma_total_work_chain(s: Seq<(usize, usize)>, n: int)
    requires
        s.len() > 0,
        forall|i: int| 0 <= i < s.len() ==> ((#[trigger] s[i]).0 as int) <= (s[i].1 as int),
        forall|i: int| 0 < i < s.len() ==> ((#[trigger] s[i]).0 as int) == (s[i - 1].1 as int),
    ensures
        (s[0].0 as int) <= (s[s.len() - 1].1 as int),
        total_work(s, n) == range_work(n, s[0].0 as int, s[s.len() - 1].1 as int),
    decreases s.len(),
{
    if s.len() == 1 {
        assert(total_work(s.drop_first(), n) == 0);
    } else {
        let rest = s.drop_first();
        assert(forall|i: int| 0 <= i < rest.len() ==> rest[i] == s[i + 1]);
        lemma_total_work_chain(rest, n);
        lemma_range_work_concat(
            n,
            s[0].0 as int,
            s[0].1 as int,
            (s[s.len() - 1].1 as int),
        );
    }
}

/// LAW (pair conservation). Any contiguous cover of `[0, n)` — in
/// particular the one `make_splits` builds — owns, summed over its
/// ranges, exactly the `n * (n - 1) / 2` unordered pairs of the
/// triangular loop: no pair is dropped and none is counted twice.
pub proof fn lemma_cover_work_total(s: Seq<(usize, usize)>, n: int)
    requires
        splits_cover(s, n),
        0 <= n,
    ensures
        2 * total_work(s, n) == n * (n - 1),
        total_work(s, n) == n * (n - 1) / 2,
{
    lemma_total_work_chain(s, n);
    lemma_range_work_suffix(n, 0);
    let t = total_work(s, n);
    lemma_div_multiples_vanish(t, 2);
    assert(n * (n - 1) == 2 * t);
}

/// Range ends of a cover never decrease from one range to a later one.
proof fn lemma_cover_ends_monotone(s: Seq<(usize, usize)>, n: int, i: int, j: int)
    requires
        splits_cover(s, n),
        0 <= i <= j < s.len(),
    ensures
        (s[i].1 as int) <= (s[j].1 as int),
    decreases j - i,
{
    if i < j {
        lemma_cover_ends_monotone(s, n, i + 1, j);
    }
}

/// LAW (no shared outer index). Two distinct ranges of a cover are
/// disjoint: the earlier one ends no later than the later one begins.
/// This is what lets each worker accumulate into private storage with no
/// two workers owning the same outer index.
pub proof fn lemma_cover_disjoint(s: Seq<(usize, usize)>, n: int, i: int, j: int)
    requires
        splits_cover(s, n),
        0 <= i < j < s.len(),
    ensures
        (s[i].1 as int) <= (s[j].0 as int),
{
    lemma_cover_ends_monotone(s, n, i, j - 1);
}

/// A chain of contiguous ranges spanning an interval that contains `x`
/// has a range that contains `x`.
proof fn lemma_chain_owns(s: Seq<(usize, usize)>, x: int)
    requires
        s.len() > 0,
        forall|i: int| 0 <= i < s.len() ==> ((#[trigger] s[i]).0 as int) <= (s[i].1 as int),
        forall|i: int| 0 < i < s.len() ==> ((#[trigger] s[i]).0 as int) == (s[i - 1].1 as int),
        (s[0].0 as int) <= x < (s[s.len() - 1].1 as int),
    ensures
        exists|i: int| 0 <= i < s.len() && ((#[trigger] s[i]).0 as int) <= x < (s[i].1 as int),
    decreases s.len(),
{
    if x < s[0].1 {
        assert(0 <= 0 < s.len() && ((s[0int]).0 as int) <= x < (s[0int].1 as int));
    } else {
        let rest = s.drop_first();
        assert(forall|i: int| 0 <= i < rest.len() ==> rest[i] == s[i + 1]);
        lemma_chain_owns(rest, x);
        let w = choose|i: int| 0 <= i < rest.len() && ((#[trigger] rest[i]).0 as int) <= x < (rest[i].1 as int);
        assert(0 <= w + 1 < s.len() && ((s[w + 1]).0 as int) <= x < (s[w + 1].1 as int));
    }
}

/// LAW (exact coverage). Every outer index of the triangular loop is
/// owned by some range of a cover of `[0, n)`; together with
/// `lemma_cover_disjoint` the owner is unique.
pub proof fn lemma_cover_owns(s: Seq<(usize, usize)>, n: int, x: int)
    requires
        splits_cover(s, n),
        0 <= x < n,
    ensures
        exists|i: int| 0 <= i < s.len() && ((#[trigger] s[i]).0 as int) <= x < (s[i].1 as int),
{
    lemma_chain_owns(s, x);
}

} // verus!
