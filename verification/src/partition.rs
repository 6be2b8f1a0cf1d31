//! Division of the factorial rank space into per-worker ranges.
//!
//! A scan of all `total = n!` permutation ranks is split over `threads`
//! workers: worker `t` takes the half-open range
//! `[t * chunk, (t + 1) * chunk)` with `chunk = total / threads`, and one
//! extra remainder range `[threads * chunk, total)` picks up the leftover
//! when `total` does not divide evenly.  Together the ranges cover
//! `[0, total)` exactly, pairwise disjoint (`lemma_partition_exact`).

use vstd::prelude::*;

use vstd::arithmetic::div_mod::{lemma_fundamental_div_mod, lemma_mod_division_less_than_divisor};
use vstd::arithmetic::mul::lemma_mul_inequality;

verus! {

/// Number of permutations of a set of `n` distinct cities.
pub open spec fn spec_factorial(n: nat) -> nat
    decreases n,
{
    if n == 0 {
        1
    } else {
        n * spec_factorial((n - 1) as nat)
    }
}

/// Largest `n` whose factorial fits in a `u64` rank.
pub const MAX_FACTORIAL_ARG: u64 = 20;

/// Factorial grows monotonically.
pub proof fn lemma_factorial_monotonic(a: nat, b: nat)
    requires
        a <= b,
    ensures
        spec_factorial(a) <= spec_factorial(b),
    decreases b,
{
    if b > a {
        lemma_factorial_monotonic(a, (b - 1) as nat);
        assert(spec_factorial((b - 1) as nat) <= b * spec_factorial((b - 1) as nat))
            by (nonlinear_arith)
            requires
                b >= 1,
        ;
    }
}

/// The whole factorial range addressable by `u64` ranks.
pub proof fn lemma_factorial_20_value()
    ensures
        spec_factorial(20) == 2432902008176640000,
{
    reveal_with_fuel(spec_factorial, 21);
}

/// The largest factorial a solve's rank arithmetic must accommodate.
pub proof fn lemma_factorial_19_value()
    ensures
        spec_factorial(19) == 121645100408832000,
{
    reveal_with_fuel(spec_factorial, 20);
}

/// Exact factorial on `u64` ranks; the number of permutations a scan of
/// `num` cities must visit.
pub fn factorial(num: u64) -> (r: u64)
    requires
        num <= MAX_FACTORIAL_ARG,
    ensures
        r == spec_factorial(num as nat),
{
    let mut r: u64 = 1;
    let mut i: u64 = 0;
    while i < num
        invariant
            i <= num,
            num <= MAX_FACTORIAL_ARG,
            r == spec_factorial(i as nat),
        decreases num - i,
    {
        proof {
            lemma_factorial_monotonic((i + 1) as nat, num as nat);
            lemma_factorial_monotonic(num as nat, 20);
            lemma_factorial_20_value();
            assert(spec_factorial((i + 1) as nat) == (i + 1) * spec_factorial(i as nat));
        }
        i = i + 1;
        r = r * i;
    }
    r
}

/// A half-open range `[begin, end)` of permutation ranks assigned to one
/// worker.
#[derive(Clone, Copy, PartialEq, Eq, Structural, Debug)]
pub struct RankRange {
    /// First rank of the range.
    pub begin: u64,
    /// One past the last rank of the range.
    pub end: u64,
}

/// Ranks each worker's range holds: `total / threads`.
pub open spec fn spec_chunk(total: u64, threads: u64) -> int {
    total as int / threads as int
}

/// First rank of range `t`; range `threads` is the remainder range.
pub open spec fn spec_range_begin(total: u64, threads: u64, t: int) -> int {
    if t < threads {
        t * spec_chunk(total, threads)
    } else {
        threads * spec_chunk(total, threads)
    }
}

/// One past the last rank of range `t`.
pub open spec fn spec_range_end(total: u64, threads: u64, t: int) -> int {
    if t < threads {
        (t + 1) * spec_chunk(total, threads)
    } else {
        total as int
    }
}

/// Rank `r` falls in range `t`.
pub open spec fn rank_in_range(total: u64, threads: u64, t: int, r: int) -> bool {
    spec_range_begin(total, threads, t) <= r < spec_range_end(total, threads, t)
}

/// Rank `r` is the first rank of one of the `threads + 1` ranges.
pub open spec fn is_range_boundary(total: u64, threads: u64, r: u64) -> bool {
    exists|t: int| 0 <= t <= threads && r == #[trigger] spec_range_begin(total, threads, t)
}

/// Every range lies inside `[0, total]`, and the ranges stand in order.
pub proof fn lemma_range_bounds(total: u64, threads: u64, t: int)
    requires
        threads >= 1,
        0 <= t <= threads,
    ensures
        0 <= spec_range_begin(total, threads, t),
        spec_range_begin(total, threads, t) <= spec_range_end(total, threads, t),
        spec_range_end(total, threads, t) <= total,
        t < threads ==> spec_range_end(total, threads, t) == spec_range_begin(total, threads, t + 1),
{
    let c = spec_chunk(total, threads);
    lemma_fundamental_div_mod(total as int, threads as int);
    lemma_mod_division_less_than_divisor(total as int, threads as int);
    vstd::arithmetic::div_mod::lemma_div_pos_is_pos(total as int, threads as int);
    lemma_mul_inequality(0, t, c);
    lemma_mul_inequality(t, t + 1, c);
    lemma_mul_inequality(t, threads as int, c);
    if t < threads {
        lemma_mul_inequality(t + 1, threads as int, c);
    }
    assert(threads as int * c <= total);
}

/// Partition correctness: each rank below `total` falls in exactly one of
/// the `threads + 1` ranges, so their union is exactly `[0, total)` with no
/// gap and no overlap.
pub proof fn lemma_partition_exact(total: u64, threads: u64, r: u64)
    requires
        threads >= 1,
        r < total,
    ensures
        exists|t: int| 0 <= t <= threads && #[trigger] rank_in_range(total, threads, t, r as int),
        forall|t1: int, t2: int|
            0 <= t1 <= threads && 0 <= t2 <= threads && rank_in_range(total, threads, t1, r as int)
                && rank_in_range(total, threads, t2, r as int) ==> t1 == t2,
{
    let c = spec_chunk(total, threads);
    lemma_fundamental_div_mod(total as int, threads as int);
    lemma_mod_division_less_than_divisor(total as int, threads as int);
    vstd::arithmetic::div_mod::lemma_div_pos_is_pos(total as int, threads as int);
    // Existence: the rank's own quotient names its range, capped at the
    // remainder range.
    if c == 0 {
        assert(rank_in_range(total, threads, threads as int, r as int)) by {
            lemma_mul_inequality(threads as int, threads as int, c);
        }
    } else {
        let t0 = r as int / c;
        lemma_fundamental_div_mod(r as int, c);
        lemma_mod_division_less_than_divisor(r as int, c);
        vstd::arithmetic::div_mod::lemma_div_pos_is_pos(r as int, c);
        if t0 < threads {
            assert(c * t0 == t0 * c && c * (t0 + 1) == (t0 + 1) * c) by (nonlinear_arith);
            assert(c * (t0 + 1) == c * t0 + c) by (nonlinear_arith);
            assert(rank_in_range(total, threads, t0, r as int));
        } else {
            assert(threads as int * c <= t0 * c) by {
                lemma_mul_inequality(threads as int, t0, c);
            }
            assert(c * t0 == t0 * c) by (nonlinear_arith);
            assert(rank_in_range(total, threads, threads as int, r as int));
        }
    }
    // Uniqueness: the ranges stand in increasing order, so two different
    // ranges cannot both hold `r`.
    assert forall|t1: int, t2: int|
        0 <= t1 <= threads && 0 <= t2 <= threads && rank_in_range(total, threads, t1, r as int)
            && rank_in_range(total, threads, t2, r as int) implies t1 == t2 by {
        if t1 < t2 {
            lemma_range_ordered(total, threads, t1, t2);
        } else if t2 < t1 {
            lemma_range_ordered(total, threads, t2, t1);
        }
    }
}

proof fn lemma_range_ordered(total: u64, threads: u64, t1: int, t2: int)
    requires
        threads >= 1,
        0 <= t1 < t2 <= threads,
    ensures
        spec_range_end(total, threads, t1) <= spec_range_begin(total, threads, t2),
{
    let c = spec_chunk(total, threads);
    lemma_fundamental_div_mod(total as int, threads as int);
    lemma_mod_division_less_than_divisor(total as int, threads as int);
    vstd::arithmetic::div_mod::lemma_div_pos_is_pos(total as int, threads as int);
    if t2 < threads {
        lemma_mul_inequality(t1 + 1, t2, c);
    } else {
        lemma_mul_inequality(t1 + 1, threads as int, c);
    }
}

/// Computes the per-worker ranges plus the remainder range.
///
/// Entry `t` of the result is worker `t`'s half-open rank range; the last
/// entry is the remainder range scanned by whichever worker claims it.
pub fn partition_ranges(total: u64, threads: u64) -> (r: Vec<RankRange>)
    requires
        1 <= threads,
        threads <= 0xFFFF,
    ensures
        r@.len() == threads + 1,
        forall|t: int|
            0 <= t <= threads ==> (#[trigger] r@[t]).begin == spec_range_begin(total, threads, t)
                && r@[t].end == spec_range_end(total, threads, t),
{
    let chunk = total / threads;
    proof {
        lemma_range_bounds(total, threads, threads as int);
    }
    let mut r: Vec<RankRange> = Vec::new();
    let mut t: u64 = 0;
    while t < threads
        invariant
            t <= threads,
            threads <= 0xFFFF,
            chunk == spec_chunk(total, threads),
            r@.len() == t,
            forall|k: int|
                0 <= k < t ==> (#[trigger] r@[k]).begin == spec_range_begin(total, threads, k)
                    && r@[k].end == spec_range_end(total, threads, k),
        decreases threads - t,
    {
        proof {
            lemma_range_bounds(total, threads, t as int);
            lemma_range_bounds(total, threads, t as int + 1);
        }
        r.push(
            RankRange {
                begin: t * chunk,
                end: (t + 1) * chunk,
            },
        );
        t = t + 1;
    }
    proof {
        lemma_range_bounds(total, threads, threads as int);
    }
    r.push(RankRange { begin: threads * chunk, end: total });
    r
}

} // verus!
