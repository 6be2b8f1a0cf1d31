//! The brute-force solver: cache lookup, partitioned scan, reduction,
//! write-back.
//!
//! `solve` first consults the solution cache; on a miss it scans every
//! permutation of the cities — serially below seven cities, in partitioned
//! rank ranges above — reduces the per-range results by strict minimum, and
//! files the winner back in the cache.  The result is pinned exactly: the
//! lexicographically first permutation of minimal cycle distance.

use vstd::prelude::*;

use crate::cache::{spec_solution_key, SolutionCache};
use crate::partition::{
    factorial, is_range_boundary, lemma_factorial_19_value, lemma_factorial_monotonic,
    lemma_range_bounds, partition_ranges, spec_factorial,
};
use crate::perm::{
    ident_perm, is_next_perm, is_perm, lemma_ident_is_min, lemma_lex_asym,
    lemma_lex_leq_lt_trans, lemma_lex_trans, lemma_lex_trichotomy, lemma_perm_at_rank_is_perm,
    lex_leq, lex_lt, perm_at_rank, smallest, step_k_perm,
};
use crate::prefix_cache::{lemma_prefix_cache_step, PermutationPrefixCache, MAX_CACHE_RANK};
use crate::scan::{best_from, best_of_interval, perm_in_interval, scan_from, scan_steps};
use crate::tour::{spec_tour_dist, total_distance, City, Tour, WeightMatrix};

verus! {

/// Failures that abort a solve outright.
#[derive(Clone, Copy, PartialEq, Eq, Structural, Debug)]
pub enum SolveError {
    /// The city count is one hundred or more, where the partition-cache key
    /// scheme (`rank * 100 + n`) would collide across city counts.
    Configuration,
}

/// `t` is the exact answer for the matrix `w`: a minimal-distance tour, and
/// the lexicographically first permutation among the minimal ones.
pub open spec fn optimal_tour(w: Seq<Seq<u64>>, t: Tour) -> bool {
    &&& t.wf(w)
    &&& forall|q: Seq<usize>| #[trigger]
        is_perm(q, w.len()) ==> t.dist <= spec_tour_dist(w, q)
    &&& forall|q: Seq<usize>| #[trigger]
        is_perm(q, w.len()) && spec_tour_dist(w, q) == t.dist ==> lex_leq(t.path@, q)
}

/// `best` (of distance `d`) is the scan result of every permutation
/// lexicographically below `bound`.
pub open spec fn least_min_below(
    w: Seq<Seq<u64>>,
    n: nat,
    bound: Seq<usize>,
    best: Seq<usize>,
    d: u64,
) -> bool {
    &&& is_perm(best, n)
    &&& d == spec_tour_dist(w, best)
    &&& lex_lt(best, bound)
    &&& forall|q: Seq<usize>|
        is_perm(q, n) && #[trigger] lex_lt(q, bound) ==> d <= spec_tour_dist(w, q)
    &&& forall|q: Seq<usize>|
        is_perm(q, n) && #[trigger] lex_lt(q, bound) && spec_tour_dist(w, q) == d ==> lex_leq(
            best,
            q,
        )
}

/// Checks that `path` visits each of the cities `0..n` exactly once.
pub fn is_permutation_of(path: &Vec<usize>, n: usize) -> (r: bool)
    ensures
        r == is_perm(path@, n as nat),
{
    if path.len() != n {
        return false;
    }
    let mut seen: Vec<bool> = vec![false; n];
    let mut i: usize = 0;
    while i < n
        invariant
            i <= n,
            n == path@.len(),
            seen@.len() == n,
            forall|v: int|
                0 <= v < n ==> ((#[trigger] seen@[v]) <==> exists|j: int|
                    0 <= j < i && path@[j] == v),
            forall|j: int, k: int| 0 <= j < k < i ==> path@[j] != path@[k],
            forall|j: int| 0 <= j < i ==> (#[trigger] path@[j]) < n,
        decreases n - i,
    {
        let c = path[i];
        if c >= n {
            proof {
                assert(path@[i as int] >= n);
            }
            return false;
        }
        if seen[c] {
            proof {
                let j = choose|j: int| 0 <= j < i && path@[j] == c;
                assert(path@[j] == path@[i as int]);
            }
            return false;
        }
        let slot = &mut seen[c];
        *slot = true;
        i = i + 1;
        proof {
            assert forall|v: int|
                0 <= v < n implies ((#[trigger] seen@[v]) <==> exists|j: int|
                0 <= j < i && path@[j] == v) by {
                if v == c {
                    assert(path@[i - 1] == v);
                } else {
                    assert(seen@[v] <==> exists|j: int| 0 <= j < i - 1 && path@[j] == v);
                    if exists|j: int| 0 <= j < i && path@[j] == v {
                        let j = choose|j: int| 0 <= j < i && path@[j] == v;
                        assert(j < i - 1 || j == i - 1);
                    }
                }
            }
        }
    }
    let mut v: usize = 0;
    while v < n
        invariant
            v <= n,
            n == path@.len(),
            seen@.len() == n,
            forall|u: int|
                0 <= u < n ==> ((#[trigger] seen@[u]) <==> exists|j: int|
                    0 <= j < n && path@[j] == u),
            forall|j: int, k: int| 0 <= j < k < n ==> path@[j] != path@[k],
            forall|j: int| 0 <= j < n ==> (#[trigger] path@[j]) < n,
            forall|u: usize| u < v ==> path@.contains(u),
        decreases n - v,
    {
        if !seen[v] {
            proof {
                if is_perm(path@, n as nat) {
                    assert(path@.contains(v));
                    let j = choose|j: int| 0 <= j < path@.len() && path@[j] == v;
                    assert(seen@[v as int]);
                }
            }
            return false;
        }
        proof {
            let j = choose|j: int| 0 <= j < n && path@[j] == v;
            assert(path@[j] == v);
        }
        v = v + 1;
    }
    true
}

/// Everything below the successor of an interval's upper end is either in
/// the interval or below its lower end.
proof fn lemma_interval_to_bound(
    w: Seq<Seq<u64>>,
    n: nat,
    lo: Seq<usize>,
    last: Seq<usize>,
    nb: Seq<usize>,
    q: Seq<usize>,
)
    requires
        is_perm(lo, n),
        is_perm(q, n),
        is_perm(last, n),
        is_next_perm(last, nb, n),
        lex_lt(q, nb),
    ensures
        lex_lt(q, lo) || perm_in_interval(q, n, lo, last),
{
    lemma_lex_trichotomy(q, last);
    if lex_lt(last, q) {
        assert(lex_leq(nb, q));
        if nb == q {
            lemma_lex_asym(q, nb);
        } else {
            lemma_lex_trans(nb, q, nb);
            lemma_lex_asym(nb, q);
        }
    }
    if !lex_lt(q, lo) {
        lemma_lex_trichotomy(q, lo);
    }
}

/// Merging the scan of `[lo, last]` into a result covering everything below
/// `lo` extends the coverage to everything below the successor of `last`.
proof fn lemma_reduce_merge(
    w: Seq<Seq<u64>>,
    n: nat,
    lo: Seq<usize>,
    last: Seq<usize>,
    nb: Seq<usize>,
    ab: Seq<usize>,
    ad: u64,
    tb: Seq<usize>,
    td: u64,
    mb: Seq<usize>,
    md: u64,
)
    requires
        least_min_below(w, n, lo, ab, ad),
        best_of_interval(w, n, lo, last, tb, td),
        is_next_perm(last, nb, n),
        is_perm(lo, n),
        td < ad ==> mb == tb && md == td,
        !(td < ad) ==> mb == ab && md == ad,
    ensures
        least_min_below(w, n, nb, mb, md),
{
    assert(perm_in_interval(tb, n, lo, last));
    assert(lex_leq(lo, last)) by {
        if tb != last {
            lemma_lex_leq_lt_trans(lo, tb, last);
        }
    }
    assert(lex_lt(ab, nb)) by {
        lemma_lex_leq_lt_trans(lo, last, nb);
        lemma_lex_trans(ab, lo, nb);
    }
    assert(lex_lt(tb, nb)) by {
        lemma_lex_leq_lt_trans(tb, last, nb);
    }
    assert forall|q: Seq<usize>| is_perm(q, n) && #[trigger] lex_lt(q, nb) implies md
        <= spec_tour_dist(w, q) && (spec_tour_dist(w, q) == md ==> lex_leq(mb, q)) by {
        lemma_interval_to_bound(w, n, lo, last, nb, q);
        if lex_lt(q, lo) {
            assert(ad <= spec_tour_dist(w, q));
            if spec_tour_dist(w, q) == md {
                if td < ad {
                    assert(false);
                }
            }
        } else {
            assert(perm_in_interval(q, n, lo, last));
            assert(td <= spec_tour_dist(w, q));
            if spec_tour_dist(w, q) == md {
                if td < ad {
                    assert(lex_leq(tb, q));
                } else {
                    // The kept result comes from below `lo`, hence before `q`.
                    assert(lex_leq(tb, q));
                    assert(md == ad && ad <= td);
                    assert(lex_lt(ab, q)) by {
                        lemma_lex_leq_lt_trans(lo, q, nb);
                        if lo == q {
                            assert(lex_lt(ab, q));
                        } else {
                            lemma_lex_trans(ab, lo, q);
                        }
                    }
                }
            }
        }
    }
}

/// Merging a scan that runs to the end of the order into a result covering
/// everything below its start yields the global answer.
proof fn lemma_merge_final(
    w: Seq<Seq<u64>>,
    n: nat,
    lo: Seq<usize>,
    ab: Seq<usize>,
    ad: u64,
    tb: Seq<usize>,
    td: u64,
    mb: Seq<usize>,
    md: u64,
)
    requires
        least_min_below(w, n, lo, ab, ad),
        best_from(w, n, lo, tb, td),
        is_perm(lo, n),
        td < ad ==> mb == tb && md == td,
        !(td < ad) ==> mb == ab && md == ad,
    ensures
        is_perm(mb, n),
        md == spec_tour_dist(w, mb),
        forall|q: Seq<usize>| #[trigger] is_perm(q, n) ==> md <= spec_tour_dist(w, q),
        forall|q: Seq<usize>| #[trigger]
            is_perm(q, n) && spec_tour_dist(w, q) == md ==> lex_leq(mb, q),
{
    assert forall|q: Seq<usize>| #[trigger] is_perm(q, n) implies md <= spec_tour_dist(w, q) && (
    spec_tour_dist(w, q) == md ==> lex_leq(mb, q)) by {
        lemma_lex_trichotomy(q, lo);
        if lex_lt(q, lo) {
            assert(ad <= spec_tour_dist(w, q));
            if spec_tour_dist(w, q) == md && td < ad {
                assert(false);
            }
        } else {
            assert(lex_leq(lo, q));
            assert(td <= spec_tour_dist(w, q));
            if spec_tour_dist(w, q) == md {
                if td < ad {
                    assert(lex_leq(tb, q));
                } else {
                    assert(md == ad && ad <= td);
                    assert(lex_lt(ab, q)) by {
                        if lo == q {
                        } else {
                            lemma_lex_trans(ab, lo, q);
                        }
                    }
                }
            }
        }
    }
}

/// A scan of everything from the smallest permutation answers for every
/// permutation outright.
proof fn lemma_from_ident_optimal(w: Seq<Seq<u64>>, n: nat, t: Tour)
    requires
        best_from(w, n, ident_perm(n), t.path@, t.dist),
        t.wf(w),
        n == w.len(),
        n <= usize::MAX,
    ensures
        optimal_tour(w, t),
{
    assert forall|q: Seq<usize>| #[trigger] is_perm(q, n) implies t.dist <= spec_tour_dist(w, q)
        && (spec_tour_dist(w, q) == t.dist ==> lex_leq(t.path@, q)) by {
        lemma_ident_is_min(q, n);
    }
}

/// The permutation at a partition boundary, from the prefix cache when it
/// holds one, else by stepping up from the smallest permutation.
fn boundary_perm(pcache: &PermutationPrefixCache, rank: u64, n: usize) -> (p: Vec<usize>)
    requires
        pcache.wf(),
        n < 100,
        rank <= MAX_CACHE_RANK,
    ensures
        p@ == perm_at_rank(n as nat, rank as nat),
        is_perm(p@, n as nat),
{
    proof {
        lemma_perm_at_rank_is_perm(n as nat, rank as nat);
    }
    match pcache.get(rank, n) {
        Some(p) => p,
        None => {
            let mut p = crate::perm::smallest(n);
            crate::perm::advance_by(&mut p, rank);
            p
        },
    }
}

/// Scans the half-open rank range `[begin_permutation_num,
/// max_permutation_num)` of the matrix's permutations, single-threaded,
/// starting from the prefix cache's boundary entry when one is filed.
///
/// Returns the first tour of minimal distance in the range.  The contract
/// speaks of every permutation between the boundary permutations of the two
/// ranks, places the result inside the scanned stretch itself (it is one of
/// the permutations stepped through from the start boundary), and, when the
/// range runs to the very end of the rank space, covers everything from the
/// start boundary to the end of the lexicographic order.
pub fn solve_st(
    weights: &WeightMatrix,
    cache: &PermutationPrefixCache,
    begin_permutation_num: u64,
    max_permutation_num: u64,
) -> (t: Tour)
    requires
        weights.wf(),
        cache.wf(),
        weights.spec_n() <= 19,
        begin_permutation_num < max_permutation_num,
        max_permutation_num <= spec_factorial(weights.spec_n()),
    ensures
        ({
            let n = weights.spec_n();
            let lo = perm_at_rank(n, begin_permutation_num as nat);
            let hi = perm_at_rank(n, max_permutation_num as nat);
            &&& t.wf(weights@)
            &&& lex_leq(lo, t.path@)
            &&& t.dist <= spec_tour_dist(weights@, lo)
            &&& forall|q: Seq<usize>|
                is_perm(q, n) && #[trigger] lex_leq(lo, q) && lex_lt(q, hi) ==> t.dist
                    <= spec_tour_dist(weights@, q)
            &&& forall|q: Seq<usize>|
                is_perm(q, n) && #[trigger] lex_leq(lo, q) && lex_lt(q, hi) && spec_tour_dist(
                    weights@,
                    q,
                ) == t.dist ==> lex_leq(t.path@, q)
            &&& max_permutation_num < spec_factorial(n) ==> exists|m: nat|
                m < max_permutation_num - begin_permutation_num && t.path@ == step_k_perm(lo, n, m)
            &&& max_permutation_num == spec_factorial(n) ==> best_from(
                weights@,
                n,
                lo,
                t.path@,
                t.dist,
            )
        }),
{
    let n = weights.n();
    proof {
        lemma_factorial_19_value();
        lemma_factorial_monotonic(weights.spec_n(), 19);
    }
    let total = factorial(n as u64);
    let start = boundary_perm(cache, begin_permutation_num, n);
    let ghost gn = weights.spec_n();
    let ghost lo = perm_at_rank(gn, begin_permutation_num as nat);
    if max_permutation_num == total {
        // The range reaches the end of the rank space: scan to the end of
        // the order outright, so the contract covers everything from the
        // start boundary on, with no degenerate upper boundary.
        let t = scan_from(weights, start);
        proof {
            assert(lex_leq(lo, lo));
        }
        return t;
    }
    let count = max_permutation_num - begin_permutation_num;
    let (t, exhausted) = scan_steps(weights, start, count);
    proof {
        let hi = perm_at_rank(gn, max_permutation_num as nat);
        lemma_prefix_cache_step(
            gn,
            begin_permutation_num as nat,
            (max_permutation_num - begin_permutation_num) as nat,
        );
        assert(hi == step_k_perm(lo, gn, count as nat));
        let last = step_k_perm(lo, gn, (count - 1) as nat);
        assert forall|q: Seq<usize>|
            is_perm(q, gn) && #[trigger] lex_leq(lo, q) && lex_lt(q, hi) implies t.dist
            <= spec_tour_dist(weights@, q) && (spec_tour_dist(weights@, q) == t.dist ==> lex_leq(
            t.path@,
            q,
        )) by {
            if exhausted {
            } else {
                lemma_interval_to_bound(weights@, gn, lo, last, hi, q);
                if lex_lt(q, lo) {
                    lemma_lex_asym(q, lo);
                    assert(lex_leq(lo, q) ==> lo == q || lex_lt(lo, q));
                    assert(false);
                } else {
                    assert(perm_in_interval(q, gn, lo, last));
                }
            }
        }
        assert(t.dist <= spec_tour_dist(weights@, lo)) by {
            if exhausted {
                assert(lex_leq(lo, lo));
            } else {
                assert(perm_in_interval(t.path@, gn, lo, last));
                assert(lex_leq(lo, last)) by {
                    if t.path@ != last {
                        lemma_lex_leq_lt_trans(lo, t.path@, last);
                    }
                }
                assert(perm_in_interval(lo, gn, lo, last));
            }
        }
        if !exhausted {
            assert(perm_in_interval(t.path@, gn, lo, last));
        }
    }
    t
}


/// The first scanned range starts at the smallest permutation, so its
/// result covers everything below the next boundary.
proof fn lemma_initial_coverage(
    w: Seq<Seq<u64>>,
    n: nat,
    last: Seq<usize>,
    nb: Seq<usize>,
    tb: Seq<usize>,
    td: u64,
)
    requires
        best_of_interval(w, n, ident_perm(n), last, tb, td),
        is_next_perm(last, nb, n),
        n <= usize::MAX,
    ensures
        least_min_below(w, n, nb, tb, td),
{
    crate::perm::lemma_ident_is_perm(n);
    let lo = ident_perm(n);
    assert(perm_in_interval(tb, n, lo, last));
    assert(lex_lt(tb, nb)) by {
        lemma_lex_leq_lt_trans(tb, last, nb);
    }
    assert forall|q: Seq<usize>| is_perm(q, n) && #[trigger] lex_lt(q, nb) implies td
        <= spec_tour_dist(w, q) && (spec_tour_dist(w, q) == td ==> lex_leq(tb, q)) by {
        lemma_interval_to_bound(w, n, lo, last, nb, q);
        if lex_lt(q, lo) {
            lemma_ident_is_min(q, n);
            lemma_lex_asym(q, lo);
            assert(false);
        }
        assert(perm_in_interval(q, n, lo, last));
    }
}

/// Scans all permutations in partitioned rank ranges — each range handed
/// off the prefix cache, the remainder range run to the end of the order —
/// and reduces the per-range results by strict minimum, in range order.
///
/// Executed range by range here; a parallel driver can run the same ranges
/// through `solve_st` on worker threads and reduce with the same strict
/// comparison.
fn solve_partitioned(
    weights: &WeightMatrix,
    permutation_cache: &mut PermutationPrefixCache,
    threads: u64,
) -> (t: Tour)
    requires
        weights.wf(),
        old(permutation_cache).wf(),
        1 <= threads <= 0xFFFF,
        weights.spec_n() <= 19,
    ensures
        final(permutation_cache).wf(),
        optimal_tour(weights@, t),
        forall|r2: u64, n2: usize| #[trigger]
            old(permutation_cache).spec_contains(r2, n2) ==> final(permutation_cache).spec_contains(
                r2,
                n2,
            ),
        forall|r2: u64, n2: usize|
            r2 <= MAX_CACHE_RANK && n2 < 100 && #[trigger] final(permutation_cache).spec_contains(
                r2,
                n2,
            ) ==> old(permutation_cache).spec_contains(r2, n2) || (n2 == weights.spec_n()
                && is_range_boundary((spec_factorial(weights.spec_n()) as u64), threads, r2)),
{
    let n = weights.n();
    let ghost gn = weights.spec_n();
    proof {
        lemma_factorial_19_value();
        lemma_factorial_monotonic(gn, 19);
    }
    let total = factorial(n as u64);
    let ranges = partition_ranges(total, threads);
    // Populate the prefix cache at every range boundary, stepping forward
    // from the nearest boundary already filed rather than from rank zero.
    // After this the cache is only read.
    let mut cur = smallest(n);
    let mut done_rank: u64 = 0;
    let mut b_i: usize = 0;
    while b_i < ranges.len()
        invariant
            weights.wf(),
            n == gn,
            gn == weights.spec_n(),
            gn <= 19,
            permutation_cache.wf(),
            total == spec_factorial(gn),
            total <= MAX_CACHE_RANK,
            1 <= threads <= 0xFFFF,
            ranges@.len() == threads + 1,
            forall|t: int|
                0 <= t <= threads ==> (#[trigger] ranges@[t]).begin
                    == crate::partition::spec_range_begin(total, threads, t) && ranges@[t].end
                    == crate::partition::spec_range_end(total, threads, t),
            b_i <= ranges@.len(),
            cur@ == perm_at_rank(gn, done_rank as nat),
            is_perm(cur@, gn),
            done_rank <= total,
            b_i > 0 ==> done_rank == crate::partition::spec_range_begin(total, threads, b_i - 1),
            b_i == 0 ==> done_rank == 0,
            forall|r2: u64, n2: usize| #[trigger]
                old(permutation_cache).spec_contains(r2, n2) ==> permutation_cache.spec_contains(
                    r2,
                    n2,
                ),
            forall|r2: u64, n2: usize|
                r2 <= MAX_CACHE_RANK && n2 < 100 && #[trigger] permutation_cache.spec_contains(
                    r2,
                    n2,
                ) ==> old(permutation_cache).spec_contains(r2, n2) || (n2 == n
                    && is_range_boundary(total, threads, r2)),
        decreases ranges@.len() - b_i,
    {
        let b = ranges[b_i].begin;
        proof {
            lemma_range_bounds(total, threads, b_i as int);
            if b_i > 0 {
                lemma_range_bounds(total, threads, b_i - 1);
            }
            assert(done_rank <= b);
        }
        match permutation_cache.get(b, n) {
            Some(p) => {
                proof {
                    lemma_perm_at_rank_is_perm(gn, b as nat);
                }
                cur = p;
                done_rank = b;
            },
            None => {
                let steps = b - done_rank;
                proof {
                    lemma_prefix_cache_step(gn, done_rank as nat, steps as nat);
                }
                crate::perm::advance_by(&mut cur, steps);
                done_rank = b;
                permutation_cache.insert(b, n, cur.clone());
                proof {
                    assert(b == crate::partition::spec_range_begin(total, threads, b_i as int));
                    assert(is_range_boundary(total, threads, b));
                }
            },
        }
        b_i = b_i + 1;
    }
    let ghost pc_snap = *permutation_cache;
    let chunk = total / threads;
    proof {
        lemma_range_bounds(total, threads, threads as int);
        lemma_range_bounds(total, threads, 0);
    }
    if chunk == 0 {
        let t = scan_from(weights, smallest(n));
        proof {
            lemma_from_ident_optimal(weights@, gn, t);
        }
        return t;
    }
    // First range, from the smallest permutation.
    let start0 = boundary_perm(permutation_cache, 0, n);
    let (acc0, exh0) = scan_steps(weights, start0, chunk);
    let mut acc = acc0;
    let mut done = exh0;
    proof {
        assert(perm_at_rank(gn, 0) == ident_perm(gn));
        if done {
            lemma_from_ident_optimal(weights@, gn, acc);
        } else {
            lemma_initial_coverage(
                weights@,
                gn,
                step_k_perm(ident_perm(gn), gn, (chunk - 1) as nat),
                step_k_perm(ident_perm(gn), gn, chunk as nat),
                acc.path@,
                acc.dist,
            );
            assert(step_k_perm(ident_perm(gn), gn, chunk as nat) == perm_at_rank(gn, chunk as nat));
        }
    }
    // Later ranges, each from its cached boundary, merged by strict minimum
    // in range order so the lexicographically first optimum survives.
    let mut ti: u64 = 1;
    while ti < threads && !done
        invariant
            weights.wf(),
            n == gn,
            gn == weights.spec_n(),
            gn <= 19,
            permutation_cache.wf(),
            total == spec_factorial(gn),
            total <= MAX_CACHE_RANK,
            1 <= threads <= 0xFFFF,
            1 <= ti <= threads,
            *permutation_cache == pc_snap,
            chunk == crate::partition::spec_chunk(total, threads),
            chunk >= 1,
            ranges@.len() == threads + 1,
            forall|t: int|
                0 <= t <= threads ==> (#[trigger] ranges@[t]).begin
                    == crate::partition::spec_range_begin(total, threads, t) && ranges@[t].end
                    == crate::partition::spec_range_end(total, threads, t),
            acc.wf(weights@),
            !done ==> least_min_below(
                weights@,
                gn,
                perm_at_rank(gn, (ti as nat) * (chunk as nat)),
                acc.path@,
                acc.dist,
            ),
            done ==> optimal_tour(weights@, acc),
        decreases threads - ti,
    {
        let b = ranges[ti as usize].begin;
        proof {
            lemma_range_bounds(total, threads, ti as int);
            assert(b == (ti as int) * crate::partition::spec_chunk(total, threads));
        }
        let start = boundary_perm(permutation_cache, b, n);
        let (tt, exh) = scan_steps(weights, start, chunk);
        let ghost ab = acc.path@;
        let ghost ad = acc.dist;
        let ghost tb = tt.path@;
        let ghost td = tt.dist;
        if tt.dist < acc.dist {
            acc = tt;
        }
        proof {
            let lo = perm_at_rank(gn, b as nat);
            let last = step_k_perm(lo, gn, (chunk - 1) as nat);
            let nb = step_k_perm(lo, gn, chunk as nat);
            lemma_perm_at_rank_is_perm(gn, b as nat);
            if exh {
                lemma_merge_final(weights@, gn, lo, ab, ad, tb, td, acc.path@, acc.dist);
            } else {
                lemma_reduce_merge(weights@, gn, lo, last, nb, ab, ad, tb, td, acc.path@, acc.dist);
                lemma_prefix_cache_step(gn, b as nat, chunk as nat);
                assert(nb == perm_at_rank(gn, (b + chunk) as nat));
                assert((b + chunk) as nat == ((ti + 1) as nat) * (chunk as nat)) by (nonlinear_arith)
                    requires
                        b == ti * chunk,
                ;
            }
        }
        if exh {
            done = true;
        }
        ti = ti + 1;
    }
    if !done {
        // Remainder range, scanned to the end of the order.
        let b = ranges[threads as usize].begin;
        proof {
            lemma_range_bounds(total, threads, threads as int);
        }
        let start = boundary_perm(permutation_cache, b, n);
        let rem = scan_from(weights, start);
        let ghost ab = acc.path@;
        let ghost ad = acc.dist;
        let ghost tb = rem.path@;
        let ghost td = rem.dist;
        if rem.dist < acc.dist {
            acc = rem;
        }
        proof {
            let lo = perm_at_rank(gn, b as nat);
            lemma_perm_at_rank_is_perm(gn, b as nat);
            assert(b == (threads as int) * crate::partition::spec_chunk(total, threads));
            lemma_merge_final(weights@, gn, lo, ab, ad, tb, td, acc.path@, acc.dist);
        }
    }
    acc
}


/// Solves the instance exactly: returns the lexicographically first
/// permutation of the cities with minimal cycle distance.
///
/// The solution cache is consulted first; a stored tour for this city list
/// is returned as it stands, without rescanning.  On a miss the scan runs
/// serially below seven cities and over partitioned rank ranges otherwise,
/// and the winner is filed back, so the next solve of this city list is a
/// hit.  A city count of one
/// hundred or more is rejected before any work, since the partition-cache
/// key scheme collides there.  Counts between twenty and ninety-nine are
/// ruled out by the precondition: the key arithmetic `rank * 100 + n` must
/// fit a `u64`, which caps the rank space at `19!`.
pub fn solve(
    node_coordinates: &Vec<City>,
    weights: &WeightMatrix,
    solution_cache: &mut SolutionCache,
    permutation_cache: &mut PermutationPrefixCache,
    threads: u64,
) -> (r: Result<Tour, SolveError>)
    requires
        weights.wf(),
        old(solution_cache).wf(),
        old(permutation_cache).wf(),
        node_coordinates@.len() == weights.spec_n(),
        1 <= threads <= 0xFFFF,
        weights.spec_n() <= 19 || weights.spec_n() >= 100,
    ensures
        final(solution_cache).wf(),
        final(permutation_cache).wf(),
        ({
            let n = weights.spec_n();
            let key = spec_solution_key(node_coordinates@);
            let before = old(solution_cache).tours();
            let after = final(solution_cache).tours();
            let stored_hit = before.contains_key(key) && is_perm(before[key], n);
            match r {
                Result::Err(e) => n >= 100 && e == SolveError::Configuration && after == before
                    && *final(permutation_cache) == *old(permutation_cache),
                Result::Ok(t) => {
                    &&& n < 100
                    &&& t.wf(weights@)
                    &&& (stored_hit ==> t.path@ == before[key] && after == before
                        && *final(permutation_cache) == *old(permutation_cache))
                    &&& (!stored_hit ==> optimal_tour(weights@, t) && after == before.insert(
                        key,
                        t.path@,
                    ))
                    &&& (!stored_hit ==> forall|r2: u64, n2: usize| #[trigger]
                        old(permutation_cache).spec_contains(r2, n2)
                            ==> final(permutation_cache).spec_contains(r2, n2))
                    &&& (!stored_hit ==> forall|r2: u64, n2: usize|
                        r2 <= MAX_CACHE_RANK && n2 < 100
                            && #[trigger] final(permutation_cache).spec_contains(r2, n2)
                            ==> old(permutation_cache).spec_contains(r2, n2) || (n2 == n
                            && is_range_boundary((spec_factorial(n) as u64), threads, r2)))
                },
            }
        }),
{
    let n = weights.n();
    if n > crate::tour::MAX_CITIES {
        return Result::Err(SolveError::Configuration);
    }
    match solution_cache.get(node_coordinates) {
        Some(path) => {
            if is_permutation_of(&path, n) {
                let dist = total_distance(weights, &path);
                return Result::Ok(Tour { path, dist });
            }
        },
        None => {},
    }
    let t = if n < 7 {
        let t = scan_from(weights, smallest(n));
        proof {
            lemma_from_ident_optimal(weights@, weights.spec_n(), t);
        }
        t
    } else {
        solve_partitioned(weights, permutation_cache, threads)
    };
    solution_cache.put(node_coordinates, &t.path);
    Result::Ok(t)
}


/// Scans every permutation and keeps them all: returns each tour whose
/// distance equals the global minimum, in lexicographic order.
///
/// Rotations and reflections of one cycle count as distinct permutations
/// and are all returned; no symmetry deduplication is applied, so callers
/// can study the solution space's symmetry themselves.
pub fn solve_all(weights: &WeightMatrix) -> (r: Vec<Tour>)
    requires
        weights.wf(),
        weights.spec_n() <= crate::tour::MAX_CITIES,
    ensures
        ({
            let n = weights.spec_n();
            &&& r@.len() >= 1
            &&& forall|i: int|
                0 <= i < r@.len() ==> (#[trigger] r@[i]).wf(weights@) && r@[i].dist == r@[0].dist
            &&& forall|q: Seq<usize>| #[trigger]
                is_perm(q, n) ==> r@[0].dist <= spec_tour_dist(weights@, q)
            &&& forall|q: Seq<usize>| #[trigger]
                is_perm(q, n) && spec_tour_dist(weights@, q) == r@[0].dist ==> exists|i: int|
                    0 <= i < r@.len() && (#[trigger] r@[i]).path@ == q
            &&& forall|i: int, j: int|
                0 <= i < j < r@.len() ==> lex_lt(r@[i].path@, r@[j].path@)
        }),
{
    let n = weights.n();
    let ghost gn = weights.spec_n();
    let mut current = smallest(n);
    let ghost lo = current@;
    let first_dist = total_distance(weights, &current);
    let mut best_dist = first_dist;
    let mut ties: Vec<Tour> = Vec::new();
    let first = current.clone();
    ties.push(Tour { path: first, dist: first_dist });
    proof {
        assert(ties@[0].path@ == lo);
        assert forall|q: Seq<usize>| #[trigger] perm_in_interval(q, gn, lo, lo) implies q == lo by {
            if q != lo {
                assert(lex_lt(lo, q) && lex_lt(q, lo));
                lemma_lex_asym(lo, q);
            }
        }
    }
    loop
        invariant_except_break
            forall|q: Seq<usize>| #[trigger]
                perm_in_interval(q, gn, lo, current@) ==> best_dist <= spec_tour_dist(weights@, q),
            forall|q: Seq<usize>| #[trigger]
                perm_in_interval(q, gn, lo, current@) && spec_tour_dist(weights@, q) == best_dist
                    ==> exists|i: int| 0 <= i < ties@.len() && (#[trigger] ties@[i]).path@ == q,
            forall|i: int|
                0 <= i < ties@.len() ==> perm_in_interval(
                    (#[trigger] ties@[i]).path@,
                    gn,
                    lo,
                    current@,
                ) && ties@[i].dist == best_dist && best_dist == spec_tour_dist(
                    weights@,
                    ties@[i].path@,
                ),
        invariant
            weights.wf(),
            n == gn,
            gn == weights.spec_n(),
            gn <= crate::tour::MAX_CITIES as nat,
            is_perm(current@, gn),
            is_perm(lo, gn),
            lo == ident_perm(gn),
            ties@.len() >= 1,
            forall|i: int, j: int| 0 <= i < j < ties@.len() ==> lex_lt(ties@[i].path@, ties@[j].path@),
        ensures
            forall|i: int|
                0 <= i < ties@.len() ==> (#[trigger] ties@[i]).wf(weights@) && ties@[i].dist
                    == best_dist,
            forall|q: Seq<usize>|
                is_perm(q, gn) && #[trigger] lex_leq(lo, q) ==> best_dist <= spec_tour_dist(
                    weights@,
                    q,
                ),
            forall|q: Seq<usize>|
                is_perm(q, gn) && #[trigger] lex_leq(lo, q) && spec_tour_dist(weights@, q)
                    == best_dist ==> exists|i: int|
                    0 <= i < ties@.len() && (#[trigger] ties@[i]).path@ == q,
        decreases vstd::arithmetic::power::pow(gn as int, gn) - crate::perm::seq_value(
            current@,
            gn,
        ),
    {
        let ghost prev = current@;
        let ghost old_ties = ties@;
        let ghost od = best_dist;
        let more = crate::perm::next_permutation(&mut current);
        if !more {
            proof {
                assert forall|q: Seq<usize>|
                    is_perm(q, gn) && #[trigger] lex_leq(lo, q) implies perm_in_interval(
                    q,
                    gn,
                    lo,
                    prev,
                ) by {
                    lemma_lex_trichotomy(q, prev);
                }
            }
            break;
        }
        let this_dist = total_distance(weights, &current);
        if this_dist < best_dist {
            ties.clear();
            let p = current.clone();
            ties.push(Tour { path: p, dist: this_dist });
            best_dist = this_dist;
        } else if this_dist == best_dist {
            let p = current.clone();
            ties.push(Tour { path: p, dist: this_dist });
        }
        proof {
            assert(is_next_perm(prev, current@, gn));
            assert(lex_leq(lo, prev)) by {
                assert(perm_in_interval(old_ties[0].path@, gn, lo, prev));
                if old_ties[0].path@ != prev {
                    lemma_lex_leq_lt_trans(lo, old_ties[0].path@, prev);
                }
            }
            assert(lex_leq(lo, current@)) by {
                lemma_lex_leq_lt_trans(lo, prev, current@);
            }
            assert forall|q: Seq<usize>| #[trigger]
                perm_in_interval(q, gn, lo, current@) implies (best_dist <= spec_tour_dist(
                weights@,
                q,
            ) && (spec_tour_dist(weights@, q) == best_dist ==> exists|i: int|
                0 <= i < ties@.len() && (#[trigger] ties@[i]).path@ == q)) by {
                if q == current@ {
                    if spec_tour_dist(weights@, q) == best_dist {
                        assert(ties@[ties@.len() - 1].path@ == q);
                    }
                } else {
                    assert(lex_lt(q, current@));
                    lemma_lex_trichotomy(q, prev);
                    if lex_lt(prev, q) {
                        assert(lex_leq(current@, q));
                        if current@ != q {
                            lemma_lex_asym(current@, q);
                        }
                        assert(false);
                    }
                    assert(perm_in_interval(q, gn, lo, prev));
                    assert(od <= spec_tour_dist(weights@, q));
                    if spec_tour_dist(weights@, q) == best_dist {
                        assert(best_dist == od);
                        let i = choose|i: int|
                            0 <= i < old_ties.len() && (#[trigger] old_ties[i]).path@ == q;
                        assert(ties@[i].path@ == q);
                    }
                }
            }
            assert forall|i: int|
                0 <= i < ties@.len() implies perm_in_interval(
                (#[trigger] ties@[i]).path@,
                gn,
                lo,
                current@,
            ) && ties@[i].dist == best_dist && best_dist == spec_tour_dist(
                weights@,
                ties@[i].path@,
            ) by {
                if ties@[i].path@ != current@ {
                    if perm_in_interval(ties@[i].path@, gn, lo, prev) {
                        lemma_lex_leq_lt_trans(ties@[i].path@, prev, current@);
                    }
                }
            }
            assert forall|i: int, j: int|
                0 <= i < j < ties@.len() implies lex_lt(ties@[i].path@, ties@[j].path@) by {
                if j == ties@.len() - 1 && ties@[j].path@ == current@ && i < old_ties.len()
                    && this_dist == od {
                    assert(perm_in_interval(old_ties[i].path@, gn, lo, prev));
                    lemma_lex_leq_lt_trans(ties@[i].path@, prev, current@);
                }
            }
            crate::perm::lemma_seq_value_bound(current@, gn);
            crate::perm::lemma_seq_value_order(prev, current@, gn);
        }
    }
    proof {
        assert forall|q: Seq<usize>| #[trigger] is_perm(q, gn) implies best_dist <= spec_tour_dist(
            weights@,
            q,
        ) && (spec_tour_dist(weights@, q) == best_dist ==> exists|i: int|
            0 <= i < ties@.len() && (#[trigger] ties@[i]).path@ == q) by {
            lemma_ident_is_min(q, gn);
        }
        assert(ties@[0].dist == best_dist);
    }
    ties
}

/// Behind idempotence: one matrix has one answer.  Two tours that are both
/// optimal — minimal and lexicographically first among the minimal — are the
/// same tour, so repeated solves of one city set return equal paths and
/// equal distances.
pub proof fn lemma_solve_deterministic(w: Seq<Seq<u64>>, t1: Tour, t2: Tour)
    requires
        optimal_tour(w, t1),
        optimal_tour(w, t2),
    ensures
        t1.path@ == t2.path@,
        t1.dist == t2.dist,
{
    assert(is_perm(t1.path@, w.len()));
    assert(is_perm(t2.path@, w.len()));
    assert(t1.dist <= spec_tour_dist(w, t2.path@));
    assert(t2.dist <= spec_tour_dist(w, t1.path@));
    assert(t1.dist == t2.dist);
    assert(lex_leq(t1.path@, t2.path@));
    assert(lex_leq(t2.path@, t1.path@));
    if t1.path@ != t2.path@ {
        lemma_lex_asym(t1.path@, t2.path@);
    }
}


/// The winner of a reduction: the earliest candidate of minimal distance.
pub open spec fn is_first_min(candidates: Seq<Tour>, b: Tour, i: int) -> bool {
    &&& 0 <= i < candidates.len()
    &&& b.path@ == candidates[i].path@
    &&& b.dist == candidates[i].dist
    &&& forall|j: int| 0 <= j < candidates.len() ==> b.dist <= (#[trigger] candidates[j]).dist
    &&& forall|j: int| 0 <= j < i ==> b.dist < (#[trigger] candidates[j]).dist
}

/// Reduces a list of candidate tours by strict minimum: returns the first
/// candidate whose distance no other beats, as the per-range reduction does.
pub fn best_of(candidates: &Vec<Tour>) -> (r: Option<Tour>)
    ensures
        r is None ==> candidates@.len() == 0,
        r is Some ==> exists|i: int| #[trigger] is_first_min(candidates@, r.unwrap(), i),
{
    let n = candidates.len();
    if n == 0 {
        return Option::None;
    }
    let mut best_i: usize = 0;
    let mut i: usize = 1;
    while i < n
        invariant
            n == candidates@.len(),
            best_i < i <= n,
            forall|j: int|
                0 <= j < i ==> candidates@[best_i as int].dist <= (#[trigger] candidates@[j]).dist,
            forall|j: int|
                0 <= j < best_i ==> candidates@[best_i as int].dist < (#[trigger] candidates@[j]).dist,
        decreases n - i,
    {
        if candidates[i].dist < candidates[best_i].dist {
            best_i = i;
        }
        i = i + 1;
    }
    let path = candidates[best_i].path.clone();
    let dist = candidates[best_i].dist;
    let b = Tour { path, dist };
    let r2 = Option::Some(b);
    proof {
        assert(is_first_min(candidates@, r2.unwrap(), best_i as int));
    }
    r2
}

} // verus!
