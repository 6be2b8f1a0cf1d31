//! Strict-minimum scanning of lexicographic permutation ranges.
//!
//! A scan walks permutations in lexicographic order, keeping the first tour
//! of strictly smallest distance seen so far (never updating on a tie, so
//! results are reproducible).  `scan_from` runs from a starting permutation
//! to the end of the order; `scan_steps` visits a fixed number of
//! permutations, which lets disjoint rank ranges be scanned by separate
//! workers and reduced afterwards.

use vstd::prelude::*;

use crate::perm::{
    is_max_perm, is_next_perm, is_perm, lemma_lex_asym, lemma_lex_leq_lt_trans,
    lemma_lex_trichotomy, lemma_seq_value_bound, lemma_seq_value_order, lex_leq, lex_lt,
    next_permutation, seq_value, step_k_perm, step_perm,
};
use crate::tour::{spec_tour_dist, total_distance, Tour, WeightMatrix};
use vstd::arithmetic::power::pow;

verus! {

/// `q` is a permutation of `0..n` in the closed lexicographic interval
/// `[lo, hi]`.
pub open spec fn perm_in_interval(q: Seq<usize>, n: nat, lo: Seq<usize>, hi: Seq<usize>) -> bool {
    is_perm(q, n) && lex_leq(lo, q) && lex_leq(q, hi)
}

/// `best` (of distance `d`) is the scan result of the interval `[lo, hi]`:
/// it lies in the interval, no permutation there costs less, and among those
/// of equal cost it comes first in lexicographic order.
pub open spec fn best_of_interval(
    w: Seq<Seq<u64>>,
    n: nat,
    lo: Seq<usize>,
    hi: Seq<usize>,
    best: Seq<usize>,
    d: u64,
) -> bool {
    &&& perm_in_interval(best, n, lo, hi)
    &&& d == spec_tour_dist(w, best)
    &&& forall|q: Seq<usize>| #[trigger]
        perm_in_interval(q, n, lo, hi) ==> d <= spec_tour_dist(w, q)
    &&& forall|q: Seq<usize>| #[trigger]
        perm_in_interval(q, n, lo, hi) && spec_tour_dist(w, q) == d ==> lex_leq(best, q)
}

/// `best` (of distance `d`) is the scan result of everything from `lo` to
/// the end of the lexicographic order.
pub open spec fn best_from(
    w: Seq<Seq<u64>>,
    n: nat,
    lo: Seq<usize>,
    best: Seq<usize>,
    d: u64,
) -> bool {
    &&& is_perm(best, n)
    &&& lex_leq(lo, best)
    &&& d == spec_tour_dist(w, best)
    &&& forall|q: Seq<usize>|
        is_perm(q, n) && #[trigger] lex_leq(lo, q) ==> d <= spec_tour_dist(w, q)
    &&& forall|q: Seq<usize>|
        is_perm(q, n) && #[trigger] lex_leq(lo, q) && spec_tour_dist(w, q) == d ==> lex_leq(
            best,
            q,
        )
}

/// A one-permutation interval holds only its endpoint.
proof fn lemma_interval_singleton(w: Seq<Seq<u64>>, n: nat, lo: Seq<usize>, d: u64)
    requires
        is_perm(lo, n),
        d == spec_tour_dist(w, lo),
    ensures
        best_of_interval(w, n, lo, lo, lo, d),
{
    assert forall|q: Seq<usize>| #[trigger] perm_in_interval(q, n, lo, lo) implies q == lo by {
        if q != lo {
            assert(lex_lt(lo, q) && lex_lt(q, lo));
            lemma_lex_asym(lo, q);
        }
    }
}

/// Extending a scanned interval by the immediate successor of its upper end,
/// applying the strict-minimum update rule at the new permutation.
proof fn lemma_scan_step(
    w: Seq<Seq<u64>>,
    n: nat,
    lo: Seq<usize>,
    prev: Seq<usize>,
    cur: Seq<usize>,
    ob: Seq<usize>,
    od: u64,
    nb: Seq<usize>,
    nd: u64,
)
    requires
        is_perm(lo, n),
        best_of_interval(w, n, lo, prev, ob, od),
        is_next_perm(prev, cur, n),
        spec_tour_dist(w, cur) < od ==> nb == cur && nd == spec_tour_dist(w, cur),
        !(spec_tour_dist(w, cur) < od) ==> nb == ob && nd == od,
    ensures
        best_of_interval(w, n, lo, cur, nb, nd),
{
    assert(perm_in_interval(ob, n, lo, prev));
    assert(lex_leq(lo, prev)) by {
        if ob != prev {
            lemma_lex_leq_lt_trans(lo, ob, prev);
        }
    }
    assert(lex_leq(lo, cur)) by {
        lemma_lex_leq_lt_trans(lo, prev, cur);
    }
    assert(lex_leq(ob, cur)) by {
        lemma_lex_leq_lt_trans(ob, prev, cur);
    }
    assert forall|q: Seq<usize>| #[trigger] perm_in_interval(q, n, lo, cur) implies nd
        <= spec_tour_dist(w, q) && (spec_tour_dist(w, q) == nd ==> lex_leq(nb, q)) by {
        if q == cur {
            if spec_tour_dist(w, cur) < od {
            } else {
                assert(spec_tour_dist(w, q) == nd ==> lex_leq(nb, q)) by {
                    if spec_tour_dist(w, cur) == nd {
                        assert(lex_leq(ob, cur));
                    }
                }
            }
        } else {
            assert(lex_lt(q, cur));
            lemma_lex_trichotomy(q, prev);
            if lex_lt(prev, q) {
                assert(lex_leq(cur, q));
                if cur != q {
                    lemma_lex_asym(cur, q);
                }
                assert(false);
            }
            assert(perm_in_interval(q, n, lo, prev));
            if spec_tour_dist(w, cur) < od {
                assert(od <= spec_tour_dist(w, q));
            }
        }
    }
}

/// An interval reaching the lexicographic maximum covers everything at or
/// after its lower end.
proof fn lemma_interval_complete(
    w: Seq<Seq<u64>>,
    n: nat,
    lo: Seq<usize>,
    hi: Seq<usize>,
    best: Seq<usize>,
    d: u64,
)
    requires
        best_of_interval(w, n, lo, hi, best, d),
        is_max_perm(hi, n),
    ensures
        best_from(w, n, lo, best, d),
{
    assert(perm_in_interval(best, n, lo, hi));
    assert forall|q: Seq<usize>| is_perm(q, n) && #[trigger] lex_leq(lo, q) implies perm_in_interval(
        q,
        n,
        lo,
        hi,
    ) by {
        lemma_lex_trichotomy(q, hi);
    }
}

/// Scans every permutation from `start` to the end of the lexicographic
/// order, returning the first tour of minimal distance among them.
pub fn scan_from(w: &WeightMatrix, start: Vec<usize>) -> (t: Tour)
    requires
        w.wf(),
        w.spec_n() <= crate::tour::MAX_CITIES,
        is_perm(start@, w.spec_n()),
    ensures
        t.wf(w@),
        best_from(w@, w.spec_n(), start@, t.path@, t.dist),
{
    let ghost n = w.spec_n();
    let ghost lo = start@;
    let mut current = start;
    let mut best = current.clone();
    let mut best_dist = total_distance(w, &best);
    proof {
        lemma_interval_singleton(w@, n, lo, best_dist);
    }
    loop
        invariant_except_break
            best_of_interval(w@, n, lo, current@, best@, best_dist),
        invariant
            w.wf(),
            n == w.spec_n(),
            n <= crate::tour::MAX_CITIES,
            is_perm(current@, n),
            is_perm(lo, n),
        ensures
            best_from(w@, n, lo, best@, best_dist),
            is_perm(best@, n),
            best_dist == spec_tour_dist(w@, best@),
        decreases pow(n as int, n) - seq_value(current@, n),
    {
        let ghost prev = current@;
        let ghost ob = best@;
        let ghost od = best_dist;
        let more = next_permutation(&mut current);
        if !more {
            proof {
                lemma_interval_complete(w@, n, lo, prev, ob, od);
            }
            break;
        }
        let this_dist = total_distance(w, &current);
        if this_dist < best_dist {
            best = current.clone();
            best_dist = this_dist;
        }
        proof {
            lemma_scan_step(w@, n, lo, prev, current@, ob, od, best@, best_dist);
            lemma_seq_value_bound(current@, n);
            lemma_seq_value_order(prev, current@, n);
        }
    }
    Tour { path: best, dist: best_dist }
}

/// Scans exactly `count` permutations starting at `start` (fewer if the
/// lexicographic order ends first), returning the first minimal tour among
/// them and whether the scan ran off the end of the order.
///
/// When it did not, the scan covered precisely the closed interval from
/// `start` to the permutation `count - 1` steps after it, and the
/// permutation one further step on — the next range's first — is its true
/// immediate successor.
pub fn scan_steps(w: &WeightMatrix, start: Vec<usize>, count: u64) -> (r: (Tour, bool))
    requires
        w.wf(),
        w.spec_n() <= crate::tour::MAX_CITIES,
        is_perm(start@, w.spec_n()),
        count >= 1,
    ensures
        ({
            let n = w.spec_n();
            let last = step_k_perm(start@, n, (count - 1) as nat);
            &&& r.0.wf(w@)
            &&& exists|m: nat| m < count && r.0.path@ == step_k_perm(start@, n, m)
            &&& r.1 ==> best_from(w@, n, start@, r.0.path@, r.0.dist)
            &&& !r.1 ==> best_of_interval(w@, n, start@, last, r.0.path@, r.0.dist)
                && is_next_perm(last, step_k_perm(start@, n, count as nat), n)
        }),
{
    let ghost n = w.spec_n();
    let ghost lo = start@;
    let mut current = start;
    let mut best = current.clone();
    let mut best_dist = total_distance(w, &best);
    let mut m: u64 = 1;
    let mut exhausted = false;
    let ghost mut best_m: nat = 0;
    proof {
        lemma_interval_singleton(w@, n, lo, best_dist);
    }
    loop
        invariant_except_break
            !exhausted,
            current@ == step_k_perm(lo, n, (m - 1) as nat),
            best_of_interval(w@, n, lo, current@, best@, best_dist),
        invariant
            w.wf(),
            n == w.spec_n(),
            n <= crate::tour::MAX_CITIES,
            1 <= m <= count,
            is_perm(current@, n),
            is_perm(lo, n),
            best_m < m,
            best@ == step_k_perm(lo, n, best_m),
        ensures
            is_perm(best@, n),
            best_dist == spec_tour_dist(w@, best@),
            best_m < count,
            best@ == step_k_perm(lo, n, best_m),
            exhausted ==> best_from(w@, n, lo, best@, best_dist),
            !exhausted ==> best_of_interval(
                w@,
                n,
                lo,
                step_k_perm(lo, n, (count - 1) as nat),
                best@,
                best_dist,
            ) && is_next_perm(
                step_k_perm(lo, n, (count - 1) as nat),
                step_k_perm(lo, n, count as nat),
                n,
            ),
        decreases count - m,
    {
        let ghost prev = current@;
        if m == count {
            // One trailing step past the range names the next range's first
            // permutation as this one's immediate successor.
            let more = next_permutation(&mut current);
            proof {
                if more {
                    assert(current@ == step_perm(prev, n));
                    assert(step_k_perm(lo, n, count as nat) == step_perm(
                        step_k_perm(lo, n, (count - 1) as nat),
                        n,
                    ));
                } else {
                    lemma_interval_complete(w@, n, lo, prev, best@, best_dist);
                }
            }
            if !more {
                exhausted = true;
            }
            break;
        }
        let ghost ob = best@;
        let ghost od = best_dist;
        let more = next_permutation(&mut current);
        if !more {
            proof {
                lemma_interval_complete(w@, n, lo, prev, ob, od);
            }
            exhausted = true;
            break;
        }
        let this_dist = total_distance(w, &current);
        if this_dist < best_dist {
            best = current.clone();
            best_dist = this_dist;
            proof {
                best_m = m as nat;
            }
        }
        m = m + 1;
        proof {
            lemma_scan_step(w@, n, lo, prev, current@, ob, od, best@, best_dist);
        }
    }
    (Tour { path: best, dist: best_dist }, exhausted)
}

} // verus!
