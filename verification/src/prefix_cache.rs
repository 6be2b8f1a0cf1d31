//! Memoization of the permutation standing at a given lexicographic rank.
//!
//! Partition boundaries repeat across solves of one city count, and walking
//! to a boundary from rank zero costs `O(rank)` steps.  The cache files the
//! permutation reached at each boundary under the key `rank * 100 + n`, so a
//! later solve (or the next boundary of the same solve) steps from the
//! nearest cached rank instead.  The orchestrator fills it before workers
//! start; during a scan it is only read.

use vstd::prelude::*;

use std::collections::HashMap;

use crate::perm::{ident_perm, lemma_step_k_add, perm_at_rank, step_k_perm};
use vstd::arithmetic::div_mod::{
    lemma_fundamental_div_mod_converse_div, lemma_fundamental_div_mod_converse_mod,
};

verus! {

broadcast use vstd::std_specs::hash::group_hash_axioms;

/// Largest rank the cache-key formula can encode without overflowing.
pub const MAX_CACHE_RANK: u64 = (u64::MAX - 99) / 100;

/// The key under which the permutation at rank `begin_permutation_num` of an
/// `num_weights`-city scan is filed: `rank * 100 + n`.
///
/// Distinct `(rank, n)` pairs give distinct keys only while `n < 100`; at one
/// hundred cities or more the scheme would collide across city counts, which
/// is why the solver rejects such counts up front rather than file under a
/// colliding key.
pub fn get_permutation_cache_key(begin_permutation_num: u64, num_weights: usize) -> (k: u64)
    requires
        num_weights < 100,
        begin_permutation_num <= MAX_CACHE_RANK,
    ensures
        k == begin_permutation_num * 100 + num_weights,
{
    begin_permutation_num * 100 + (num_weights as u64)
}

/// The key as a spec value.
pub open spec fn spec_cache_key(rank: u64, n: usize) -> u64
    recommends
        n < 100,
        rank <= MAX_CACHE_RANK,
{
    (rank * 100 + n) as u64
}

/// Maps `(rank, n)` to the permutation standing at lexicographic rank `rank`
/// of the `n`-city scan.
pub struct PermutationPrefixCache {
    map: HashMap<u64, Vec<usize>>,
}

impl PermutationPrefixCache {
    /// Every entry filed under `rank * 100 + n` is the permutation at
    /// lexicographic rank `rank` of the `n`-city scan.
    pub closed spec fn wf(self) -> bool {
        forall|k: u64|
            self.map@.contains_key(k) ==> (#[trigger] self.map@[k])@ == perm_at_rank(
                (k % 100) as nat,
                (k / 100) as nat,
            )
    }

    /// The cache holds an entry for `(rank, n)`.
    pub closed spec fn spec_contains(self, rank: u64, n: usize) -> bool {
        self.map@.contains_key(spec_cache_key(rank, n))
    }

    /// An empty cache.
    pub fn new() -> (r: PermutationPrefixCache)
        ensures
            r.wf(),
            forall|rank: u64, n: usize| !(#[trigger] r.spec_contains(rank, n)),
    {
        PermutationPrefixCache { map: HashMap::new() }
    }

    /// Looks up the permutation cached for `(rank, n)`.
    pub fn get(&self, rank: u64, n: usize) -> (r: Option<Vec<usize>>)
        requires
            self.wf(),
            n < 100,
            rank <= MAX_CACHE_RANK,
        ensures
            match r {
                Some(p) => self.spec_contains(rank, n) && p@ == perm_at_rank(
                    n as nat,
                    rank as nat,
                ),
                None => !self.spec_contains(rank, n),
            },
    {
        let key = get_permutation_cache_key(rank, n);
        proof {
            lemma_fundamental_div_mod_converse_div(key as int, 100, rank as int, n as int);
            lemma_fundamental_div_mod_converse_mod(key as int, 100, rank as int, n as int);
        }
        match self.map.get(&key) {
            Some(p) => Some(p.clone()),
            None => None,
        }
    }

    /// Files the permutation standing at `(rank, n)`.  Earlier entries stay,
    /// and nothing but this one entry is added.
    pub fn insert(&mut self, rank: u64, n: usize, p: Vec<usize>)
        requires
            old(self).wf(),
            n < 100,
            rank <= MAX_CACHE_RANK,
            p@ == perm_at_rank(n as nat, rank as nat),
        ensures
            final(self).wf(),
            final(self).spec_contains(rank, n),
            forall|r2: u64, n2: usize|
                old(self).spec_contains(r2, n2) ==> final(self).spec_contains(r2, n2),
            forall|r2: u64, n2: usize|
                r2 <= MAX_CACHE_RANK && n2 < 100 && #[trigger] final(self).spec_contains(r2, n2)
                    ==> old(self).spec_contains(r2, n2) || (r2 == rank && n2 == n),
    {
        let key = get_permutation_cache_key(rank, n);
        proof {
            lemma_fundamental_div_mod_converse_div(key as int, 100, rank as int, n as int);
            lemma_fundamental_div_mod_converse_mod(key as int, 100, rank as int, n as int);
        }
        self.map.insert(key, p);
        proof {
            assert forall|r2: u64, n2: usize|
                r2 <= MAX_CACHE_RANK && n2 < 100 && #[trigger] self.spec_contains(r2, n2) implies old(
                self,
            ).spec_contains(r2, n2) || (r2 == rank && n2 == n) by {
                if spec_cache_key(r2, n2) == key && !(r2 == rank && n2 == n) {
                    // The key formula is injective while the rank fits and
                    // the city count stays below one hundred.
                    lemma_fundamental_div_mod_converse_div(key as int, 100, r2 as int, n2 as int);
                    lemma_fundamental_div_mod_converse_mod(key as int, 100, r2 as int, n2 as int);
                }
            }
        }
    }
}

/// Prefix-cache stepping correctness: advancing `k` steps from the
/// permutation at rank `r` lands exactly on the permutation at rank `r + k`,
/// for every city count `n`.
pub proof fn lemma_prefix_cache_step(n: nat, r: nat, k: nat)
    ensures
        perm_at_rank(n, r + k) == step_k_perm(perm_at_rank(n, r), n, k),
{
    lemma_step_k_add(ident_perm(n), n, r, k);
}

} // verus!
