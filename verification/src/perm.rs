//! Lexicographic permutation stepping.
//!
//! A scan of all Hamiltonian cycles walks the permutations of `0..n` in
//! lexicographic order.  This module defines the mathematical model of that
//! order (`lex_lt`, `is_next_perm`, `perm_at_rank`) and the executable
//! stepping primitives proved against it: `smallest`, `next_permutation`
//! and `advance_by`.
//!
//! Scanning always begins at `[0, 1, ..., n-1]`, which is the true
//! lexicographic minimum of the distinct ascending city numbers
//! (`lemma_ident_is_min`); no defensive backward walk is needed.

use vstd::prelude::*;

verus! {

/// `s` is a permutation of the city numbers `0..n`: each appears exactly once.
pub open spec fn is_perm(s: Seq<usize>, n: nat) -> bool {
    &&& s.len() == n
    &&& forall|i: int| 0 <= i < n ==> (#[trigger] s[i]) < n
    &&& forall|i: int, j: int| 0 <= i < j < n ==> s[i] != s[j]
    &&& forall|v: usize| v < n ==> s.contains(v)
}

/// `a` comes before `b` in lexicographic order, with the first difference at `k`.
pub open spec fn lex_lt_at(a: Seq<usize>, b: Seq<usize>, k: int) -> bool {
    &&& 0 <= k < a.len()
    &&& k < b.len()
    &&& a[k] < b[k]
    &&& forall|i: int| 0 <= i < k ==> a[i] == b[i]
}

/// Strict lexicographic order on sequences of city numbers.
pub open spec fn lex_lt(a: Seq<usize>, b: Seq<usize>) -> bool {
    exists|k: int| #[trigger] lex_lt_at(a, b, k)
}

/// Reflexive lexicographic order.
pub open spec fn lex_leq(a: Seq<usize>, b: Seq<usize>) -> bool {
    a == b || lex_lt(a, b)
}

/// The identity permutation `[0, 1, ..., n-1]`, lexicographically least.
pub open spec fn ident_perm(n: nat) -> Seq<usize> {
    Seq::new(n, |i: int| i as usize)
}

/// `b` is the immediate lexicographic successor of `a` among permutations of `0..n`.
pub open spec fn is_next_perm(a: Seq<usize>, b: Seq<usize>, n: nat) -> bool {
    &&& is_perm(a, n)
    &&& is_perm(b, n)
    &&& lex_lt(a, b)
    &&& forall|c: Seq<usize>| is_perm(c, n) && #[trigger] lex_lt(a, c) ==> lex_leq(b, c)
}

/// `a` is the lexicographically greatest permutation of `0..n`.
pub open spec fn is_max_perm(a: Seq<usize>, n: nat) -> bool {
    &&& is_perm(a, n)
    &&& forall|c: Seq<usize>| is_perm(c, n) ==> !(#[trigger] lex_lt(a, c))
}

/// `a` has a lexicographic successor among the permutations of `0..n`.
pub open spec fn has_next_perm(a: Seq<usize>, n: nat) -> bool {
    exists|b: Seq<usize>| is_next_perm(a, b, n)
}

/// One lexicographic step: the immediate successor, or a wrap back to the
/// identity permutation from the maximum.
pub open spec fn step_perm(a: Seq<usize>, n: nat) -> Seq<usize> {
    if has_next_perm(a, n) {
        choose|b: Seq<usize>| is_next_perm(a, b, n)
    } else {
        ident_perm(n)
    }
}

/// `k` lexicographic steps from `a`.
pub open spec fn step_k_perm(a: Seq<usize>, n: nat, k: nat) -> Seq<usize>
    decreases k,
{
    if k == 0 {
        a
    } else {
        step_perm(step_k_perm(a, n, (k - 1) as nat), n)
    }
}

/// The permutation standing at lexicographic rank `r`: `r` steps from the identity.
pub open spec fn perm_at_rank(n: nat, r: nat) -> Seq<usize> {
    step_k_perm(ident_perm(n), n, r)
}

/// The identity sequence is a permutation of any city count a `Vec` can hold.
pub proof fn lemma_ident_is_perm(n: nat)
    requires
        n <= usize::MAX,
    ensures
        is_perm(ident_perm(n), n),
{
    let s = ident_perm(n);
    assert(forall|i: int| 0 <= i < n ==> (#[trigger] s[i]) == i as usize);
    assert forall|v: usize| v < n implies s.contains(v) by {
        assert(s[v as int] == v);
    }
}

/// Two sequences of one length are equal or ordered, one way or the other.
pub proof fn lemma_lex_trichotomy(a: Seq<usize>, b: Seq<usize>)
    requires
        a.len() == b.len(),
    ensures
        a == b || lex_lt(a, b) || lex_lt(b, a),
{
    lemma_first_difference(a, b, 0);
    if a =~= b {
        assert(a == b);
    }
}

proof fn lemma_first_difference(a: Seq<usize>, b: Seq<usize>, i: int)
    requires
        a.len() == b.len(),
        0 <= i <= a.len(),
        forall|j: int| 0 <= j < i ==> a[j] == b[j],
    ensures
        a =~= b || lex_lt(a, b) || lex_lt(b, a),
    decreases a.len() - i,
{
    if i == a.len() {
        assert(a =~= b);
    } else if a[i] == b[i] {
        lemma_first_difference(a, b, i + 1);
    } else if a[i] < b[i] {
        assert(lex_lt_at(a, b, i));
    } else {
        assert(lex_lt_at(b, a, i));
    }
}

/// Strict lexicographic order is asymmetric, so in particular irreflexive.
pub proof fn lemma_lex_asym(a: Seq<usize>, b: Seq<usize>)
    requires
        lex_lt(a, b),
    ensures
        !lex_lt(b, a),
        a != b,
{
    let k1 = choose|k: int| lex_lt_at(a, b, k);
    assert(a[k1] != b[k1]);
    if lex_lt(b, a) {
        let k2 = choose|k: int| lex_lt_at(b, a, k);
        if k1 < k2 {
            assert(b[k1] == a[k1]);
        } else if k2 < k1 {
            assert(a[k2] == b[k2]);
        }
    }
}

/// Strict lexicographic order is transitive.
pub proof fn lemma_lex_trans(a: Seq<usize>, b: Seq<usize>, c: Seq<usize>)
    requires
        lex_lt(a, b),
        lex_lt(b, c),
        a.len() == b.len(),
        b.len() == c.len(),
    ensures
        lex_lt(a, c),
{
    let k1 = choose|k: int| lex_lt_at(a, b, k);
    let k2 = choose|k: int| lex_lt_at(b, c, k);
    if k1 < k2 {
        assert(b[k1] == c[k1]);
        assert(lex_lt_at(a, c, k1));
    } else if k2 < k1 {
        assert(a[k2] == b[k2]);
        assert(lex_lt_at(a, c, k2));
    } else {
        assert(lex_lt_at(a, c, k1));
    }
}

/// Reflexive order chains with a strict step on the right.
pub proof fn lemma_lex_leq_lt_trans(a: Seq<usize>, b: Seq<usize>, c: Seq<usize>)
    requires
        lex_leq(a, b),
        lex_lt(b, c),
        a.len() == b.len(),
        b.len() == c.len(),
    ensures
        lex_lt(a, c),
{
    if a == b {
    } else {
        lemma_lex_trans(a, b, c);
    }
}

/// The immediate successor is unique.
pub proof fn lemma_next_perm_unique(a: Seq<usize>, b1: Seq<usize>, b2: Seq<usize>, n: nat)
    requires
        is_next_perm(a, b1, n),
        is_next_perm(a, b2, n),
    ensures
        b1 == b2,
{
    assert(lex_leq(b1, b2));
    assert(lex_leq(b2, b1));
    if b1 != b2 {
        lemma_lex_asym(b1, b2);
    }
}

/// A witnessed immediate successor is what `step_perm` denotes.
pub proof fn lemma_step_from_next(a: Seq<usize>, b: Seq<usize>, n: nat)
    requires
        is_next_perm(a, b, n),
    ensures
        step_perm(a, n) == b,
{
    assert(has_next_perm(a, n));
    let b2 = choose|c: Seq<usize>| is_next_perm(a, c, n);
    lemma_next_perm_unique(a, b, b2, n);
}

/// From the maximum, `step_perm` wraps to the identity permutation.
pub proof fn lemma_step_from_max(a: Seq<usize>, n: nat)
    requires
        is_max_perm(a, n),
    ensures
        step_perm(a, n) == ident_perm(n),
{
    if has_next_perm(a, n) {
        let b = choose|c: Seq<usize>| is_next_perm(a, c, n);
        assert(lex_lt(a, b));
        assert(is_perm(b, n));
    }
}

/// One step from a permutation is a permutation.
pub proof fn lemma_step_is_perm(a: Seq<usize>, n: nat)
    requires
        is_perm(a, n),
        n <= usize::MAX,
    ensures
        is_perm(step_perm(a, n), n),
{
    if has_next_perm(a, n) {
        let b = choose|b: Seq<usize>| is_next_perm(a, b, n);
        assert(is_perm(b, n));
    } else {
        lemma_ident_is_perm(n);
    }
}

/// Any number of steps from a permutation is a permutation.
pub proof fn lemma_step_k_is_perm(a: Seq<usize>, n: nat, k: nat)
    requires
        is_perm(a, n),
        n <= usize::MAX,
    ensures
        is_perm(step_k_perm(a, n, k), n),
    decreases k,
{
    if k > 0 {
        lemma_step_k_is_perm(a, n, (k - 1) as nat);
        lemma_step_is_perm(step_k_perm(a, n, (k - 1) as nat), n);
    }
}

/// The permutation at any rank is a permutation.
pub proof fn lemma_perm_at_rank_is_perm(n: nat, r: nat)
    requires
        n <= usize::MAX,
    ensures
        is_perm(perm_at_rank(n, r), n),
{
    lemma_ident_is_perm(n);
    lemma_step_k_is_perm(ident_perm(n), n, r);
}

/// Stepping composes: `j + k` steps are `k` steps after `j` steps.
pub proof fn lemma_step_k_add(a: Seq<usize>, n: nat, j: nat, k: nat)
    ensures
        step_k_perm(a, n, j + k) == step_k_perm(step_k_perm(a, n, j), n, k),
    decreases k,
{
    if k > 0 {
        lemma_step_k_add(a, n, j, (k - 1) as nat);
        assert(step_k_perm(a, n, (j + k - 1) as nat) == step_k_perm(
            step_k_perm(a, n, j),
            n,
            (k - 1) as nat,
        ));
    }
}

proof fn lemma_desc_run_ordered(a: Seq<usize>, lo: int, hi: int, i: int, j: int)
    requires
        hi <= a.len(),
        forall|k: int| lo <= k < hi - 1 ==> (#[trigger] a[k]) > a[k + 1],
        lo <= i < j < hi,
    ensures
        a[i] > a[j],
    decreases j - i,
{
    if i + 1 < j {
        lemma_desc_run_ordered(a, lo, hi, i + 1, j);
    }
}

proof fn lemma_asc_run_ordered(a: Seq<usize>, lo: int, hi: int, i: int, j: int)
    requires
        hi <= a.len(),
        forall|k: int| lo <= k < hi - 1 ==> (#[trigger] a[k]) < a[k + 1],
        lo <= i < j < hi,
    ensures
        a[i] < a[j],
    decreases j - i,
{
    if i + 1 < j {
        lemma_asc_run_ordered(a, lo, hi, i + 1, j);
    }
}

proof fn lemma_desc_lower(a: Seq<usize>, n: nat, i: int)
    requires
        is_perm(a, n),
        forall|k: int| 0 <= k < n - 1 ==> (#[trigger] a[k]) > a[k + 1],
        0 <= i < n,
    ensures
        a[i] >= n - 1 - i,
    decreases n - i,
{
    if i < n - 1 {
        lemma_desc_lower(a, n, i + 1);
    }
}

proof fn lemma_desc_upper(a: Seq<usize>, n: nat, i: int)
    requires
        is_perm(a, n),
        forall|k: int| 0 <= k < n - 1 ==> (#[trigger] a[k]) > a[k + 1],
        0 <= i < n,
    ensures
        a[i] <= n - 1 - i,
    decreases i,
{
    if i > 0 {
        lemma_desc_upper(a, n, i - 1);
    }
}

/// A strictly descending permutation is the lexicographic maximum.
pub proof fn lemma_desc_is_max(a: Seq<usize>, n: nat)
    requires
        is_perm(a, n),
        forall|k: int| 0 <= k < n - 1 ==> (#[trigger] a[k]) > a[k + 1],
    ensures
        is_max_perm(a, n),
        a == Seq::new(n, |i: int| (n - 1 - i) as usize),
{
    assert forall|i: int| 0 <= i < n implies (#[trigger] a[i]) == n - 1 - i by {
        lemma_desc_lower(a, n, i);
        lemma_desc_upper(a, n, i);
    }
    assert(a =~= Seq::new(n, |i: int| (n - 1 - i) as usize));
    assert forall|c: Seq<usize>| is_perm(c, n) implies !(#[trigger] lex_lt(a, c)) by {
        if lex_lt(a, c) {
            let k = choose|k: int| lex_lt_at(a, c, k);
            // The elements above `a[k]` all stand in the shared prefix, so a
            // larger element at `k` would repeat one of `c`'s prefix elements.
            let j = n - 1 - c[k];
            assert(0 <= j < k);
            assert(c[j] == a[j]);
            assert(c[j] == c[k]);
        }
    }
}

/// Equal prefixes of two permutations leave equal element sets behind them:
/// a value found at or beyond `m` in `c` also stands at or beyond `m` in `a`.
proof fn lemma_same_tail_elems(a: Seq<usize>, c: Seq<usize>, n: nat, m: int, v: usize)
    requires
        is_perm(a, n),
        is_perm(c, n),
        0 <= m <= n,
        forall|i: int| 0 <= i < m ==> a[i] == c[i],
        exists|i: int| m <= i < n && c[i] == v,
    ensures
        exists|i: int| m <= i < n && a[i] == v,
{
    let i = choose|i: int| m <= i < n && c[i] == v;
    assert(v < n);
    assert(a.contains(v));
    let i2 = choose|k: int| 0 <= k < a.len() && a[k] == v;
    if i2 < m {
        assert(c[i2] == v);
        assert(c[i2] == c[i]);
        assert(false);
    }
}

/// A permutation ascending from position `m`, agreeing with `c` before `m`,
/// comes no later than `c` in lexicographic order.
proof fn lemma_sorted_is_min(b: Seq<usize>, c: Seq<usize>, n: nat, m: int)
    requires
        is_perm(b, n),
        is_perm(c, n),
        0 <= m <= n,
        forall|i: int| 0 <= i < m ==> b[i] == c[i],
        forall|k: int| m <= k < n - 1 ==> (#[trigger] b[k]) < b[k + 1],
    ensures
        lex_leq(b, c),
    decreases n - m,
{
    if m == n {
        assert(b =~= c);
    } else {
        assert(c[m] == c[m]);
        lemma_same_tail_elems(b, c, n, m, c[m]);
        let t = choose|i: int| m <= i < n && b[i] == c[m];
        if t == m {
            lemma_sorted_is_min(b, c, n, m + 1);
        } else {
            lemma_asc_run_ordered(b, m, n as int, m, t);
            assert(lex_lt_at(b, c, m));
        }
    }
}

/// The identity permutation is the lexicographic minimum.
pub proof fn lemma_ident_is_min(c: Seq<usize>, n: nat)
    requires
        is_perm(c, n),
        n <= usize::MAX,
    ensures
        lex_leq(ident_perm(n), c),
{
    lemma_ident_is_perm(n);
    let b = ident_perm(n);
    assert(forall|i: int| 0 <= i < n ==> (#[trigger] b[i]) == i as usize);
    lemma_sorted_is_min(b, c, n, 0);
}

/// Swapping two positions of a permutation leaves a permutation.
proof fn lemma_swap_is_perm(a: Seq<usize>, n: nat, x: int, y: int)
    requires
        is_perm(a, n),
        0 <= x < n,
        0 <= y < n,
    ensures
        is_perm(a.update(x, a[y]).update(y, a[x]), n),
{
    let b = a.update(x, a[y]).update(y, a[x]);
    assert forall|v: usize| v < n implies b.contains(v) by {
        assert(a.contains(v));
        let i = choose|i: int| 0 <= i < a.len() && a[i] == v;
        if i == x {
            assert(b[y] == v);
        } else if i == y {
            assert(b[x] == v);
        } else {
            assert(b[i] == v);
        }
    }
}

/// Reversing a middle run of a permutation leaves a permutation.
proof fn lemma_reversed_run_is_perm(a: Seq<usize>, b: Seq<usize>, n: nat, lo: int, hi: int)
    requires
        is_perm(a, n),
        b.len() == n,
        0 <= lo <= hi <= n,
        forall|k: int| lo <= k < hi ==> (#[trigger] b[k]) == a[lo + hi - 1 - k],
        forall|k: int| 0 <= k < n && !(lo <= k < hi) ==> (#[trigger] b[k]) == a[k],
    ensures
        is_perm(b, n),
{
    assert forall|v: usize| v < n implies b.contains(v) by {
        assert(a.contains(v));
        let i = choose|i: int| 0 <= i < a.len() && a[i] == v;
        if lo <= i < hi {
            assert(b[lo + hi - 1 - i] == v);
        } else {
            assert(b[i] == v);
        }
    }
    assert forall|i: int, j: int| 0 <= i < j < n implies b[i] != b[j] by {
        if lo <= i < hi && lo <= j < hi {
            assert(b[i] == a[lo + hi - 1 - i]);
            assert(b[j] == a[lo + hi - 1 - j]);
        }
    }
}

/// The crux of the successor proof: any permutation strictly after `a` comes
/// no earlier than the one built by the pivot-swap-reverse step at `pi`.
proof fn lemma_successor_min(a: Seq<usize>, b: Seq<usize>, c: Seq<usize>, n: nat, pi: int)
    requires
        is_perm(a, n),
        is_perm(b, n),
        is_perm(c, n),
        0 <= pi < n - 1,
        forall|k: int| pi + 1 <= k < n - 1 ==> (#[trigger] a[k]) > a[k + 1],
        a[pi] < a[pi + 1],
        forall|i: int| 0 <= i < pi ==> a[i] == b[i],
        b[pi] > a[pi],
        exists|k: int| pi < k < n && a[k] == b[pi],
        forall|k: int| pi < k < n && (#[trigger] a[k]) > a[pi] ==> a[k] >= b[pi],
        forall|k: int| pi + 1 <= k < n - 1 ==> (#[trigger] b[k]) < b[k + 1],
        lex_lt(a, c),
    ensures
        lex_leq(b, c),
{
    let k = choose|kk: int| lex_lt_at(a, c, kk);
    if k > pi {
        // `a` is strictly descending from `pi + 1`, hence maximal there: `c`
        // cannot exceed it at `k` while rearranging the same remaining cities.
        assert(c[k] == c[k]);
        lemma_same_tail_elems(a, c, n, k, c[k]);
        let m = choose|i: int| k <= i < n && a[i] == c[k];
        assert(m != k);
        lemma_desc_run_ordered(a, pi + 1, n as int, k, m);
        assert(false);
    } else if k < pi {
        assert(lex_lt_at(b, c, k));
    } else {
        // First difference exactly at the pivot.
        assert(c[pi] == c[pi]);
        lemma_same_tail_elems(a, c, n, pi, c[pi]);
        let m = choose|i: int| pi <= i < n && a[i] == c[pi];
        assert(m != pi);
        assert(a[m] >= b[pi]);
        if c[pi] > b[pi] {
            assert(lex_lt_at(b, c, pi));
        } else {
            assert(c[pi] == b[pi]);
            lemma_sorted_is_min(b, c, n, pi + 1);
        }
    }
}

/// The path read as a number in base `n`, most significant city first.
///
/// Lexicographic order on equal-length paths with entries below `n` is
/// numeric order on these values (`lemma_seq_value_order`), which bounds how
/// long a scan can keep stepping forward.
pub open spec fn seq_value(s: Seq<usize>, n: nat) -> int
    decreases s.len(),
{
    if s.len() == 0 {
        0
    } else {
        seq_value(s.drop_last(), n) * n + s.last()
    }
}

pub proof fn lemma_seq_value_bound(s: Seq<usize>, n: nat)
    requires
        forall|i: int| 0 <= i < s.len() ==> (#[trigger] s[i]) < n,
    ensures
        0 <= seq_value(s, n) < vstd::arithmetic::power::pow(n as int, s.len()),
    decreases s.len(),
{
    if s.len() > 0 {
        let d = s.drop_last();
        assert(forall|i: int| 0 <= i < d.len() ==> (#[trigger] d[i]) < n);
        lemma_seq_value_bound(d, n);
        let v = seq_value(d, n);
        let p = vstd::arithmetic::power::pow(n as int, d.len());
        assert(s.len() == d.len() + 1);
        assert(vstd::arithmetic::power::pow(n as int, s.len()) == n * p) by {
            vstd::arithmetic::power::lemma_pow_adds(n as int, 1, d.len());
            vstd::arithmetic::power::lemma_pow1(n as int);
        }
        assert(s.last() < n);
        assert(0 <= v * n + s.last() && v * n + s.last() < n * p) by (nonlinear_arith)
            requires
                0 <= v < p,
                0 <= s.last() < n,
        ;
        assert(seq_value(s, n) == v * n + s.last());
    } else {
        vstd::arithmetic::power::lemma_pow0(n as int);
    }
}

pub proof fn lemma_seq_value_order(a: Seq<usize>, b: Seq<usize>, n: nat)
    requires
        a.len() == b.len(),
        forall|i: int| 0 <= i < a.len() ==> (#[trigger] a[i]) < n,
        forall|i: int| 0 <= i < b.len() ==> (#[trigger] b[i]) < n,
        lex_lt(a, b),
    ensures
        seq_value(a, n) < seq_value(b, n),
    decreases a.len(),
{
    let k = choose|k: int| lex_lt_at(a, b, k);
    let da = a.drop_last();
    let db = b.drop_last();
    if k == a.len() - 1 {
        assert(da =~= db);
    } else {
        assert(forall|i: int| 0 <= i < da.len() ==> (#[trigger] da[i]) < n);
        assert(forall|i: int| 0 <= i < db.len() ==> (#[trigger] db[i]) < n);
        assert(lex_lt_at(da, db, k));
        lemma_seq_value_order(da, db, n);
        lemma_seq_value_bound(da, n);
        lemma_seq_value_bound(db, n);
        let va = seq_value(da, n);
        let vb = seq_value(db, n);
        assert(va * n + a.last() < vb * n + b.last()) by (nonlinear_arith)
            requires
                va < vb,
                0 <= a.last() < n,
                0 <= b.last(),
        ;
    }
}

/// Tests whether the path is the last permutation in lexicographic order.
pub fn is_last_permutation(p: &Vec<usize>) -> (r: bool)
    requires
        is_perm(p@, p@.len() as nat),
    ensures
        r == is_max_perm(p@, p@.len() as nat),
{
    let n = p.len();
    let ghost gn = n as nat;
    let mut i: usize = 1;
    while i < n
        invariant
            1 <= i,
            i <= n || n < 2,
            n == p@.len(),
            is_perm(p@, gn),
            forall|k: int| 0 <= k < i - 1 ==> (#[trigger] p@[k]) > p@[k + 1],
        decreases n - i,
    {
        if p[i - 1] < p[i] {
            proof {
                let c = p@.update(i - 1, p@[i as int]).update(i as int, p@[i - 1]);
                lemma_swap_is_perm(p@, gn, i - 1, i as int);
                assert(lex_lt_at(p@, c, i - 1));
                assert(lex_lt(p@, c));
                assert(!is_max_perm(p@, gn));
            }
            return false;
        }
        proof {
            assert(p@[i - 1] != p@[i as int]);
        }
        i = i + 1;
    }
    proof {
        lemma_desc_is_max(p@, gn);
    }
    true
}

/// Writes one position of the path.
fn set_at(p: &mut Vec<usize>, i: usize, x: usize)
    requires
        i < old(p)@.len(),
    ensures
        final(p)@ == old(p)@.update(i as int, x),
{
    let r = &mut p[i];
    *r = x;
}

/// Reverses the run `p[lo..hi]` in place; everything else keeps its place.
fn reverse_range(p: &mut Vec<usize>, lo: usize, hi: usize)
    requires
        lo <= hi,
        hi <= old(p)@.len(),
    ensures
        final(p)@.len() == old(p)@.len(),
        forall|k: int| lo <= k < hi ==> (#[trigger] final(p)@[k]) == old(p)@[lo + hi - 1 - k],
        forall|k: int|
            0 <= k < old(p)@.len() && !(lo <= k < hi) ==> (#[trigger] final(p)@[k]) == old(
                p,
            )@[k],
{
    let ghost orig = p@;
    let mut a = lo;
    let mut b = hi;
    while b - a > 1
        invariant
            lo <= a <= b <= hi <= p@.len(),
            p@.len() == orig.len(),
            a - lo == hi - b,
            forall|k: int| lo <= k < a ==> (#[trigger] p@[k]) == orig[lo + hi - 1 - k],
            forall|k: int| b <= k < hi ==> (#[trigger] p@[k]) == orig[lo + hi - 1 - k],
            forall|k: int| a <= k < b ==> (#[trigger] p@[k]) == orig[k],
            forall|k: int| 0 <= k < orig.len() && !(lo <= k < hi) ==> (#[trigger] p@[k]) == orig[k],
        decreases b - a,
    {
        let t1 = p[a];
        let t2 = p[b - 1];
        set_at(p, a, t2);
        set_at(p, b - 1, t1);
        a = a + 1;
        b = b - 1;
    }
}

/// The smallest permutation of `n` cities: `[0, 1, ..., n-1]`.
///
/// The ascending identity sequence is already the lexicographic minimum
/// (`lemma_ident_is_min`), so scanning may start here directly.
pub fn smallest(n: usize) -> (p: Vec<usize>)
    ensures
        p@ == ident_perm(n as nat),
        is_perm(p@, n as nat),
{
    let mut p: Vec<usize> = Vec::new();
    let mut i: usize = 0;
    while i < n
        invariant
            i <= n,
            p@.len() == i,
            forall|j: int| 0 <= j < i ==> (#[trigger] p@[j]) == j as usize,
        decreases n - i,
    {
        p.push(i);
        i = i + 1;
    }
    proof {
        assert(p@ =~= ident_perm(n as nat));
        lemma_ident_is_perm(n as nat);
    }
    p
}

/// Steps the path to its immediate lexicographic successor.
///
/// Returns `false` from the lexicographically greatest permutation, wrapping
/// the path back around to the smallest one.
pub fn next_permutation(p: &mut Vec<usize>) -> (more: bool)
    requires
        is_perm(old(p)@, old(p)@.len() as nat),
    ensures
        ({
            let n = old(p)@.len() as nat;
            &&& is_perm(final(p)@, n)
            &&& final(p)@ == step_perm(old(p)@, n)
            &&& more == has_next_perm(old(p)@, n)
            &&& more ==> is_next_perm(old(p)@, final(p)@, n)
            &&& !more ==> is_max_perm(old(p)@, n) && final(p)@ == ident_perm(n)
        }),
{
    let n = p.len();
    let ghost orig = p@;
    let ghost gn = n as nat;
    if n < 2 {
        proof {
            assert forall|c: Seq<usize>| is_perm(c, gn) implies !lex_lt(orig, c) by {
                if lex_lt(orig, c) {
                    let k = choose|k: int| lex_lt_at(orig, c, k);
                    assert(orig[k] < c[k]);
                    assert(c[k] < gn);
                }
            }
            assert(is_max_perm(orig, gn));
            assert(orig =~= ident_perm(gn));
            lemma_step_from_max(orig, gn);
            if has_next_perm(orig, gn) {
                let b = choose|c: Seq<usize>| is_next_perm(orig, c, gn);
                lemma_lex_asym(orig, b);
            }
        }
        return false;
    }
    // Find the start of the longest strictly descending suffix.
    let mut i: usize = n - 1;
    while i > 0 && p[i - 1] > p[i]
        invariant
            p@ == orig,
            is_perm(orig, gn),
            n == orig.len(),
            i <= n - 1,
            forall|k: int| i <= k < n - 1 ==> (#[trigger] orig[k]) > orig[k + 1],
        decreases i,
    {
        i = i - 1;
    }
    if i == 0 {
        // Whole path descending: it is the maximum; wrap to the minimum.
        proof {
            lemma_desc_is_max(orig, gn);
            lemma_step_from_max(orig, gn);
            if has_next_perm(orig, gn) {
                let b = choose|c: Seq<usize>| is_next_perm(orig, c, gn);
                lemma_lex_asym(orig, b);
            }
        }
        reverse_range(p, 0, n);
        proof {
            assert forall|k: int| 0 <= k < gn implies (#[trigger] p@[k]) == k as usize by {
                assert(orig[n - 1 - k] == (n - 1 - (n - 1 - k)) as usize);
            }
            assert(p@ =~= ident_perm(gn));
            lemma_ident_is_perm(gn);
        }
        return false;
    }
    let pi = i - 1;
    proof {
        assert(orig[pi as int] != orig[i as int]);
    }
    // Rightmost element exceeding the pivot; the descending suffix makes it
    // the least such element as well.
    let mut j: usize = n - 1;
    while p[j] < p[pi]
        invariant
            p@ == orig,
            is_perm(orig, gn),
            n == orig.len(),
            pi + 1 == i,
            i <= j <= n - 1,
            orig[pi as int] < orig[i as int],
            forall|k: int| i <= k < n - 1 ==> (#[trigger] orig[k]) > orig[k + 1],
            forall|k: int| j < k < n ==> (#[trigger] orig[k]) < orig[pi as int],
        decreases j,
    {
        j = j - 1;
    }
    proof {
        assert(orig[j as int] != orig[pi as int]);
        assert(orig[j as int] > orig[pi as int]);
    }
    let tp = p[pi];
    let tj = p[j];
    set_at(p, pi, tj);
    set_at(p, j, tp);
    let ghost mid = p@;
    proof {
        lemma_swap_is_perm(orig, gn, pi as int, j as int);
        assert(mid == orig.update(pi as int, orig[j as int]).update(j as int, orig[pi as int]));
        // The suffix after the pivot is still strictly descending.
        assert forall|k: int| pi + 1 <= k < n - 1 implies (#[trigger] mid[k]) > mid[k + 1] by {
            if k + 1 < j {
                assert(mid[k] == orig[k] && mid[k + 1] == orig[k + 1]);
            } else if k + 1 == j {
                assert(mid[k + 1] == orig[pi as int]);
                if k > pi {
                    assert(orig[k] > orig[j as int]) by {
                        lemma_desc_run_ordered(orig, i as int, n as int, k, j as int);
                    }
                }
            } else if k == j {
                assert(mid[k] == orig[pi as int]);
                assert(orig[k + 1] < orig[pi as int]);
            } else {
                assert(mid[k] == orig[k] && mid[k + 1] == orig[k + 1]);
            }
        }
    }
    reverse_range(p, i, n);
    proof {
        let b = p@;
        lemma_reversed_run_is_perm(mid, b, gn, i as int, n as int);
        // Ascending suffix of the result.
        assert forall|k: int| pi + 1 <= k < n - 1 implies (#[trigger] b[k]) < b[k + 1] by {
            assert(b[k] == mid[i + n - 1 - k]);
            assert(b[k + 1] == mid[i + n - 1 - (k + 1)]);
        }
        // Structural facts feeding the successor lemma.
        assert(b[pi as int] == mid[pi as int]);
        assert(b[pi as int] == orig[j as int]);
        assert forall|k: int| pi < k < n && (#[trigger] orig[k]) > orig[pi as int] implies orig[k]
            >= orig[j as int] by {
            if k < j {
                lemma_desc_run_ordered(orig, i as int, n as int, k, j as int);
            }
        }
        assert(exists|k: int| pi < k < n && orig[k] == b[pi as int]) by {
            assert(orig[j as int] == b[pi as int]);
        }
        assert(lex_lt_at(orig, b, pi as int));
        assert forall|c: Seq<usize>| is_perm(c, gn) && #[trigger] lex_lt(orig, c) implies lex_leq(
            b,
            c,
        ) by {
            lemma_successor_min(orig, b, c, gn, pi as int);
        }
        assert(is_next_perm(orig, b, gn));
        lemma_step_from_next(orig, b, gn);
    }
    true
}

/// Applies `next_permutation` exactly `k` times.
///
/// Runs in `O(k)` by itself; a `PermutationPrefixCache` lets range boundaries
/// reuse earlier stepping work instead of calling this from rank zero.
pub fn advance_by(p: &mut Vec<usize>, k: u64)
    requires
        is_perm(old(p)@, old(p)@.len() as nat),
    ensures
        ({
            let n = old(p)@.len() as nat;
            &&& is_perm(final(p)@, n)
            &&& final(p)@ == step_k_perm(old(p)@, n, k as nat)
        }),
{
    let ghost orig = p@;
    let ghost gn = p@.len() as nat;
    let mut m: u64 = 0;
    while m < k
        invariant
            m <= k,
            p@.len() == orig.len(),
            is_perm(p@, gn),
            gn == orig.len(),
            p@ == step_k_perm(orig, gn, m as nat),
        decreases k - m,
    {
        next_permutation(p);
        m = m + 1;
    }
}

} // verus!
