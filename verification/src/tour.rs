//! Cycle-distance evaluation over a weight matrix.
//!
//! A tour visits the cities in the order of a permutation and returns to its
//! starting city; its distance is the sum of the edge weights along that
//! cycle.  Weights are plain integer costs (a caller quantizes whatever
//! metric it uses); the matrix is an opaque lookup table to the scan.

use vstd::prelude::*;

use crate::perm::is_perm;

verus! {

/// A city: its number and its coordinates in units of `10^-4`.
///
/// Coordinates are kept pre-quantized at four decimal places so that
/// floating-point noise in a caller's data cannot reach the solution
/// fingerprint.
#[derive(Clone, Copy, PartialEq, Eq, Structural, Debug)]
pub struct City {
    /// The city's number, an index into the weight matrix.
    pub num: usize,
    /// X coordinate, in units of one ten-thousandth.
    pub x4: i64,
    /// Y coordinate, in units of one ten-thousandth.
    pub y4: i64,
}

/// Largest edge weight a well-formed matrix may hold: any cycle of fewer
/// than one hundred such edges still sums inside a `u64`.
pub const MAX_EDGE_WEIGHT: u64 = u64::MAX / 100;

/// Largest city count the solver accepts; beyond it the partition-cache key
/// scheme collides (see `partition`), so it is rejected up front.
pub const MAX_CITIES: usize = 99;

/// An N by N table of edge costs, `weight[i][j]` the cost of travelling
/// from city `i` to city `j`.
pub struct WeightMatrix {
    w: Vec<Vec<u64>>,
}

impl View for WeightMatrix {
    type V = Seq<Seq<u64>>;

    closed spec fn view(&self) -> Seq<Seq<u64>> {
        self.w@.map_values(|row: Vec<u64>| row@)
    }
}

/// A raw cost table is acceptable: square, and entry-bounded so that a
/// cycle of up to one hundred edges sums inside a `u64`.
pub open spec fn table_wf(t: Seq<Seq<u64>>) -> bool {
    &&& forall|i: int| 0 <= i < t.len() ==> (#[trigger] t[i]).len() == t.len()
    &&& forall|i: int, j: int|
        0 <= i < t.len() && 0 <= j < t.len() ==> (#[trigger] t[i][j]) <= MAX_EDGE_WEIGHT
}

impl WeightMatrix {
    /// The city count the matrix covers.
    pub open spec fn spec_n(self) -> nat {
        self@.len()
    }

    /// The matrix is square and each entry leaves room for a hundred-edge
    /// cycle sum.
    pub open spec fn wf(self) -> bool {
        table_wf(self@)
    }

    /// Wraps a raw cost table, accepting it exactly when it is square, at
    /// most `MAX_CITIES` wide, and entry-bounded by `MAX_EDGE_WEIGHT`.
    pub fn new(w: Vec<Vec<u64>>) -> (r: Option<WeightMatrix>)
        ensures
            match r {
                Some(m) => m.wf() && m@ == w@.map_values(|row: Vec<u64>| row@),
                None => !table_wf(w@.map_values(|row: Vec<u64>| row@)),
            },
    {
        let n = w.len();
        let mut i: usize = 0;
        while i < n
            invariant
                i <= n,
                n == w@.len(),
                forall|k: int| 0 <= k < i ==> (#[trigger] w@[k]@).len() == n,
                forall|k: int, j: int|
                    0 <= k < i && 0 <= j < n ==> (#[trigger] w@[k]@[j]) <= MAX_EDGE_WEIGHT,
            decreases n - i,
        {
            if w[i].len() != n {
                proof {
                    assert(w@.map_values(|row: Vec<u64>| row@)[i as int] == w@[i as int]@);
                }
                return None;
            }
            let mut j: usize = 0;
            while j < n
                invariant
                    j <= n,
                    i < n,
                    n == w@.len(),
                    w@[i as int]@.len() == n,
                    forall|k: int| 0 <= k < j ==> (#[trigger] w@[i as int]@[k]) <= MAX_EDGE_WEIGHT,
                decreases n - j,
            {
                if w[i][j] > MAX_EDGE_WEIGHT {
                    proof {
                        assert(w@.map_values(|row: Vec<u64>| row@)[i as int] == w@[i as int]@);
                    }
                    return None;
                }
                j = j + 1;
            }
            i = i + 1;
        }
        let m = WeightMatrix { w };
        proof {
            assert(forall|i: int|
                0 <= i < m@.len() ==> (#[trigger] m@[i]) == m.w@.map_values(
                    |row: Vec<u64>| row@,
                )[i]);
        }
        Some(m)
    }

    /// The city count.
    pub fn n(&self) -> (r: usize)
        ensures
            r == self.spec_n(),
    {
        self.w.len()
    }

    /// One edge cost.
    pub fn at(&self, i: usize, j: usize) -> (r: u64)
        requires
            i < self.spec_n(),
            j < self.spec_n(),
            self.wf(),
        ensures
            r == self@[i as int][j as int],
    {
        proof {
            assert(self@[i as int] == self.w@[i as int]@);
        }
        self.w[i][j]
    }
}

/// Cost of the edge leaving position `i` of the cycle `p` (wrapping from the
/// last city back to the first).
pub open spec fn edge_cost(w: Seq<Seq<u64>>, p: Seq<usize>, i: int) -> int {
    w[p[i] as int][p[(i + 1) % (p.len() as int)] as int] as int
}

/// Sum of the first `i` edge costs of the cycle `p`.
pub open spec fn partial_dist(w: Seq<Seq<u64>>, p: Seq<usize>, i: int) -> int
    decreases i,
{
    if i <= 0 {
        0
    } else {
        partial_dist(w, p, i - 1) + edge_cost(w, p, i - 1)
    }
}

/// Total distance of the Hamiltonian cycle `p` under the weights `w`:
/// the sum of `w[p[i]][p[(i+1) mod n]]` over all positions `i`.
pub open spec fn spec_tour_dist(w: Seq<Seq<u64>>, p: Seq<usize>) -> int {
    partial_dist(w, p, p.len() as int)
}

/// Every partial sum of a well-formed matrix's edge costs is small.
proof fn lemma_partial_dist_bound(w: Seq<Seq<u64>>, p: Seq<usize>, i: int)
    requires
        is_perm(p, w.len()),
        forall|a: int| 0 <= a < w.len() ==> (#[trigger] w[a]).len() == w.len(),
        forall|a: int, b: int|
            0 <= a < w.len() && 0 <= b < w.len() ==> (#[trigger] w[a][b]) <= MAX_EDGE_WEIGHT,
        0 <= i <= p.len(),
    ensures
        0 <= partial_dist(w, p, i) <= i * MAX_EDGE_WEIGHT,
    decreases i,
{
    if i > 0 {
        lemma_partial_dist_bound(w, p, i - 1);
    }
}

/// A tour: a visiting order plus its total cycle distance.
pub struct Tour {
    /// The order the cities are visited in; a permutation of `0..n`.
    pub path: Vec<usize>,
    /// The total cycle distance of `path`.
    pub dist: u64,
}

impl Tour {
    /// The recorded distance is the distance of the recorded path, which is
    /// a permutation of the matrix's cities.
    pub open spec fn wf(self, w: Seq<Seq<u64>>) -> bool {
        &&& is_perm(self.path@, w.len())
        &&& self.dist == spec_tour_dist(w, self.path@)
    }
}

/// Total distance of the cycle `path`: visits every city in order and
/// returns to the first.
pub fn total_distance(w: &WeightMatrix, path: &Vec<usize>) -> (d: u64)
    requires
        w.wf(),
        w.spec_n() <= MAX_CITIES,
        is_perm(path@, w.spec_n()),
    ensures
        d == spec_tour_dist(w@, path@),
{
    let n = path.len();
    let mut d: u64 = 0;
    let mut i: usize = 0;
    while i < n
        invariant
            i <= n,
            n == path@.len(),
            w.wf(),
            n <= MAX_CITIES,
            is_perm(path@, w.spec_n()),
            n == w.spec_n(),
            d == partial_dist(w@, path@, i as int),
            d <= i * MAX_EDGE_WEIGHT,
        decreases n - i,
    {
        proof {
            lemma_partial_dist_bound(w@, path@, i + 1);
        }
        let from = path[i];
        let to = if i + 1 < n {
            path[i + 1]
        } else {
            path[0]
        };
        proof {
            if i + 1 < n {
                vstd::arithmetic::div_mod::lemma_small_mod((i + 1) as nat, n as nat);
            } else {
                vstd::arithmetic::div_mod::lemma_mod_self_0(n as int);
            }
        }
        d = d + w.at(from, to);
        i = i + 1;
    }
    d
}

} // verus!
