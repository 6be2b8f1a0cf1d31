use tsp_sol::cache::{solution_fingerprint, SolutionCache};
use tsp_sol::partition::factorial;
use tsp_sol::prefix_cache::PermutationPrefixCache;
use tsp_sol::solver::{solve, solve_all, solve_st, SolveError};
use tsp_sol::tour::{City, WeightMatrix};

fn fresh_solution_cache(tag: &str) -> SolutionCache {
    // Nothing ever dumps these stores, so no test touches the file system.
    SolutionCache::create(&format!("target/test_solutions_{}.db", tag))
}

fn square_cities() -> Vec<City> {
    // Unit square corners, quantized at four decimal places.
    vec![
        City { num: 0, x4: 0, y4: 0 },
        City { num: 1, x4: 0, y4: 10000 },
        City { num: 2, x4: 10000, y4: 10000 },
        City { num: 3, x4: 10000, y4: 0 },
    ]
}

/// Euclidean weights in units of one ten-thousandth, from quantized
/// coordinates.
fn euclidean_weights(cities: &[City]) -> WeightMatrix {
    let n = cities.len();
    let mut w: Vec<Vec<u64>> = Vec::new();
    for i in 0..n {
        let mut row = Vec::new();
        for j in 0..n {
            let dx = (cities[i].x4 - cities[j].x4) as f64;
            let dy = (cities[i].y4 - cities[j].y4) as f64;
            row.push((dx * dx + dy * dy).sqrt().round() as u64);
        }
        w.push(row);
    }
    WeightMatrix::new(w).expect("square bounded table")
}

fn numbered_cities(n: usize) -> Vec<City> {
    (0..n)
        .map(|i| City { num: i, x4: (i as i64) * 10000, y4: ((i * i % 7) as i64) * 10000 })
        .collect()
}

/// Small deterministic pseudo-random weight table.
fn lcg_weights(n: usize, seed: u64) -> Vec<Vec<u64>> {
    let mut state = seed;
    let mut step = move || {
        state = state.wrapping_mul(6364136223846793005).wrapping_add(1442695040888963407);
        (state >> 33) % 1000
    };
    let mut w = vec![vec![0u64; n]; n];
    for i in 0..n {
        for j in (i + 1)..n {
            let v = step() + 1;
            w[i][j] = v;
            w[j][i] = v;
        }
    }
    w
}

/// Independent reference: every permutation of `0..n`, by recursive
/// insertion.
fn all_permutations(n: usize) -> Vec<Vec<usize>> {
    if n == 0 {
        return vec![vec![]];
    }
    let mut out = Vec::new();
    for smaller in all_permutations(n - 1) {
        for pos in 0..=smaller.len() {
            let mut p = smaller.clone();
            p.insert(pos, n - 1);
            out.push(p);
        }
    }
    out
}

fn ref_cycle_dist(w: &[Vec<u64>], p: &[usize]) -> u64 {
    let mut total = 0u64;
    for i in 0..p.len() {
        total += w[p[i]][p[(i + 1) % p.len()]];
    }
    total
}

#[test]
fn solve_matches_exhaustive_reference_serial() {
    // Below seven cities the scan runs serially.
    for n in 1..=6usize {
        let table = lcg_weights(n, 0xC0FFEE + n as u64);
        let reference = all_permutations(n)
            .iter()
            .map(|p| ref_cycle_dist(&table, p))
            .min()
            .unwrap();
        let weights = WeightMatrix::new(table).unwrap();
        let mut sc = fresh_solution_cache(&format!("serial{}", n));
        let mut pc = PermutationPrefixCache::new();
        let t = solve(&numbered_cities(n), &weights, &mut sc, &mut pc, 3).expect("solvable");
        assert_eq!(t.dist, reference, "n = {}", n);
    }
}

#[test]
fn solve_matches_exhaustive_reference_partitioned() {
    // Seven and eight cities take the partitioned path.
    for n in 7..=8usize {
        let table = lcg_weights(n, 0xBEEF + n as u64);
        let reference = all_permutations(n)
            .iter()
            .map(|p| ref_cycle_dist(&table, p))
            .min()
            .unwrap();
        let weights = WeightMatrix::new(table).unwrap();
        let mut sc = fresh_solution_cache(&format!("part{}", n));
        let mut pc = PermutationPrefixCache::new();
        let t = solve(&numbered_cities(n), &weights, &mut sc, &mut pc, 5).expect("solvable");
        assert_eq!(t.dist, reference, "n = {}", n);
    }
}

#[test]
fn solve_st_covers_its_range() {
    // The single range [0, n!) is the whole scan.
    let n = 5usize;
    let table = lcg_weights(n, 0xABCD);
    let reference = all_permutations(n)
        .iter()
        .map(|p| ref_cycle_dist(&table, p))
        .min()
        .unwrap();
    let weights = WeightMatrix::new(table).unwrap();
    let pc = PermutationPrefixCache::new();
    let t = solve_st(&weights, &pc, 0, factorial(n as u64));
    assert_eq!(t.dist, reference);
}

#[test]
fn repeated_solves_agree_and_hit_the_cache() {
    // Idempotence: the second solve of one city set returns the same
    // distance; with the cache holding the first answer it does not rescan.
    let cities = square_cities();
    let weights = euclidean_weights(&cities);
    let mut sc = fresh_solution_cache("idem");
    let mut pc = PermutationPrefixCache::new();
    let first = solve(&cities, &weights, &mut sc, &mut pc, 2).unwrap();
    let second = solve(&cities, &weights, &mut sc, &mut pc, 2).unwrap();
    assert_eq!(first.path, second.path);
    assert_eq!(first.dist, second.dist);
}

#[test]
fn cache_hit_skips_the_scan() {
    // Seed the store with a deliberately suboptimal (but valid) tour: the
    // solve must hand it back untouched, which a rescan never would.
    let cities = square_cities();
    let weights = euclidean_weights(&cities);
    let mut sc = fresh_solution_cache("seeded");
    let mut pc = PermutationPrefixCache::new();
    let crossing = vec![0usize, 2, 1, 3];
    assert!(sc.put(&cities, &crossing));
    let t = solve(&cities, &weights, &mut sc, &mut pc, 2).unwrap();
    assert_eq!(t.path, crossing);
    assert_eq!(t.dist, 2 * 10000 + 2 * 14142);
}

#[test]
fn invalid_cache_entry_is_recomputed() {
    let cities = square_cities();
    let weights = euclidean_weights(&cities);
    let mut sc = fresh_solution_cache("poisoned");
    let mut pc = PermutationPrefixCache::new();
    assert!(sc.put(&cities, &vec![0usize, 0, 0, 0]));
    let t = solve(&cities, &weights, &mut sc, &mut pc, 2).unwrap();
    assert_eq!(t.dist, 40000);
}

#[test]
fn solution_cache_round_trips() {
    let cities = square_cities();
    let mut sc = fresh_solution_cache("roundtrip");
    assert!(sc.get(&cities).is_none());
    let path = vec![3usize, 0, 1, 2];
    assert!(sc.put(&cities, &path));
    assert_eq!(sc.get(&cities), Some(path));
    assert!(sc.get(&numbered_cities(4)).is_none());
}

#[test]
fn fingerprint_depends_on_the_coordinates() {
    let a = square_cities();
    let mut b = square_cities();
    b[2].x4 += 1; // one ten-thousandth to the side
    assert_ne!(solution_fingerprint(&a), solution_fingerprint(&b));
    assert_eq!(solution_fingerprint(&a), solution_fingerprint(&square_cities()));
}

#[test]
fn square_has_eight_tied_boundary_tours() {
    // Four cities on the unit square: the optimum traces the boundary at
    // distance 4, and every rotation and reflection of it ties.
    let cities = square_cities();
    let weights = euclidean_weights(&cities);
    let all = solve_all(&weights);
    assert_eq!(all.len(), 8);
    let expected: Vec<Vec<usize>> = vec![
        vec![0, 1, 2, 3],
        vec![0, 3, 2, 1],
        vec![1, 0, 3, 2],
        vec![1, 2, 3, 0],
        vec![2, 1, 0, 3],
        vec![2, 3, 0, 1],
        vec![3, 0, 1, 2],
        vec![3, 2, 1, 0],
    ];
    for (t, want) in all.iter().zip(expected.iter()) {
        assert_eq!(&t.path, want);
        assert_eq!(t.dist, 40000);
    }
    // And the solver's single answer is the first of them.
    let mut sc = fresh_solution_cache("square");
    let mut pc = PermutationPrefixCache::new();
    let best = solve(&cities, &weights, &mut sc, &mut pc, 2).unwrap();
    assert_eq!(best.path, vec![0, 1, 2, 3]);
    assert_eq!(best.dist, 40000);
}

#[test]
fn one_city_costs_nothing_and_two_cities_cost_the_edge_twice() {
    let one = vec![City { num: 0, x4: 2500, y4: -1200 }];
    let w1 = euclidean_weights(&one);
    let mut sc = fresh_solution_cache("one");
    let mut pc = PermutationPrefixCache::new();
    let t1 = solve(&one, &w1, &mut sc, &mut pc, 2).unwrap();
    assert_eq!(t1.dist, 0);
    assert_eq!(t1.path, vec![0]);

    let two = vec![
        City { num: 0, x4: 0, y4: 0 },
        City { num: 1, x4: 30000, y4: 40000 },
    ];
    let w2 = euclidean_weights(&two);
    let mut sc2 = fresh_solution_cache("two");
    let mut pc2 = PermutationPrefixCache::new();
    let t2 = solve(&two, &w2, &mut sc2, &mut pc2, 2).unwrap();
    assert_eq!(t2.dist, 2 * 50000);
}

#[test]
fn a_hundred_cities_are_rejected_outright() {
    let table = vec![vec![0u64; 100]; 100];
    let weights = WeightMatrix::new(table).unwrap();
    let cities = numbered_cities(100);
    let mut sc = fresh_solution_cache("hundred");
    let mut pc = PermutationPrefixCache::new();
    let r = solve(&cities, &weights, &mut sc, &mut pc, 2);
    assert!(matches!(r, Err(SolveError::Configuration)));
}

#[test]
fn weight_matrix_rejects_bad_tables() {
    assert!(WeightMatrix::new(vec![vec![0, 1], vec![2]]).is_none());
    assert!(WeightMatrix::new(vec![vec![u64::MAX]]).is_none());
    let m = WeightMatrix::new(vec![vec![0, 5], vec![5, 0]]).unwrap();
    assert_eq!(m.n(), 2);
    assert_eq!(m.at(0, 1), 5);
}

#[test]
fn solve_all_ties_match_the_reference_everywhere() {
    let n = 5usize;
    let table = lcg_weights(n, 0x5EED);
    let reference_min = all_permutations(n)
        .iter()
        .map(|p| ref_cycle_dist(&table, p))
        .min()
        .unwrap();
    let mut reference_ties: Vec<Vec<usize>> = all_permutations(n)
        .into_iter()
        .filter(|p| ref_cycle_dist(&table, p) == reference_min)
        .collect();
    reference_ties.sort();
    let weights = WeightMatrix::new(table).unwrap();
    let all = solve_all(&weights);
    assert!(!all.is_empty());
    let got: Vec<Vec<usize>> = all.iter().map(|t| t.path.clone()).collect();
    assert_eq!(got, reference_ties);
    for t in &all {
        assert_eq!(t.dist, reference_min);
    }
}
