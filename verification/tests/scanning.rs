use tsp_sol::perm::{advance_by, next_permutation, smallest};
use tsp_sol::scan::{scan_from, scan_steps};
use tsp_sol::solver::best_of;
use tsp_sol::tour::{Tour, WeightMatrix};

fn small_weights() -> WeightMatrix {
    // Asymmetric on purpose: the scan treats the table as an opaque lookup.
    let table = vec![
        vec![0u64, 4, 9, 7],
        vec![3u64, 0, 6, 8],
        vec![5u64, 2, 0, 1],
        vec![6u64, 3, 2, 0],
    ];
    WeightMatrix::new(table).unwrap()
}

fn dist_of(w: &WeightMatrix, p: &[usize]) -> u64 {
    let mut d = 0u64;
    for i in 0..p.len() {
        d += w.at(p[i], p[(i + 1) % p.len()]);
    }
    d
}

#[test]
fn scan_steps_covers_exactly_its_count() {
    let w = small_weights();
    // Walk the first ten permutations of four cities by hand.
    let mut current = smallest(4);
    let mut best = u64::MAX;
    for _ in 0..10 {
        best = best.min(dist_of(&w, &current));
        next_permutation(&mut current);
    }
    let (tour, exhausted) = scan_steps(&w, smallest(4), 10);
    assert!(!exhausted);
    assert_eq!(tour.dist, best);

    // Asking for more than 4! permutations runs off the end of the order.
    let (full, exhausted) = scan_steps(&w, smallest(4), 1000);
    assert!(exhausted);
    let reference = scan_from(&w, smallest(4));
    assert_eq!(full.dist, reference.dist);
    assert_eq!(full.path, reference.path);
}

#[test]
fn scan_from_a_late_start_sees_only_the_tail() {
    let w = small_weights();
    let mut start = smallest(4);
    advance_by(&mut start, 20); // the last four of the 24 permutations
    let t = scan_from(&w, start.clone());
    let mut best = u64::MAX;
    let mut cur = start;
    loop {
        best = best.min(dist_of(&w, &cur));
        if !next_permutation(&mut cur) {
            break;
        }
    }
    assert_eq!(t.dist, best);
}

#[test]
fn best_of_takes_the_earliest_minimum() {
    let candidates = vec![
        Tour { path: vec![0, 1], dist: 9 },
        Tour { path: vec![1, 0], dist: 4 },
        Tour { path: vec![0, 1], dist: 4 },
        Tour { path: vec![1, 0], dist: 7 },
    ];
    let b = best_of(&candidates).unwrap();
    assert_eq!(b.dist, 4);
    assert_eq!(b.path, vec![1, 0]);
    assert!(best_of(&Vec::new()).is_none());
}
