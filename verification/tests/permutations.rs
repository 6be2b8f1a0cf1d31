use tsp_sol::partition::factorial;
use tsp_sol::perm::{advance_by, is_last_permutation, next_permutation, smallest};
use tsp_sol::solver::is_permutation_of;

#[test]
fn smallest_is_the_identity() {
    assert_eq!(smallest(0), Vec::<usize>::new());
    assert_eq!(smallest(1), vec![0]);
    assert_eq!(smallest(4), vec![0, 1, 2, 3]);
}

#[test]
fn next_permutation_walks_lexicographic_order() {
    let mut p = smallest(3);
    let expected: Vec<Vec<usize>> = vec![
        vec![0, 1, 2],
        vec![0, 2, 1],
        vec![1, 0, 2],
        vec![1, 2, 0],
        vec![2, 0, 1],
        vec![2, 1, 0],
    ];
    for (i, want) in expected.iter().enumerate() {
        assert_eq!(&p, want);
        let more = next_permutation(&mut p);
        assert_eq!(more, i + 1 < expected.len());
    }
    // After the greatest permutation the path wraps to the smallest.
    assert_eq!(p, vec![0, 1, 2]);
}

#[test]
fn next_permutation_on_tiny_paths() {
    let mut empty: Vec<usize> = vec![];
    assert!(!next_permutation(&mut empty));
    let mut single: Vec<usize> = vec![0];
    assert!(!next_permutation(&mut single));
    assert_eq!(single, vec![0]);
}

#[test]
fn advance_by_matches_repeated_stepping() {
    let mut walked = smallest(5);
    for _ in 0..17 {
        next_permutation(&mut walked);
    }
    let mut jumped = smallest(5);
    advance_by(&mut jumped, 17);
    assert_eq!(walked, jumped);
}

#[test]
fn is_last_permutation_spots_the_maximum() {
    assert!(is_last_permutation(&vec![3, 2, 1, 0]));
    assert!(!is_last_permutation(&vec![3, 1, 2, 0]));
    assert!(!is_last_permutation(&smallest(4)));
    assert!(is_last_permutation(&smallest(1)));
    assert!(is_last_permutation(&smallest(0)));
}

#[test]
fn factorial_values() {
    assert_eq!(factorial(0), 1);
    assert_eq!(factorial(1), 1);
    assert_eq!(factorial(5), 120);
    assert_eq!(factorial(12), 479001600);
    assert_eq!(factorial(20), 2432902008176640000);
}

#[test]
fn is_permutation_of_accepts_and_rejects() {
    assert!(is_permutation_of(&vec![2, 0, 1], 3));
    assert!(is_permutation_of(&vec![], 0));
    assert!(!is_permutation_of(&vec![0, 1], 3)); // too short
    assert!(!is_permutation_of(&vec![0, 1, 1], 3)); // duplicate
    assert!(!is_permutation_of(&vec![0, 1, 3], 3)); // out of range
}
