use tsp_sol::partition::{factorial, partition_ranges};
use tsp_sol::perm::{advance_by, smallest};
use tsp_sol::prefix_cache::{get_permutation_cache_key, PermutationPrefixCache};

/// Every rank below `total` must fall in exactly one of the returned ranges.
fn check_exact_cover(total: u64, threads: u64) {
    let ranges = partition_ranges(total, threads);
    assert_eq!(ranges.len() as u64, threads + 1);
    for rank in 0..total {
        let mut owners = 0;
        for r in &ranges {
            if r.begin <= rank && rank < r.end {
                owners += 1;
            }
        }
        assert_eq!(owners, 1, "rank {} covered {} times", rank, owners);
    }
    for r in &ranges {
        assert!(r.begin <= r.end);
        assert!(r.end <= total);
    }
}

#[test]
fn partition_covers_every_rank_once() {
    check_exact_cover(factorial(5), 7); // 120 = 7 * 17 + 1
    check_exact_cover(factorial(4), 1); // single worker takes everything
    check_exact_cover(factorial(3), 6); // divides evenly, empty remainder
    check_exact_cover(factorial(3), 50); // more workers than ranks
}

#[test]
fn cache_key_mixes_rank_and_city_count() {
    assert_eq!(get_permutation_cache_key(0, 4), 4);
    assert_eq!(get_permutation_cache_key(42, 7), 4207);
    assert_eq!(get_permutation_cache_key(1, 99), 199);
}

#[test]
fn prefix_cache_steps_between_boundaries() {
    // Stepping k times forward from the permutation cached at rank r must
    // land on the permutation cached at rank r + k.
    let mut cache = PermutationPrefixCache::new();
    let mut at3 = smallest(4);
    advance_by(&mut at3, 3);
    let mut at8 = smallest(4);
    advance_by(&mut at8, 8);
    cache.insert(3, 4, at3.clone());
    cache.insert(8, 4, at8.clone());

    let mut walked = cache.get(3, 4).expect("boundary 3 was just filed");
    advance_by(&mut walked, 5);
    assert_eq!(walked, cache.get(8, 4).expect("boundary 8 was just filed"));
    assert!(cache.get(5, 4).is_none());
    assert!(cache.get(3, 5).is_none());
}
