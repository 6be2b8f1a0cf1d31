use tsp_sol::path_ops::reverse_slice;

#[test]
fn test_reverse_slice() {
    let mut data: Vec<usize> = vec![1, 2, 3, 4, 5, 6];
    reverse_slice(&mut data, 0, 2);
    assert_eq!(data, vec![3, 2, 1, 4, 5, 6]);
    reverse_slice(&mut data, 0, 2);
    assert_eq!(data, vec![1, 2, 3, 4, 5, 6]);

    reverse_slice(&mut data, 2, 0); // from 2 -> 0; this should wrap around
    assert_eq!(data, vec![3, 2, 1, 6, 5, 4]);
    reverse_slice(&mut data, 2, 0);
    assert_eq!(data, vec![1, 2, 3, 4, 5, 6]);

    reverse_slice(&mut data, 0, 1);
    assert_eq!(data, vec![2, 1, 3, 4, 5, 6]);
}

#[test]
fn reverse_slice_wrapping_is_an_involution() {
    let orig: Vec<usize> = vec![10, 11, 12, 13, 14, 15, 16];
    let mut data = orig.clone();
    reverse_slice(&mut data, 4, 1);
    // Stretch 4,5,6,0,1 holds 14,15,16,10,11; reversed in place.
    assert_eq!(data, vec![15, 14, 12, 13, 11, 10, 16]);
    reverse_slice(&mut data, 4, 1);
    assert_eq!(data, orig);
}
