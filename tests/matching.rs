use lzbits::{find_distance_matches, matching_len, Matches};

#[test]
fn matching_len_stops_at_mismatch() {
    assert_eq!(matching_len(&[1, 2, 3, 1, 2, 3, 9], 3, 3, 10), 3);
}

#[test]
fn matching_len_caps() {
    let data = [7u8; 10];
    assert_eq!(matching_len(&data, 4, 1, 3), 3);
    assert_eq!(matching_len(&data, 4, 1, 100), 6);
    assert_eq!(matching_len(&data, 10, 2, 5), 0);
}

#[test]
fn matching_len_overlapping_run() {
    let data = [5u8, 5, 5, 5, 5, 5, 5, 6];
    assert_eq!(matching_len(&data, 1, 1, 100), 6);
}

#[test]
fn find_distance_matches_first_of_ties() {
    let input = [0u8; 6];
    assert_eq!(
        find_distance_matches(&input, 2, 4, 2, 10, 0, &[1, 2]),
        Some(Matches::new(4, 1))
    );
}

#[test]
fn find_distance_matches_none_below_threshold() {
    let input = [1u8, 2, 3, 4, 5, 6];
    assert_eq!(find_distance_matches(&input, 3, 3, 2, 10, 0, &[1, 2, 3]), None);
}

#[test]
fn find_distance_matches_prefers_longer() {
    let input = [1u8, 2, 3, 1, 2, 9, 1, 2, 3];
    assert_eq!(
        find_distance_matches(&input, 6, 3, 2, 10, 0, &[3, 6]),
        Some(Matches::new(3, 6))
    );
}

#[test]
fn find_distance_matches_stops_at_threshold_max() {
    let input = [1u8, 2, 1, 2, 1, 2];
    assert_eq!(
        find_distance_matches(&input, 4, 2, 1, 2, 0, &[2, 4]),
        Some(Matches::new(2, 2))
    );
}

#[test]
fn find_distance_matches_with_guaranteed_prefix() {
    let input = [4u8, 4, 4, 4, 4, 4, 4, 4];
    assert_eq!(
        find_distance_matches(&input, 2, 5, 3, 100, 2, &[1]),
        Some(Matches::new(5, 1))
    );
}

#[test]
fn find_distance_matches_no_distances() {
    let input = [1u8, 2];
    assert_eq!(find_distance_matches(&input, 1, 1, 1, 10, 0, &[]), None);
    assert_eq!(find_distance_matches(&input, 1, 1, 0, 10, 0, &[]), Some(Matches::zero()));
}

#[test]
fn matches_basics() {
    assert!(Matches::default().is_zero());
    assert!(!Matches::new(3, 1).is_zero());
    assert_eq!(Matches::default(), Matches::zero());
    assert_eq!(Matches::zero(), Matches::new(0, 0));
}
