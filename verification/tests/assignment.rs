use deepsort_rs::assignment::{is_injective, split_assignment};

/// One track, two detections: the solver gives column 0 (over the
/// threshold), column 1 is never given. The detection never given comes
/// first among the unmatched ones.
#[test]
fn split_lists_never_assigned_detections_before_rejected_ones() {
    let result = split_assignment(&vec![0], &vec![true], &vec![7], &vec![10, 11]);
    assert!(result.matches.is_empty());
    assert_eq!(result.unmatched_detections, vec![11, 10]);
    assert_eq!(result.unmatched_tracks, vec![7]);
}

/// Two tracks, one detection: the second row got a padding column, the
/// first got the detection over the threshold.
#[test]
fn split_lists_never_assigned_tracks_before_rejected_ones() {
    let result = split_assignment(&vec![0, 1], &vec![true, false], &vec![7, 8], &vec![10]);
    assert!(result.matches.is_empty());
    assert_eq!(result.unmatched_tracks, vec![8, 7]);
    assert_eq!(result.unmatched_detections, vec![10]);
}

/// Pairs under the threshold are matched.
#[test]
fn split_matches_pairs_under_the_threshold() {
    let result = split_assignment(&vec![0, 1], &vec![false, false], &vec![3, 4], &vec![20, 21]);
    assert_eq!(result.matches, vec![(3, 20), (4, 21)]);
    assert!(result.unmatched_tracks.is_empty());
    assert!(result.unmatched_detections.is_empty());
}

/// Crossed assignment: the indices come from the caller's lists.
#[test]
fn split_maps_rows_and_columns_to_indices() {
    let result = split_assignment(&vec![1, 0], &vec![false, true], &vec![5, 9], &vec![2, 4]);
    assert_eq!(result.matches, vec![(5, 4)]);
    assert_eq!(result.unmatched_tracks, vec![9]);
    assert_eq!(result.unmatched_detections, vec![2]);
}

/// Without tracks every detection stays unmatched, in order.
#[test]
fn split_without_tracks_leaves_all_detections() {
    let result = split_assignment(&vec![], &vec![], &vec![], &vec![3, 1, 2]);
    assert!(result.matches.is_empty());
    assert!(result.unmatched_tracks.is_empty());
    assert_eq!(result.unmatched_detections, vec![3, 1, 2]);
}

/// Without detections every row got a padding column.
#[test]
fn split_without_detections_leaves_all_tracks() {
    let result = split_assignment(&vec![0, 0], &vec![false, false], &vec![6, 2], &vec![]);
    assert!(result.matches.is_empty());
    assert_eq!(result.unmatched_tracks, vec![6, 2]);
    assert!(result.unmatched_detections.is_empty());
}

/// Mixed case: one match, one track rejected on cost, one never assigned.
#[test]
fn split_mixed_case_orders_each_list() {
    // rows: t=10 -> col 2 (ok), t=11 -> padding, t=12 -> col 0 (rejected)
    let result = split_assignment(
        &vec![2, 3, 0],
        &vec![false, false, true],
        &vec![10, 11, 12],
        &vec![100, 101, 102],
    );
    assert_eq!(result.matches, vec![(10, 102)]);
    assert_eq!(result.unmatched_tracks, vec![11, 12]);
    assert_eq!(result.unmatched_detections, vec![101, 100]);
}

#[test]
fn injective_assignments_are_recognised() {
    assert!(is_injective(&vec![0, 2, 1], 3));
    assert!(is_injective(&vec![0, 3, 3], 3));
    assert!(!is_injective(&vec![1, 0, 1], 3));
    assert!(is_injective(&vec![], 0));
}
