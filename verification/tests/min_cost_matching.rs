//! The matching scenarios of the assignment step, solved on real costs with
//! the Hungarian solver and read back by the library.

use deepsort_rs::assignment::{is_injective, split_assignment, AssignmentResult};
use ordered_float::OrderedFloat;
use pathfinding::kuhn_munkres::kuhn_munkres_min;
use pathfinding::matrix::Matrix;

const INFTY_COST: f64 = 1e5;

fn min_cost_matching(
    cost_matrix: &[Vec<f64>],
    max_distance: f64,
    track_indices: &[usize],
    detection_indices: &[usize],
) -> AssignmentResult {
    let n_rows = track_indices.len();
    let n_cols = detection_indices.len();
    let (assignment, exceeds) = if n_rows == 0 || n_cols == 0 {
        (vec![n_cols; n_rows], vec![false; n_rows])
    } else {
        let padded_cols = n_rows.max(n_cols);
        let matrix: Matrix<OrderedFloat<f64>> = Matrix::from_fn(n_rows, padded_cols, |(r, c)| {
            if c >= n_cols {
                OrderedFloat(INFTY_COST)
            } else if cost_matrix[r][c] > max_distance {
                OrderedFloat(max_distance + 1e-5)
            } else {
                OrderedFloat(cost_matrix[r][c])
            }
        });
        let (_, assignment) = kuhn_munkres_min(&matrix);
        let exceeds: Vec<bool> = assignment
            .iter()
            .enumerate()
            .map(|(r, &c)| c < n_cols && cost_matrix[r][c] > max_distance)
            .collect();
        (assignment, exceeds)
    };
    assert!(is_injective(&assignment, n_cols));
    split_assignment(
        &assignment,
        &exceeds,
        &track_indices.to_vec(),
        &detection_indices.to_vec(),
    )
}

/// Detections never retained by the assignment come before those retained
/// and then rejected on the cost threshold.
#[test]
fn unmatched_detections_put_never_assigned_before_cost_rejected() {
    let cost_matrix = vec![vec![0.90, 0.95]];
    let result = min_cost_matching(&cost_matrix, 0.5, &[7], &[10, 11]);

    assert!(result.matches.is_empty());
    assert_eq!(result.unmatched_detections, vec![11, 10]);
    assert_eq!(result.unmatched_tracks, vec![7]);
}

/// The same on the track side, with the transposed matrix.
#[test]
fn unmatched_tracks_put_never_assigned_before_cost_rejected() {
    let cost_matrix = vec![vec![0.90], vec![0.95]];
    let result = min_cost_matching(&cost_matrix, 0.5, &[7, 8], &[10]);

    assert!(result.matches.is_empty());
    assert_eq!(result.unmatched_tracks, vec![8, 7]);
    assert_eq!(result.unmatched_detections, vec![10]);
}

/// Under the threshold, the pairs are matched.
#[test]
fn pairs_under_the_threshold_are_matched() {
    let cost_matrix = vec![vec![0.1, 0.8], vec![0.8, 0.2]];
    let result = min_cost_matching(&cost_matrix, 0.5, &[3, 4], &[20, 21]);

    assert_eq!(result.matches, vec![(3, 20), (4, 21)]);
    assert!(result.unmatched_tracks.is_empty());
    assert!(result.unmatched_detections.is_empty());
}
