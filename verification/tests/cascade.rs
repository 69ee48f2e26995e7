use deepsort_rs::cascade::{Association, CostKind};
use deepsort_rs::track::{Track, TrackState};

fn track(id: u64, state: TrackState, time_since_update: u32) -> Track<(), ()> {
    let mut t = Track::new(id, (), (), 3, 30);
    t.state = state;
    t.age = time_since_update + 1;
    t.time_since_update = time_since_update;
    t
}

/// The cascade visits the confirmed tracks by age, most recent first, then
/// the overlap pass takes the unconfirmed tracks.
#[test]
fn cascade_goes_by_age_then_overlap() {
    let tracks = vec![
        track(1, TrackState::Confirmed, 1),
        track(2, TrackState::Confirmed, 2),
        track(3, TrackState::Tentative, 1),
        track(4, TrackState::Confirmed, 3),
    ];
    let mut a = Association::new(&tracks, 3, 30);

    let r = a.next_request().unwrap();
    assert_eq!(r.kind, CostKind::Appearance);
    assert_eq!(r.tracks, vec![0]);
    assert_eq!(r.detections, vec![0, 1, 2]);
    assert_eq!(r.recent, vec![true]);
    a.resolve(&vec![1], &vec![false]);

    let r = a.next_request().unwrap();
    assert_eq!(r.kind, CostKind::Appearance);
    assert_eq!(r.tracks, vec![1]);
    assert_eq!(r.detections, vec![0, 2]);
    assert_eq!(r.recent, vec![false]);
    a.resolve(&vec![0], &vec![true]);

    let r = a.next_request().unwrap();
    assert_eq!(r.kind, CostKind::Appearance);
    assert_eq!(r.tracks, vec![3]);
    assert_eq!(r.detections, vec![2, 0]);
    a.resolve(&vec![1], &vec![false]);

    let r = a.next_request().unwrap();
    assert_eq!(r.kind, CostKind::Iou);
    assert_eq!(r.tracks, vec![2]);
    assert_eq!(r.detections, vec![2]);
    assert_eq!(r.recent, vec![true]);
    a.resolve(&vec![0], &vec![false]);

    assert!(a.next_request().is_none());
    let out = a.output();
    assert_eq!(out.matches, vec![(0, 1), (3, 0), (2, 2)]);
    assert_eq!(out.unmatched_tracks, vec![1]);
    assert!(out.unmatched_detections.is_empty());
}

/// Without detections the cascade is skipped; confirmed tracks missed once
/// still go to the overlap pass, the others are left over.
#[test]
fn no_detections_goes_straight_to_overlap() {
    let tracks = vec![
        track(1, TrackState::Confirmed, 1),
        track(2, TrackState::Confirmed, 5),
        track(3, TrackState::Tentative, 1),
    ];
    let mut a = Association::new(&tracks, 0, 30);
    let r = a.next_request().unwrap();
    assert_eq!(r.kind, CostKind::Iou);
    assert_eq!(r.tracks, vec![2, 0]);
    assert!(r.detections.is_empty());
    assert_eq!(r.recent, vec![true, true]);
    a.resolve(&vec![0, 0], &vec![false, false]);
    assert!(a.next_request().is_none());
    let out = a.output();
    assert!(out.matches.is_empty());
    assert_eq!(out.unmatched_tracks, vec![1, 2, 0]);
    assert!(out.unmatched_detections.is_empty());
}

/// A track older than the cascade depth is never offered by appearance.
#[test]
fn cascade_depth_bounds_the_levels() {
    let tracks = vec![track(1, TrackState::Confirmed, 4)];
    let mut a = Association::new(&tracks, 1, 2);
    let r = a.next_request().unwrap();
    assert_eq!(r.kind, CostKind::Iou);
    assert!(r.tracks.is_empty());
    assert_eq!(r.detections, vec![0]);
    a.resolve(&vec![], &vec![]);
    let out = a.output();
    assert_eq!(out.unmatched_tracks, vec![0]);
    assert_eq!(out.unmatched_detections, vec![0]);
}
