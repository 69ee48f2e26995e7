use deepsort_rs::track::TrackState;
use deepsort_rs::tracker::{NewTrack, TrackUpdate, Tracker, TrackerParams};

fn params(n_init: u32, max_age: u32, nn_budget: Option<usize>) -> TrackerParams {
    TrackerParams { max_age, n_init, nn_budget }
}

fn predict_all(tracker: &mut Tracker<u32, u32>) {
    let motions: Vec<u32> = tracker.tracks().iter().map(|t| t.motion + 1).collect();
    tracker.predict(motions);
}

#[test]
fn new_tracker_is_empty_and_numbers_from_one() {
    let tracker: Tracker<u32, u32> = Tracker::new(params(3, 30, Some(100)));
    assert!(tracker.tracks().is_empty());
    assert_eq!(tracker.next_id(), 1);
}

#[test]
fn new_tracks_are_numbered_in_detection_order() {
    let mut tracker: Tracker<u32, u32> = Tracker::new(params(3, 30, None));
    predict_all(&mut tracker);
    tracker.update(
        vec![],
        vec![],
        vec![NewTrack { motion: 10, feature: 100 }, NewTrack { motion: 20, feature: 200 }],
    );
    let ids: Vec<u64> = tracker.tracks().iter().map(|t| t.id).collect();
    assert_eq!(ids, vec![1, 2]);
    assert_eq!(tracker.next_id(), 3);
    assert!(tracker.tracks().iter().all(|t| t.state == TrackState::Tentative));
    assert_eq!(tracker.tracks()[1].motion, 20);
    assert!(tracker.samples(1).is_none());
}

#[test]
fn confirmed_track_hands_its_features_to_the_gallery() {
    let mut tracker: Tracker<u32, u32> = Tracker::new(params(2, 30, None));
    predict_all(&mut tracker);
    tracker.update(vec![], vec![], vec![NewTrack { motion: 0, feature: 7 }]);
    predict_all(&mut tracker);
    tracker.update(vec![TrackUpdate { track: 0, motion: 5, feature: 8 }], vec![], vec![]);
    let t = &tracker.tracks()[0];
    assert_eq!(t.state, TrackState::Confirmed);
    assert_eq!(t.motion, 5);
    assert_eq!(t.hits, 2);
    assert_eq!(t.age, 2);
    assert_eq!(t.features, vec![8]);
    assert_eq!(tracker.samples(1), Some(&vec![7, 8]));
}

#[test]
fn tentative_track_keeps_its_features() {
    let mut tracker: Tracker<u32, u32> = Tracker::new(params(3, 30, None));
    predict_all(&mut tracker);
    tracker.update(vec![], vec![], vec![NewTrack { motion: 0, feature: 7 }]);
    predict_all(&mut tracker);
    tracker.update(vec![TrackUpdate { track: 0, motion: 0, feature: 8 }], vec![], vec![]);
    let t = &tracker.tracks()[0];
    assert_eq!(t.state, TrackState::Tentative);
    assert_eq!(t.features, vec![7, 8]);
    assert!(tracker.samples(1).is_none());
}

#[test]
fn gallery_keeps_the_most_recent_budget() {
    let mut tracker: Tracker<u32, u32> = Tracker::new(params(1, 30, Some(2)));
    predict_all(&mut tracker);
    tracker.update(vec![], vec![], vec![NewTrack { motion: 0, feature: 1 }]);
    for f in 2..6 {
        predict_all(&mut tracker);
        tracker.update(vec![TrackUpdate { track: 0, motion: 0, feature: f }], vec![], vec![]);
    }
    assert_eq!(tracker.samples(1), Some(&vec![4, 5]));
    assert_eq!(tracker.tracks()[0].features, vec![5]);
}

#[test]
fn missed_tentative_track_is_dropped() {
    let mut tracker: Tracker<u32, u32> = Tracker::new(params(3, 30, None));
    predict_all(&mut tracker);
    tracker.update(
        vec![],
        vec![],
        vec![NewTrack { motion: 0, feature: 1 }, NewTrack { motion: 0, feature: 2 }],
    );
    predict_all(&mut tracker);
    tracker.update(vec![], vec![0], vec![NewTrack { motion: 0, feature: 3 }]);
    let ids: Vec<u64> = tracker.tracks().iter().map(|t| t.id).collect();
    assert_eq!(ids, vec![2, 3]);
}

#[test]
fn confirmed_track_is_dropped_after_max_age_and_leaves_the_gallery() {
    let mut tracker: Tracker<u32, u32> = Tracker::new(params(1, 1, None));
    predict_all(&mut tracker);
    tracker.update(vec![], vec![], vec![NewTrack { motion: 0, feature: 1 }]);
    predict_all(&mut tracker);
    tracker.update(vec![TrackUpdate { track: 0, motion: 0, feature: 2 }], vec![], vec![]);
    assert!(tracker.samples(1).is_some());
    predict_all(&mut tracker);
    tracker.update(vec![], vec![0], vec![]);
    assert_eq!(tracker.tracks().len(), 1);
    predict_all(&mut tracker);
    tracker.update(vec![], vec![0], vec![]);
    assert!(tracker.tracks().is_empty());
    assert!(tracker.samples(1).is_none());
}

#[test]
fn zero_budget_tracker_runs_while_no_track_is_confirmed() {
    let mut tracker: Tracker<u32, u32> = Tracker::new(params(3, 30, Some(0)));
    predict_all(&mut tracker);
    tracker.update(vec![], vec![], vec![NewTrack { motion: 0, feature: 7 }]);
    predict_all(&mut tracker);
    tracker.update(vec![TrackUpdate { track: 0, motion: 0, feature: 8 }], vec![], vec![]);
    let t = &tracker.tracks()[0];
    assert_eq!(t.state, TrackState::Tentative);
    assert_eq!(t.hits, 2);
    assert_eq!(t.features, vec![7, 8]);
    assert!(tracker.samples(1).is_none());
}

#[test]
fn age_counts_every_frame_since_creation() {
    let mut tracker: Tracker<u32, u32> = Tracker::new(params(1, 30, None));
    predict_all(&mut tracker);
    tracker.update(vec![], vec![], vec![NewTrack { motion: 0, feature: 1 }]);
    assert_eq!(tracker.tracks()[0].age, 1);
    predict_all(&mut tracker);
    tracker.update(vec![TrackUpdate { track: 0, motion: 0, feature: 2 }], vec![], vec![]);
    assert_eq!(tracker.tracks()[0].age, 2);
    predict_all(&mut tracker);
    tracker.update(vec![], vec![0], vec![NewTrack { motion: 0, feature: 3 }]);
    let ages: Vec<(u64, u32)> = tracker.tracks().iter().map(|t| (t.id, t.age)).collect();
    assert_eq!(ages, vec![(1, 3), (2, 1)]);
}

#[test]
fn same_frames_give_same_trackers() {
    let run = || {
        let mut tracker: Tracker<u32, u32> = Tracker::new(params(2, 1, Some(3)));
        predict_all(&mut tracker);
        tracker.update(
            vec![],
            vec![],
            vec![NewTrack { motion: 1, feature: 10 }, NewTrack { motion: 2, feature: 20 }],
        );
        predict_all(&mut tracker);
        tracker.update(vec![TrackUpdate { track: 1, motion: 5, feature: 21 }], vec![0], vec![]);
        predict_all(&mut tracker);
        tracker.update(vec![], vec![0], vec![NewTrack { motion: 9, feature: 30 }]);
        let tracks: Vec<(u64, u32, u32, u32, Vec<u32>)> = tracker
            .tracks()
            .iter()
            .map(|t| (t.id, t.age, t.hits, t.motion, t.features.clone()))
            .collect();
        (tracks, tracker.samples(2).cloned(), tracker.next_id())
    };
    let first = run();
    assert_eq!(first, run());
    assert_eq!(first.0, vec![(2, 3, 2, 6, vec![21]), (3, 1, 1, 9, vec![30])]);
    assert_eq!(first.1, Some(vec![20, 21, 21]));
    assert_eq!(first.2, 4);
}

#[test]
fn flush_appends_the_kept_feature_again() {
    let mut tracker: Tracker<u32, u32> = Tracker::new(params(1, 30, Some(2)));
    predict_all(&mut tracker);
    tracker.update(vec![], vec![], vec![NewTrack { motion: 0, feature: 1 }]);
    predict_all(&mut tracker);
    tracker.update(vec![TrackUpdate { track: 0, motion: 0, feature: 2 }], vec![], vec![]);
    assert_eq!(tracker.samples(1), Some(&vec![1, 2]));
    tracker.flush_features();
    assert_eq!(tracker.samples(1), Some(&vec![2, 2]));
    assert_eq!(tracker.tracks()[0].features, vec![2]);
    assert_eq!(tracker.tracks()[0].id, 1);
}
