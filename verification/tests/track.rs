use deepsort_rs::track::{Track, TrackState};

#[test]
fn new_track_is_tentative_with_one_feature() {
    let t: Track<(), u32> = Track::new(4, (), 9, 3, 30);
    assert_eq!(t.id, 4);
    assert_eq!(t.state, TrackState::Tentative);
    assert_eq!(t.hits, 1);
    assert_eq!(t.age, 1);
    assert_eq!(t.time_since_update, 0);
    assert_eq!(t.features, vec![9]);
    assert_eq!(t.n_init, 3);
    assert_eq!(t.max_age, 30);
    assert!(!t.is_confirmed());
    assert!(!t.is_deleted());
}

#[test]
fn predict_ages_the_track_and_stores_the_motion() {
    let mut t: Track<i32, u32> = Track::new(1, 0, 9, 3, 30);
    t.predict(5);
    assert_eq!(t.motion, 5);
    assert_eq!(t.age, 2);
    assert_eq!(t.time_since_update, 1);
    assert_eq!(t.hits, 1);
}

#[test]
fn track_is_confirmed_when_hits_reach_n_init() {
    let mut t: Track<(), u32> = Track::new(1, (), 1, 3, 30);
    t.predict(());
    t.update((), 2);
    assert_eq!(t.hits, 2);
    assert_eq!(t.state, TrackState::Tentative);
    t.predict(());
    t.update((), 3);
    assert_eq!(t.hits, 3);
    assert_eq!(t.time_since_update, 0);
    assert!(t.is_confirmed());
    assert_eq!(t.features, vec![1, 2, 3]);
}

#[test]
fn missed_tentative_track_is_deleted() {
    let mut t: Track<(), u32> = Track::new(1, (), 1, 3, 30);
    t.predict(());
    t.mark_missed();
    assert!(t.is_deleted());
}

#[test]
fn confirmed_track_survives_misses_up_to_max_age() {
    let mut t: Track<(), u32> = Track::new(1, (), 1, 1, 2);
    t.predict(());
    t.update((), 2);
    assert!(t.is_confirmed());
    for _ in 0..2 {
        t.predict(());
        t.mark_missed();
        assert!(t.is_confirmed());
    }
    t.predict(());
    assert_eq!(t.time_since_update, 3);
    t.mark_missed();
    assert!(t.is_deleted());
}

#[test]
fn deleted_track_stays_deleted() {
    let mut t: Track<(), u32> = Track::new(1, (), 1, 1, 30);
    t.predict(());
    t.mark_missed();
    assert!(t.is_deleted());
    t.update((), 2);
    assert!(t.is_deleted());
    t.mark_missed();
    assert!(t.is_deleted());
}
