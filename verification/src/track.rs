//! Lifecycle of a single track: tentative, then confirmed once it has been
//! matched often enough, then deleted when it is missed while still
//! tentative or has gone unmatched for longer than `max_age` frames.
//!
//! The motion estimate (`S`) and the appearance features (`F`) are carried
//! for the caller; this module only decides what happens to the counters,
//! the state and the list of features.
use vstd::prelude::*;

verus! {

/// Where a track stands in its lifecycle.
#[derive(Clone, Copy, PartialEq, Eq, Structural, Debug)]
pub enum TrackState {
    Tentative,
    Confirmed,
    Deleted,
}

/// Position of a state along the lifecycle; it never goes down.
pub open spec fn state_rank(s: TrackState) -> int {
    match s {
        TrackState::Tentative => 0,
        TrackState::Confirmed => 1,
        TrackState::Deleted => 2,
    }
}

/// The state after a successful match that brings the hit count to `hits`.
pub open spec fn state_after_hit(s: TrackState, hits: int, n_init: int) -> TrackState {
    if s == TrackState::Tentative && hits >= n_init {
        TrackState::Confirmed
    } else {
        s
    }
}

/// The state after a frame in which the track found no detection.
pub open spec fn state_after_miss(s: TrackState, time_since_update: int, max_age: int) -> TrackState {
    if s == TrackState::Tentative || time_since_update > max_age {
        TrackState::Deleted
    } else {
        s
    }
}

/// A tracked object. `motion` is the caller's motion estimate and
/// `features` the appearance features gathered since they were last
/// handed to the tracker's gallery.
pub struct Track<S, F> {
    pub id: u64,
    pub motion: S,
    pub state: TrackState,
    pub hits: u32,
    pub age: u32,
    pub time_since_update: u32,
    pub features: Vec<F>,
    /// Matches needed for a tentative track to become confirmed.
    pub n_init: u32,
    /// Frames a confirmed track may go unmatched before it is deleted.
    pub max_age: u32,
}

/// Abstract value of a track, with its features as a sequence.
pub struct TrackView<S, F> {
    pub id: u64,
    pub motion: S,
    pub state: TrackState,
    pub hits: u32,
    pub age: u32,
    pub time_since_update: u32,
    pub features: Seq<F>,
    pub n_init: u32,
    pub max_age: u32,
}

impl<S, F> View for Track<S, F> {
    type V = TrackView<S, F>;

    open spec fn view(&self) -> TrackView<S, F> {
        TrackView {
            id: self.id,
            motion: self.motion,
            state: self.state,
            hits: self.hits,
            age: self.age,
            time_since_update: self.time_since_update,
            features: self.features@,
            n_init: self.n_init,
            max_age: self.max_age,
        }
    }
}

impl<S, F> TrackView<S, F> {
    /// The counters are consistent: a track is never unmatched for as
    /// many frames as it has existed.
    pub open spec fn wf(self) -> bool {
        self.time_since_update < self.age
    }

    /// The view of a freshly created track.
    pub open spec fn initiated(id: u64, motion: S, feature: F, n_init: u32, max_age: u32) -> Self {
        TrackView {
            id,
            motion,
            state: TrackState::Tentative,
            hits: 1,
            age: 1,
            time_since_update: 0,
            features: seq![feature],
            n_init,
            max_age,
        }
    }

    /// The view after a prediction step that produced `motion`.
    pub open spec fn predicted(self, motion: S) -> Self {
        TrackView {
            motion,
            age: (self.age + 1) as u32,
            time_since_update: (self.time_since_update + 1) as u32,
            ..self
        }
    }

    /// The view after a match that produced `motion` and brought `feature`.
    pub open spec fn hit(self, motion: S, feature: F) -> Self {
        TrackView {
            motion,
            features: self.features.push(feature),
            hits: (self.hits + 1) as u32,
            time_since_update: 0,
            state: state_after_hit(self.state, self.hits + 1, self.n_init as int),
            ..self
        }
    }

    /// The view after a frame without a match.
    pub open spec fn missed(self) -> Self {
        TrackView {
            state: state_after_miss(self.state, self.time_since_update as int, self.max_age as int),
            ..self
        }
    }
}

impl<S, F> Track<S, F> {
    /// A new tentative track seen once, holding its first feature.
    pub fn new(id: u64, motion: S, feature: F, n_init: u32, max_age: u32) -> (track: Self)
        ensures
            track@ == TrackView::initiated(id, motion, feature, n_init, max_age),
            track@.wf(),
    {
        let mut features = Vec::new();
        features.push(feature);
        Track {
            id,
            motion,
            state: TrackState::Tentative,
            hits: 1,
            age: 1,
            time_since_update: 0,
            features,
            n_init,
            max_age,
        }
    }

    /// Advances the track by one frame with the predicted `motion`.
    pub fn predict(&mut self, motion: S)
        requires
            old(self)@.wf(),
            old(self)@.age < u32::MAX,
        ensures
            final(self)@ == old(self)@.predicted(motion),
            final(self)@.wf(),
            final(self).motion == motion,
            final(self).age == old(self).age + 1,
            final(self).time_since_update == old(self).time_since_update + 1,
            final(self).hits == old(self).hits,
            final(self).state == old(self).state,
            final(self).id == old(self).id,
            final(self)@.features == old(self)@.features,
    {
        self.motion = motion;
        self.age = self.age + 1;
        self.time_since_update = self.time_since_update + 1;
    }

    /// Records a match: the corrected `motion` and the detection's
    /// `feature`. A tentative track becomes confirmed once its hits reach
    /// `n_init`.
    pub fn update(&mut self, motion: S, feature: F)
        requires
            old(self)@.wf(),
            old(self)@.hits < u32::MAX,
        ensures
            final(self)@ == old(self)@.hit(motion, feature),
            final(self)@.wf(),
            final(self).motion == motion,
            final(self).time_since_update == 0,
            final(self).hits == old(self).hits + 1,
            final(self).age == old(self).age,
            final(self).id == old(self).id,
            final(self)@.features == old(self)@.features.push(feature),
            final(self).state == TrackState::Confirmed <==> (old(self).state == TrackState::Confirmed
                || (old(self).state == TrackState::Tentative && old(self).hits + 1 >= old(self).n_init)),
            final(self).state == TrackState::Deleted <==> old(self).state == TrackState::Deleted,
    {
        self.motion = motion;
        self.features.push(feature);
        self.hits = self.hits + 1;
        self.time_since_update = 0;
        if self.state == TrackState::Tentative && self.hits >= self.n_init {
            self.state = TrackState::Confirmed;
        }
    }

    /// Records a frame without a match: a tentative track is deleted, and
    /// so is one unmatched for more than `max_age` frames.
    pub fn mark_missed(&mut self)
        ensures
            final(self)@ == old(self)@.missed(),
    {
        if self.state == TrackState::Tentative || self.time_since_update > self.max_age {
            self.state = TrackState::Deleted;
        }
    }

    pub fn is_confirmed(&self) -> (b: bool)
        ensures
            b == (self@.state == TrackState::Confirmed),
    {
        self.state == TrackState::Confirmed
    }

    pub fn is_deleted(&self) -> (b: bool)
        ensures
            b == (self@.state == TrackState::Deleted),
    {
        self.state == TrackState::Deleted
    }
}

/// A track only moves forward along tentative, confirmed, deleted: no
/// step of its lifecycle lowers its state, and a deleted track stays
/// deleted whatever happens to it.
pub proof fn lemma_lifecycle_moves_forward<S, F>(t: TrackView<S, F>, motion: S, feature: F)
    ensures
        state_rank(t.predicted(motion).state) == state_rank(t.state),
        state_rank(t.hit(motion, feature).state) >= state_rank(t.state),
        state_rank(t.missed().state) >= state_rank(t.state),
        t.state == TrackState::Deleted ==> t.hit(motion, feature).state == TrackState::Deleted
            && t.missed().state == TrackState::Deleted,
{
}

/// A prediction advances the track by exactly one frame: one more frame
/// of age and one more frame since its last match, with the new motion;
/// nothing else changes.
pub proof fn lemma_predict_counts_one_frame<S, F>(t: TrackView<S, F>, motion: S)
    requires
        t.age < u32::MAX,
        t.wf(),
    ensures
        t.predicted(motion).age == t.age + 1,
        t.predicted(motion).time_since_update == t.time_since_update + 1,
        t.predicted(motion).motion == motion,
        t.predicted(motion).hits == t.hits,
        t.predicted(motion).state == t.state,
        t.predicted(motion).id == t.id,
        t.predicted(motion).features == t.features,
        t.predicted(motion).wf(),
{
}

/// A match resets the count of frames since the last match to zero,
/// whatever it was, counts one more hit, keeps the age, takes the new
/// motion and adds the detection's feature; a tentative track is confirmed
/// once its hits reach `n_init`, and no other state changes.
pub proof fn lemma_hit_resets_misses<S, F>(t: TrackView<S, F>, motion: S, feature: F)
    requires
        t.hits < u32::MAX,
    ensures
        t.hit(motion, feature).time_since_update == 0,
        t.hit(motion, feature).hits == t.hits + 1,
        t.hit(motion, feature).age == t.age,
        t.hit(motion, feature).motion == motion,
        t.hit(motion, feature).id == t.id,
        t.hit(motion, feature).features == t.features.push(feature),
        t.hit(motion, feature).state == TrackState::Confirmed <==> (t.state == TrackState::Confirmed
            || (t.state == TrackState::Tentative && t.hits + 1 >= t.n_init)),
        t.hit(motion, feature).state == TrackState::Deleted <==> t.state == TrackState::Deleted,
{
}

/// One frame after a match, whatever came before it, the track has gone
/// exactly one frame without a match; every further prediction adds one.
pub proof fn lemma_frames_since_match<S, F>(t: TrackView<S, F>, motion: S, feature: F, next: S)
    requires
        t.hits < u32::MAX,
        t.age < u32::MAX,
    ensures
        t.hit(motion, feature).predicted(next).time_since_update == 1,
        t.hit(motion, feature).predicted(next).age == t.age + 1,
{
}

/// A confirmed track is only deleted after going unmatched for more than
/// `max_age` frames, while a tentative track is deleted at its first miss.
pub proof fn lemma_miss_deletes<S, F>(t: TrackView<S, F>)
    ensures
        t.state == TrackState::Tentative ==> t.missed().state == TrackState::Deleted,
        t.state == TrackState::Confirmed ==> (t.missed().state == TrackState::Deleted
            <==> t.time_since_update > t.max_age),
{
}

} // verus!
