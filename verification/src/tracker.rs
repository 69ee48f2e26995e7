//! Per-frame track management: advancing every track, applying the
//! outcome of association (matches, misses, new tracks), dropping deleted
//! tracks, and keeping the appearance gallery of the confirmed tracks,
//! bounded by `nn_budget`.
//!
//! A tentative track keeps its features to itself; only once confirmed are
//! they handed to the gallery, which then keeps the most recent
//! `nn_budget` of them while the track keeps just its latest one.
use std::collections::HashMap;
use vstd::prelude::*;
use crate::assignment::{
    from_kept_row, lemma_pick_all, lemma_pick_elements, lemma_pick_increasing, lemma_pick_map, pick,
};
use crate::track::{Track, TrackState, TrackView};

verus! {

broadcast use vstd::std_specs::hash::group_hash_axioms;

/// The integer parameters of the tracker.
#[derive(PartialEq, Eq, Structural)]
pub struct TrackerParams {
    /// Frames a confirmed track may go unmatched before it is deleted.
    pub max_age: u32,
    /// Matches needed for a tentative track to become confirmed.
    pub n_init: u32,
    /// How many features the gallery keeps per track (`None`: no bound).
    pub nn_budget: Option<usize>,
}

/// A track matched in this frame: its index, the corrected motion and the
/// matched detection's feature.
pub struct TrackUpdate<S, F> {
    pub track: usize,
    pub motion: S,
    pub feature: F,
}

/// A detection that starts a new track, with its initial motion.
pub struct NewTrack<S, F> {
    pub motion: S,
    pub feature: F,
}

/// The tracks of a video, in creation order, and the appearance gallery of
/// the confirmed ones. `S` is the motion estimate a track carries and `F`
/// an appearance feature.
pub struct Tracker<S, F> {
    tracks: Vec<Track<S, F>>,
    feature_bank: HashMap<u64, Vec<F>>,
    next_id: u64,
    params: TrackerParams,
}

/// Abstract value of the tracker.
pub struct TrackerView<S, F> {
    pub tracks: Seq<TrackView<S, F>>,
    pub bank: Map<u64, Seq<F>>,
    pub next_id: u64,
    pub max_age: u32,
    pub n_init: u32,
    pub nn_budget: Option<usize>,
}

/// The views of a list of tracks.
pub open spec fn views<S, F>(tracks: Seq<Track<S, F>>) -> Seq<TrackView<S, F>> {
    tracks.map_values(|t: Track<S, F>| t@)
}

impl<S, F> View for Tracker<S, F> {
    type V = TrackerView<S, F>;

    closed spec fn view(&self) -> TrackerView<S, F> {
        TrackerView {
            tracks: views(self.tracks@),
            bank: self.feature_bank@.map_values(|v: Vec<F>| v@),
            next_id: self.next_id,
            max_age: self.params.max_age,
            n_init: self.params.n_init,
            nn_budget: self.params.nn_budget,
        }
    }
}

/// The features a gallery keeps: the last `budget` of them.
pub open spec fn within_budget<F>(features: Seq<F>, budget: Option<usize>) -> Seq<F> {
    match budget {
        Some(b) => if features.len() > b {
            features.skip(features.len() - b)
        } else {
            features
        },
        None => features,
    }
}


/// The tracks after the first `k` matched updates, applied in order.
pub open spec fn apply_hits<S, F>(
    tracks: Seq<TrackView<S, F>>,
    matched: Seq<TrackUpdate<S, F>>,
    k: nat,
) -> Seq<TrackView<S, F>>
    decreases k,
{
    if k == 0 {
        tracks
    } else {
        let prev = apply_hits(tracks, matched, (k - 1) as nat);
        let u = matched[k - 1];
        prev.update(u.track as int, prev[u.track as int].hit(u.motion, u.feature))
    }
}

/// The tracks after the first `k` misses, applied in order.
pub open spec fn apply_misses<S, F>(
    tracks: Seq<TrackView<S, F>>,
    missed: Seq<usize>,
    k: nat,
) -> Seq<TrackView<S, F>>
    decreases k,
{
    if k == 0 {
        tracks
    } else {
        let prev = apply_misses(tracks, missed, (k - 1) as nat);
        prev.update(missed[k - 1] as int, prev[missed[k - 1] as int].missed())
    }
}

/// New tracks, one per entry of `created`, numbered from `first_id`.
pub open spec fn initiated_tracks<S, F>(
    created: Seq<NewTrack<S, F>>,
    first_id: u64,
    n_init: u32,
    max_age: u32,
) -> Seq<TrackView<S, F>> {
    Seq::new(
        created.len(),
        |i: int|
            TrackView::initiated(
                (first_id + i) as u64,
                created[i].motion,
                created[i].feature,
                n_init,
                max_age,
            ),
    )
}

/// `after` is the track `t` once its features have been handed to the
/// gallery of `v_after`: it keeps a single copy of the latest of them.
pub open spec fn flushed<S, F: Clone>(
    v_before: TrackerView<S, F>,
    v_after: TrackerView<S, F>,
    t: TrackView<S, F>,
    after: TrackView<S, F>,
) -> bool {
    &&& v_after.bank.contains_key(t.id)
    &&& v_after.bank[t.id] == v_before.gallery_after(t)
    &&& after == TrackView { features: after.features, ..t }
    &&& after.features.len() == 1
    &&& cloned(v_after.bank[t.id].last(), after.features[0])
}

/// The tracks among the first `k` that are not deleted, in order.
pub open spec fn live_prefix<S, F>(tracks: Seq<TrackView<S, F>>, k: nat) -> Seq<TrackView<S, F>> {
    pick(|i: int| tracks[i], |i: int| tracks[i].state != TrackState::Deleted, k)
}

/// The tracks that are not deleted, in order.
pub open spec fn live_tracks<S, F>(tracks: Seq<TrackView<S, F>>) -> Seq<TrackView<S, F>> {
    live_prefix(tracks, tracks.len())
}


/// The ids increase along the list: tracks are listed in creation order.
pub open spec fn ids_increase<S, F>(tracks: Seq<TrackView<S, F>>) -> bool {
    forall|i: int, j: int| 0 <= i < j < tracks.len() ==> (#[trigger] tracks[i]).id < (
    #[trigger] tracks[j]).id
}

/// `t` is one of the non-deleted tracks of the list.
pub open spec fn is_live_of<S, F>(tracks: Seq<TrackView<S, F>>, t: TrackView<S, F>) -> bool {
    exists|r: int|
        0 <= r < tracks.len() && #[trigger] tracks[r] == t && tracks[r].state != TrackState::Deleted
}

/// Every live track is a non-deleted track of the list, and live tracks
/// keep the order of the ids when they increase along the list.
pub proof fn lemma_live_tracks<S, F>(tracks: Seq<TrackView<S, F>>)
    ensures
        forall|a: int|
            0 <= a < live_tracks(tracks).len() ==> is_live_of(tracks, #[trigger] live_tracks(tracks)[a]),
        ids_increase(tracks) ==> ids_increase(live_tracks(tracks)),
{
    let f = |i: int| tracks[i];
    let keep = |i: int| tracks[i].state != TrackState::Deleted;
    let n = tracks.len();
    let kept = live_tracks(tracks);
    assert(kept == pick(f, keep, n));
    lemma_pick_elements(f, keep, n);
    assert forall|a: int| 0 <= a < kept.len() implies is_live_of(tracks, #[trigger] kept[a]) by {
        assert(from_kept_row(f, keep, n, pick(f, keep, n)[a]));
        let r = choose|r: int| 0 <= r < n && #[trigger] keep(r) && f(r) == pick(f, keep, n)[a];
        assert(tracks[r] == kept[a]);
    }
    if ids_increase(tracks) {
        let g = |t: TrackView<S, F>| t.id;
        let h = |i: int| tracks[i].id;
        lemma_pick_map(f, g, h, keep, n);
        lemma_pick_increasing(h, keep, n);
        assert forall|a: int, b: int| 0 <= a < b < kept.len() implies (#[trigger] kept[a]).id < (
        #[trigger] kept[b]).id by {
            assert(pick(f, keep, n).map_values(g)[a] == kept[a].id);
            assert(pick(f, keep, n).map_values(g)[b] == kept[b].id);
        }
    }
}

impl<S, F> TrackerView<S, F> {
    /// What the tracker keeps true between frames.
    pub open spec fn inv(self) -> bool {
        &&& self.nn_budget == Some(0usize) ==> forall|i: int|
            0 <= i < self.tracks.len() ==> (#[trigger] self.tracks[i]).state != TrackState::Confirmed
        &&& forall|i: int| 0 <= i < self.tracks.len() ==> #[trigger] self.tracks[i].wf()
        &&& forall|i: int|
            0 <= i < self.tracks.len() ==> (#[trigger] self.tracks[i]).state != TrackState::Deleted
        &&& forall|i: int|
            0 <= i < self.tracks.len() ==> (#[trigger] self.tracks[i]).n_init == self.n_init
                && self.tracks[i].max_age == self.max_age
        &&& forall|i: int| 0 <= i < self.tracks.len() ==> (#[trigger] self.tracks[i]).id < self.next_id
        &&& ids_increase(self.tracks)
        &&& forall|id: u64| #[trigger]
            self.bank.contains_key(id) ==> self.is_confirmed_id(id) && 1 <= self.bank[id].len()
                && (self.nn_budget matches Some(b) ==> self.bank[id].len() <= b)
        &&& forall|i: int|
            0 <= i < self.tracks.len() && (#[trigger] self.tracks[i]).state
                == TrackState::Confirmed ==> self.bank.contains_key(self.tracks[i].id)
    }

    /// The tracks of a frame before deleted ones are dropped: the matched
    /// updates, then the misses, then the new tracks.
    pub open spec fn frame_tracks(
        self,
        matched: Seq<TrackUpdate<S, F>>,
        missed: Seq<usize>,
        created: Seq<NewTrack<S, F>>,
    ) -> Seq<TrackView<S, F>> {
        apply_misses(apply_hits(self.tracks, matched, matched.len()), missed, missed.len())
            + initiated_tracks(created, self.next_id, self.n_init, self.max_age)
    }

    /// What the gallery holds for `id` (nothing if it has no entry).
    pub open spec fn bank_entry(self, id: u64) -> Seq<F> {
        if self.bank.contains_key(id) {
            self.bank[id]
        } else {
            Seq::empty()
        }
    }

    /// The gallery entry of the confirmed track `t` once its features are
    /// handed over: the most recent `nn_budget` of them.
    pub open spec fn gallery_after(self, t: TrackView<S, F>) -> Seq<F> {
        within_budget(self.bank_entry(t.id) + t.features, self.nn_budget)
    }

    /// Some confirmed track carries `id`.
    pub open spec fn is_confirmed_id(self, id: u64) -> bool {
        exists|i: int|
            0 <= i < self.tracks.len() && #[trigger] self.tracks[i].id == id
                && self.tracks[i].state == TrackState::Confirmed
    }
}

impl<S, F> TrackerView<S, F> {
    /// The tracker after a prediction step that gave track `i` the motion
    /// `motions[i]`.
    pub open spec fn after_predict(self, motions: Seq<S>) -> Self {
        TrackerView {
            tracks: Seq::new(self.tracks.len(), |i: int| self.tracks[i].predicted(motions[i])),
            ..self
        }
    }

    /// A prediction step with these motions fits: one per track, and no
    /// age at its maximum.
    pub open spec fn predict_allowed(self, motions: Seq<S>) -> bool {
        &&& motions.len() == self.tracks.len()
        &&& forall|i: int| 0 <= i < self.tracks.len() ==> #[trigger] self.tracks[i].age < u32::MAX
    }

    /// An update with this outcome of association fits: the matched tracks
    /// are distinct tracks whose hit count can grow, the missed ones are
    /// tracks, the new ids fit, and a track confirmed now gets a gallery
    /// that keeps at least one feature.
    pub open spec fn update_allowed(
        self,
        matched: Seq<TrackUpdate<S, F>>,
        missed: Seq<usize>,
        created: Seq<NewTrack<S, F>>,
    ) -> bool {
        &&& forall|k: int| 0 <= k < matched.len() ==> (#[trigger] matched[k]).track < self.tracks.len()
        &&& forall|k1: int, k2: int|
            0 <= k1 < matched.len() && 0 <= k2 < matched.len() && k1 != k2 ==> (
            #[trigger] matched[k1]).track != (#[trigger] matched[k2]).track
        &&& forall|k: int|
            0 <= k < matched.len() ==> self.tracks[(#[trigger] matched[k]).track as int].hits < u32::MAX
        &&& forall|k: int| 0 <= k < missed.len() ==> #[trigger] missed[k] < self.tracks.len()
        &&& self.next_id + created.len() <= u64::MAX
        &&& self.nn_budget == Some(0usize) ==> forall|k: int|
            0 <= k < matched.len() ==> self.tracks[(#[trigger] matched[k]).track as int].hits + 1
                < self.n_init
    }
}

impl<S, F: Clone> TrackerView<S, F> {
    /// `next` is this tracker after an update with this outcome of
    /// association: the frame's tracks without the deleted ones, the
    /// confirmed ones having handed their features to the gallery.
    pub open spec fn updated(
        self,
        next: Self,
        matched: Seq<TrackUpdate<S, F>>,
        missed: Seq<usize>,
        created: Seq<NewTrack<S, F>>,
    ) -> bool {
        let kept = live_tracks(self.frame_tracks(matched, missed, created));
        &&& next.inv()
        &&& next.tracks.len() == kept.len()
        &&& forall|j: int|
            0 <= j < next.tracks.len() && (#[trigger] kept[j]).state != TrackState::Confirmed
                ==> next.tracks[j] == kept[j]
        &&& forall|j: int|
            0 <= j < next.tracks.len() && (#[trigger] kept[j]).state == TrackState::Confirmed
                ==> flushed(self, next, kept[j], next.tracks[j])
        &&& next.next_id == self.next_id + created.len()
        &&& next.max_age == self.max_age
        &&& next.n_init == self.n_init
        &&& next.nn_budget == self.nn_budget
    }
}

impl<S, F> Tracker<S, F> {
    pub open spec fn wf(&self) -> bool {
        self@.inv()
    }

    /// An empty tracker; the first track gets id 1.
    pub fn new(params: TrackerParams) -> (tracker: Self)
        ensures
            tracker.wf(),
            tracker@.tracks.len() == 0,
            tracker@.bank.dom().is_empty(),
            tracker@.next_id == 1,
            tracker@.max_age == params.max_age,
            tracker@.n_init == params.n_init,
            tracker@.nn_budget == params.nn_budget,
    {
        let tracker = Tracker {
            tracks: Vec::new(),
            feature_bank: HashMap::new(),
            next_id: 1,
            params,
        };
        assert(tracker@.tracks =~= Seq::empty());
        assert(tracker@.bank =~= Map::empty());
        tracker
    }

    /// The current tracks, in creation order.
    pub fn tracks(&self) -> (tracks: &Vec<Track<S, F>>)
        ensures
            views(tracks@) == self@.tracks,
    {
        &self.tracks
    }

    /// The gallery of features kept for the confirmed track `id`.
    pub fn samples(&self, id: u64) -> (samples: Option<&Vec<F>>)
        ensures
            match samples {
                Some(v) => self@.bank.contains_key(id) && v@ == self@.bank[id],
                None => !self@.bank.contains_key(id),
            },
    {
        self.feature_bank.get(&id)
    }

    /// The id the next new track will get.
    pub fn next_id(&self) -> (id: u64)
        ensures
            id == self@.next_id,
    {
        self.next_id
    }

    /// Advances every track by one frame; `motions[i]` is the predicted
    /// motion of track `i`.
    pub fn predict(&mut self, motions: Vec<S>)
        requires
            old(self).wf(),
            old(self)@.predict_allowed(motions@),
        ensures
            final(self).wf(),
            final(self)@ == old(self)@.after_predict(motions@),
            final(self)@.tracks.len() == old(self)@.tracks.len(),
            forall|i: int|
                0 <= i < old(self)@.tracks.len() ==> (#[trigger] final(self)@.tracks[i]).motion
                    == motions@[i] && final(self)@.tracks[i].id == old(self)@.tracks[i].id
                    && final(self)@.tracks[i].age == old(self)@.tracks[i].age + 1
                    && final(self)@.tracks[i].time_since_update == old(self)@.tracks[i].time_since_update
                    + 1 && final(self)@.tracks[i].hits == old(self)@.tracks[i].hits
                    && final(self)@.tracks[i].state == old(self)@.tracks[i].state
                    && final(self)@.tracks[i].features == old(self)@.tracks[i].features,
            final(self)@.bank == old(self)@.bank,
            final(self)@.next_id == old(self)@.next_id,
    {
        let ghost orig = motions@;
        let ghost old_tracks = self.tracks@;
        let mut motions = motions;
        let n = self.tracks.len();
        let mut i: usize = 0;
        proof {
            assert forall|j: int| 0 <= j < n implies old_tracks[j]@.wf() && old_tracks[j]@.age
                < u32::MAX by {
                assert(old(self)@.tracks[j] == old_tracks[j]@);
                assert(old(self)@.tracks[j].wf());
            }
        }
        while i < n
            invariant
                n == self.tracks.len(),
                n == old_tracks.len(),
                orig.len() == n,
                i <= n,
                motions.len() == n - i,
                forall|j: int| 0 <= j < n - i ==> motions@[j] == orig[j + i],
                forall|j: int| 0 <= j < i ==> #[trigger] self.tracks@[j]@ == old_tracks[j]@.predicted(orig[j]),
                forall|j: int| i <= j < n ==> #[trigger] self.tracks@[j] == old_tracks[j],
                forall|j: int| 0 <= j < n ==> old_tracks[j]@.wf() && old_tracks[j]@.age < u32::MAX,
                self.feature_bank == old(self).feature_bank,
                self.next_id == old(self).next_id,
                self.params == old(self).params,
            decreases n - i,
        {
            let m = motions.remove(0);
            self.tracks[i].predict(m);
            i += 1;
        }
        proof {
            let before = old(self)@;
            let after = self@;
            assert(after.tracks.len() == n);
            assert forall|j: int| 0 <= j < n implies #[trigger] after.tracks[j]
                == before.tracks[j].predicted(orig[j]) by {
                assert(after.tracks[j] == self.tracks@[j]@);
            }
            assert(after.bank == before.bank);
            assert forall|id: u64| after.is_confirmed_id(id) <==> before.is_confirmed_id(id) by {
                if after.is_confirmed_id(id) {
                    let j = choose|j: int| 0 <= j < after.tracks.len() && #[trigger] after.tracks[j].id == id
                        && after.tracks[j].state == TrackState::Confirmed;
                    assert(before.tracks[j].id == id);
                }
                if before.is_confirmed_id(id) {
                    let j = choose|j: int| 0 <= j < before.tracks.len() && #[trigger] before.tracks[j].id == id
                        && before.tracks[j].state == TrackState::Confirmed;
                    assert(after.tracks[j].id == id);
                }
            }
            assert(after.tracks =~= before.after_predict(orig).tracks);
            assert(after == before.after_predict(orig));
        }
    }
}

impl<S, F> Tracker<S, F> {
    /// Applies the matched updates in order.
    fn record_hits(&mut self, matched: Vec<TrackUpdate<S, F>>)
        requires
            forall|k: int|
                0 <= k < matched.len() ==> (#[trigger] matched@[k]).track < old(self)@.tracks.len(),
            forall|k1: int, k2: int|
                0 <= k1 < matched.len() && 0 <= k2 < matched.len() && k1 != k2 ==> (
                #[trigger] matched@[k1]).track != (#[trigger] matched@[k2]).track,
            forall|k: int|
                0 <= k < matched.len() ==> old(self)@.tracks[(#[trigger] matched@[k]).track as int].hits
                    < u32::MAX,
            forall|j: int| 0 <= j < old(self)@.tracks.len() ==> #[trigger] old(self)@.tracks[j].wf(),
        ensures
            final(self)@.tracks == apply_hits(old(self)@.tracks, matched@, matched@.len()),
            final(self)@.tracks.len() == old(self)@.tracks.len(),
            forall|j: int| 0 <= j < final(self)@.tracks.len() ==> #[trigger] final(self)@.tracks[j].wf(),
            forall|j: int|
                0 <= j < final(self)@.tracks.len() ==> (#[trigger] final(self)@.tracks[j]).id
                    == old(self)@.tracks[j].id && final(self)@.tracks[j].n_init
                    == old(self)@.tracks[j].n_init && final(self)@.tracks[j].max_age
                    == old(self)@.tracks[j].max_age,
            forall|j: int|
                0 <= j < final(self)@.tracks.len() && (#[trigger] final(self)@.tracks[j]).state
                    == TrackState::Confirmed ==> old(self)@.tracks[j].state == TrackState::Confirmed
                    || final(self)@.tracks[j].features.len() > 0,
            forall|j: int|
                0 <= j < final(self)@.tracks.len() && (#[trigger] final(self)@.tracks[j]).state
                    == TrackState::Confirmed ==> old(self)@.tracks[j].state == TrackState::Confirmed
                    || exists|q: int|
                    0 <= q < matched.len() && (#[trigger] matched@[q]).track == j
                        && old(self)@.tracks[j].hits + 1 >= old(self)@.tracks[j].n_init,
            forall|j: int|
                0 <= j < final(self)@.tracks.len() ==> ((#[trigger] final(self)@.tracks[j]).state
                    == TrackState::Deleted <==> old(self)@.tracks[j].state == TrackState::Deleted),
            final(self).feature_bank == old(self).feature_bank,
            final(self).next_id == old(self).next_id,
            final(self).params == old(self).params,
    {
        let ghost orig = views(self.tracks@);
        let ghost mo = matched@;
        let mut matched = matched;
        let n = matched.len();
        let mut k: usize = 0;
        while k < n
            invariant
                n == mo.len(),
                k <= n,
                matched.len() == n - k,
                forall|j: int| 0 <= j < n - k ==> matched@[j] == mo[j + k],
                forall|q: int| 0 <= q < n ==> (#[trigger] mo[q]).track < orig.len(),
                forall|q1: int, q2: int|
                    0 <= q1 < n && 0 <= q2 < n && q1 != q2 ==> (#[trigger] mo[q1]).track != (
                    #[trigger] mo[q2]).track,
                forall|q: int| 0 <= q < n ==> orig[(#[trigger] mo[q]).track as int].hits < u32::MAX,
                forall|j: int| 0 <= j < orig.len() ==> #[trigger] orig[j].wf(),
                self.tracks.len() == orig.len(),
                views(self.tracks@) == apply_hits(orig, mo, k as nat),
                forall|j: int|
                    0 <= j < orig.len() && (forall|q: int| 0 <= q < k ==> (#[trigger] mo[q]).track != j)
                        ==> #[trigger] views(self.tracks@)[j] == orig[j],
                forall|j: int| 0 <= j < orig.len() ==> #[trigger] views(self.tracks@)[j].wf(),
                forall|j: int|
                    0 <= j < orig.len() ==> (#[trigger] views(self.tracks@)[j]).id == orig[j].id
                        && views(self.tracks@)[j].n_init == orig[j].n_init
                        && views(self.tracks@)[j].max_age == orig[j].max_age,
                forall|j: int|
                    0 <= j < orig.len() && (#[trigger] views(self.tracks@)[j]).state
                        == TrackState::Confirmed ==> orig[j].state == TrackState::Confirmed
                        || views(self.tracks@)[j].features.len() > 0,
                forall|j: int|
                    0 <= j < orig.len() && (#[trigger] views(self.tracks@)[j]).state
                        == TrackState::Confirmed ==> orig[j].state == TrackState::Confirmed
                        || exists|q: int|
                        0 <= q < k && (#[trigger] mo[q]).track == j && orig[j].hits + 1
                            >= orig[j].n_init,
                forall|j: int|
                    0 <= j < orig.len() ==> ((#[trigger] views(self.tracks@)[j]).state
                        == TrackState::Deleted <==> orig[j].state == TrackState::Deleted),
                self.feature_bank == old(self).feature_bank,
                self.next_id == old(self).next_id,
                self.params == old(self).params,
            decreases n - k,
        {
            let ghost before = views(self.tracks@);
            let u = matched.remove(0);
            assert(u == mo[k as int]);
            let t = u.track;
            proof {
                assert forall|q: int| 0 <= q < k implies (#[trigger] mo[q]).track != t by {
                    assert(mo[q].track != mo[k as int].track);
                }
                assert(before[t as int] == orig[t as int]);
            }
            self.tracks[t].update(u.motion, u.feature);
            proof {
                let after = views(self.tracks@);
                assert(after =~= before.update(t as int, before[t as int].hit(u.motion, u.feature)));
                assert forall|j: int|
                    0 <= j < orig.len() && (#[trigger] after[j]).state == TrackState::Confirmed
                        implies orig[j].state == TrackState::Confirmed || exists|q: int|
                        0 <= q < k + 1 && (#[trigger] mo[q]).track == j && orig[j].hits + 1
                            >= orig[j].n_init by {
                    if j == t as int {
                        if orig[j].state != TrackState::Confirmed {
                            assert(mo[k as int].track == j);
                        }
                    } else if orig[j].state != TrackState::Confirmed {
                        assert(before[j].state == TrackState::Confirmed);
                        let q = choose|q: int|
                            0 <= q < k && (#[trigger] mo[q]).track == j && orig[j].hits + 1
                                >= orig[j].n_init;
                        assert(0 <= q < k + 1 && mo[q].track == j);
                    }
                }
                assert forall|j: int|
                    0 <= j < orig.len() && (forall|q: int| 0 <= q < k + 1 ==> (#[trigger] mo[q]).track
                        != j) implies #[trigger] after[j] == orig[j] by {
                    assert(mo[k as int].track != j);
                    assert(forall|q: int| 0 <= q < k ==> (#[trigger] mo[q]).track != j);
                }
            }
            k += 1;
        }
    }

    /// Applies the misses in order.
    fn record_misses(&mut self, missed: &Vec<usize>)
        requires
            forall|k: int| 0 <= k < missed.len() ==> #[trigger] missed@[k] < old(self)@.tracks.len(),
        ensures
            final(self)@.tracks == apply_misses(old(self)@.tracks, missed@, missed@.len()),
            final(self)@.tracks.len() == old(self)@.tracks.len(),
            forall|j: int|
                0 <= j < final(self)@.tracks.len() ==> (#[trigger] final(self)@.tracks[j]).id
                    == old(self)@.tracks[j].id && final(self)@.tracks[j].n_init
                    == old(self)@.tracks[j].n_init && final(self)@.tracks[j].max_age
                    == old(self)@.tracks[j].max_age && final(self)@.tracks[j].features
                    == old(self)@.tracks[j].features && final(self)@.tracks[j].age
                    == old(self)@.tracks[j].age && final(self)@.tracks[j].time_since_update
                    == old(self)@.tracks[j].time_since_update,
            forall|j: int|
                0 <= j < final(self)@.tracks.len() && (#[trigger] final(self)@.tracks[j]).state
                    == TrackState::Confirmed ==> old(self)@.tracks[j].state == TrackState::Confirmed,
            final(self).feature_bank == old(self).feature_bank,
            final(self).next_id == old(self).next_id,
            final(self).params == old(self).params,
    {
        let ghost orig = views(self.tracks@);
        let n = missed.len();
        let mut k: usize = 0;
        while k < n
            invariant
                n == missed.len(),
                k <= n,
                forall|q: int| 0 <= q < n ==> #[trigger] missed@[q] < orig.len(),
                self.tracks.len() == orig.len(),
                views(self.tracks@) == apply_misses(orig, missed@, k as nat),
                forall|j: int|
                    0 <= j < orig.len() ==> (#[trigger] views(self.tracks@)[j]).id == orig[j].id
                        && views(self.tracks@)[j].n_init == orig[j].n_init
                        && views(self.tracks@)[j].max_age == orig[j].max_age
                        && views(self.tracks@)[j].features == orig[j].features
                        && views(self.tracks@)[j].age == orig[j].age
                        && views(self.tracks@)[j].time_since_update == orig[j].time_since_update,
                forall|j: int|
                    0 <= j < orig.len() && (#[trigger] views(self.tracks@)[j]).state
                        == TrackState::Confirmed ==> orig[j].state == TrackState::Confirmed,
                self.feature_bank == old(self).feature_bank,
                self.next_id == old(self).next_id,
                self.params == old(self).params,
            decreases n - k,
        {
            let ghost before = views(self.tracks@);
            let t = missed[k];
            self.tracks[t].mark_missed();
            proof {
                let after = views(self.tracks@);
                assert(after =~= before.update(t as int, before[t as int].missed()));
            }
            k += 1;
        }
    }

    /// Starts a new tentative track with the next id.
    fn initiate_track(&mut self, motion: S, feature: F)
        requires
            old(self).next_id < u64::MAX,
        ensures
            final(self)@.tracks == old(self)@.tracks.push(
                TrackView::initiated(
                    old(self).next_id,
                    motion,
                    feature,
                    old(self).params.n_init,
                    old(self).params.max_age,
                ),
            ),
            final(self).next_id == old(self).next_id + 1,
            final(self).feature_bank == old(self).feature_bank,
            final(self).params == old(self).params,
    {
        let track = Track::new(
            self.next_id,
            motion,
            feature,
            self.params.n_init,
            self.params.max_age,
        );
        self.tracks.push(track);
        self.next_id = self.next_id + 1;
        proof {
            assert(views(self.tracks@) =~= views(old(self).tracks@).push(track@));
        }
    }
}

impl<S, F> Tracker<S, F> {
    /// Drops the deleted tracks, keeping the order of the others.
    fn remove_deleted(&mut self)
        ensures
            final(self)@.tracks == live_tracks(old(self)@.tracks),
            final(self).feature_bank == old(self).feature_bank,
            final(self).next_id == old(self).next_id,
            final(self).params == old(self).params,
    {
        let mut old_tracks: Vec<Track<S, F>> = Vec::new();
        std::mem::swap(&mut old_tracks, &mut self.tracks);
        let ghost orig = views(old_tracks@);
        let n = old_tracks.len();
        let mut i: usize = 0;
        proof {
            assert(views(self.tracks@) =~= live_prefix(orig, 0));
        }
        while i < n
            invariant
                n == orig.len(),
                i <= n,
                old_tracks.len() == n - i,
                forall|j: int| 0 <= j < n - i ==> #[trigger] old_tracks@[j]@ == orig[j + i],
                views(self.tracks@) == live_prefix(orig, i as nat),
                self.feature_bank == old(self).feature_bank,
                self.next_id == old(self).next_id,
                self.params == old(self).params,
            decreases n - i,
        {
            let ghost before = views(self.tracks@);
            let t = old_tracks.remove(0);
            assert(t@ == orig[i as int]);
            if !t.is_deleted() {
                self.tracks.push(t);
                proof {
                    assert(views(self.tracks@) =~= before.push(t@));
                }
            } else {
                assert(views(self.tracks@) =~= before);
            }
            i += 1;
        }
    }
}

impl<S, F: Clone> Tracker<S, F> {
    /// Hands the features of every confirmed track to its gallery entry,
    /// keeps the most recent `nn_budget` of them there and leaves the track
    /// with a copy of the latest one. Entries of tracks that are no longer
    /// confirmed are dropped. A confirmed track needs a budget of at least
    /// one feature.
    pub fn flush_features(&mut self)
        requires
            forall|j: int|
                0 <= j < old(self)@.tracks.len() && (#[trigger] old(self)@.tracks[j]).state
                    == TrackState::Confirmed ==> old(self)@.nn_budget != Some(0usize),
            forall|i: int, j: int|
                0 <= i < old(self)@.tracks.len() && 0 <= j < old(self)@.tracks.len() && i != j ==> (
                #[trigger] old(self)@.tracks[i]).id != (#[trigger] old(self)@.tracks[j]).id,
            forall|j: int|
                0 <= j < old(self)@.tracks.len() && (#[trigger] old(self)@.tracks[j]).state
                    == TrackState::Confirmed ==> old(self)@.bank_entry(old(self)@.tracks[j].id).len()
                    > 0 || old(self)@.tracks[j].features.len() > 0,
        ensures
            final(self)@.tracks.len() == old(self)@.tracks.len(),
            forall|j: int|
                0 <= j < old(self)@.tracks.len() && (#[trigger] old(self)@.tracks[j]).state
                    != TrackState::Confirmed ==> final(self)@.tracks[j] == old(self)@.tracks[j],
            forall|j: int|
                0 <= j < old(self)@.tracks.len() && (#[trigger] old(self)@.tracks[j]).state
                    == TrackState::Confirmed ==> flushed(
                    old(self)@,
                    final(self)@,
                    old(self)@.tracks[j],
                    final(self)@.tracks[j],
                ),
            forall|id: u64|
                #[trigger] final(self)@.bank.contains_key(id) <==> old(self)@.is_confirmed_id(id),
            final(self)@.next_id == old(self)@.next_id,
            final(self)@.max_age == old(self)@.max_age,
            final(self)@.n_init == old(self)@.n_init,
            final(self)@.nn_budget == old(self)@.nn_budget,
            forall|j: int|
                0 <= j < old(self)@.tracks.len() && (#[trigger] old(self)@.tracks[j]).state
                    == TrackState::Confirmed && old(self)@.nn_budget is None ==> final(self)@.bank[old(
                    self)@.tracks[j].id] == old(self)@.bank_entry(old(self)@.tracks[j].id) + old(
                    self)@.tracks[j].features,
            forall|j: int|
                0 <= j < old(self)@.tracks.len() && (#[trigger] old(self)@.tracks[j]).state
                    == TrackState::Confirmed ==> final(self)@.bank[old(self)@.tracks[j].id] == (old(
                    self)@.bank_entry(old(self)@.tracks[j].id) + old(self)@.tracks[j].features).subrange(
                    old(self)@.bank_entry(old(self)@.tracks[j].id).len() + old(self)@.tracks[j].features.len()
                        - final(self)@.bank[old(self)@.tracks[j].id].len(),
                    (old(self)@.bank_entry(old(self)@.tracks[j].id).len() + old(self)@.tracks[j].features.len()) as int,
                ) && (old(self)@.nn_budget matches Some(b) ==> final(self)@.bank[old(
                    self)@.tracks[j].id].len() == (if old(self)@.bank_entry(old(self)@.tracks[j].id).len()
                    + old(self)@.tracks[j].features.len() <= b {
                    old(self)@.bank_entry(old(self)@.tracks[j].id).len() + old(self)@.tracks[j].features.len()
                } else {
                    b as nat
                })),
            forall|id: u64| #[trigger]
                final(self)@.bank.contains_key(id) ==> 1 <= final(self)@.bank[id].len() && (
                final(self)@.nn_budget matches Some(b) ==> final(self)@.bank[id].len() <= b),
            old(self).wf() ==> final(self).wf(),
    {
        let mut old_bank: HashMap<u64, Vec<F>> = HashMap::new();
        std::mem::swap(&mut old_bank, &mut self.feature_bank);
        let ghost ob = old_bank@;
        let ghost before = old(self)@;
        let ghost orig = views(self.tracks@);
        let n = self.tracks.len();
        let mut i: usize = 0;
        proof {
            assert(self.feature_bank@ =~= Map::empty());
        }
        while i < n
            invariant
                n == orig.len(),
                i <= n,
                self.tracks.len() == n,
                before.tracks == orig,
                before.bank == ob.map_values(|v: Vec<F>| v@),
                before.nn_budget == self.params.nn_budget,
                self.params == old(self).params,
                self.next_id == old(self).next_id,
                forall|j: int|
                    0 <= j < n && (#[trigger] orig[j]).state == TrackState::Confirmed
                        ==> self.params.nn_budget != Some(0usize),
                forall|a: int, b: int|
                    0 <= a < n && 0 <= b < n && a != b ==> (#[trigger] orig[a]).id != (
                    #[trigger] orig[b]).id,
                forall|j: int|
                    0 <= j < n && (#[trigger] orig[j]).state == TrackState::Confirmed
                        ==> before.bank_entry(orig[j].id).len() > 0 || orig[j].features.len() > 0,
                forall|j: int| i <= j < n ==> #[trigger] self.tracks@[j]@ == orig[j],
                forall|j: int|
                    0 <= j < i && (#[trigger] orig[j]).state != TrackState::Confirmed
                        ==> self.tracks@[j]@ == orig[j],
                forall|j: int|
                    0 <= j < i && (#[trigger] orig[j]).state == TrackState::Confirmed ==> flushed(
                        before,
                        self@,
                        orig[j],
                        self.tracks@[j]@,
                    ),
                forall|id: u64|
                    #[trigger] old_bank@.contains_key(id) ==> ob.contains_key(id) && old_bank@[id]
                        == ob[id],
                forall|j: int|
                    i <= j < n && ob.contains_key((#[trigger] orig[j]).id)
                        ==> old_bank@.contains_key(orig[j].id),
                forall|id: u64|
                    #[trigger] self.feature_bank@.contains_key(id) <==> exists|j: int|
                        0 <= j < i && #[trigger] orig[j].id == id && orig[j].state
                            == TrackState::Confirmed,
            decreases n - i,
        {
            if self.tracks[i].is_confirmed() {
                let id = self.tracks[i].id;
                let ghost bank_now = old_bank@;
                assert(id == orig[i as int].id);
                let removed = old_bank.remove(&id);
                let mut entry: Vec<F> = match removed {
                    Some(v) => {
                        assert(bank_now.contains_key(id));
                        assert(v == bank_now[id]);
                        v
                    },
                    None => {
                        assert(!bank_now.contains_key(id));
                        Vec::new()
                    },
                };
                assert(old_bank@ == bank_now.remove(id));
                assert(entry@ == before.bank_entry(id));
                entry.append(&mut self.tracks[i].features);
                match self.params.nn_budget {
                    Some(budget) => {
                        if entry.len() > budget {
                            let excess = entry.len() - budget;
                            entry = entry.split_off(excess);
                        }
                    },
                    None => {},
                }
                assert(entry@ == before.gallery_after(orig[i as int]));
                let last = entry[entry.len() - 1].clone();
                self.tracks[i].features.push(last);
                self.feature_bank.insert(id, entry);
            }
            i += 1;
        }
        proof {
            let after = self@;
            assert forall|j: int| 0 <= j < n && (#[trigger] orig[j]).state == TrackState::Confirmed implies {
                &&& (before.nn_budget is None ==> after.bank[orig[j].id] == before.bank_entry(orig[j].id)
                    + orig[j].features)
                &&& after.bank[orig[j].id] == (before.bank_entry(orig[j].id) + orig[j].features).subrange(
                    before.bank_entry(orig[j].id).len() + orig[j].features.len() - after.bank[orig[j].id].len(),
                    (before.bank_entry(orig[j].id).len() + orig[j].features.len()) as int,
                )
                &&& (before.nn_budget matches Some(b) ==> after.bank[orig[j].id].len() == (if before.bank_entry(
                    orig[j].id).len() + orig[j].features.len() <= b {
                    before.bank_entry(orig[j].id).len() + orig[j].features.len()
                } else {
                    b as nat
                }))
            } by {
                assert(flushed(before, after, orig[j], self.tracks@[j]@));
                lemma_gallery_after(before, orig[j]);
            }
            assert forall|id: u64| #[trigger] after.bank.contains_key(id) implies 1 <= after.bank[id].len()
                && (after.nn_budget matches Some(b) ==> after.bank[id].len() <= b) by {
                let j = choose|j: int| 0 <= j < n && #[trigger] orig[j].id == id && orig[j].state
                    == TrackState::Confirmed;
                assert(flushed(before, after, orig[j], self.tracks@[j]@));
                assert((before.bank_entry(id) + orig[j].features).len() >= 1);
            }
            if before.inv() {
                assert forall|j: int| #![trigger after.tracks[j]] 0 <= j < n implies after.tracks[j].id == orig[j].id
                    && after.tracks[j].state == orig[j].state && after.tracks[j].wf() && after.tracks[j].n_init
                    == orig[j].n_init && after.tracks[j].max_age == orig[j].max_age by {
                    assert(orig[j].wf());
                    if orig[j].state == TrackState::Confirmed {
                        assert(flushed(before, after, orig[j], self.tracks@[j]@));
                    }
                }
                assert forall|id: u64| #[trigger] after.bank.contains_key(id) implies after.is_confirmed_id(id)
                    && 1 <= after.bank[id].len() && (after.nn_budget matches Some(b) ==> after.bank[id].len()
                    <= b) by {
                    let j = choose|j: int| 0 <= j < n && #[trigger] orig[j].id == id && orig[j].state
                        == TrackState::Confirmed;
                    assert(after.tracks[j].id == id);
                    assert(flushed(before, after, orig[j], self.tracks@[j]@));
                    assert(before.bank.contains_key(id));
                    assert(before.bank_entry(id).len() >= 1);
                }
                assert forall|j: int| 0 <= j < n && (#[trigger] after.tracks[j]).state
                    == TrackState::Confirmed implies after.bank.contains_key(after.tracks[j].id) by {
                    assert(after.tracks[j].id == orig[j].id);
                    assert(orig[j].state == TrackState::Confirmed);
                }
                assert(after.tracks.len() == n);
                assert(ids_increase(after.tracks)) by {
                    assert forall|a: int, b: int| 0 <= a < b < n implies (#[trigger] after.tracks[a]).id
                        < (#[trigger] after.tracks[b]).id by {
                        assert(after.tracks[a].id == orig[a].id);
                        assert(after.tracks[b].id == orig[b].id);
                    }
                }
                assert(after.nn_budget == before.nn_budget);
                assert(after.next_id == before.next_id);
                assert(after.n_init == before.n_init && after.max_age == before.max_age);
                assert(after.nn_budget == Some(0usize) ==> forall|i: int|
                    0 <= i < after.tracks.len() ==> (#[trigger] after.tracks[i]).state != TrackState::Confirmed);
                assert(forall|i: int| 0 <= i < after.tracks.len() ==> #[trigger] after.tracks[i].wf());
                assert(forall|i: int| 0 <= i < after.tracks.len() ==> (#[trigger] after.tracks[i]).state != TrackState::Deleted);
                assert(forall|i: int| 0 <= i < after.tracks.len() ==> (#[trigger] after.tracks[i]).id < after.next_id);
            }
        }
    }
}

impl<S, F: Clone> Tracker<S, F> {
    /// Applies the outcome of a frame's association: `matched` tracks are
    /// corrected and take their detection's feature, `missed` tracks record
    /// a miss, and each entry of `created` starts a new track, numbered in
    /// order. Deleted tracks are then dropped and the features of the
    /// confirmed tracks are handed to their gallery.
    pub fn update(
        &mut self,
        matched: Vec<TrackUpdate<S, F>>,
        missed: Vec<usize>,
        created: Vec<NewTrack<S, F>>,
    )
        requires
            old(self).wf(),
            old(self)@.update_allowed(matched@, missed@, created@),
        ensures
            final(self).wf(),
            old(self)@.updated(final(self)@, matched@, missed@, created@),
    {
        let ghost v0 = self@;
        let ghost frame = v0.frame_tracks(matched@, missed@, created@);
        proof {
            assert forall|j: int| 0 <= j < v0.tracks.len() implies #[trigger] v0.tracks[j].wf() by {}
        }
        self.record_hits(matched);
        let ghost v1 = self@;
        self.record_misses(&missed);
        let ghost v2 = self@;
        assert(v2.tracks == apply_misses(apply_hits(v0.tracks, matched@, matched@.len()), missed@, missed@.len()));

        let ghost created_seq = created@;
        let mut created = created;
        let n_new = created.len();
        let mut k: usize = 0;
        while k < n_new
            invariant
                n_new == created_seq.len(),
                k <= n_new,
                created.len() == n_new - k,
                forall|q: int| 0 <= q < n_new - k ==> created@[q] == created_seq[q + k],
                self.next_id == v0.next_id + k,
                v0.next_id + n_new <= u64::MAX,
                self.params == old(self).params,
                v0.n_init == self.params.n_init,
                v0.max_age == self.params.max_age,
                self.feature_bank == old(self).feature_bank,
                self@.tracks == v2.tracks + initiated_tracks(
                    created_seq.take(k as int),
                    v0.next_id,
                    v0.n_init,
                    v0.max_age,
                ),
            decreases n_new - k,
        {
            let c = created.remove(0);
            assert(c == created_seq[k as int]);
            let ghost before = self@.tracks;
            let ghost cm = c.motion;
            let ghost cf = c.feature;
            self.initiate_track(c.motion, c.feature);
            proof {
                let nt = TrackView::initiated((v0.next_id + k) as u64, cm, cf, v0.n_init, v0.max_age);
                assert(self@.tracks == before.push(nt));
                let xs = initiated_tracks(created_seq.take(k as int), v0.next_id, v0.n_init, v0.max_age);
                let ys = initiated_tracks(created_seq.take(k + 1), v0.next_id, v0.n_init, v0.max_age);
                assert(ys =~= xs.push(nt));
                assert((v2.tracks + xs).push(nt) =~= v2.tracks + xs.push(nt));
                assert(self@.tracks =~= v2.tracks + initiated_tracks(
                    created_seq.take(k + 1),
                    v0.next_id,
                    v0.n_init,
                    v0.max_age,
                ));
            }
            k += 1;
        }
        proof {
            assert(created_seq.take(n_new as int) =~= created_seq);
            assert(self@.tracks == frame);
        }
        let ghost v3 = self@;

        // Facts about the frame's tracks that survive the filtering.
        proof {
            let old_len = v0.tracks.len();
            assert forall|j: int| 0 <= j < frame.len() implies #[trigger] frame[j].wf()
                && frame[j].n_init == v0.n_init && frame[j].max_age == v0.max_age
                && frame[j].id < v0.next_id + n_new
                && (frame[j].state == TrackState::Confirmed ==> v0.bank_entry(frame[j].id).len() > 0
                    || frame[j].features.len() > 0)
                && (frame[j].state == TrackState::Confirmed ==> v0.nn_budget != Some(0usize)) by {
                if j < old_len {
                    assert(v1.tracks[j].wf());
                    if frame[j].state == TrackState::Confirmed && v0.nn_budget == Some(0usize) {
                        assert(v1.tracks[j].state == TrackState::Confirmed);
                        assert(v0.tracks[j].state != TrackState::Confirmed);
                        let q = choose|q: int|
                            0 <= q < matched@.len() && (#[trigger] matched@[q]).track == j
                                && v0.tracks[j].hits + 1 >= v0.tracks[j].n_init;
                    }
                    assert(v0.tracks[j].n_init == v0.n_init);
                    assert(v0.tracks[j].id < v0.next_id);
                    if frame[j].state == TrackState::Confirmed {
                        assert(v1.tracks[j].state == TrackState::Confirmed);
                        if v0.tracks[j].state == TrackState::Confirmed {
                            assert(v0.bank.contains_key(v0.tracks[j].id));
                        }
                    }
                } else {
                    assert(frame[j] == initiated_tracks(created_seq, v0.next_id, v0.n_init, v0.max_age)[j - old_len]);
                }
            }
            assert forall|a: int, b: int| 0 <= a < b < frame.len() implies (#[trigger] frame[a]).id
                < (#[trigger] frame[b]).id by {
                if b < old_len {
                    assert(v0.tracks[a].id < v0.tracks[b].id);
                } else if a < old_len {
                    assert(v0.tracks[a].id < v0.next_id);
                }
            }
            lemma_live_tracks(frame);
        }

        self.remove_deleted();
        let ghost v4 = self@;
        let ghost kept = live_tracks(frame);
        proof {
            assert(v4.tracks == kept);
            assert(v4.bank == v0.bank);
            assert forall|a: int, b: int|
                0 <= a < v4.tracks.len() && 0 <= b < v4.tracks.len() && a != b implies (
                #[trigger] v4.tracks[a]).id != (#[trigger] v4.tracks[b]).id by {
                if a < b {
                    assert(kept[a].id < kept[b].id);
                } else {
                    assert(kept[b].id < kept[a].id);
                }
            }
            assert forall|j: int|
                0 <= j < kept.len() && (#[trigger] kept[j]).state == TrackState::Confirmed
                    implies (v4.bank_entry(kept[j].id).len() > 0 || kept[j].features.len() > 0)
                    && v4.nn_budget != Some(0usize) by {
                assert(is_live_of(frame, kept[j]));
                let r = choose|r: int| 0 <= r < frame.len() && #[trigger] frame[r] == kept[j]
                    && frame[r].state != TrackState::Deleted;
            }
        }
        self.flush_features();
        let ghost v5 = self@;
        proof {
            assert forall|j: int| #![trigger v5.tracks[j]] 0 <= j < v5.tracks.len() implies v5.tracks[j].wf()
                && v5.tracks[j].state != TrackState::Deleted
                && v5.tracks[j].n_init == v5.n_init && v5.tracks[j].max_age == v5.max_age
                && v5.tracks[j].id < v5.next_id
                && v5.tracks[j].id == kept[j].id && v5.tracks[j].state == kept[j].state by {
                assert(is_live_of(frame, kept[j]));
                let r = choose|r: int| 0 <= r < frame.len() && #[trigger] frame[r] == kept[j]
                    && frame[r].state != TrackState::Deleted;
                assert(frame[r].wf());
                if kept[j].state == TrackState::Confirmed {
                    assert(flushed(v4, v5, v4.tracks[j], v5.tracks[j]));
                } else {
                    assert(v5.tracks[j] == kept[j]);
                }
            }
            assert forall|id: u64| #[trigger] v5.bank.contains_key(id) implies v5.is_confirmed_id(id)
                && 1 <= v5.bank[id].len() && (v5.nn_budget matches Some(b) ==> v5.bank[id].len() <= b) by {
                assert(v4.is_confirmed_id(id));
                let j = choose|j: int| 0 <= j < v4.tracks.len() && #[trigger] v4.tracks[j].id == id
                    && v4.tracks[j].state == TrackState::Confirmed;
                assert(v5.tracks[j].id == id);
                assert(v5.bank[id] == v4.gallery_after(kept[j]));
            }
            assert forall|j: int| 0 <= j < v5.tracks.len() && (#[trigger] v5.tracks[j]).state
                == TrackState::Confirmed implies v5.bank.contains_key(v5.tracks[j].id) by {
                assert(v4.tracks[j].state == TrackState::Confirmed);
                assert(v4.is_confirmed_id(v4.tracks[j].id));
            }
        }
    }
}

/// What a gallery keeps of `features`: all of them without a budget;
/// with a budget `b`, the last `b` of them (all of them if there are no
/// more than `b`), in their order.
pub proof fn lemma_within_budget<F>(features: Seq<F>, budget: Option<usize>)
    ensures
        budget is None ==> within_budget(features, budget) == features,
        budget matches Some(b) ==> within_budget(features, budget).len() == (if features.len() <= b {
            features.len() as int
        } else {
            b as int
        }),
        within_budget(features, budget) == features.subrange(
            features.len() - within_budget(features, budget).len(),
            features.len() as int,
        ),
{
    assert(features.subrange(0, features.len() as int) =~= features);
    if let Some(b) = budget {
        if features.len() > b {
            assert(features.skip(features.len() - b) =~= features.subrange(
                features.len() - b,
                features.len() as int,
            ));
        }
    }
}

/// The gallery entry of a confirmed track after a flush is the old entry
/// followed by all the track's pending features when there is no budget,
/// and the last `b` of them with a budget `b`: no feature is dropped but
/// the oldest beyond the budget.
pub proof fn lemma_gallery_after<S, F>(v: TrackerView<S, F>, t: TrackView<S, F>)
    ensures
        v.nn_budget is None ==> v.gallery_after(t) == v.bank_entry(t.id) + t.features,
        v.nn_budget is None ==> v.gallery_after(t).len() == v.bank_entry(t.id).len()
            + t.features.len(),
        v.nn_budget matches Some(b) ==> v.gallery_after(t).len() == (if v.bank_entry(t.id).len()
            + t.features.len() <= b {
            v.bank_entry(t.id).len() + t.features.len()
        } else {
            b as nat
        }),
        v.gallery_after(t) == (v.bank_entry(t.id) + t.features).subrange(
            v.bank_entry(t.id).len() + t.features.len() - v.gallery_after(t).len(),
            (v.bank_entry(t.id).len() + t.features.len()) as int,
        ),
{
    lemma_within_budget(v.bank_entry(t.id) + t.features, v.nn_budget);
}

/// A prediction step gives the `i`-th motion to the `i`-th track, adds one
/// frame to its age and to its frames since the last match, and changes
/// nothing else, neither the tracks' order nor the gallery nor the next id.
pub proof fn lemma_predict_each_track<S, F>(v: TrackerView<S, F>, motions: Seq<S>)
    requires
        v.inv(),
        v.predict_allowed(motions),
    ensures
        v.after_predict(motions).tracks.len() == v.tracks.len(),
        forall|i: int|
            0 <= i < v.tracks.len() ==> (#[trigger] v.after_predict(motions).tracks[i]).motion
                == motions[i] && v.after_predict(motions).tracks[i].id == v.tracks[i].id
                && v.after_predict(motions).tracks[i].age == v.tracks[i].age + 1
                && v.after_predict(motions).tracks[i].time_since_update == v.tracks[i].time_since_update
                + 1 && v.after_predict(motions).tracks[i].hits == v.tracks[i].hits
                && v.after_predict(motions).tracks[i].state == v.tracks[i].state
                && v.after_predict(motions).tracks[i].features == v.tracks[i].features,
        v.after_predict(motions).bank == v.bank,
        v.after_predict(motions).next_id == v.next_id,
{
    assert forall|i: int| 0 <= i < v.tracks.len() implies v.tracks[i].time_since_update
        < v.tracks[i].age && #[trigger] v.tracks[i].age < u32::MAX by {
        assert(v.tracks[i].wf());
    }
}

/// The matched updates keep each track's id, age and parameters.
pub proof fn lemma_apply_hits_keeps<S, F>(
    tracks: Seq<TrackView<S, F>>,
    matched: Seq<TrackUpdate<S, F>>,
    k: nat,
)
    requires
        k <= matched.len(),
        forall|q: int| 0 <= q < k ==> (#[trigger] matched[q]).track < tracks.len(),
    ensures
        apply_hits(tracks, matched, k).len() == tracks.len(),
        forall|j: int|
            0 <= j < tracks.len() ==> (#[trigger] apply_hits(tracks, matched, k)[j]).id == tracks[j].id
                && apply_hits(tracks, matched, k)[j].age == tracks[j].age,
    decreases k,
{
    if k > 0 {
        lemma_apply_hits_keeps(tracks, matched, (k - 1) as nat);
        assert(matched[k - 1].track < tracks.len());
    }
}

/// The misses keep each track's id and age.
pub proof fn lemma_apply_misses_keeps<S, F>(tracks: Seq<TrackView<S, F>>, missed: Seq<usize>, k: nat)
    requires
        k <= missed.len(),
        forall|q: int| 0 <= q < k ==> #[trigger] missed[q] < tracks.len(),
    ensures
        apply_misses(tracks, missed, k).len() == tracks.len(),
        forall|j: int|
            0 <= j < tracks.len() ==> (#[trigger] apply_misses(tracks, missed, k)[j]).id == tracks[j].id
                && apply_misses(tracks, missed, k)[j].age == tracks[j].age,
    decreases k,
{
    if k > 0 {
        lemma_apply_misses_keeps(tracks, missed, (k - 1) as nat);
        assert(missed[k - 1] < tracks.len());
    }
}

impl<S, F> TrackerView<S, F> {
    /// Some track carries `id`.
    pub open spec fn has_id(self, id: u64) -> bool {
        exists|i: int| 0 <= i < self.tracks.len() && #[trigger] self.tracks[i].id == id
    }

    /// What a frame does to ids and ages: the next id never goes down, and
    /// every track afterwards either continues a track of the same id, one
    /// frame older, or is new, with an id not issued before and age 1.
    pub open spec fn frame_step(self, next: Self) -> bool {
        &&& self.inv()
        &&& next.inv()
        &&& self.next_id <= next.next_id
        &&& forall|j: int|
            0 <= j < next.tracks.len() ==> (exists|i: int|
                0 <= i < self.tracks.len() && #[trigger] self.tracks[i].id == (
                #[trigger] next.tracks[j]).id && next.tracks[j].age == self.tracks[i].age + 1) || (
            self.next_id <= next.tracks[j].id && next.tracks[j].age == 1)
    }
}

impl<S, F: Clone> TrackerView<S, F> {
    /// `next` is this tracker after one frame: a prediction that gives
    /// track `i` the motion `motions[i]`, then an update with the outcome
    /// `matched`, `missed`, `created` of the frame's association.
    pub open spec fn frame(
        self,
        motions: Seq<S>,
        matched: Seq<TrackUpdate<S, F>>,
        missed: Seq<usize>,
        created: Seq<NewTrack<S, F>>,
        next: Self,
    ) -> bool {
        &&& self.inv()
        &&& self.predict_allowed(motions)
        &&& self.after_predict(motions).update_allowed(matched, missed, created)
        &&& self.after_predict(motions).updated(next, matched, missed, created)
    }
}

/// The arguments of one frame: the motions handed to the prediction, then
/// the matched updates, the missed tracks and the new tracks handed to the
/// update.
pub type FrameInput<S, F> = (Seq<S>, Seq<TrackUpdate<S, F>>, Seq<usize>, Seq<NewTrack<S, F>>);

/// Frame `i` of the run: `runs[i + 1]` is `runs[i]` after the frame with
/// arguments `inputs[i]`.
pub open spec fn frame_at<S, F: Clone>(
    runs: Seq<TrackerView<S, F>>,
    inputs: Seq<FrameInput<S, F>>,
    i: int,
) -> bool {
    runs[i].frame(inputs[i].0, inputs[i].1, inputs[i].2, inputs[i].3, runs[i + 1])
}

/// `runs` are the states of one tracker along a sequence of frames, the
/// `i`-th frame having the arguments `inputs[i]`.
pub open spec fn is_run<S, F: Clone>(runs: Seq<TrackerView<S, F>>, inputs: Seq<FrameInput<S, F>>) -> bool {
    &&& runs.len() == inputs.len() + 1
    &&& forall|i: int| 0 <= i < inputs.len() ==> #[trigger] frame_at(runs, inputs, i)
}

/// An update keeps the ids and ages of the tracks it keeps, and gives its
/// new tracks fresh ids, from the old next id on, and age 1.
pub proof fn lemma_update_ids_and_ages<S, F: Clone>(
    v: TrackerView<S, F>,
    next: TrackerView<S, F>,
    matched: Seq<TrackUpdate<S, F>>,
    missed: Seq<usize>,
    created: Seq<NewTrack<S, F>>,
)
    requires
        v.update_allowed(matched, missed, created),
        v.updated(next, matched, missed, created),
    ensures
        next.next_id == v.next_id + created.len(),
        forall|j: int|
            0 <= j < next.tracks.len() ==> (exists|i: int|
                0 <= i < v.tracks.len() && #[trigger] v.tracks[i].id == (#[trigger] next.tracks[j]).id
                    && next.tracks[j].age == v.tracks[i].age) || (v.next_id <= next.tracks[j].id
                && next.tracks[j].id < next.next_id && next.tracks[j].age == 1),
{
    let frame = v.frame_tracks(matched, missed, created);
    let kept = live_tracks(frame);
    let hit = apply_hits(v.tracks, matched, matched.len());
    lemma_apply_hits_keeps(v.tracks, matched, matched.len());
    lemma_apply_misses_keeps(hit, missed, missed.len());
    lemma_live_tracks(frame);
    let old_len = v.tracks.len();
    assert forall|j: int| 0 <= j < next.tracks.len() implies (exists|i: int|
        0 <= i < v.tracks.len() && #[trigger] v.tracks[i].id == (#[trigger] next.tracks[j]).id
            && next.tracks[j].age == v.tracks[i].age) || (v.next_id <= next.tracks[j].id
        && next.tracks[j].id < next.next_id && next.tracks[j].age == 1) by {
        assert(next.tracks[j].id == kept[j].id && next.tracks[j].age == kept[j].age) by {
            if kept[j].state == TrackState::Confirmed {
                assert(flushed(v, next, kept[j], next.tracks[j]));
            }
        }
        assert(is_live_of(frame, kept[j]));
        let r = choose|r: int| 0 <= r < frame.len() && #[trigger] frame[r] == kept[j]
            && frame[r].state != TrackState::Deleted;
        if r < old_len {
            assert(frame[r] == apply_misses(hit, missed, missed.len())[r]);
            assert(v.tracks[r].id == next.tracks[j].id);
        } else {
            assert(frame[r] == initiated_tracks(created, v.next_id, v.n_init, v.max_age)[r - old_len]);
        }
    }
}

/// After a frame, every track either continues a track of the same id,
/// one frame older, or is new: age 1 and an id at least the old next id,
/// so never one of the ids handed out before.
pub proof fn lemma_frame_step<S, F: Clone>(
    v: TrackerView<S, F>,
    motions: Seq<S>,
    matched: Seq<TrackUpdate<S, F>>,
    missed: Seq<usize>,
    created: Seq<NewTrack<S, F>>,
    next: TrackerView<S, F>,
)
    requires
        v.frame(motions, matched, missed, created, next),
    ensures
        v.frame_step(next),
{
    let p = v.after_predict(motions);
    lemma_update_ids_and_ages(p, next, matched, missed, created);
    assert forall|j: int| 0 <= j < next.tracks.len() implies (exists|i: int|
        0 <= i < v.tracks.len() && #[trigger] v.tracks[i].id == (#[trigger] next.tracks[j]).id
            && next.tracks[j].age == v.tracks[i].age + 1) || (v.next_id <= next.tracks[j].id
        && next.tracks[j].age == 1) by {
        if exists|i: int|
            0 <= i < p.tracks.len() && #[trigger] p.tracks[i].id == next.tracks[j].id
                && next.tracks[j].age == p.tracks[i].age {
            let i = choose|i: int|
                0 <= i < p.tracks.len() && #[trigger] p.tracks[i].id == next.tracks[j].id
                    && next.tracks[j].age == p.tracks[i].age;
            assert(p.tracks[i] == v.tracks[i].predicted(motions[i]));
            assert(v.tracks[i].id == next.tracks[j].id);
        }
    }
}

/// The first frame of a tracker with no track yet and next id 1 (a new
/// tracker) makes one tentative track per new detection, numbered 1, 2,
/// ... in the order of the detections.
pub proof fn lemma_first_frame_ids<S, F: Clone>(
    v: TrackerView<S, F>,
    motions: Seq<S>,
    matched: Seq<TrackUpdate<S, F>>,
    missed: Seq<usize>,
    created: Seq<NewTrack<S, F>>,
    next: TrackerView<S, F>,
)
    requires
        v.tracks.len() == 0,
        v.next_id == 1,
        v.frame(motions, matched, missed, created, next),
    ensures
        next.tracks.len() == created.len(),
        next.next_id == created.len() + 1,
        forall|i: int|
            0 <= i < created.len() ==> (#[trigger] next.tracks[i]).id == i + 1 && next.tracks[i].state
                == TrackState::Tentative && next.tracks[i].age == 1,
{
    let p = v.after_predict(motions);
    if matched.len() > 0 {
        assert(matched[0].track < p.tracks.len());
    }
    if missed.len() > 0 {
        assert(missed[0] < p.tracks.len());
    }
    assert(apply_hits(p.tracks, matched, matched.len()) == p.tracks);
    assert(apply_misses(p.tracks, missed, missed.len()) == p.tracks);
    let init = initiated_tracks(created, p.next_id, p.n_init, p.max_age);
    let frame = p.frame_tracks(matched, missed, created);
    assert(frame =~= init);
    let f = |i: int| frame[i];
    let keep = |i: int| frame[i].state != TrackState::Deleted;
    assert forall|r: int| 0 <= r < frame.len() implies #[trigger] keep(r) by {
        assert(frame[r] == init[r]);
    }
    lemma_pick_all(f, keep, frame.len());
    let kept = live_tracks(frame);
    assert(kept == pick(f, keep, frame.len()));
    assert forall|i: int|
        0 <= i < created.len() implies (#[trigger] next.tracks[i]).id == i + 1 && next.tracks[i].state
            == TrackState::Tentative && next.tracks[i].age == 1 by {
        assert(kept[i] == init[i]);
        assert(next.tracks[i] == kept[i]);
    }
}

/// Frame `i` of a run is a frame step.
proof fn lemma_run_step<S, F: Clone>(runs: Seq<TrackerView<S, F>>, inputs: Seq<FrameInput<S, F>>, i: int)
    requires
        is_run(runs, inputs),
        0 <= i < inputs.len(),
    ensures
        runs[i].frame_step(runs[i + 1]),
{
    assert(frame_at(runs, inputs, i));
    lemma_frame_step(runs[i], inputs[i].0, inputs[i].1, inputs[i].2, inputs[i].3, runs[i + 1]);
}

/// Along a run the next id never goes down.
proof fn lemma_next_id_grows<S, F: Clone>(
    runs: Seq<TrackerView<S, F>>,
    inputs: Seq<FrameInput<S, F>>,
    k: int,
    l: int,
)
    requires
        is_run(runs, inputs),
        0 <= k <= l < runs.len(),
    ensures
        runs[k].next_id <= runs[l].next_id,
    decreases l - k,
{
    if k < l {
        lemma_next_id_grows(runs, inputs, k, l - 1);
        lemma_run_step(runs, inputs, l - 1);
    }
}

/// Every state of a run of at least one frame keeps the tracker's
/// invariant.
proof fn lemma_run_inv<S, F: Clone>(runs: Seq<TrackerView<S, F>>, inputs: Seq<FrameInput<S, F>>, k: int)
    requires
        is_run(runs, inputs),
        0 <= k < runs.len(),
        inputs.len() >= 1,
    ensures
        runs[k].inv(),
{
    if k < inputs.len() {
        lemma_run_step(runs, inputs, k);
    } else {
        lemma_run_step(runs, inputs, k - 1);
    }
}

/// Along a run, a track that has disappeared never comes back: an id
/// present at state `k` and absent at a later state `l` is absent at every
/// state after `l`.
pub proof fn lemma_ids_not_revived<S, F: Clone>(
    runs: Seq<TrackerView<S, F>>,
    inputs: Seq<FrameInput<S, F>>,
    k: int,
    l: int,
    m: int,
    id: u64,
)
    requires
        is_run(runs, inputs),
        0 <= k < l <= m < runs.len(),
        runs[k].has_id(id),
        !runs[l].has_id(id),
    ensures
        !runs[m].has_id(id),
    decreases m - l,
{
    if m > l {
        lemma_ids_not_revived(runs, inputs, k, l, m - 1, id);
        lemma_run_inv(runs, inputs, k);
        lemma_next_id_grows(runs, inputs, k, m - 1);
        lemma_run_step(runs, inputs, m - 1);
        let i0 = choose|i: int| 0 <= i < runs[k].tracks.len() && #[trigger] runs[k].tracks[i].id == id;
        assert(runs[k].tracks[i0].id < runs[k].next_id);
        if runs[m].has_id(id) {
            let j = choose|j: int| 0 <= j < runs[m].tracks.len() && #[trigger] runs[m].tracks[j].id == id;
            if exists|i: int|
                0 <= i < runs[m - 1].tracks.len() && #[trigger] runs[m - 1].tracks[i].id
                    == runs[m].tracks[j].id && runs[m].tracks[j].age == runs[m - 1].tracks[i].age + 1 {
                let i = choose|i: int|
                    0 <= i < runs[m - 1].tracks.len() && #[trigger] runs[m - 1].tracks[i].id
                        == runs[m].tracks[j].id && runs[m].tracks[j].age == runs[m - 1].tracks[i].age + 1;
                assert(runs[m - 1].has_id(id));
            }
        }
    }
}

/// Along a run, an id that appears at state `m` exceeds every id of every
/// earlier state: ids are never reused.
pub proof fn lemma_new_ids_exceed_old<S, F: Clone>(
    runs: Seq<TrackerView<S, F>>,
    inputs: Seq<FrameInput<S, F>>,
    k: int,
    m: int,
    id: u64,
)
    requires
        is_run(runs, inputs),
        0 <= k < m < runs.len(),
        runs[m].has_id(id),
        !runs[m - 1].has_id(id),
    ensures
        forall|i: int| 0 <= i < runs[k].tracks.len() ==> #[trigger] runs[k].tracks[i].id < id,
{
    lemma_run_inv(runs, inputs, k);
    lemma_next_id_grows(runs, inputs, k, m - 1);
    lemma_run_step(runs, inputs, m - 1);
    let j = choose|j: int| 0 <= j < runs[m].tracks.len() && #[trigger] runs[m].tracks[j].id == id;
    if exists|i: int|
        0 <= i < runs[m - 1].tracks.len() && #[trigger] runs[m - 1].tracks[i].id == runs[m].tracks[j].id
            && runs[m].tracks[j].age == runs[m - 1].tracks[i].age + 1 {
        let i = choose|i: int|
            0 <= i < runs[m - 1].tracks.len() && #[trigger] runs[m - 1].tracks[i].id
                == runs[m].tracks[j].id && runs[m].tracks[j].age == runs[m - 1].tracks[i].age + 1;
        assert(runs[m - 1].has_id(id));
    }
    assert(runs[m - 1].next_id <= id);
}

/// Along a run, a track that first appears at state `j` is, at any later
/// state `k` where it still is, `k - j + 1` frames old: age 1 on the frame
/// that creates it, one more on every later frame, matched or not.
pub proof fn lemma_age_counts_frames<S, F: Clone>(
    runs: Seq<TrackerView<S, F>>,
    inputs: Seq<FrameInput<S, F>>,
    j: int,
    k: int,
    id: u64,
)
    requires
        is_run(runs, inputs),
        1 <= j <= k < runs.len(),
        !runs[j - 1].has_id(id),
        runs[j].has_id(id),
        runs[k].has_id(id),
    ensures
        forall|t: int|
            0 <= t < runs[k].tracks.len() && (#[trigger] runs[k].tracks[t]).id == id
                ==> runs[k].tracks[t].age == k - j + 1,
    decreases k - j,
{
    lemma_run_step(runs, inputs, k - 1);
    if k == j {
        assert forall|t: int|
            0 <= t < runs[k].tracks.len() && (#[trigger] runs[k].tracks[t]).id == id
                implies runs[k].tracks[t].age == k - j + 1 by {
            if exists|i: int|
                0 <= i < runs[k - 1].tracks.len() && #[trigger] runs[k - 1].tracks[i].id
                    == runs[k].tracks[t].id && runs[k].tracks[t].age == runs[k - 1].tracks[i].age + 1 {
                let i = choose|i: int|
                    0 <= i < runs[k - 1].tracks.len() && #[trigger] runs[k - 1].tracks[i].id
                        == runs[k].tracks[t].id && runs[k].tracks[t].age == runs[k - 1].tracks[i].age + 1;
                assert(runs[k - 1].has_id(id));
            }
        }
    } else {
        if !runs[k - 1].has_id(id) {
            lemma_ids_not_revived(runs, inputs, j, k - 1, k, id);
        }
        lemma_age_counts_frames(runs, inputs, j, k - 1, id);
        assert forall|t: int|
            0 <= t < runs[k].tracks.len() && (#[trigger] runs[k].tracks[t]).id == id
                implies runs[k].tracks[t].age == k - j + 1 by {
            if exists|i: int|
                0 <= i < runs[k - 1].tracks.len() && #[trigger] runs[k - 1].tracks[i].id
                    == runs[k].tracks[t].id && runs[k].tracks[t].age == runs[k - 1].tracks[i].age + 1 {
                let i = choose|i: int|
                    0 <= i < runs[k - 1].tracks.len() && #[trigger] runs[k - 1].tracks[i].id
                        == runs[k].tracks[t].id && runs[k].tracks[t].age == runs[k - 1].tracks[i].age + 1;
            } else {
                let i0 = choose|i: int|
                    0 <= i < runs[k - 1].tracks.len() && #[trigger] runs[k - 1].tracks[i].id == id;
                assert(runs[k - 1].tracks[i0].id < runs[k - 1].next_id);
            }
        }
    }
}

/// The outcome of an update is determined by the tracker and the
/// arguments, given a feature type whose clones equal the value cloned: two
/// trackers with equal views given equal arguments end with equal views.
pub proof fn lemma_update_deterministic<S, F: Clone>(
    v: TrackerView<S, F>,
    matched: Seq<TrackUpdate<S, F>>,
    missed: Seq<usize>,
    created: Seq<NewTrack<S, F>>,
    next1: TrackerView<S, F>,
    next2: TrackerView<S, F>,
)
    requires
        forall|x: F, y: F| #[trigger] cloned(x, y) ==> x == y,
        v.updated(next1, matched, missed, created),
        v.updated(next2, matched, missed, created),
    ensures
        next1 == next2,
{
    let kept = live_tracks(v.frame_tracks(matched, missed, created));
    assert forall|j: int| 0 <= j < next1.tracks.len() implies #[trigger] next1.tracks[j] == next2.tracks[j] by {
        if kept[j].state == TrackState::Confirmed {
            assert(flushed(v, next1, kept[j], next1.tracks[j]));
            assert(flushed(v, next2, kept[j], next2.tracks[j]));
            assert(cloned(next1.bank[kept[j].id].last(), next1.tracks[j].features[0]));
            assert(cloned(next2.bank[kept[j].id].last(), next2.tracks[j].features[0]));
            assert(next1.tracks[j].features =~= next2.tracks[j].features);
        }
    }
    assert(next1.tracks =~= next2.tracks);
    assert forall|id: u64| next1.bank.contains_key(id) <==> next2.bank.contains_key(id) by {
        if next1.bank.contains_key(id) {
            assert(next1.is_confirmed_id(id));
            let j = choose|j: int| 0 <= j < next1.tracks.len() && #[trigger] next1.tracks[j].id == id
                && next1.tracks[j].state == TrackState::Confirmed;
            assert(next2.tracks[j].id == id);
        }
        if next2.bank.contains_key(id) {
            assert(next2.is_confirmed_id(id));
            let j = choose|j: int| 0 <= j < next2.tracks.len() && #[trigger] next2.tracks[j].id == id
                && next2.tracks[j].state == TrackState::Confirmed;
            assert(next1.tracks[j].id == id);
        }
    }
    assert forall|id: u64| next1.bank.contains_key(id) implies next1.bank[id] == next2.bank[id] by {
        assert(next1.is_confirmed_id(id));
        let j = choose|j: int| 0 <= j < next1.tracks.len() && #[trigger] next1.tracks[j].id == id
            && next1.tracks[j].state == TrackState::Confirmed;
        if kept[j].state != TrackState::Confirmed {
            assert(next1.tracks[j] == kept[j]);
        }
        assert(flushed(v, next1, kept[j], next1.tracks[j]));
        assert(flushed(v, next2, kept[j], next2.tracks[j]));
    }
    assert(next1.bank =~= next2.bank);
}

/// Two trackers in the same state that go through the same sequence of
/// frames, with the same arguments, are in the same state after each of
/// them, given a feature type whose clones equal the value cloned.
pub proof fn lemma_runs_deterministic<S, F: Clone>(
    runs1: Seq<TrackerView<S, F>>,
    runs2: Seq<TrackerView<S, F>>,
    inputs: Seq<FrameInput<S, F>>,
)
    requires
        forall|x: F, y: F| #[trigger] cloned(x, y) ==> x == y,
        is_run(runs1, inputs),
        is_run(runs2, inputs),
        runs1[0] == runs2[0],
    ensures
        runs1 == runs2,
{
    assert forall|k: int| 0 <= k < runs1.len() implies #[trigger] runs1[k] == runs2[k] by {
        lemma_runs_agree(runs1, runs2, inputs, k);
    }
    assert(runs1 =~= runs2);
}

/// The first `k + 1` states of two such runs agree.
proof fn lemma_runs_agree<S, F: Clone>(
    runs1: Seq<TrackerView<S, F>>,
    runs2: Seq<TrackerView<S, F>>,
    inputs: Seq<FrameInput<S, F>>,
    k: int,
)
    requires
        forall|x: F, y: F| #[trigger] cloned(x, y) ==> x == y,
        is_run(runs1, inputs),
        is_run(runs2, inputs),
        runs1[0] == runs2[0],
        0 <= k < runs1.len(),
    ensures
        runs1[k] == runs2[k],
    decreases k,
{
    if k > 0 {
        lemma_runs_agree(runs1, runs2, inputs, k - 1);
        assert(frame_at(runs1, inputs, k - 1));
        assert(frame_at(runs2, inputs, k - 1));
        let (m, a, b, c) = inputs[k - 1];
        lemma_update_deterministic(runs1[k - 1].after_predict(m), a, b, c, runs1[k], runs2[k]);
    }
}

} // verus!
