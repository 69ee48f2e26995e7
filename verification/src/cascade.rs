//! Association of a frame's detections with the tracks, as a sequence of
//! assignment problems that the caller solves on real-valued costs.
//!
//! First the matching cascade: confirmed tracks are matched by appearance,
//! one age level at a time, the tracks seen most recently first, against
//! the detections still free. Then one pass on box overlap, for the
//! unconfirmed tracks and the confirmed ones that were missed only in the
//! previous frame. The association asks for each problem in turn
//! (`next_request`) and takes back the solver's answer (`resolve`).
use vstd::prelude::*;
use crate::assignment::{
    is_injective_assignment, lemma_pick_elements, lemma_pick_member, lemma_pick_no_duplicates,
    lemma_split_partitions, matched_detections, matched_tracks, partitions, pick, spec_matches,
    spec_unmatched_detections, spec_unmatched_tracks, split_assignment, AssignmentResult,
};
use crate::track::{Track, TrackState, TrackView};
use crate::tracker::views;

verus! {

broadcast use vstd::seq_lib::group_seq_properties;

/// Final outcome of a frame's association, as track and detection indices.
#[derive(Debug)]
pub struct MatchOutput {
    pub matches: Vec<(usize, usize)>,
    pub unmatched_tracks: Vec<usize>,
    pub unmatched_detections: Vec<usize>,
}

/// Which cost the caller must use for an assignment problem.
#[derive(Clone, Copy, PartialEq, Eq, Structural, Debug)]
pub enum CostKind {
    /// Appearance distance, gated by motion.
    Appearance,
    /// One minus the overlap of the boxes.
    Iou,
}

/// An assignment problem to solve: rows are `tracks`, columns `detections`.
pub struct AssignmentRequest {
    pub kind: CostKind,
    pub tracks: Vec<usize>,
    pub detections: Vec<usize>,
    /// Whether each row's track was unmatched for at most one frame; in
    /// the overlap pass the others may not be matched.
    pub recent: Vec<bool>,
}

/// Where the association stands.
#[derive(Clone, Copy, PartialEq, Eq, Structural, Debug)]
pub enum Phase {
    /// In the cascade, no problem pending.
    Cascade,
    /// A cascade level was handed out and awaits its solution.
    AwaitingCascade,
    /// The overlap pass was handed out and awaits its solution.
    AwaitingIou,
    /// Finished.
    Done,
}

/// The association of one frame, driven by the caller: ask for a problem
/// with `next_request`, answer it with `resolve`, until there is none left,
/// then read the `output`.
pub struct Association {
    time_since_update: Vec<u32>,
    confirmed: Vec<usize>,
    unconfirmed: Vec<usize>,
    cascade_depth: u32,
    level: u32,
    phase: Phase,
    pending: Vec<usize>,
    matches: Vec<(usize, usize)>,
    unmatched_detections: Vec<usize>,
    stale: Vec<usize>,
    unmatched_tracks: Vec<usize>,
    n_detections: usize,
}

/// Abstract value of an association.
pub struct AssociationView {
    /// Frames since each track was last matched, by track index.
    pub time_since_update: Seq<u32>,
    /// Indices of the confirmed tracks, increasing.
    pub confirmed: Seq<usize>,
    /// Indices of the other tracks, increasing.
    pub unconfirmed: Seq<usize>,
    pub cascade_depth: u32,
    /// The next cascade level to look at.
    pub level: u32,
    pub phase: Phase,
    /// The tracks of the problem handed out.
    pub pending: Seq<usize>,
    pub matches: Seq<(usize, usize)>,
    pub unmatched_detections: Seq<usize>,
    /// Confirmed tracks unmatched by the cascade and missed for more than
    /// one frame: they take no part in the overlap pass.
    pub stale: Seq<usize>,
    pub unmatched_tracks: Seq<usize>,
    pub n_detections: nat,
}

impl View for Association {
    type V = AssociationView;

    closed spec fn view(&self) -> AssociationView {
        AssociationView {
            time_since_update: self.time_since_update@,
            confirmed: self.confirmed@,
            unconfirmed: self.unconfirmed@,
            cascade_depth: self.cascade_depth,
            level: self.level,
            phase: self.phase,
            pending: self.pending@,
            matches: self.matches@,
            unmatched_detections: self.unmatched_detections@,
            stale: self.stale@,
            unmatched_tracks: self.unmatched_tracks@,
            n_detections: self.n_detections as nat,
        }
    }
}

/// The indices `0..n`.
pub open spec fn index_range(n: nat) -> Set<usize> {
    Set::new(|i: usize| i < n)
}

/// Whether each track is confirmed.
pub open spec fn confirmed_flags<S, F>(tracks: Seq<TrackView<S, F>>) -> Seq<bool> {
    Seq::new(tracks.len(), |i: int| tracks[i].state == TrackState::Confirmed)
}

/// Frames since each track was last matched.
pub open spec fn ages_since_update<S, F>(tracks: Seq<TrackView<S, F>>) -> Seq<u32> {
    Seq::new(tracks.len(), |i: int| tracks[i].time_since_update)
}

/// Indices among the first `k` whose flag is set.
pub open spec fn flagged_prefix(flags: Seq<bool>, k: nat) -> Seq<usize> {
    pick(|i: int| i as usize, |i: int| flags[i], k)
}

/// Indices among the first `k` whose flag is clear.
pub open spec fn unflagged_prefix(flags: Seq<bool>, k: nat) -> Seq<usize> {
    pick(|i: int| i as usize, |i: int| !flags[i], k)
}

/// Among the first `k` confirmed tracks, those unmatched for exactly
/// `level + 1` frames.
pub open spec fn level_prefix(confirmed: Seq<usize>, tsu: Seq<u32>, level: int, k: nat) -> Seq<usize> {
    pick(|i: int| confirmed[i], |i: int| tsu[confirmed[i] as int] == level + 1, k)
}

/// The confirmed tracks at cascade level `level`.
pub open spec fn level_group(confirmed: Seq<usize>, tsu: Seq<u32>, level: int) -> Seq<usize> {
    level_prefix(confirmed, tsu, level, confirmed.len())
}

/// Among the first `k` confirmed tracks, those the cascade left unmatched.
pub open spec fn leftover_prefix(confirmed: Seq<usize>, matches: Seq<(usize, usize)>, k: nat) -> Seq<
    usize,
> {
    pick(|i: int| confirmed[i], |i: int| !matched_tracks(matches).contains(confirmed[i]), k)
}

/// Among the first `k` of `left`, those missed only in the previous frame.
pub open spec fn recent_prefix(left: Seq<usize>, tsu: Seq<u32>, k: nat) -> Seq<usize> {
    pick(|i: int| left[i], |i: int| tsu[left[i] as int] == 1, k)
}

/// Among the first `k` of `left`, those missed for longer.
pub open spec fn stale_prefix(left: Seq<usize>, tsu: Seq<u32>, k: nat) -> Seq<usize> {
    pick(|i: int| left[i], |i: int| tsu[left[i] as int] != 1, k)
}

impl AssociationView {
    pub open spec fn n_tracks(self) -> nat {
        self.time_since_update.len()
    }

    /// Confirmed tracks the cascade left unmatched.
    pub open spec fn leftover(self) -> Seq<usize> {
        leftover_prefix(self.confirmed, self.matches, self.confirmed.len())
    }

    /// Tracks that take part in the overlap pass: the unconfirmed ones,
    /// then the leftover ones missed only in the previous frame.
    pub open spec fn iou_candidates(self) -> Seq<usize> {
        self.unconfirmed + recent_prefix(self.leftover(), self.time_since_update, self.leftover().len())
    }

    /// Leftover tracks missed for more than one frame.
    pub open spec fn stale_tracks(self) -> Seq<usize> {
        stale_prefix(self.leftover(), self.time_since_update, self.leftover().len())
    }

    /// `next` is this association after handing out the problem of the
    /// given kind, with rows `tracks` and columns `detections`.
    pub open spec fn handed_out(
        self,
        next: Self,
        kind: CostKind,
        tracks: Seq<usize>,
        detections: Seq<usize>,
    ) -> bool {
        &&& detections == self.unmatched_detections
        &&& next.pending == tracks
        &&& next == AssociationView {
            level: next.level,
            phase: next.phase,
            pending: next.pending,
            stale: next.stale,
            ..self
        }
        &&& match kind {
            CostKind::Appearance => {
                &&& next.phase == Phase::AwaitingCascade
                &&& self.level < next.level <= self.cascade_depth
                &&& self.unmatched_detections.len() > 0
                &&& self.empty_levels(self.level as int, next.level - 1)
                &&& tracks == level_group(self.confirmed, self.time_since_update, next.level - 1)
                &&& tracks.len() > 0
                &&& next.stale == self.stale
            },
            CostKind::Iou => {
                &&& next.phase == Phase::AwaitingIou
                &&& self.level <= next.level <= self.cascade_depth
                &&& self.empty_levels(self.level as int, next.level as int)
                &&& (next.level == self.cascade_depth || self.unmatched_detections.len() == 0)
                &&& tracks == self.iou_candidates()
                &&& next.stale == self.stale_tracks()
            },
        }
    }

    /// `next` is this association once the pending problem got the
    /// solver's `assignment`, `exceeds[r]` telling whether row `r`'s pair
    /// is over the threshold.
    pub open spec fn resolved(self, next: Self, assignment: Seq<usize>, exceeds: Seq<bool>) -> bool {
        let found = spec_matches(assignment, exceeds, self.pending, self.unmatched_detections);
        &&& next.matches == self.matches + found
        &&& next.unmatched_detections == spec_unmatched_detections(
            assignment,
            exceeds,
            self.pending,
            self.unmatched_detections,
        )
        &&& next == AssociationView {
            matches: next.matches,
            unmatched_detections: next.unmatched_detections,
            phase: next.phase,
            unmatched_tracks: next.unmatched_tracks,
            ..self
        }
        &&& self.phase == Phase::AwaitingCascade ==> next.phase == Phase::Cascade
            && next.unmatched_tracks == self.unmatched_tracks
        &&& self.phase == Phase::AwaitingIou ==> next.phase == Phase::Done && next.unmatched_tracks
            == self.stale + spec_unmatched_tracks(
            assignment,
            exceeds,
            self.pending,
            self.unmatched_detections,
        )
    }

    /// No cascade level in `[from, to)` has a track.
    pub open spec fn empty_levels(self, from: int, to: int) -> bool {
        forall|l: int| from <= l < to ==> #[trigger] level_group(self.confirmed, self.time_since_update, l).len() == 0
    }

    /// The cascade matches are distinct confirmed tracks, none unmatched
    /// for more than `bound` frames.
    pub open spec fn cascade_matches_ok(self, bound: int) -> bool {
        &&& matched_tracks(self.matches).no_duplicates()
        &&& forall|i: int|
            0 <= i < self.matches.len() ==> self.confirmed.contains(#[trigger] self.matches[i].0)
                && self.time_since_update[self.matches[i].0 as int] <= bound
    }

    pub open spec fn inv(self) -> bool {
        &&& self.n_tracks() <= usize::MAX
        &&& self.n_detections <= usize::MAX
        &&& partitions(self.confirmed + self.unconfirmed, index_range(self.n_tracks()))
        &&& self.level <= self.cascade_depth
        &&& partitions(
            matched_detections(self.matches) + self.unmatched_detections,
            index_range(self.n_detections),
        )
        &&& match self.phase {
            Phase::Cascade => self.cascade_matches_ok(self.level as int),
            Phase::AwaitingCascade => {
                &&& self.level >= 1
                &&& self.cascade_matches_ok(self.level - 1)
                &&& self.pending.no_duplicates()
                &&& forall|i: int|
                    0 <= i < self.pending.len() ==> self.confirmed.contains(#[trigger] self.pending[i])
                        && self.time_since_update[self.pending[i] as int] == self.level
            },
            Phase::AwaitingIou => partitions(
                matched_tracks(self.matches) + self.stale + self.pending,
                index_range(self.n_tracks()),
            ),
            Phase::Done => partitions(
                matched_tracks(self.matches) + self.unmatched_tracks,
                index_range(self.n_tracks()),
            ),
        }
    }
}

/// For each track of `tracks`, whether it was unmatched for at most one
/// frame.
pub open spec fn recency(tracks: Seq<usize>, tsu: Seq<u32>) -> Seq<bool> {
    Seq::new(tracks.len(), |i: int| tsu[tracks[i] as int] <= 1)
}

/// A copy of a list of indices.
fn copy_indices(v: &Vec<usize>) -> (r: Vec<usize>)
    ensures
        r@ == v@,
{
    let mut r: Vec<usize> = Vec::new();
    let mut i: usize = 0;
    while i < v.len()
        invariant
            i <= v.len(),
            r@ == v@.take(i as int),
        decreases v.len() - i,
    {
        r.push(v[i]);
        proof {
            assert(r@ =~= v@.take(i + 1));
        }
        i += 1;
    }
    proof {
        assert(v@.take(v.len() as int) =~= v@);
    }
    r
}

/// Lists of disjoint sets concatenate into a list of their union.
pub proof fn lemma_partitions_concat(a: Seq<usize>, b: Seq<usize>, x: Set<usize>, y: Set<usize>)
    requires
        partitions(a, x),
        partitions(b, y),
        x.disjoint(y),
    ensures
        partitions(a + b, x.union(y)),
{
    assert forall|i: int, j: int| 0 <= i < a.len() && 0 <= j < b.len() implies a[i] != b[j] by {
        assert(a.contains(a[i]));
        assert(b.contains(b[j]));
        assert(x.contains(a[i]));
        assert(y.contains(b[j]));
    }
    vstd::seq_lib::lemma_no_dup_in_concat(a, b);
    assert((a + b).to_set() =~= x.union(y));
}

/// The list `0, 1, .., n - 1` lists the indices below `n`.
pub proof fn lemma_range_partitions(n: nat)
    requires
        n <= usize::MAX,
    ensures
        partitions(Seq::new(n, |i: int| i as usize), index_range(n)),
{
    let s = Seq::new(n, |i: int| i as usize);
    assert forall|x: usize| s.contains(x) <==> index_range(n).contains(x) by {
        if x < n {
            assert(s[x as int] == x);
        }
    }
    assert(s.to_set() =~= index_range(n));
}

/// The flagged and unflagged indices together list the indices below
/// `flags.len()`.
pub proof fn lemma_flags_partition(flags: Seq<bool>)
    requires
        flags.len() <= usize::MAX,
    ensures
        partitions(
            flagged_prefix(flags, flags.len()) + unflagged_prefix(flags, flags.len()),
            index_range(flags.len()),
        ),
{
    let n = flags.len();
    let f = |i: int| i as usize;
    let yes = |i: int| flags[i];
    let no = |i: int| !flags[i];
    lemma_pick_no_duplicates(f, yes, n);
    lemma_pick_no_duplicates(f, no, n);
    lemma_pick_elements(f, yes, n);
    lemma_pick_elements(f, no, n);
    let a = pick(f, yes, n);
    let b = pick(f, no, n);
    let x = Set::new(|i: usize| i < n && flags[i as int]);
    let y = Set::new(|i: usize| i < n && !flags[i as int]);
    assert forall|v: usize| a.contains(v) <==> x.contains(v) by {
        if a.contains(v) {
            lemma_pick_member(f, yes, n, v);
            let r = choose|r: int| 0 <= r < n && #[trigger] yes(r) && f(r) == v;
        }
        if x.contains(v) {
            assert(f(v as int) == v);
            assert(a.contains(f(v as int)));
        }
    }
    assert forall|v: usize| b.contains(v) <==> y.contains(v) by {
        if b.contains(v) {
            lemma_pick_member(f, no, n, v);
            let r = choose|r: int| 0 <= r < n && #[trigger] no(r) && f(r) == v;
        }
        if y.contains(v) {
            assert(f(v as int) == v);
            assert(b.contains(f(v as int)));
        }
    }
    assert(a.to_set() =~= x);
    assert(b.to_set() =~= y);
    lemma_partitions_concat(a, b, x, y);
    assert(x.union(y) =~= index_range(n));
}

/// A list of a union splits back into lists of its two parts.
pub proof fn lemma_partitions_split(a: Seq<usize>, b: Seq<usize>, w: Set<usize>)
    requires
        partitions(a + b, w),
    ensures
        partitions(a, a.to_set()),
        partitions(b, b.to_set()),
        a.to_set().disjoint(b.to_set()),
        w == a.to_set().union(b.to_set()),
{
    let s = a + b;
    assert forall|i: int, j: int| 0 <= i < a.len() && 0 <= j < a.len() && i != j implies a[i] != a[j] by {
        assert(s[i] == a[i] && s[j] == a[j]);
    }
    assert forall|i: int, j: int| 0 <= i < b.len() && 0 <= j < b.len() && i != j implies b[i] != b[j] by {
        assert(s[i + a.len()] == b[i] && s[j + a.len()] == b[j]);
    }
    assert forall|x: usize| a.to_set().contains(x) implies !b.to_set().contains(x) by {
        let i = choose|i: int| 0 <= i < a.len() && a[i] == x;
        if b.contains(x) {
            let j = choose|j: int| 0 <= j < b.len() && b[j] == x;
            assert(s[i] == x && s[j + a.len()] == x);
        }
    }
    assert(w =~= a.to_set().union(b.to_set()));
}

/// Picking from a list without duplicates lists the picked elements once.
pub proof fn lemma_pick_of_list(s: Seq<usize>, keep: spec_fn(int) -> bool)
    requires
        s.no_duplicates(),
    ensures
        partitions(
            pick(|i: int| s[i], keep, s.len()),
            Set::new(|x: usize| exists|i: int| 0 <= i < s.len() && s[i] == x && #[trigger] keep(i)),
        ),
{
    let f = |i: int| s[i];
    let n = s.len();
    let w = Set::new(|x: usize| exists|i: int| 0 <= i < s.len() && s[i] == x && #[trigger] keep(i));
    lemma_pick_no_duplicates(f, keep, n);
    lemma_pick_elements(f, keep, n);
    assert forall|x: usize| pick(f, keep, n).contains(x) <==> w.contains(x) by {
        if pick(f, keep, n).contains(x) {
            lemma_pick_member(f, keep, n, x);
            let r = choose|r: int| 0 <= r < n && #[trigger] keep(r) && f(r) == x;
            assert(s[r] == x && keep(r));
        }
        if w.contains(x) {
            let r = choose|r: int| 0 <= r < s.len() && s[r] == x && #[trigger] keep(r);
            assert(pick(f, keep, n).contains(f(r)));
        }
    }
    assert(pick(f, keep, n).to_set() =~= w);
}

impl Association {
    pub open spec fn wf(&self) -> bool {
        self@.inv()
    }

    /// Starts the association of `n_detections` detections with `tracks`,
    /// the cascade covering `cascade_depth` levels.
    pub fn new<S, F>(tracks: &Vec<Track<S, F>>, n_detections: usize, cascade_depth: u32) -> (a: Self)
        ensures
            a.wf(),
            a@.time_since_update == ages_since_update(views(tracks@)),
            a@.confirmed == flagged_prefix(confirmed_flags(views(tracks@)), tracks.len() as nat),
            a@.unconfirmed == unflagged_prefix(confirmed_flags(views(tracks@)), tracks.len() as nat),
            a@.cascade_depth == cascade_depth,
            a@.level == 0,
            a@.phase == Phase::Cascade,
            a@.matches.len() == 0,
            a@.unmatched_detections == Seq::new(n_detections as nat, |i: int| i as usize),
            a@.n_detections == n_detections,
    {
        let ghost tv = views(tracks@);
        let ghost flags = confirmed_flags(tv);
        let n = tracks.len();
        let mut time_since_update: Vec<u32> = Vec::new();
        let mut confirmed: Vec<usize> = Vec::new();
        let mut unconfirmed: Vec<usize> = Vec::new();
        let mut i: usize = 0;
        while i < n
            invariant
                n == tracks.len(),
                tv == views(tracks@),
                flags == confirmed_flags(tv),
                i <= n,
                time_since_update@ == ages_since_update(tv).take(i as int),
                confirmed@ == flagged_prefix(flags, i as nat),
                unconfirmed@ == unflagged_prefix(flags, i as nat),
            decreases n - i,
        {
            time_since_update.push(tracks[i].time_since_update);
            if tracks[i].is_confirmed() {
                confirmed.push(i);
            } else {
                unconfirmed.push(i);
            }
            proof {
                assert(tv[i as int] == tracks@[i as int]@);
                assert(time_since_update@ =~= ages_since_update(tv).take(i + 1));
            }
            i += 1;
        }
        let mut unmatched_detections: Vec<usize> = Vec::new();
        let mut d: usize = 0;
        while d < n_detections
            invariant
                d <= n_detections,
                unmatched_detections@ == Seq::new(d as nat, |j: int| j as usize),
            decreases n_detections - d,
        {
            unmatched_detections.push(d);
            proof {
                assert(unmatched_detections@ =~= Seq::new((d + 1) as nat, |j: int| j as usize));
            }
            d += 1;
        }
        let a = Association {
            time_since_update,
            confirmed,
            unconfirmed,
            cascade_depth,
            level: 0,
            phase: Phase::Cascade,
            pending: Vec::new(),
            matches: Vec::new(),
            unmatched_detections,
            stale: Vec::new(),
            unmatched_tracks: Vec::new(),
            n_detections,
        };
        proof {
            assert(ages_since_update(tv).take(n as int) =~= ages_since_update(tv));
            lemma_flags_partition(flags);
            lemma_range_partitions(n_detections as nat);
            assert(matched_detections(a@.matches) + a@.unmatched_detections =~= a@.unmatched_detections);
        }
        a
    }
}

/// Bounds and distinctness that follow from the invariant.
pub proof fn lemma_view_bounds(v: AssociationView)
    requires
        v.inv(),
    ensures
        forall|i: int| 0 <= i < v.confirmed.len() ==> #[trigger] v.confirmed[i] < v.n_tracks(),
        forall|i: int| 0 <= i < v.unconfirmed.len() ==> #[trigger] v.unconfirmed[i] < v.n_tracks(),
        forall|i: int|
            0 <= i < v.unmatched_detections.len() ==> #[trigger] v.unmatched_detections[i]
                < v.n_detections,
        v.confirmed.no_duplicates(),
        v.unconfirmed.no_duplicates(),
        v.unmatched_detections.no_duplicates(),
        v.confirmed.to_set().disjoint(v.unconfirmed.to_set()),
{
    lemma_partitions_split(v.confirmed, v.unconfirmed, index_range(v.n_tracks()));
    lemma_partitions_split(
        matched_detections(v.matches),
        v.unmatched_detections,
        index_range(v.n_detections),
    );
    assert forall|i: int| 0 <= i < v.confirmed.len() implies #[trigger] v.confirmed[i] < v.n_tracks() by {
        assert(v.confirmed.to_set().contains(v.confirmed[i]));
        assert(index_range(v.n_tracks()).contains(v.confirmed[i]));
    }
    assert forall|i: int| 0 <= i < v.unconfirmed.len() implies #[trigger] v.unconfirmed[i]
        < v.n_tracks() by {
        assert(v.unconfirmed.to_set().contains(v.unconfirmed[i]));
        assert(index_range(v.n_tracks()).contains(v.unconfirmed[i]));
    }
    assert forall|i: int| 0 <= i < v.unmatched_detections.len() implies #[trigger] v.unmatched_detections[i]
        < v.n_detections by {
        assert(v.unmatched_detections.to_set().contains(v.unmatched_detections[i]));
        assert(index_range(v.n_detections).contains(v.unmatched_detections[i]));
    }
}

impl Association {
    /// The confirmed tracks at cascade level `level`.
    fn collect_level(&self, level: u32) -> (group: Vec<usize>)
        requires
            self.wf(),
            level < u32::MAX,
        ensures
            group@ == level_group(self@.confirmed, self@.time_since_update, level as int),
    {
        proof {
            lemma_view_bounds(self@);
        }
        let n = self.confirmed.len();
        let mut group: Vec<usize> = Vec::new();
        let mut i: usize = 0;
        while i < n
            invariant
                n == self.confirmed.len(),
                i <= n,
                level < u32::MAX,
                forall|j: int| 0 <= j < n ==> #[trigger] self.confirmed@[j] < self.time_since_update.len(),
                group@ == level_prefix(self.confirmed@, self.time_since_update@, level as int, i as nat),
            decreases n - i,
        {
            let t = self.confirmed[i];
            if self.time_since_update[t] == level + 1 {
                group.push(t);
            }
            i += 1;
        }
        group
    }

    /// Whether the cascade has matched track `t`.
    fn is_matched_track(&self, t: usize) -> (b: bool)
        ensures
            b == matched_tracks(self@.matches).contains(t),
    {
        let n = self.matches.len();
        let mut i: usize = 0;
        while i < n
            invariant
                n == self.matches.len(),
                i <= n,
                forall|j: int| 0 <= j < i ==> self.matches@[j].0 != t,
            decreases n - i,
        {
            if self.matches[i].0 == t {
                proof {
                    assert(matched_tracks(self@.matches)[i as int] == t);
                }
                return true;
            }
            i += 1;
        }
        proof {
            if matched_tracks(self@.matches).contains(t) {
                let j = choose|j: int|
                    0 <= j < matched_tracks(self@.matches).len() && matched_tracks(self@.matches)[j]
                        == t;
                assert(self.matches@[j].0 == t);
            }
        }
        false
    }

    /// The confirmed tracks the cascade left unmatched.
    fn collect_leftover(&self) -> (left: Vec<usize>)
        ensures
            left@ == self@.leftover(),
    {
        let n = self.confirmed.len();
        let mut left: Vec<usize> = Vec::new();
        let mut i: usize = 0;
        while i < n
            invariant
                n == self.confirmed.len(),
                i <= n,
                left@ == leftover_prefix(self.confirmed@, self.matches@, i as nat),
            decreases n - i,
        {
            let t = self.confirmed[i];
            if !self.is_matched_track(t) {
                left.push(t);
            }
            i += 1;
        }
        left
    }

    /// Splits `left` into the tracks missed only in the previous frame and
    /// the others.
    fn split_by_recency(&self, left: &Vec<usize>) -> (r: (Vec<usize>, Vec<usize>))
        requires
            forall|j: int| 0 <= j < left.len() ==> #[trigger] left@[j] < self.time_since_update.len(),
        ensures
            r.0@ == recent_prefix(left@, self@.time_since_update, left@.len()),
            r.1@ == stale_prefix(left@, self@.time_since_update, left@.len()),
    {
        let n = left.len();
        let mut recent: Vec<usize> = Vec::new();
        let mut stale: Vec<usize> = Vec::new();
        let mut i: usize = 0;
        while i < n
            invariant
                n == left.len(),
                i <= n,
                forall|j: int| 0 <= j < n ==> #[trigger] left@[j] < self.time_since_update.len(),
                recent@ == recent_prefix(left@, self.time_since_update@, i as nat),
                stale@ == stale_prefix(left@, self.time_since_update@, i as nat),
            decreases n - i,
        {
            let t = left[i];
            if self.time_since_update[t] == 1 {
                recent.push(t);
            } else {
                stale.push(t);
            }
            i += 1;
        }
        (recent, stale)
    }
}

impl Association {
    /// For each track of the pending problem, whether it was unmatched for
    /// at most one frame.
    fn pending_recency(&self) -> (flags: Vec<bool>)
        requires
            self.wf(),
            self@.phase == Phase::AwaitingCascade || self@.phase == Phase::AwaitingIou,
        ensures
            flags@ == recency(self@.pending, self@.time_since_update),
    {
        proof {
            let v = self@;
            lemma_view_bounds(v);
            if v.phase == Phase::AwaitingIou {
                lemma_partitions_split(matched_tracks(v.matches) + v.stale, v.pending, index_range(v.n_tracks()));
            }
            assert forall|j: int| 0 <= j < v.pending.len() implies #[trigger] v.pending[j] < v.n_tracks() by {
                if v.phase == Phase::AwaitingIou {
                    assert(v.pending.to_set().contains(v.pending[j]));
                    assert(index_range(v.n_tracks()).contains(v.pending[j]));
                } else {
                    let k = choose|k: int| 0 <= k < v.confirmed.len() && v.confirmed[k] == v.pending[j];
                }
            }
        }
        let n = self.pending.len();
        let mut flags: Vec<bool> = Vec::new();
        let mut i: usize = 0;
        while i < n
            invariant
                n == self.pending.len(),
                i <= n,
                forall|j: int| 0 <= j < n ==> #[trigger] self.pending@[j] < self.time_since_update.len(),
                flags@ == recency(self.pending@, self.time_since_update@).take(i as int),
            decreases n - i,
        {
            flags.push(self.time_since_update[self.pending[i]] <= 1);
            proof {
                assert(flags@ =~= recency(self.pending@, self.time_since_update@).take(i + 1));
            }
            i += 1;
        }
        proof {
            assert(flags@ =~= recency(self.pending@, self.time_since_update@));
        }
        flags
    }
}

/// The overlap pass lists every track once, together with the cascade
/// matches and the stale tracks.
proof fn lemma_iou_pass_partitions(v: AssociationView)
    requires
        v.inv(),
        v.phase == Phase::Cascade,
    ensures
        partitions(
            matched_tracks(v.matches) + v.stale_tracks() + v.iou_candidates(),
            index_range(v.n_tracks()),
        ),
{
    lemma_view_bounds(v);
    lemma_partitions_split(v.confirmed, v.unconfirmed, index_range(v.n_tracks()));
    let mt = matched_tracks(v.matches);
    let c = v.confirmed;
    let tsu = v.time_since_update;
    let keep_left = |i: int| !matched_tracks(v.matches).contains(c[i]);
    let left = v.leftover();
    assert(left == pick(|i: int| c[i], keep_left, c.len()));
    lemma_pick_of_list(c, keep_left);
    let lset = Set::new(|x: usize| exists|i: int| 0 <= i < c.len() && c[i] == x && #[trigger] keep_left(i));
    let keep_recent = |i: int| tsu[left[i] as int] == 1;
    let keep_stale = |i: int| tsu[left[i] as int] != 1;
    let recent = recent_prefix(left, tsu, left.len());
    let stale = v.stale_tracks();
    assert(recent == pick(|i: int| left[i], keep_recent, left.len()));
    assert(stale == pick(|i: int| left[i], keep_stale, left.len()));
    lemma_pick_of_list(left, keep_recent);
    lemma_pick_of_list(left, keep_stale);
    let rset = Set::new(|x: usize| exists|i: int| 0 <= i < left.len() && left[i] == x && #[trigger] keep_recent(i));
    let sset = Set::new(|x: usize| exists|i: int| 0 <= i < left.len() && left[i] == x && #[trigger] keep_stale(i));
    let mset = mt.to_set();
    let cset = c.to_set();
    let uset = v.unconfirmed.to_set();
    // The cascade matches are confirmed tracks.
    assert forall|x: usize| mset.contains(x) implies cset.contains(x) by {
        let i = choose|i: int| 0 <= i < mt.len() && mt[i] == x;
        assert(v.matches[i].0 == x);
    }
    // The leftover tracks are the confirmed ones not matched.
    assert forall|x: usize| lset.contains(x) <==> cset.contains(x) && !mset.contains(x) by {
        if cset.contains(x) && !mset.contains(x) {
            let i = choose|i: int| 0 <= i < c.len() && c[i] == x;
            assert(keep_left(i));
        }
    }
    // Recent and stale split the leftover tracks.
    assert forall|x: usize| rset.contains(x) || sset.contains(x) <==> lset.contains(x) by {
        if lset.contains(x) {
            assert(left.to_set().contains(x));
            let i = choose|i: int| 0 <= i < left.len() && left[i] == x;
            if tsu[x as int] == 1 {
                assert(keep_recent(i));
            } else {
                assert(keep_stale(i));
            }
        }
        if rset.contains(x) {
            let i = choose|i: int| 0 <= i < left.len() && left[i] == x && #[trigger] keep_recent(i);
            assert(left.to_set().contains(x));
        }
        if sset.contains(x) {
            let i = choose|i: int| 0 <= i < left.len() && left[i] == x && #[trigger] keep_stale(i);
            assert(left.to_set().contains(x));
        }
    }
    assert forall|x: usize| rset.contains(x) implies !sset.contains(x) by {
        let i = choose|i: int| 0 <= i < left.len() && left[i] == x && #[trigger] keep_recent(i);
        if sset.contains(x) {
            let j = choose|j: int| 0 <= j < left.len() && left[j] == x && #[trigger] keep_stale(j);
        }
    }
    assert(mt.no_duplicates());
    lemma_partitions_concat(mt, stale, mset, sset);
    lemma_partitions_concat(v.unconfirmed, recent, uset, rset);
    assert(mset.union(sset).disjoint(uset.union(rset)));
    lemma_partitions_concat(mt + stale, v.unconfirmed + recent, mset.union(sset), uset.union(rset));
    assert(mset.union(sset).union(uset.union(rset)) =~= index_range(v.n_tracks()));
}

impl Association {
    /// Hands out the next assignment problem: the next non-empty cascade
    /// level while free detections remain, then the overlap pass. Returns
    /// `None` once the association is finished.
    pub fn next_request(&mut self) -> (req: Option<AssignmentRequest>)
        requires
            old(self).wf(),
            old(self)@.phase == Phase::Cascade || old(self)@.phase == Phase::Done,
        ensures
            final(self).wf(),
            old(self)@.phase == Phase::Done ==> req is None && final(self)@ == old(self)@,
            old(self)@.phase == Phase::Cascade ==> req is Some,
            req matches Some(r) ==> old(self)@.handed_out(
                final(self)@,
                r.kind,
                r.tracks@,
                r.detections@,
            ) && r.recent@ == recency(r.tracks@, old(self)@.time_since_update),
    {
        if self.phase == Phase::Done {
            return None;
        }
        let ghost start = self@;
        while self.level < self.cascade_depth && self.unmatched_detections.len() > 0
            invariant
                start == old(self)@,
                start.inv(),
                start.phase == Phase::Cascade,
                self.wf(),
                self@.phase == Phase::Cascade,
                self@ == (AssociationView { level: self@.level, ..start }),
                start.level <= self@.level <= start.cascade_depth,
                start.empty_levels(start.level as int, self@.level as int),
            decreases self.cascade_depth - self.level,
        {
            let level = self.level;
            let group = self.collect_level(level);
            self.level = level + 1;
            if group.len() > 0 {
                self.pending = copy_indices(&group);
                self.phase = Phase::AwaitingCascade;
                let detections = copy_indices(&self.unmatched_detections);
                proof {
                    let c = start.confirmed;
                    let keep = |i: int| start.time_since_update[c[i] as int] == level + 1;
                    lemma_view_bounds(start);
                    assert(group@ == pick(|i: int| c[i], keep, c.len()));
                    lemma_pick_of_list(c, keep);
                    assert forall|i: int| 0 <= i < self@.pending.len() implies c.contains(
                        #[trigger] self@.pending[i],
                    ) && start.time_since_update[self@.pending[i] as int] == self@.level by {
                        assert(group@.to_set().contains(group@[i]));
                        let j = choose|j: int| 0 <= j < c.len() && c[j] == group@[i] && #[trigger] keep(j);
                    }
                }
                let recent = self.pending_recency();
                return Some(
                    AssignmentRequest { kind: CostKind::Appearance, tracks: group, detections, recent },
                );
            }
        }
        let ghost mid = self@;
        let left = self.collect_leftover();
        proof {
            lemma_view_bounds(self@);
            let c = self@.confirmed;
            let keep = |i: int| !matched_tracks(self@.matches).contains(c[i]);
            assert(left@ == pick(|i: int| c[i], keep, c.len()));
            lemma_pick_of_list(c, keep);
            assert forall|j: int| 0 <= j < left.len() implies #[trigger] left@[j] < self.time_since_update.len() by {
                assert(left@.to_set().contains(left@[j]));
                let i = choose|i: int| 0 <= i < c.len() && c[i] == left@[j] && #[trigger] keep(i);
            }
        }
        let (recent, stale) = self.split_by_recency(&left);
        let mut candidates = copy_indices(&self.unconfirmed);
        let mut recent = recent;
        candidates.append(&mut recent);
        self.stale = stale;
        self.pending = copy_indices(&candidates);
        self.phase = Phase::AwaitingIou;
        let detections = copy_indices(&self.unmatched_detections);
        proof {
            lemma_iou_pass_partitions(mid);
            assert(self@.pending == mid.iou_candidates());
            assert(self@.stale == mid.stale_tracks());
        }
        let recent = self.pending_recency();
        Some(AssignmentRequest { kind: CostKind::Iou, tracks: candidates, detections, recent })
    }
}

/// The tracks (detections) of two lists of matches, one after the other.
proof fn lemma_matched_concat(a: Seq<(usize, usize)>, b: Seq<(usize, usize)>)
    ensures
        matched_tracks(a + b) == matched_tracks(a) + matched_tracks(b),
        matched_detections(a + b) == matched_detections(a) + matched_detections(b),
{
    assert(matched_tracks(a + b) =~= matched_tracks(a) + matched_tracks(b));
    assert(matched_detections(a + b) =~= matched_detections(a) + matched_detections(b));
}

impl Association {
    /// Takes the solver's answer to the pending problem: `assignment[r]`
    /// is the column given to row `r` (at or beyond the number of
    /// detections: none), and `exceeds_threshold[r]` whether that pair's
    /// cost is over the matching threshold.
    pub fn resolve(&mut self, assignment: &Vec<usize>, exceeds_threshold: &Vec<bool>)
        requires
            old(self).wf(),
            old(self)@.phase == Phase::AwaitingCascade || old(self)@.phase == Phase::AwaitingIou,
            assignment.len() == old(self)@.pending.len(),
            exceeds_threshold.len() == old(self)@.pending.len(),
            is_injective_assignment(assignment@, old(self)@.unmatched_detections.len()),
        ensures
            final(self).wf(),
            old(self)@.resolved(final(self)@, assignment@, exceeds_threshold@),
    {
        let ghost v = self@;
        let n_free = self.unmatched_detections.len();
        proof {
            assert(v.unmatched_detections.len() == n_free);
            lemma_view_bounds(v);
            if v.phase == Phase::AwaitingIou {
                lemma_partitions_split(
                    matched_tracks(v.matches) + v.stale,
                    v.pending,
                    index_range(v.n_tracks()),
                );
            }
            lemma_split_partitions(assignment@, exceeds_threshold@, v.pending, v.unmatched_detections);
        }
        let result = split_assignment(
            assignment,
            exceeds_threshold,
            &self.pending,
            &self.unmatched_detections,
        );
        let AssignmentResult { mut matches, unmatched_tracks, unmatched_detections } = result;
        let ghost found = matches@;
        let ghost left_tracks = unmatched_tracks@;
        self.matches.append(&mut matches);
        self.unmatched_detections = unmatched_detections;
        if self.phase == Phase::AwaitingCascade {
            self.phase = Phase::Cascade;
        } else {
            let mut all = copy_indices(&self.stale);
            let mut rest = unmatched_tracks;
            all.append(&mut rest);
            self.unmatched_tracks = all;
            self.phase = Phase::Done;
        }
        proof {
            let w = self@;
            lemma_matched_concat(v.matches, found);
            // Detections.
            let dx = matched_detections(v.matches);
            lemma_partitions_split(dx, v.unmatched_detections, index_range(v.n_detections));
            lemma_partitions_concat(
                dx,
                matched_detections(found) + w.unmatched_detections,
                dx.to_set(),
                v.unmatched_detections.to_set(),
            );
            assert(matched_detections(w.matches) + w.unmatched_detections =~= dx + (
            matched_detections(found) + w.unmatched_detections));
            // Tracks.
            let tx = matched_tracks(v.matches);
            let tf = matched_tracks(found);
            lemma_partitions_split(tf, left_tracks, v.pending.to_set());
            if v.phase == Phase::AwaitingCascade {
                assert forall|i: int, j: int| 0 <= i < tx.len() && 0 <= j < tf.len() implies tx[i]
                    != tf[j] by {
                    assert(tf.to_set().contains(tf[j]));
                    assert(v.pending.to_set().contains(tf[j]));
                    assert(v.pending.contains(tf[j]));
                    let k = choose|k: int| 0 <= k < v.pending.len() && v.pending[k] == tf[j];
                    assert(v.time_since_update[v.pending[k] as int] == v.level);
                    assert(v.matches[i].0 == tx[i]);
                }
                vstd::seq_lib::lemma_no_dup_in_concat(tx, tf);
                assert forall|i: int| 0 <= i < w.matches.len() implies w.confirmed.contains(
                    #[trigger] w.matches[i].0,
                ) && w.time_since_update[w.matches[i].0 as int] <= w.level by {
                    if i >= v.matches.len() {
                        let j = i - v.matches.len();
                        assert(0 <= j < tf.len());
                        assert(w.matches[i] == found[j]);
                        assert(tf[j] == found[j].0);
                        assert(tf.to_set().contains(tf[j]));
                        assert(v.pending.to_set().contains(tf[j]));
                        assert(v.pending.contains(tf[j]));
                        let k = choose|k: int| 0 <= k < v.pending.len() && v.pending[k] == tf[j];
                        assert(v.confirmed.contains(v.pending[k]));
                    } else {
                        assert(w.matches[i] == v.matches[i]);
                    }
                }
            } else {
                let ts = tx + v.stale;
                lemma_partitions_split(tx, v.stale, ts.to_set());
                let aset = tx.to_set();
                let bset = v.stale.to_set();
                let rset = tf.to_set();
                let uset = left_tracks.to_set();
                let pset = v.pending.to_set();
                assert(ts.to_set().disjoint(pset));
                assert(pset == rset.union(uset));
                assert forall|x: usize| aset.contains(x) implies !rset.contains(x) by {
                    assert(ts.to_set().contains(x));
                }
                assert forall|x: usize| bset.contains(x) implies !uset.contains(x) by {
                    assert(ts.to_set().contains(x));
                }
                lemma_partitions_concat(tx, tf, aset, rset);
                lemma_partitions_concat(v.stale, left_tracks, bset, uset);
                assert forall|x: usize| aset.union(rset).contains(x) implies !bset.union(uset).contains(x) by {
                    if aset.contains(x) {
                        assert(ts.to_set().contains(x));
                    }
                    if bset.contains(x) {
                        assert(ts.to_set().contains(x));
                    }
                }
                lemma_partitions_concat(tx + tf, v.stale + left_tracks, aset.union(rset), bset.union(uset));
                assert(aset.union(rset).union(bset.union(uset)) =~= index_range(v.n_tracks()));
                assert(matched_tracks(w.matches) + w.unmatched_tracks =~= (tx + tf) + (v.stale + left_tracks));
            }
        }
    }

    /// The association's outcome, once finished.
    pub fn output(&self) -> (out: MatchOutput)
        requires
            self.wf(),
            self@.phase == Phase::Done,
        ensures
            out.matches@ == self@.matches,
            out.unmatched_tracks@ == self@.unmatched_tracks,
            out.unmatched_detections@ == self@.unmatched_detections,
    {
        let mut matches: Vec<(usize, usize)> = Vec::new();
        let mut i: usize = 0;
        while i < self.matches.len()
            invariant
                i <= self.matches.len(),
                matches@ == self.matches@.take(i as int),
            decreases self.matches.len() - i,
        {
            matches.push(self.matches[i]);
            proof {
                assert(matches@ =~= self.matches@.take(i + 1));
            }
            i += 1;
        }
        proof {
            assert(self.matches@.take(self.matches.len() as int) =~= self.matches@);
        }
        MatchOutput {
            matches,
            unmatched_tracks: copy_indices(&self.unmatched_tracks),
            unmatched_detections: copy_indices(&self.unmatched_detections),
        }
    }
}

/// Once an association is finished, every track is either matched or
/// unmatched, exactly once, and so is every detection.
pub proof fn lemma_association_partitions(v: AssociationView)
    requires
        v.inv(),
        v.phase == Phase::Done,
    ensures
        partitions(matched_tracks(v.matches) + v.unmatched_tracks, index_range(v.n_tracks())),
        partitions(
            matched_detections(v.matches) + v.unmatched_detections,
            index_range(v.n_detections),
        ),
{
}

/// A cascade level offers exactly the confirmed tracks unmatched for
/// `level + 1` frames, each once: a track takes part in the cascade only
/// at the level of its age.
pub proof fn lemma_level_group_members(confirmed: Seq<usize>, tsu: Seq<u32>, level: int)
    requires
        confirmed.no_duplicates(),
    ensures
        partitions(
            level_group(confirmed, tsu, level),
            Set::new(|x: usize| confirmed.contains(x) && tsu[x as int] == level + 1),
        ),
{
    let keep = |i: int| tsu[confirmed[i] as int] == level + 1;
    assert(level_group(confirmed, tsu, level) == pick(|i: int| confirmed[i], keep, confirmed.len()));
    lemma_pick_of_list(confirmed, keep);
    let w1 = Set::new(|x: usize| exists|i: int| 0 <= i < confirmed.len() && confirmed[i] == x && #[trigger] keep(i));
    let w2 = Set::new(|x: usize| confirmed.contains(x) && tsu[x as int] == level + 1);
    assert forall|x: usize| w1.contains(x) <==> w2.contains(x) by {
        if w2.contains(x) {
            let i = choose|i: int| 0 <= i < confirmed.len() && confirmed[i] == x;
            assert(keep(i));
        }
    }
    assert(w1 =~= w2);
}

/// What a finished association hands to the tracker fits its update:
/// the matched tracks are distinct and in range, and so are the unmatched
/// tracks and detections.
pub proof fn lemma_association_output_in_range(v: AssociationView)
    requires
        v.inv(),
        v.phase == Phase::Done,
    ensures
        matched_tracks(v.matches).no_duplicates(),
        forall|i: int| 0 <= i < v.matches.len() ==> (#[trigger] v.matches[i]).0 < v.n_tracks()
            && v.matches[i].1 < v.n_detections,
        forall|i: int| 0 <= i < v.unmatched_tracks.len() ==> #[trigger] v.unmatched_tracks[i] < v.n_tracks(),
        forall|i: int|
            0 <= i < v.unmatched_detections.len() ==> #[trigger] v.unmatched_detections[i]
                < v.n_detections,
{
    let mt = matched_tracks(v.matches);
    let md = matched_detections(v.matches);
    lemma_partitions_split(mt, v.unmatched_tracks, index_range(v.n_tracks()));
    lemma_partitions_split(md, v.unmatched_detections, index_range(v.n_detections));
    assert forall|i: int| 0 <= i < v.matches.len() implies (#[trigger] v.matches[i]).0 < v.n_tracks()
        && v.matches[i].1 < v.n_detections by {
        assert(mt[i] == v.matches[i].0);
        assert(md[i] == v.matches[i].1);
        assert(mt.to_set().contains(mt[i]));
        assert(md.to_set().contains(md[i]));
        assert(index_range(v.n_tracks()).contains(mt[i]));
        assert(index_range(v.n_detections).contains(md[i]));
    }
    assert forall|i: int| 0 <= i < v.unmatched_tracks.len() implies #[trigger] v.unmatched_tracks[i]
        < v.n_tracks() by {
        assert(v.unmatched_tracks.to_set().contains(v.unmatched_tracks[i]));
        assert(index_range(v.n_tracks()).contains(v.unmatched_tracks[i]));
    }
    assert forall|i: int| 0 <= i < v.unmatched_detections.len() implies #[trigger] v.unmatched_detections[i]
        < v.n_detections by {
        assert(v.unmatched_detections.to_set().contains(v.unmatched_detections[i]));
        assert(index_range(v.n_detections).contains(v.unmatched_detections[i]));
    }
}

} // verus!
