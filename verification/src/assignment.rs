//! Reading back a solved assignment problem.
//!
//! A minimum-cost solver pairs each row (track) with a column; columns at or
//! beyond the number of real detections are padding that the solver needed
//! for a rectangular problem. A pair whose cost exceeds the matching
//! threshold is not a match. Leftovers are listed in two stages: first the
//! rows (columns) the solver never paired with a real partner, then the ones
//! it paired but whose cost was over the threshold. New tracks are created in
//! the order of the unmatched detections, so this order decides track ids.
use vstd::prelude::*;
use vstd::seq_lib::lemma_no_dup_in_concat;

verus! {

/// Outcome of one assignment round, in terms of the caller's own track and
/// detection indices.
#[derive(Debug)]
pub struct AssignmentResult {
    pub matches: Vec<(usize, usize)>,
    pub unmatched_tracks: Vec<usize>,
    pub unmatched_detections: Vec<usize>,
}

/// `f(r)` for each `r < k`, in increasing order, for which `keep(r)` holds.
pub open spec fn pick<A>(f: spec_fn(int) -> A, keep: spec_fn(int) -> bool, k: nat) -> Seq<A>
    decreases k,
{
    if k == 0 {
        Seq::empty()
    } else {
        let prev = pick(f, keep, (k - 1) as nat);
        if keep(k - 1) {
            prev.push(f(k - 1))
        } else {
            prev
        }
    }
}

/// Matches among the first `k` rows: the row was given a real column and
/// the pair is within the threshold.
pub open spec fn accepted_prefix(
    assignment: Seq<usize>,
    exceeds: Seq<bool>,
    tracks: Seq<usize>,
    detections: Seq<usize>,
    k: nat,
) -> Seq<(usize, usize)> {
    pick(
        |r: int| (tracks[r], detections[assignment[r] as int]),
        |r: int| assignment[r] < detections.len() && !exceeds[r],
        k,
    )
}

/// Tracks among the first `k` rows that were paired with a real column
/// over the threshold.
pub open spec fn rejected_tracks_prefix(
    assignment: Seq<usize>,
    exceeds: Seq<bool>,
    tracks: Seq<usize>,
    detections: Seq<usize>,
    k: nat,
) -> Seq<usize> {
    pick(|r: int| tracks[r], |r: int| assignment[r] < detections.len() && exceeds[r], k)
}

/// Detections paired with one of the first `k` rows over the threshold.
pub open spec fn rejected_detections_prefix(
    assignment: Seq<usize>,
    exceeds: Seq<bool>,
    tracks: Seq<usize>,
    detections: Seq<usize>,
    k: nat,
) -> Seq<usize> {
    pick(
        |r: int| detections[assignment[r] as int],
        |r: int| assignment[r] < detections.len() && exceeds[r],
        k,
    )
}

/// Tracks among the first `k` rows that got no real column at all.
pub open spec fn unassigned_tracks_prefix(
    assignment: Seq<usize>,
    tracks: Seq<usize>,
    n_cols: nat,
    k: nat,
) -> Seq<usize> {
    pick(|r: int| tracks[r], |r: int| assignment[r] >= n_cols, k)
}

/// Detections among the first `k` columns that no row was given.
pub open spec fn unassigned_detections_prefix(
    assignment: Seq<usize>,
    detections: Seq<usize>,
    k: nat,
) -> Seq<usize> {
    pick(|c: int| detections[c], |c: int| !assignment.contains(c as usize), k)
}

/// The matched (track, detection) pairs, in row order.
pub open spec fn spec_matches(
    assignment: Seq<usize>,
    exceeds: Seq<bool>,
    tracks: Seq<usize>,
    detections: Seq<usize>,
) -> Seq<(usize, usize)> {
    accepted_prefix(assignment, exceeds, tracks, detections, tracks.len())
}

/// Unmatched tracks: never given a real column first, then rejected on cost.
pub open spec fn spec_unmatched_tracks(
    assignment: Seq<usize>,
    exceeds: Seq<bool>,
    tracks: Seq<usize>,
    detections: Seq<usize>,
) -> Seq<usize> {
    unassigned_tracks_prefix(assignment, tracks, detections.len(), tracks.len())
        + rejected_tracks_prefix(assignment, exceeds, tracks, detections, tracks.len())
}

/// Unmatched detections: never given to a row first, then rejected on cost.
pub open spec fn spec_unmatched_detections(
    assignment: Seq<usize>,
    exceeds: Seq<bool>,
    tracks: Seq<usize>,
    detections: Seq<usize>,
) -> Seq<usize> {
    unassigned_detections_prefix(assignment, detections, detections.len())
        + rejected_detections_prefix(assignment, exceeds, tracks, detections, tracks.len())
}

/// Splits a solved assignment into matches and leftovers.
///
/// `assignment[r]` is the column the solver gave row `r` (a column at or
/// beyond `detection_indices.len()` is padding, i.e. no detection), and
/// `exceeds_threshold[r]` tells whether that pair's cost is above the
/// matching threshold. Rows stand for `track_indices[r]` and columns for
/// `detection_indices[c]`.
pub fn split_assignment(
    assignment: &Vec<usize>,
    exceeds_threshold: &Vec<bool>,
    track_indices: &Vec<usize>,
    detection_indices: &Vec<usize>,
) -> (result: AssignmentResult)
    requires
        assignment.len() == track_indices.len(),
        exceeds_threshold.len() == track_indices.len(),
    ensures
        result.matches@ == spec_matches(
            assignment@,
            exceeds_threshold@,
            track_indices@,
            detection_indices@,
        ),
        result.unmatched_tracks@ == spec_unmatched_tracks(
            assignment@,
            exceeds_threshold@,
            track_indices@,
            detection_indices@,
        ),
        result.unmatched_detections@ == spec_unmatched_detections(
            assignment@,
            exceeds_threshold@,
            track_indices@,
            detection_indices@,
        ),
{
    let n_rows = track_indices.len();
    let n_cols = detection_indices.len();
    let ghost a = assignment@;
    let ghost e = exceeds_threshold@;
    let ghost t = track_indices@;
    let ghost d = detection_indices@;

    let mut assigned_col: Vec<bool> = Vec::new();
    let mut c: usize = 0;
    while c < n_cols
        invariant
            c <= n_cols,
            assigned_col.len() == c,
            forall|j: int| 0 <= j < c ==> !assigned_col@[j],
        decreases n_cols - c,
    {
        assigned_col.push(false);
        c += 1;
    }

    let mut matches: Vec<(usize, usize)> = Vec::new();
    let mut unassigned_tracks: Vec<usize> = Vec::new();
    let mut rejected_tracks: Vec<usize> = Vec::new();
    let mut rejected_detections: Vec<usize> = Vec::new();
    let mut r: usize = 0;
    while r < n_rows
        invariant
            n_rows == t.len(),
            n_cols == d.len(),
            a == assignment@,
            e == exceeds_threshold@,
            t == track_indices@,
            d == detection_indices@,
            a.len() == n_rows,
            e.len() == n_rows,
            r <= n_rows,
            assigned_col.len() == n_cols,
            forall|j: int| 0 <= j < n_cols ==> assigned_col@[j] == a.take(r as int).contains(j as usize),
            matches@ == accepted_prefix(a, e, t, d, r as nat),
            unassigned_tracks@ == unassigned_tracks_prefix(a, t, d.len(), r as nat),
            rejected_tracks@ == rejected_tracks_prefix(a, e, t, d, r as nat),
            rejected_detections@ == rejected_detections_prefix(a, e, t, d, r as nat),
        decreases n_rows - r,
    {
        let ghost before = assigned_col@;
        let col = assignment[r];
        if col < n_cols {
            assigned_col.set(col, true);
            if exceeds_threshold[r] {
                rejected_tracks.push(track_indices[r]);
                rejected_detections.push(detection_indices[col]);
            } else {
                matches.push((track_indices[r], detection_indices[col]));
            }
        } else {
            unassigned_tracks.push(track_indices[r]);
        }
        proof {
            let prev = a.take(r as int);
            let next = a.take(r + 1);
            assert(next =~= prev.push(a[r as int]));
            assert forall|j: int| 0 <= j < n_cols implies assigned_col@[j] == next.contains(
                j as usize,
            ) by {
                assert(before[j] == prev.contains(j as usize));
                if j != col as int {
                    assert(assigned_col@[j] == before[j]);
                } else {
                    assert(assigned_col@[j]);
                    assert(next[r as int] == j as usize);
                    assert(next.contains(j as usize));
                }
                if prev.contains(j as usize) {
                    let i = choose|i: int| 0 <= i < prev.len() && prev[i] == j as usize;
                    assert(next[i] == j as usize);
                    assert(next.contains(j as usize));
                }
                if next.contains(j as usize) {
                    let i = choose|i: int| 0 <= i < next.len() && next[i] == j as usize;
                    if i < r {
                        assert(prev[i] == j as usize);
                        assert(prev.contains(j as usize));
                    }
                }
            }
        }
        r += 1;
    }
    proof {
        assert(a.take(n_rows as int) =~= a);
    }

    let mut unassigned_detections: Vec<usize> = Vec::new();
    c = 0;
    while c < n_cols
        invariant
            n_cols == d.len(),
            d == detection_indices@,
            c <= n_cols,
            assigned_col.len() == n_cols,
            forall|j: int| 0 <= j < n_cols ==> assigned_col@[j] == a.contains(j as usize),
            unassigned_detections@ == unassigned_detections_prefix(a, d, c as nat),
        decreases n_cols - c,
    {
        if !assigned_col[c] {
            unassigned_detections.push(detection_indices[c]);
        }
        c += 1;
    }

    unassigned_tracks.append(&mut rejected_tracks);
    unassigned_detections.append(&mut rejected_detections);
    AssignmentResult {
        matches,
        unmatched_tracks: unassigned_tracks,
        unmatched_detections: unassigned_detections,
    }
}

/// `x` is `f(r)` for some kept `r < k`.
pub open spec fn from_kept_row<A>(f: spec_fn(int) -> A, keep: spec_fn(int) -> bool, k: nat, x: A) -> bool {
    exists|r: int| 0 <= r < k && #[trigger] keep(r) && f(r) == x
}

/// Whether no two rows of `assignment` hold the same real column (one
/// below `n_cols`), as a minimum-cost solver guarantees.
pub fn is_injective(assignment: &Vec<usize>, n_cols: usize) -> (b: bool)
    ensures
        b == is_injective_assignment(assignment@, n_cols as nat),
{
    let mut seen: Vec<bool> = Vec::new();
    let mut c: usize = 0;
    while c < n_cols
        invariant
            c <= n_cols,
            seen.len() == c,
            forall|j: int| 0 <= j < c ==> !seen@[j],
        decreases n_cols - c,
    {
        seen.push(false);
        c += 1;
    }
    let n = assignment.len();
    let mut r: usize = 0;
    while r < n
        invariant
            n == assignment.len(),
            r <= n,
            seen.len() == n_cols,
            forall|j: int|
                0 <= j < n_cols ==> (seen@[j] <==> exists|q: int| 0 <= q < r && #[trigger] assignment@[q] == j),
            forall|q1: int, q2: int|
                0 <= q1 < r && 0 <= q2 < r && q1 != q2 && assignment@[q1] < n_cols ==> #[trigger] assignment@[q1]
                    != #[trigger] assignment@[q2],
        decreases n - r,
    {
        let col = assignment[r];
        if col < n_cols {
            if seen[col] {
                proof {
                    let q = choose|q: int| 0 <= q < r && #[trigger] assignment@[q] == col as int;
                    assert(assignment@[q] == assignment@[r as int]);
                    assert(q != r as int && assignment@[q] < n_cols);
                    assert(!is_injective_assignment(assignment@, n_cols as nat));
                }
                return false;
            }
            let ghost before = seen@;
            seen.set(col, true);
            proof {
                assert forall|j: int| 0 <= j < n_cols implies (seen@[j] <==> exists|q: int|
                    0 <= q < r + 1 && #[trigger] assignment@[q] == j) by {
                    if j == col as int {
                        assert(assignment@[r as int] == j);
                    } else {
                        assert(seen@[j] == before[j]);
                        if exists|q: int| 0 <= q < r + 1 && #[trigger] assignment@[q] == j {
                            let q = choose|q: int| 0 <= q < r + 1 && #[trigger] assignment@[q] == j;
                            assert(q < r);
                        }
                    }
                }
                assert forall|q1: int, q2: int|
                    0 <= q1 < r + 1 && 0 <= q2 < r + 1 && q1 != q2 && assignment@[q1] < n_cols implies #[trigger] assignment@[q1]
                        != #[trigger] assignment@[q2] by {
                    if q1 == r as int {
                        if assignment@[q2] == assignment@[q1] {
                            assert(before[col as int]);
                        }
                    } else if q2 == r as int {
                        if assignment@[q2] == assignment@[q1] {
                            assert(exists|q: int| 0 <= q < r && #[trigger] assignment@[q] == col as int);
                        }
                    }
                }
            }
        } else {
            proof {
                assert forall|j: int| 0 <= j < n_cols implies (seen@[j] <==> exists|q: int|
                    0 <= q < r + 1 && #[trigger] assignment@[q] == j) by {
                    if exists|q: int| 0 <= q < r + 1 && #[trigger] assignment@[q] == j {
                        let q = choose|q: int| 0 <= q < r + 1 && #[trigger] assignment@[q] == j;
                        assert(q < r);
                    }
                }
            }
        }
        r += 1;
    }
    true
}

/// Every element of `pick(f, keep, k)` is `f(r)` for a kept `r < k`, and
/// every kept `r < k` contributes `f(r)`.
pub proof fn lemma_pick_elements<A>(f: spec_fn(int) -> A, keep: spec_fn(int) -> bool, k: nat)
    ensures
        forall|i: int|
            0 <= i < pick(f, keep, k).len() ==> from_kept_row(f, keep, k, #[trigger] pick(f, keep, k)[i]),
        forall|r: int| 0 <= r < k && keep(r) ==> #[trigger] pick(f, keep, k).contains(f(r)),
    decreases k,
{
    if k > 0 {
        let k1 = (k - 1) as nat;
        lemma_pick_elements(f, keep, k1);
        assert forall|i: int| 0 <= i < pick(f, keep, k).len() implies from_kept_row(
            f,
            keep,
            k,
            #[trigger] pick(f, keep, k)[i],
        ) by {
            if i < pick(f, keep, k1).len() {
                assert(pick(f, keep, k)[i] == pick(f, keep, k1)[i]);
                assert(from_kept_row(f, keep, k1, pick(f, keep, k1)[i]));
                let r = choose|r: int| 0 <= r < k1 && #[trigger] keep(r) && f(r) == pick(f, keep, k1)[i];
                assert(0 <= r < k && keep(r) && f(r) == pick(f, keep, k)[i]);
            } else {
                assert(0 <= k - 1 < k && keep(k - 1) && f(k - 1) == pick(f, keep, k)[i]);
            }
        }
        assert forall|r: int| 0 <= r < k && keep(r) implies #[trigger] pick(f, keep, k).contains(f(r)) by {
            if r < k - 1 {
                assert(pick(f, keep, k1).contains(f(r)));
                let i = choose|i: int| 0 <= i < pick(f, keep, k1).len() && #[trigger] pick(f, keep, k1)[i] == f(r);
                assert(pick(f, keep, k)[i] == f(r));
            } else {
                assert(pick(f, keep, k)[pick(f, keep, k1).len() as int] == f(r));
            }
        }
    }
}

/// `pick` has no duplicates when `f` separates the kept rows.
pub proof fn lemma_pick_no_duplicates<A>(f: spec_fn(int) -> A, keep: spec_fn(int) -> bool, k: nat)
    requires
        forall|r1: int, r2: int|
            0 <= r1 < k && 0 <= r2 < k && r1 != r2 && #[trigger] keep(r1) && #[trigger] keep(r2)
                ==> f(r1) != f(r2),
    ensures
        pick(f, keep, k).no_duplicates(),
    decreases k,
{
    if k > 0 {
        let prev = pick(f, keep, (k - 1) as nat);
        lemma_pick_no_duplicates(f, keep, (k - 1) as nat);
        lemma_pick_elements(f, keep, (k - 1) as nat);
        if keep(k - 1) {
            assert forall|i: int| 0 <= i < prev.len() implies prev[i] != f(k - 1) by {
                let r = choose|r: int| 0 <= r < (k - 1) as nat && #[trigger] keep(r) && prev[i] == f(r);
            }
        }
    }
}

/// `pick` keeps the order of an increasing `f`.
pub proof fn lemma_pick_increasing(f: spec_fn(int) -> u64, keep: spec_fn(int) -> bool, k: nat)
    requires
        forall|r1: int, r2: int| 0 <= r1 < r2 < k ==> #[trigger] f(r1) < #[trigger] f(r2),
    ensures
        forall|a: int, b: int|
            0 <= a < b < pick(f, keep, k).len() ==> #[trigger] pick(f, keep, k)[a] < #[trigger] pick(
                f,
                keep,
                k,
            )[b],
    decreases k,
{
    if k > 0 {
        let k1 = (k - 1) as nat;
        lemma_pick_increasing(f, keep, k1);
        lemma_pick_elements(f, keep, k1);
        if keep(k - 1) {
            assert forall|a: int| 0 <= a < pick(f, keep, k1).len() implies pick(f, keep, k1)[a] < f(
                k - 1,
            ) by {
                assert(from_kept_row(f, keep, k1, pick(f, keep, k1)[a]));
                let r = choose|r: int| 0 <= r < k1 && #[trigger] keep(r) && f(r) == pick(f, keep, k1)[a];
            }
        }
    }
}

/// Mapping the picked values is picking the mapped values.
pub proof fn lemma_pick_map<A, B>(
    f: spec_fn(int) -> A,
    g: spec_fn(A) -> B,
    h: spec_fn(int) -> B,
    keep: spec_fn(int) -> bool,
    k: nat,
)
    requires
        forall|r: int| 0 <= r < k ==> #[trigger] h(r) == g(f(r)),
    ensures
        pick(f, keep, k).map_values(g) == pick(h, keep, k),
    decreases k,
{
    if k > 0 {
        let prev = pick(f, keep, (k - 1) as nat);
        lemma_pick_map(f, g, h, keep, (k - 1) as nat);
        if keep(k - 1) {
            assert(prev.push(f(k - 1)).map_values(g) =~= prev.map_values(g).push(g(f(k - 1))));
            assert(h(k - 1) == g(f(k - 1)));
        }
    }
    assert(pick(f, keep, k).map_values(g) =~= pick(h, keep, k));
}

/// No two rows were given the same real column.
pub open spec fn is_injective_assignment(assignment: Seq<usize>, n_cols: nat) -> bool {
    forall|r1: int, r2: int|
        0 <= r1 < assignment.len() && 0 <= r2 < assignment.len() && r1 != r2 && assignment[r1]
            < n_cols ==> assignment[r1] != assignment[r2]
}

/// The tracks of the matches, in order.
pub open spec fn matched_tracks(matches: Seq<(usize, usize)>) -> Seq<usize> {
    matches.map_values(|p: (usize, usize)| p.0)
}

/// The detections of the matches, in order.
pub open spec fn matched_detections(matches: Seq<(usize, usize)>) -> Seq<usize> {
    matches.map_values(|p: (usize, usize)| p.1)
}

/// `s` lists every element of `w` exactly once.
pub open spec fn partitions(s: Seq<usize>, w: Set<usize>) -> bool {
    s.no_duplicates() && s.to_set() == w
}

/// When every row is kept, `pick` keeps them all, in order.
pub proof fn lemma_pick_all<A>(f: spec_fn(int) -> A, keep: spec_fn(int) -> bool, k: nat)
    requires
        forall|r: int| 0 <= r < k ==> #[trigger] keep(r),
    ensures
        pick(f, keep, k) == Seq::new(k, f),
    decreases k,
{
    if k > 0 {
        lemma_pick_all(f, keep, (k - 1) as nat);
        assert(keep(k - 1));
        assert(pick(f, keep, k) =~= Seq::new(k, f));
    }
}

/// Membership in `pick` means coming from a kept row.
pub proof fn lemma_pick_member<A>(f: spec_fn(int) -> A, keep: spec_fn(int) -> bool, k: nat, x: A)
    requires
        pick(f, keep, k).contains(x),
    ensures
        from_kept_row(f, keep, k, x),
{
    lemma_pick_elements(f, keep, k);
    let i = choose|i: int| 0 <= i < pick(f, keep, k).len() && pick(f, keep, k)[i] == x;
    assert(from_kept_row(f, keep, k, pick(f, keep, k)[i]));
}

/// When the track and detection indices are distinct and the solver gave
/// no real column twice, every track ends up either matched or unmatched,
/// exactly once, and so does every detection.
pub proof fn lemma_split_partitions(
    assignment: Seq<usize>,
    exceeds: Seq<bool>,
    tracks: Seq<usize>,
    detections: Seq<usize>,
)
    requires
        assignment.len() == tracks.len(),
        exceeds.len() == tracks.len(),
        tracks.no_duplicates(),
        detections.no_duplicates(),
        detections.len() <= usize::MAX,
        is_injective_assignment(assignment, detections.len()),
    ensures
        partitions(
            matched_tracks(spec_matches(assignment, exceeds, tracks, detections))
                + spec_unmatched_tracks(assignment, exceeds, tracks, detections),
            tracks.to_set(),
        ),
        partitions(
            matched_detections(spec_matches(assignment, exceeds, tracks, detections))
                + spec_unmatched_detections(assignment, exceeds, tracks, detections),
            detections.to_set(),
        ),
{
    broadcast use vstd::seq_lib::group_seq_properties;

    let a = assignment;
    let e = exceeds;
    let t = tracks;
    let d = detections;
    let n = d.len();
    let k = t.len();
    let keep_acc = |r: int| a[r] < n && !e[r];
    let keep_rej = |r: int| a[r] < n && e[r];
    let keep_un = |r: int| a[r] >= n;
    let keep_col = |c: int| !a.contains(c as usize);
    let pair = |r: int| (t[r], d[a[r] as int]);
    let tr = |r: int| t[r];
    let dr = |r: int| d[a[r] as int];
    let dc = |c: int| d[c];
    let ms = spec_matches(a, e, t, d);
    assert(ms == pick(pair, keep_acc, k));
    lemma_pick_map(pair, |p: (usize, usize)| p.0, tr, keep_acc, k);
    lemma_pick_map(pair, |p: (usize, usize)| p.1, dr, keep_acc, k);
    let mt = pick(tr, keep_acc, k);
    let ut = pick(tr, keep_un, k);
    let rt = pick(tr, keep_rej, k);
    let md = pick(dr, keep_acc, k);
    let ud = pick(dc, keep_col, n);
    let rd = pick(dr, keep_rej, k);
    assert(matched_tracks(ms) == mt);
    assert(matched_detections(ms) == md);
    assert(spec_unmatched_tracks(a, e, t, d) == ut + rt);
    assert(spec_unmatched_detections(a, e, t, d) == ud + rd);

    // Tracks: the three kinds of rows are disjoint and cover every row.
    lemma_pick_no_duplicates(tr, keep_acc, k);
    lemma_pick_no_duplicates(tr, keep_un, k);
    lemma_pick_no_duplicates(tr, keep_rej, k);
    lemma_pick_elements(tr, keep_acc, k);
    lemma_pick_elements(tr, keep_un, k);
    lemma_pick_elements(tr, keep_rej, k);
    assert forall|x: usize| ut.contains(x) implies !rt.contains(x) by {
        lemma_pick_member(tr, keep_un, k, x);
        if rt.contains(x) {
            lemma_pick_member(tr, keep_rej, k, x);
            let r1 = choose|r: int| 0 <= r < k && #[trigger] keep_un(r) && tr(r) == x;
            let r2 = choose|r: int| 0 <= r < k && #[trigger] keep_rej(r) && tr(r) == x;
        }
    }
    assert(ut.disjoint(rt));
    lemma_no_dup_in_concat(ut, rt);
    assert forall|x: usize| mt.contains(x) implies !(ut + rt).contains(x) by {
        lemma_pick_member(tr, keep_acc, k, x);
        let r1 = choose|r: int| 0 <= r < k && #[trigger] keep_acc(r) && tr(r) == x;
        if ut.contains(x) {
            lemma_pick_member(tr, keep_un, k, x);
            let r2 = choose|r: int| 0 <= r < k && #[trigger] keep_un(r) && tr(r) == x;
        }
        if rt.contains(x) {
            lemma_pick_member(tr, keep_rej, k, x);
            let r2 = choose|r: int| 0 <= r < k && #[trigger] keep_rej(r) && tr(r) == x;
        }
    }
    assert(mt.disjoint(ut + rt));
    lemma_no_dup_in_concat(mt, ut + rt);
    assert forall|x: usize| (mt + (ut + rt)).contains(x) <==> t.contains(x) by {
        if mt.contains(x) {
            lemma_pick_member(tr, keep_acc, k, x);
            let r = choose|r: int| 0 <= r < k && #[trigger] keep_acc(r) && tr(r) == x;
            assert(t[r] == x);
        }
        if ut.contains(x) {
            lemma_pick_member(tr, keep_un, k, x);
            let r = choose|r: int| 0 <= r < k && #[trigger] keep_un(r) && tr(r) == x;
            assert(t[r] == x);
        }
        if rt.contains(x) {
            lemma_pick_member(tr, keep_rej, k, x);
            let r = choose|r: int| 0 <= r < k && #[trigger] keep_rej(r) && tr(r) == x;
            assert(t[r] == x);
        }
        if t.contains(x) {
            let r = choose|r: int| 0 <= r < k && t[r] == x;
            if keep_acc(r) {
                assert(mt.contains(tr(r)));
            } else if keep_un(r) {
                assert(ut.contains(tr(r)));
            } else {
                assert(rt.contains(tr(r)));
            }
        }
    }
    assert((mt + (ut + rt)).to_set() =~= t.to_set());

    // Detections: matched and rejected rows hold distinct real columns, and
    // the columns no row holds are the rest.
    lemma_pick_no_duplicates(dr, keep_acc, k);
    lemma_pick_no_duplicates(dc, keep_col, n);
    lemma_pick_no_duplicates(dr, keep_rej, k);
    lemma_pick_elements(dr, keep_acc, k);
    lemma_pick_elements(dc, keep_col, n);
    lemma_pick_elements(dr, keep_rej, k);
    assert forall|x: usize| ud.contains(x) implies !rd.contains(x) by {
        lemma_pick_member(dc, keep_col, n, x);
        let c = choose|c: int| 0 <= c < n && #[trigger] keep_col(c) && dc(c) == x;
        if rd.contains(x) {
            lemma_pick_member(dr, keep_rej, k, x);
            let r = choose|r: int| 0 <= r < k && #[trigger] keep_rej(r) && dr(r) == x;
            assert(a[r] as int == c);
            assert(a.contains(c as usize));
        }
    }
    assert(ud.disjoint(rd));
    lemma_no_dup_in_concat(ud, rd);
    assert forall|x: usize| md.contains(x) implies !(ud + rd).contains(x) by {
        lemma_pick_member(dr, keep_acc, k, x);
        let r1 = choose|r: int| 0 <= r < k && #[trigger] keep_acc(r) && dr(r) == x;
        if ud.contains(x) {
            lemma_pick_member(dc, keep_col, n, x);
            let c = choose|c: int| 0 <= c < n && #[trigger] keep_col(c) && dc(c) == x;
            assert(a[r1] as int == c);
            assert(a.contains(c as usize));
        }
        if rd.contains(x) {
            lemma_pick_member(dr, keep_rej, k, x);
            let r2 = choose|r: int| 0 <= r < k && #[trigger] keep_rej(r) && dr(r) == x;
        }
    }
    assert(md.disjoint(ud + rd));
    lemma_no_dup_in_concat(md, ud + rd);
    assert forall|x: usize| (md + (ud + rd)).contains(x) <==> d.contains(x) by {
        if md.contains(x) {
            lemma_pick_member(dr, keep_acc, k, x);
            let r = choose|r: int| 0 <= r < k && #[trigger] keep_acc(r) && dr(r) == x;
            assert(d[a[r] as int] == x);
        }
        if ud.contains(x) {
            lemma_pick_member(dc, keep_col, n, x);
            let c = choose|c: int| 0 <= c < n && #[trigger] keep_col(c) && dc(c) == x;
            assert(d[c] == x);
        }
        if rd.contains(x) {
            lemma_pick_member(dr, keep_rej, k, x);
            let r = choose|r: int| 0 <= r < k && #[trigger] keep_rej(r) && dr(r) == x;
            assert(d[a[r] as int] == x);
        }
        if d.contains(x) {
            let c = choose|c: int| 0 <= c < n && d[c] == x;
            if a.contains(c as usize) {
                let r = choose|r: int| 0 <= r < a.len() && a[r] == c as usize;
                assert(a[r] as int == c);
                assert(dr(r) == x);
                if keep_acc(r) {
                    assert(md.contains(dr(r)));
                } else {
                    assert(keep_rej(r));
                    assert(rd.contains(dr(r)));
                    assert((ud + rd).contains(x));
                }
            } else {
                assert(ud.contains(dc(c)));
            }
        }
    }
    assert((md + (ud + rd)).to_set() =~= d.to_set());
}

} // verus!
