# deepsort_rs

A DeepSORT multi-object tracker (Kalman filter, appearance cascade by track
age, IoU pass, tentative/confirmed/deleted lifecycle) whose integer core is
verified with Verus.

## Layout

- `src/` — the verified library:
  - `assignment.rs`: reading a solved assignment back into matches and
    leftovers (never-assigned first, then rejected on cost), with the proof
    that every track and detection ends up in exactly one list.
  - `track.rs`: the lifecycle of a track and its counters.
  - `cascade.rs`: the association of a frame as a sequence of assignment
    problems (cascade levels by age, then the overlap pass), with the proof
    that the outcome lists every track and detection exactly once.
  - `tracker.rs`: per-frame track management — prediction bookkeeping,
    matches, misses, new tracks with consecutive ids, removal of deleted
    tracks, and the appearance gallery bounded by `nn_budget`; with the
    laws of a run of frames (ids never reused nor revived, age counting the
    frames since creation, the same frames giving the same tracker).
- `app/` — the floating-point and binding layer: Kalman filter (nalgebra),
  IoU and cosine distances, the Hungarian solve (pathfinding,
  ordered-float), the cost matrices, the frame driver, and the Python
  module (pyo3, numpy).
- `tests/` — tests of the library on concrete values.

The library is generic over the motion estimate and the feature type it
carries for each track; the application instantiates them with the Kalman
state and the embedding vectors.
