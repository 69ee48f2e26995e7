//! Integer core of a DeepSORT multi-object tracker: the bookkeeping that
//! turns a solved assignment into matches and leftovers, the lifecycle of a
//! track, the age-ordered matching cascade and the per-frame track
//! management with its bounded appearance gallery.
//!
//! Everything that computes on floating point (Kalman filtering, IoU,
//! cosine distances, the Hungarian solve on real-valued costs) is supplied
//! by the caller; this crate decides what happens with the results.
pub mod assignment;
pub mod track;
pub mod tracker;
pub mod cascade;
