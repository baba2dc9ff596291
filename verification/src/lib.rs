//! Tracking of timed runs over a fixed set of progress checkpoints ("splits"),
//! with a personal-best baseline, per-checkpoint history, and a versioned
//! on-disk representation.

use vstd::prelude::*;

pub mod codec;
pub mod display;
pub mod engine;
pub mod in_game_time;
pub mod model;
pub mod schema;
pub mod validate;

verus! {

/// The failures that loading or parsing can surface.  Inconsistencies not
/// listed here are repaired silently when an aggregate is validated.
#[derive(Debug, Clone, Copy, PartialEq, Eq)]
pub enum SplitsError {
    /// A duration string is not of the form `H:MM:SS` with minutes and
    /// seconds below sixty, or does not fit in 64 bits of seconds.
    MalformedDuration,
    /// Two configured splits share the same percent value.
    DuplicatePercent,
    /// Two recorded runs share the same id.
    DuplicateRunId,
    /// A splits file declares a schema version this library does not know.
    UnsupportedVersion(u32),
    /// A textual progress sample is not `PERCENT% H:MM:SS`.
    MalformedSample,
}

} // verus!
