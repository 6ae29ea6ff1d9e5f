//! Multi-source pixel aggregation engine.
//!
//! Combines N aligned sample planes into one output plane by applying a
//! statistical aggregate (plain mean, category-weighted mean, symmetric-trim
//! mean, or median) independently at every coordinate.  Samples are carried
//! through a canonical integer domain sized to the widest bit depth in use.

use vstd::prelude::*;

pub mod aggregate;
pub mod codec;
pub mod driver;
pub mod select;

verus! {

/// A failure of the aggregation core, surfaced to the caller; no partial
/// output plane is ever produced alongside one of these.
#[derive(Clone, Copy, PartialEq, Eq, Structural, Debug)]
pub enum CoreError {
    /// A (sample encoding, bit depth) pair not covered by the codec table.
    UnsupportedSampleKind,
    /// Discard count out of range, malformed weight request, or weighting and
    /// trimming requested together.
    InvalidModeParameters,
    /// Weighted aggregation whose effective weights all sank to zero.
    DegenerateAggregate,
    /// A source plane could not be supplied by the host.
    SourceUnavailable,
}

} // verus!
