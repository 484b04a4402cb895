//! Time-series aggregation and nearest-point query engine for crawl
//! snapshots: grouping of word-count records into per-URL series, a
//! cross-sectional histogram over the latest snapshot per URL, a
//! nearest-timestamp lookup over a sorted axis, and stable color
//! assignment for rendering.
use vstd::prelude::*;

pub mod color;
pub mod counts;
pub mod group;
pub mod histogram;
pub mod keys;
pub mod locate;
pub mod render;
pub mod series;
pub mod ts;

verus! {

/// The engine's error kinds: a timestamp string that does not match the
/// expected format (with the index of the offending record), fewer than two
/// axis points where a chart or nearest-point query needs at least two, and
/// a requested key with no entry.
#[derive(Clone, Copy, Debug, PartialEq, Eq, Structural)]
pub enum DolusError {
    Parse { index: usize },
    InsufficientData,
    Lookup,
}

} // verus!
