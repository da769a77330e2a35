//! The plain values that cross the library's boundary.

use vstd::prelude::*;

verus! {

/// The one-time setup message: the start of the retained period, in
/// milliseconds since the epoch.
#[derive(Clone, Copy, Debug, PartialEq, Eq, Structural)]
pub struct InitMsg {
    pub start_time: u64,
}

/// A raw reading: fixed-point E7 coordinates (ten-millionths of a degree)
/// and a millisecond timestamp.
#[derive(Clone, Copy, Debug, PartialEq, Eq, Structural)]
pub struct GeoPoint {
    pub lon_e7: i64,
    pub lat_e7: i64,
    pub timestamp_ms: u64,
}

} // verus!
