//! Reassembly and compositing engine for a fragmented point-cloud stream.
//!
//! Messages arrive as fragments tagged with a layer name, a frame timestamp,
//! a completion flag and a list of destination outputs.  The library decodes
//! fixed-width point records, reassembles complete frames per layer, evicts
//! stale fragment buffers, caches the latest frame of every layer, and
//! composites the cached frames onto a fixed set of output buffers that an
//! external rendering sink consumes on a fixed tick.

use vstd::prelude::*;

pub mod assoc;
pub mod point;
pub mod codec;
pub mod message;
pub mod reassembler;
pub mod cache;
pub mod compositor;
pub mod dispatcher;

verus! {

/// Number of output buffers the compositor maintains.
pub const NUM_OUTPUTS: usize = 5;

/// A fragment buffer is discarded once the layer's last-seen timestamp has
/// moved more than this many microseconds past the buffer's timestamp.
pub const STALE_THRESHOLD_MICROS: i64 = 1_000_000;

/// Upper bound on the number of points the sink accepts in one output frame.
pub const MAX_POINTS_PER_OUTPUT: usize = 8192;

/// Scan rate handed to the sink with every output frame; a positive value is
/// a percentage of the projector's native scan rate.
pub const SCAN_RATE_PERCENT: i32 = 100;

/// Milliseconds between dispatch ticks.
pub const DISPATCH_TICK_MILLIS: u64 = 5;

} // verus!
