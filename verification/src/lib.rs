//! Slicing audio stems into keysounds on a musical time grid.
use vstd::prelude::*;

pub mod audio;
pub mod bms;
pub mod editing;
pub mod error;
pub mod grid_laws;
pub mod grouping;
pub mod keysounds;
pub mod live;
pub mod midi;
pub mod paths;
pub mod playback;
pub mod project;
pub mod slice_laws;
pub mod slice_order;
pub mod ratio;
pub mod time_point;
pub mod timing;

pub use error::Error;
pub use time_point::TimePoint;

verus! {

/// Number of beats in one measure.
pub const BEATS_PER_MEASURE: usize = 4;

} // verus!
