//! Read-coverage profiles around a genomic reference point.
//!
//! The computation runs in stages, one module each:
//!
//! - `records` reads tab-separated interval files into intervals;
//! - `interval` widens a region into the window
//!   `[anchor - upstream, anchor + downstream)` around its anchor;
//! - `index` groups the windows by chromosome and pairs every read with the
//!   windows it hits;
//! - `coverage` turns the pairs into a depth per offset from the reference
//!   point, turned end for end for windows on the reverse strand;
//! - `normalize` bins the depths and scales them by the number of reads and
//!   the number of regions;
//! - `assemble` turns the profiles of the read files into labelled series,
//!   or into the ratio of two of them;
//! - `pipeline` runs the stages on the contents of the input files.
//!
//! Three conventions hold throughout. A read is paired with a window of its
//! chromosome when its start lies in the window, the window's first
//! coordinate included and its end excluded. A pair covers
//! the offsets from its clipped start to its clipped end, both included. Every
//! bin is divided by the nominal bin size, also a last bin that holds fewer
//! positions.
//!
//! The library works on integers only. A profile holds the sum of each bin
//! and the numbers it is divided by; turning these exact fractions into
//! floating-point values is left to the caller.

pub mod error;
pub mod interval;
pub mod records;
pub mod index;
pub mod coverage;
pub mod normalize;
pub mod assemble;
pub mod pipeline;

pub use crate::assemble::assemble;
pub use crate::coverage::coverage;
pub use crate::error::ProfileError;
pub use crate::normalize::normalize;
pub use crate::pipeline::{intersect, profile_series};
