//! Times repeated runs of code sections and keeps, for each named series, a
//! bounded history of elapsed times in nanoseconds, with descriptive
//! statistics over it and a plain-text export.
use vstd::prelude::*;

pub mod clock;
pub mod export;
pub mod measurer;
pub mod series;
pub mod stats;

pub use measurer::{MeasureError, Measurer};
pub use series::StopPolicy;

verus! {

} // verus!
