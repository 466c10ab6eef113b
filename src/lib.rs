//! Sequential outlier detection and removal with a Hampel identifier.
//!
//! A [`Window`] keeps the most recent samples of a stream in a fixed-size
//! circular buffer. Each new sample is compared with the window median; when
//! its distance from the median exceeds a multiple of the median absolute
//! deviation it is replaced, either by the median or by a linear
//! extrapolation of the earlier samples.
//!
//! Samples are integers in a fixed-point unit of the caller's choosing, and
//! every threshold comparison is exact.

pub mod stats;
pub mod window;
pub mod laws;

pub use window::{Replacement, Window};
