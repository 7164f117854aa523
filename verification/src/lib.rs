//! Chance of a new best total time, from the history of each segment.
//!
//! Every segment's past times form an empirical distribution: a sum of
//! weighted point masses. The distribution is held as a truncated Fourier
//! series over a bounded time window, so that the distribution of a sum of
//! independent segment times is the coefficient-wise product of the
//! segments' series.
//!
//! All numbers are fixed-point integers (see [`fixed::Fixed`]); every
//! contract is stated over their integer raw values, and every product
//! rounds toward zero.
//!
//! - [`discontinuous`]: the coefficients of an impulse and of a step at any
//!   time, in closed form.
//! - [`distribution`]: the distribution itself: built from a history,
//!   combined with another, sampled on a grid, summed up to a time.
//! - [`inverse`]: the inverse discrete Fourier transform.
//! - [`trig`]: the unit circle, `cis`.
//! - [`history`]: the recorded times of a segment.
//! - [`laws`]: what holds of every distribution, proved.

pub mod fixed;
pub mod complex;
pub mod trig;
pub mod error;
pub mod discontinuous;
pub mod inverse;
pub mod history;
pub mod distribution;
pub mod sums;
pub mod laws;
