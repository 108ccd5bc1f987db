//! A streaming distinct-count estimator.
//!
//! The estimator keeps a bounded, randomly thinned sample of the items seen
//! so far, together with a level that records how often the sampling
//! probability has been halved; the product of the sample's size and two to
//! the power of the level approximates the number of distinct items in the
//! stream.

pub mod estimator;
pub mod laws;
pub mod random;
