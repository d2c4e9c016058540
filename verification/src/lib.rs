//! A mutable weighted-random-sampling structure ("urn").
//!
//! An urn holds a multiset of (weight, element) pairs and supports drawing an
//! element with probability proportional to its weight, inserting new weighted
//! elements, removing the most recently inserted one, and replacing a sampled
//! element.  The representation is a binary tree with cumulative weights that
//! stays within one level of perfectly balanced, so every operation costs time
//! logarithmic in the number of elements.

pub mod almost_perfect;
pub mod laws;
pub mod types;
pub mod urn;
