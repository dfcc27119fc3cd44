//! Fractional cascading: one binary search answers a lower-bound query on a
//! whole family of sorted lists.
//!
//! `order` holds the mathematical vocabulary (sortedness, lower bounds),
//! `simple` the index itself together with the plain binary search, and
//! `laws` the properties that relate the operations to one another.

pub mod order;
pub mod simple;
pub mod laws;
