//! Group-and-fold over a sequence of key-value pairs.
//!
//! A [`grouping_map::GroupingMap`] wraps a source of `(key, value)` pairs. Each of
//! its operations walks the source once, keeps one running accumulator per key in a
//! `HashMap`, and returns that map.
//!
//! The contracts speak of the values that share a key, in the order in which the
//! source yields them ([`groups::group_values`]), and of what a chain of calls of the
//! caller's operation can make of them ([`outcome`]).

pub mod groups;
pub mod outcome;
pub mod step;
pub mod grouping_map;
pub mod laws;
