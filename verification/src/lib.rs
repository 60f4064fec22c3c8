//! A map in which one key owns an ordered, non-empty sequence of values.
//!
//! [`MultiMap`] wraps a hash map from keys to vectors of values.  A key may
//! carry any number of values, duplicates included; values keep the order in
//! which they were inserted.  The abstract model of a map is a
//! `Map<K, Seq<V>>`, and every operation states over that model what it
//! returns and how it changes the map.

pub mod laws;
pub mod model;
pub mod multimap;

pub use multimap::MultiMap;
