//! A fixed-capacity associative container using open addressing with
//! linear probing over string-like keys.
//!
//! The map owns a fixed number of slots, each either empty or holding one
//! key; values live in a parallel array.  A key's primary slot is its hash
//! taken modulo the capacity; insertion resolves collisions by scanning
//! forward (wrapping around) for the first empty slot.  Lookup and the
//! duplicate check inspect only the primary slot and never walk the probe
//! chain; deletion clears the primary slot without leaving a tombstone.

pub mod hash;
pub mod map;
pub mod render;
