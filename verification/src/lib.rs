//! A resizable hash table from text keys to owned values, with separate
//! chaining, FNV-1a hashing and doubling growth at a load factor of 3/4.
//!
//! `HashMap` is the table. `key` says which keys it accepts, `hash` how a key
//! selects its bucket, `load` when and by how much the table grows, and
//! `laws` what holds over runs of operations.

mod buckets;
pub mod error;
pub mod hash;
pub mod key;
pub mod laws;
pub mod load;
pub mod map;

pub use crate::error::HashMapError;
pub use crate::load::LoadFactor;
pub use crate::map::HashMap;
