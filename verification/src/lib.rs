//! A hash table with separate chaining.
//!
//! The table owns a growable array of buckets, each bucket an ordered list of
//! key/value pairs. Keys are hashed through the standard library's
//! `DefaultHasher`; a key's identity is the byte sequence it feeds to the
//! hasher, and the table is modelled as a map from those identities to values.

pub mod key;
pub mod table;

pub use key::HashKey;
pub use table::HashMap;
pub use table::GROWTH_FACTOR;
pub use table::INITIAL_NBUCKETS;
pub use table::LOAD_FACTOR_DEN;
pub use table::LOAD_FACTOR_NUM;
