//! An in-memory key-value store with per-entry time-to-live expiration.
//!
//! The store maps string keys to structured values. Every entry carries the
//! moment it was written and a lifetime in seconds; reads treat an entry
//! whose lifetime has elapsed as absent, while the entry stays physically
//! present until it is overwritten or deleted. All operations take the
//! current time as an explicit argument, so expiration is a pure predicate.

pub mod json;
pub mod laws;
pub mod list;
pub mod numtext;
pub mod store;
mod strutil;
pub mod value;

use vstd::prelude::*;

verus! {

/// Lifetime, in seconds, given to a write that does not name one.
pub const TTL_DEFAULT: u64 = 30;

} // verus!
