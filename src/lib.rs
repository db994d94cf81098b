//! A memoizing wrapper around a single-argument computation.

mod cacher;
mod key;

pub use cacher::Cacher;
pub use key::CacheKey;
