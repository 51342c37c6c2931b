//! A frequency-based top-k estimator: a probabilistic counting sketch
//! ("HeavyKeeper") combined with a bounded binary min-heap, over a
//! 32-bit non-cryptographic hash.

pub mod heap;
pub mod heavykeeper;
pub mod murmur3;
