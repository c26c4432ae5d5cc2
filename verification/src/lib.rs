//! A small sentiment-tracking pipeline: short text items are classified
//! against fixed positive/negative lexicons, per-keyword counters are
//! aggregated by a single writer, and a point-in-time snapshot of the
//! counters is serialized for readers, with a periodic full reset bounding
//! counter growth.

pub mod matching;
pub mod classifier;
pub mod mood;
pub mod codec;
pub mod aggregator;
pub mod publisher;
