//! Frequency-smoothing encryption schemes for equality-searchable outsourced
//! databases, and the inference attacks that measure what they leak.

pub mod attack;
pub mod crypto;
pub mod db;
pub mod fixed;
pub mod ingest;
pub mod lpfse;
pub mod native;
pub mod pfse;
pub mod table;
pub mod util;
