//! Latency probing core: parsing probe reports, a bounded sample history,
//! the sampling loop's decisions, and the text of an export.

pub mod measurement;
pub mod parser;
pub mod buffer;
pub mod sampling;
pub mod export;
