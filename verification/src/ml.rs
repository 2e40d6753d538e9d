//! Learning utilities: datasets of feature rows, metrics, pipelines and
//! clustering.

pub mod dataset;
pub mod metrics;
pub mod pipeline;
pub mod hierarchical;
pub mod preprocessing;
pub mod splitter;
