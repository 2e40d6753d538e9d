//! Labelled one- and two-dimensional data: Index, Series and DataFrame.

pub mod error;
pub mod text;
pub mod index;
pub mod series;
pub mod dataframe;
pub mod stats;
pub mod join;
pub mod fields;
pub mod table;
pub mod tsv;
pub mod tsv_round_trip;
pub mod xlsx;
pub mod transform;
pub mod dataloader;
pub mod metrics;
pub mod trainer;
pub mod aggregate;
pub mod groupby;
pub mod toon;
