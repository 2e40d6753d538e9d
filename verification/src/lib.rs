//! Rusanta: labelled arrays, data frames and learning utilities with
//! machine-checked contracts.

pub mod error;
pub mod base;
pub mod array;
pub mod frame;
pub mod ml;
