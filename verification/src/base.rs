//! Foundations shared by every part of the library: numeric traits, the
//! dataset abstraction, model traits and basic statistics over datasets.

pub mod numeric;
pub mod dataset;
pub mod io;
pub mod model;
