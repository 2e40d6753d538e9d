//! N-dimensional arrays: storage, views, broadcasting and arithmetic.

pub mod shape;
pub mod ndarray;
pub mod slicing;
pub mod broadcast;
pub mod ops;
pub mod elementwise;
pub mod random;
pub mod laws;
