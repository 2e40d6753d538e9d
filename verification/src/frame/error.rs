use vstd::prelude::*;
use crate::error::RusantaError;

verus! {

/// Errors raised by Series and DataFrame operations.
#[derive(Debug)]
pub enum Error {
    InvalidValue(String),
    KeyNotFound(String),
    ParseError(String),
    Io(String),
    Core(RusantaError),
}

/// Result type of Series and DataFrame operations.
pub type Result<T> = core::result::Result<T, Error>;

} // verus!
