//! Traits for models: the fitted/unfitted state markers, estimators that
//! learn from data, and predictors.
use vstd::prelude::*;
use crate::base::dataset::Dataset;
use crate::base::numeric::Numeric;
use crate::error::Result;

verus! {

/// Marker for the fitted state of a model.
pub trait Fitted {}

/// Marker for the unfitted state of a model.
pub trait Unfitted {}

/// The fitted state.
pub struct IsFitted;

/// The unfitted state.
pub struct IsUnfitted;

impl Fitted for IsFitted {}

impl Unfitted for IsUnfitted {}

/// Base trait of every model.
pub trait Model {}

/// A model that learns from input data and targets.
pub trait Estimator<T: Numeric, X: Dataset<T>, Y: Dataset<T>, State>: Model + Sized {
    /// Fits the model, returning it in the fitted state.
    fn fit(self, x: &X, y: &Y) -> Result<Self> where State: Unfitted;
}

/// A fitted model that predicts outputs for input data.
pub trait Predictor<T: Numeric, X: Dataset<T>, State>: Model {
    /// Predicts one output per input.
    fn predict(&self, x: &X) -> Result<Vec<T>> where State: Fitted;
}

} // verus!
