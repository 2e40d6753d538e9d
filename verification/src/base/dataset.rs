//! The dataset abstraction: an indexed, read-only sequence of numbers.
use vstd::prelude::*;
use crate::base::numeric::Numeric;
use crate::error::{Result, RusantaError};

verus! {

/// A read-only collection of numeric values, read by position. Algorithms
/// depend on this trait rather than on concrete containers.
pub trait Dataset<T: Numeric> {
    /// The values, in order.
    spec fn elems(&self) -> Seq<T>;

    /// Number of values.
    fn len(&self) -> (r: usize)
        ensures
            r == self.elems().len(),
    ;

    /// There are no values.
    fn is_empty(&self) -> (r: bool)
        ensures
            r == (self.elems().len() == 0),
    {
        self.len() == 0
    }

    /// The value at a position.
    fn get(&self, index: usize) -> (r: Result<T>)
        ensures
            index < self.elems().len() ==> r == Ok::<T, RusantaError>(self.elems()[index as int]),
    ;
}

/// Reads a dataset's values in order.
pub struct DatasetIter<'a, T: Numeric, D: Dataset<T>> {
    dataset: &'a D,
    index: usize,
    len: usize,
    marker: core::marker::PhantomData<T>,
}

impl<'a, T: Numeric, D: Dataset<T>> DatasetIter<'a, T, D> {
    /// The position stays within the dataset's length.
    #[verifier::type_invariant]
    spec fn inv(self) -> bool {
        &&& self.len == self.dataset.elems().len()
        &&& self.index <= self.len
    }

    /// The dataset read.
    pub closed spec fn source(&self) -> Seq<T> {
        self.dataset.elems()
    }

    /// Number of values already read.
    pub closed spec fn position(&self) -> nat {
        self.index as nat
    }

    /// Starts reading a dataset from its first value.
    pub fn new(dataset: &'a D) -> (it: Self)
        ensures
            it.source() == dataset.elems(),
            it.position() == 0,
    {
        let len = dataset.len();
        DatasetIter { dataset, index: 0, len, marker: core::marker::PhantomData }
    }

    /// The next value, if any is left.
    pub fn next(&mut self) -> (r: Option<T>)
        ensures
            final(self).source() == old(self).source(),
            old(self).position() < old(self).source().len() ==> r == Some(old(self).source()[old(self).position() as int])
                && final(self).position() == old(self).position() + 1,
            old(self).position() >= old(self).source().len() ==> r is None && final(self).position() == old(
                self,
            ).position(),
    {
        proof {
            use_type_invariant(&*self);
        }
        if self.index >= self.len {
            return None;
        }
        let i = self.index;
        self.index = self.index + 1;
        match self.dataset.get(i) {
            Ok(v) => Some(v),
            Err(_) => None,
        }
    }

    /// Bounds on the number of values left: exactly that number, twice.
    pub fn size_hint(&self) -> (r: (usize, Option<usize>))
        ensures
            r.0 == self.source().len() - self.position(),
            r.1 == Some((self.source().len() - self.position()) as usize),
    {
        proof {
            use_type_invariant(self);
        }
        let remaining = self.len - self.index;
        (remaining, Some(remaining))
    }
}

} // verus!
