//! Supervised datasets held as feature rows and targets.
use vstd::prelude::*;
use crate::frame::dataframe::copy_vec;

verus! {

/// A dataset of samples: one row of features and one target per sample.
pub trait Dataset {
    /// Feature type.
    type Feature: Copy;

    /// Target type.
    type Target: Copy;

    /// The feature rows.
    spec fn feature_rows(&self) -> Seq<Seq<Self::Feature>>;

    /// The targets, one per sample.
    spec fn target_values(&self) -> Seq<Self::Target>;

    /// Number of samples.
    fn len(&self) -> (r: usize)
        ensures
            r == self.feature_rows().len(),
    ;

    /// There are no samples.
    fn is_empty(&self) -> (r: bool)
        ensures
            r == (self.feature_rows().len() == 0),
    {
        self.len() == 0
    }

    /// Number of features: the length of the first row, or 0.
    fn n_features(&self) -> (r: usize)
        ensures
            r == (if self.feature_rows().len() == 0 { 0 } else { self.feature_rows()[0].len() }),
    ;

    /// One feature of one sample.
    fn get_feature(&self, row: usize, col: usize) -> (r: Self::Feature)
        requires
            row < self.feature_rows().len(),
            col < self.feature_rows()[row as int].len(),
        ensures
            r == self.feature_rows()[row as int][col as int],
    ;

    /// The features of one sample.
    fn feature_row(&self, row: usize) -> (r: &[Self::Feature])
        requires
            row < self.feature_rows().len(),
        ensures
            r@ == self.feature_rows()[row as int],
    ;

    /// The target of one sample.
    fn get_target(&self, row: usize) -> (r: Self::Target)
        requires
            row < self.target_values().len(),
        ensures
            r == self.target_values()[row as int],
    ;
}

/// All rows have the same length.
pub open spec fn rectangular<F>(rows: Seq<Seq<F>>) -> bool {
    forall|i: int| 0 <= i < rows.len() ==> #[trigger] rows[i].len() == rows[0].len()
}

/// A dataset held in memory.
#[derive(Debug)]
pub struct InMemoryDataset<F, T> {
    features: Vec<Vec<F>>,
    targets: Vec<T>,
}

impl<F, T> InMemoryDataset<F, T> {
    /// One target per row, and all rows of one length.
    #[verifier::type_invariant]
    spec fn inv(self) -> bool {
        &&& self.features@.len() == self.targets@.len()
        &&& rectangular(self.features@.map_values(|r: Vec<F>| r@))
    }

    /// The feature rows.
    pub closed spec fn rows(&self) -> Seq<Seq<F>> {
        self.features@.map_values(|r: Vec<F>| r@)
    }

    /// The targets.
    pub closed spec fn labels(&self) -> Seq<T> {
        self.targets@
    }
}

impl<F: Copy, T: Copy> InMemoryDataset<F, T> {
    /// A dataset from feature rows and their targets, which must be as many
    /// as the rows; all rows must have the same length.
    pub fn new(features: Vec<Vec<F>>, targets: Vec<T>) -> (r: Self)
        requires
            features@.len() == targets@.len(),
            rectangular(features@.map_values(|r: Vec<F>| r@)),
        ensures
            r.rows() == features@.map_values(|r: Vec<F>| r@),
            r.labels() == targets@,
    {
        InMemoryDataset { features, targets }
    }

    /// The feature rows.
    pub fn features(&self) -> (r: &[Vec<F>])
        ensures
            r@.map_values(|v: Vec<F>| v@) == self.rows(),
    {
        self.features.as_slice()
    }

    /// The targets.
    pub fn targets(&self) -> (r: &[T])
        ensures
            r@ == self.labels(),
    {
        self.targets.as_slice()
    }
}

impl<F: Copy, T: Copy> Clone for InMemoryDataset<F, T> {
    fn clone(&self) -> (r: Self)
        ensures
            r.rows() == self.rows(),
            r.labels() == self.labels(),
    {
        proof {
            use_type_invariant(self);
        }
        let mut features: Vec<Vec<F>> = Vec::new();
        let mut i: usize = 0;
        while i < self.features.len()
            invariant
                i <= self.features@.len(),
                features@.map_values(|r: Vec<F>| r@) == self.rows().take(i as int),
            decreases self.features@.len() - i,
        {
            let row = copy_vec(&self.features[i]);
            let ghost before = features@;
            features.push(row);
            proof {
                assert(self.rows()[i as int] == self.features@[i as int]@);
                assert(features@.map_values(|r: Vec<F>| r@) =~= before.map_values(|r: Vec<F>| r@).push(row@));
                assert(self.rows().take(i + 1) =~= self.rows().take(i as int).push(self.rows()[i as int]));
            }
            i = i + 1;
        }
        proof {
            assert(self.rows().take(i as int) =~= self.rows());
        }
        InMemoryDataset { features, targets: copy_vec(&self.targets) }
    }
}

impl<F: Copy, T: Copy> Dataset for InMemoryDataset<F, T> {
    type Feature = F;

    type Target = T;

    open spec fn feature_rows(&self) -> Seq<Seq<F>> {
        self.rows()
    }

    open spec fn target_values(&self) -> Seq<T> {
        self.labels()
    }

    fn len(&self) -> (r: usize) {
        self.features.len()
    }

    fn n_features(&self) -> (r: usize) {
        if self.features.len() == 0 {
            0
        } else {
            self.features[0].len()
        }
    }

    fn get_feature(&self, row: usize, col: usize) -> (r: F) {
        self.features[row][col]
    }

    fn feature_row(&self, row: usize) -> (r: &[F]) {
        self.features[row].as_slice()
    }

    fn get_target(&self, row: usize) -> (r: T) {
        self.targets[row]
    }
}

} // verus!
