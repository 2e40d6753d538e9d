use std::sync::Arc;

use rusanta::base::dataset::{Dataset, DatasetIter};
use rusanta::base::io::{max, min, sum};
use rusanta::base::model::{Estimator, IsFitted, IsUnfitted, Model, Predictor};
use rusanta::error::RusantaError;
use rusanta::frame::dataloader::{DataLoader, DataLoaderConfig, IndexDataset};
use rusanta::frame::error::{Error, Result};
use rusanta::frame::metrics::{Accuracy, MeanAbsoluteError, MeanSquaredError, Metric};
use rusanta::frame::series::Series;
use rusanta::frame::trainer::{Trainer, TrainerConfig};
use rusanta::frame::transform::{FnStep, Pipeline};

struct Numbers(Vec<i64>);

impl IndexDataset<i64> for Numbers {
    fn len(&self) -> usize {
        self.0.len()
    }

    fn get(&self, index: usize) -> Result<i64> {
        self.0
            .get(index)
            .copied()
            .ok_or(Error::Core(RusantaError::IndexOutOfBounds { index, len: self.0.len() }))
    }
}

fn loader(n: i64, batch_size: usize, shuffle: bool, drop_last: bool) -> DataLoader<i64, Numbers> {
    let data = Numbers((0..n).collect());
    DataLoader::new(Arc::new(data), DataLoaderConfig { batch_size, shuffle, drop_last })
}

fn epoch(l: &mut DataLoader<i64, Numbers>) -> Vec<Vec<i64>> {
    let mut out = Vec::new();
    while let Some(b) = l.next() {
        out.push(b.unwrap());
    }
    out
}

#[test]
fn loader_default_config() {
    let c = DataLoaderConfig::default();
    assert_eq!(c.batch_size, 32);
    assert!(!c.shuffle);
    assert!(!c.drop_last);
}

#[test]
fn loader_batches_in_order() {
    let mut l = loader(5, 2, false, false);
    assert_eq!(l.num_batches(), 3);
    assert_eq!(epoch(&mut l), vec![vec![0, 1], vec![2, 3], vec![4]]);
    assert!(l.next().is_none());
}

#[test]
fn loader_drops_short_last_batch() {
    let mut l = loader(5, 2, false, true);
    assert_eq!(l.num_batches(), 2);
    assert_eq!(epoch(&mut l), vec![vec![0, 1], vec![2, 3]]);
}

#[test]
fn loader_reset_starts_a_new_epoch() {
    let mut l = loader(3, 2, false, false);
    let first = epoch(&mut l);
    l.reset();
    assert_eq!(epoch(&mut l), first);
}

#[test]
fn loader_epoch_yields_num_batches() {
    for (n, bs, drop) in [(0, 3, false), (7, 3, false), (7, 3, true), (6, 3, true), (1, 4, true)] {
        let mut l = loader(n, bs, false, drop);
        let expected = l.num_batches();
        assert_eq!(epoch(&mut l).len(), expected);
    }
}

#[test]
fn loader_shuffle_visits_every_sample_once() {
    let mut l = loader(20, 6, true, false);
    let mut seen: Vec<i64> = epoch(&mut l).into_iter().flatten().collect();
    seen.sort();
    assert_eq!(seen, (0..20).collect::<Vec<i64>>());
    l.reset();
    let mut again: Vec<i64> = epoch(&mut l).into_iter().flatten().collect();
    again.sort();
    assert_eq!(again, (0..20).collect::<Vec<i64>>());
}

#[test]
fn pipeline_runs_steps_in_order() {
    let p: Pipeline<i64> = Pipeline::new();
    assert!(p.is_empty());
    assert_eq!(p.run(4).unwrap(), 4);
    let p = p
        .add_step(FnStep::new("double".to_string(), |x: i64| Ok(x * 2)))
        .add_step(FnStep::new("inc".to_string(), |x: i64| Ok(x + 1)));
    assert_eq!(p.len(), 2);
    assert_eq!(p.steps(), vec!["double", "inc"]);
    assert_eq!(p.run(4).unwrap(), 9);
}

#[test]
fn pipeline_stops_at_first_failure() {
    let p: Pipeline<i64> = Pipeline::default()
        .add_step(FnStep::new("fail".to_string(), |_x: i64| Err(Error::InvalidValue("stop".to_string()))))
        .add_step(FnStep::new("never".to_string(), |_x: i64| -> Result<i64> { panic!("not reached") }));
    match p.run(1) {
        Err(Error::InvalidValue(m)) => assert_eq!(m, "stop"),
        _ => panic!("expected the first step's error"),
    }
}

#[test]
fn regression_metrics() {
    let targets = Series::from_vec(vec![1i64, 2, 3]);
    let preds = [1i64, 4, 0];
    // squared: 0 + 4 + 9 = 13 -> 13 / 3 = 4
    assert_eq!(MeanSquaredError.compute(&preds, &targets).unwrap(), 4);
    // absolute: 0 + 2 + 3 = 5 -> 5 / 3 = 1
    assert_eq!(MeanAbsoluteError.compute(&preds, &targets).unwrap(), 1);
    assert_eq!(MeanSquaredError.name(), "mean_squared_error");
}

#[test]
fn accuracy_metric() {
    let targets = Series::from_vec(vec![1i64, 1, 0, 0]);
    assert_eq!(Accuracy.compute(&[1, 1, 0, 0], &targets).unwrap(), 1);
    assert_eq!(Accuracy.compute(&[1, 0, 0, 0], &targets).unwrap(), 0);
    assert_eq!(Accuracy.name(), "accuracy");
}

#[test]
fn metric_length_mismatch() {
    let targets = Series::from_vec(vec![1i64, 2]);
    match MeanSquaredError.compute(&[1], &targets) {
        Err(Error::InvalidValue(m)) => assert_eq!(m, "prediction/target length mismatch"),
        _ => panic!("expected mismatch"),
    }
}

#[test]
fn dataset_sum_min_max() {
    let s = Series::from_vec(vec![4i64, -1, 9, -1]);
    assert_eq!(sum(&s).unwrap(), 11);
    assert_eq!(min(&s).unwrap(), -1);
    assert_eq!(max(&s).unwrap(), 9);
    let e = Series::<i64>::from_vec(vec![]);
    assert!(matches!(sum(&e), Err(RusantaError::EmptyData { context: "sum" })));
    assert!(matches!(min(&e), Err(RusantaError::EmptyData { .. })));
    assert!(matches!(max(&e), Err(RusantaError::EmptyData { .. })));
}

#[test]
fn dataset_trait_on_series() {
    let s = Series::from_vec(vec![3i64, 5]);
    assert_eq!(Dataset::len(&s), 2);
    assert!(!Dataset::is_empty(&s));
    assert_eq!(Dataset::get(&s, 1).unwrap(), 5);
    assert!(matches!(
        Dataset::get(&s, 2),
        Err(RusantaError::IndexOutOfBounds { index: 2, len: 2 })
    ));
}

#[test]
fn dataset_iter_reads_in_order() {
    let s = Series::from_vec(vec![3i64, 5, 8]);
    let mut it = DatasetIter::<i64, Series<i64>>::new(&s);
    assert_eq!(it.size_hint(), (3, Some(3)));
    assert_eq!(it.next(), Some(3));
    assert_eq!(it.size_hint(), (2, Some(2)));
    assert_eq!(it.next(), Some(5));
    assert_eq!(it.next(), Some(8));
    assert_eq!(it.next(), None);
    assert_eq!(it.next(), None);
}

struct Counter {
    seen: i64,
}

impl Model for Counter {}

impl Estimator<i64, Series<i64>, Series<i64>, IsUnfitted> for Counter {
    fn fit(self, x: &Series<i64>, _y: &Series<i64>) -> rusanta::error::Result<Self> {
        Ok(Counter { seen: self.seen + Dataset::len(x) as i64 })
    }
}

struct Pairs(Vec<(Series<i64>, Series<i64>)>);

impl IndexDataset<(Series<i64>, Series<i64>)> for Pairs {
    fn len(&self) -> usize {
        self.0.len()
    }

    fn get(&self, index: usize) -> Result<(Series<i64>, Series<i64>)> {
        Ok(self.0[index].clone())
    }
}

#[test]
fn trainer_fits_every_sample_each_epoch() {
    let pairs = Pairs(vec![
        (Series::from_vec(vec![1, 2]), Series::from_vec(vec![0])),
        (Series::from_vec(vec![3]), Series::from_vec(vec![1])),
        (Series::from_vec(vec![4, 5, 6]), Series::from_vec(vec![1])),
    ]);
    let l = DataLoader::new(Arc::new(pairs), DataLoaderConfig { batch_size: 2, shuffle: false, drop_last: false });
    let cfg = TrainerConfig { epochs: 2, verbose: false };
    let m = Trainer::fit(Counter { seen: 0 }, l, cfg).unwrap();
    assert_eq!(m.seen, 12);
    let d = TrainerConfig::default();
    assert_eq!(d.epochs, 1);
    assert!(d.verbose);
}

#[test]
fn trainer_with_no_epochs_returns_model() {
    let pairs = Pairs(vec![]);
    let l = DataLoader::new(Arc::new(pairs), DataLoaderConfig::default());
    let m = Trainer::fit(Counter { seen: 7 }, l, TrainerConfig { epochs: 0, verbose: false }).unwrap();
    assert_eq!(m.seen, 7);
}

#[test]
fn loader_shuffle_changes_the_order() {
    let mut l = loader(30, 30, true, false);
    let seen: Vec<i64> = epoch(&mut l).into_iter().flatten().collect();
    assert_ne!(seen, (0..30).collect::<Vec<i64>>());
}

#[test]
fn loader_visits_every_sample_of_the_dataset() {
    let mut l = loader(7, 3, true, false);
    assert_eq!(l.num_batches(), 3);
    let mut seen: Vec<i64> = epoch(&mut l).into_iter().flatten().collect();
    seen.sort();
    assert_eq!(seen, (0..7).collect::<Vec<i64>>());
}

struct Failing;

impl IndexDataset<i64> for Failing {
    fn len(&self) -> usize {
        4
    }

    fn get(&self, index: usize) -> Result<i64> {
        if index == 2 {
            Err(Error::InvalidValue("bad sample".to_string()))
        } else {
            Ok(index as i64 * 10)
        }
    }
}

#[test]
fn loader_batch_holds_the_dataset_samples_and_reports_their_error() {
    let mut l = DataLoader::new(Arc::new(Failing), DataLoaderConfig { batch_size: 2, shuffle: false, drop_last: false });
    assert_eq!(l.next().unwrap().unwrap(), vec![0, 10]);
    assert!(matches!(l.next(), Some(Err(Error::InvalidValue(m))) if m == "bad sample"));
}

struct Picky {
    seen: i64,
}

impl Model for Picky {}

impl Estimator<i64, Series<i64>, Series<i64>, IsUnfitted> for Picky {
    fn fit(self, x: &Series<i64>, _y: &Series<i64>) -> rusanta::error::Result<Self> {
        if Dataset::len(x) > 2 {
            Err(RusantaError::InvalidValue { message: "too long".to_string() })
        } else {
            Ok(Picky { seen: self.seen + 1 })
        }
    }
}

#[test]
fn trainer_stops_at_the_models_error() {
    let pairs = Pairs(vec![
        (Series::from_vec(vec![1]), Series::from_vec(vec![0])),
        (Series::from_vec(vec![1, 2, 3]), Series::from_vec(vec![1])),
    ]);
    let l = DataLoader::new(Arc::new(pairs), DataLoaderConfig { batch_size: 1, shuffle: false, drop_last: false });
    let r = Trainer::fit(Picky { seen: 0 }, l, TrainerConfig { epochs: 1, verbose: false });
    assert!(matches!(r, Err(Error::Core(RusantaError::InvalidValue { message })) if message == "too long"));
}

#[test]
fn trainer_counts_only_full_batches_when_dropping() {
    let pairs = Pairs(vec![
        (Series::from_vec(vec![1]), Series::from_vec(vec![0])),
        (Series::from_vec(vec![2]), Series::from_vec(vec![0])),
        (Series::from_vec(vec![3]), Series::from_vec(vec![0])),
    ]);
    let l = DataLoader::new(Arc::new(pairs), DataLoaderConfig { batch_size: 2, shuffle: false, drop_last: true });
    let m = Trainer::fit(Picky { seen: 0 }, l, TrainerConfig { epochs: 3, verbose: false }).unwrap();
    assert_eq!(m.seen, 6);
}

struct Shift;

impl Model for Shift {}

impl Predictor<i64, Series<i64>, IsFitted> for Shift {
    fn predict(&self, x: &Series<i64>) -> rusanta::error::Result<Vec<i64>> {
        Ok(x.to_vec().iter().map(|v| v + 1).collect())
    }
}

#[test]
fn trainer_evaluates_mean_scores_over_an_epoch() {
    let pairs = Pairs(vec![
        (Series::from_vec(vec![1, 2]), Series::from_vec(vec![2, 3])),
        (Series::from_vec(vec![5]), Series::from_vec(vec![0])),
    ]);
    let l = DataLoader::new(Arc::new(pairs), DataLoaderConfig { batch_size: 1, shuffle: false, drop_last: false });
    let r = Trainer::evaluate(&Shift, l, &[MeanAbsoluteError, MeanAbsoluteError]).unwrap();
    // absolute errors: 0 for the first sample, 6 for the second; mean 3
    assert_eq!(r, vec![3, 3]);
}

#[test]
fn trainer_evaluate_accuracy_truncates_the_mean() {
    let pairs = Pairs(vec![
        (Series::from_vec(vec![1, 2]), Series::from_vec(vec![2, 3])),
        (Series::from_vec(vec![5]), Series::from_vec(vec![0])),
    ]);
    let l = DataLoader::new(Arc::new(pairs), DataLoaderConfig { batch_size: 2, shuffle: false, drop_last: false });
    assert_eq!(Trainer::evaluate(&Shift, l, &[Accuracy]).unwrap(), vec![0]);
}

#[test]
fn trainer_evaluate_reports_a_length_mismatch() {
    let pairs = Pairs(vec![(Series::from_vec(vec![1, 2]), Series::from_vec(vec![2]))]);
    let l = DataLoader::new(Arc::new(pairs), DataLoaderConfig::default());
    let r = Trainer::evaluate(&Shift, l, &[MeanSquaredError]);
    assert!(matches!(r, Err(Error::InvalidValue(m)) if m == "prediction/target length mismatch"));
}

#[test]
fn trainer_evaluate_with_no_samples_gives_zeros() {
    let l = DataLoader::new(Arc::new(Pairs(vec![])), DataLoaderConfig::default());
    assert_eq!(Trainer::evaluate(&Shift, l, &[Accuracy, Accuracy]).unwrap(), vec![0, 0]);
}

#[test]
fn metric_accepts_only_scores_that_fit() {
    let targets = Series::from_vec(vec![i64::MIN, 0]);
    assert!(!MeanAbsoluteError.accepts(&[i64::MAX, 0], &targets));
    assert!(MeanAbsoluteError.accepts(&[1, 0], &targets) == false);
    let small = Series::from_vec(vec![1i64, 2]);
    assert!(MeanSquaredError.accepts(&[3, 4], &small));
    assert!(!Accuracy.accepts(&[], &Series::from_vec(vec![])));
}

struct NeverCalled;

impl Model for NeverCalled {}

impl Predictor<i64, Series<i64>, IsFitted> for NeverCalled {
    fn predict(&self, _x: &Series<i64>) -> rusanta::error::Result<Vec<i64>> {
        panic!("no sample is read")
    }
}

#[test]
fn trainer_evaluate_reading_no_full_batch_gives_zeros() {
    let pairs = Pairs(vec![(Series::from_vec(vec![1]), Series::from_vec(vec![1]))]);
    let l = DataLoader::new(Arc::new(pairs), DataLoaderConfig { batch_size: 2, shuffle: false, drop_last: true });
    assert_eq!(Trainer::evaluate(&NeverCalled, l, &[Accuracy, Accuracy]).unwrap(), vec![0, 0]);
}
