use rusanta::ml::splitter::split_samples;
use rusanta::ml::dataset::{Dataset, InMemoryDataset};
use rusanta::ml::hierarchical::{HierarchicalClustering, Linkage};
use rusanta::ml::metrics::confusion_matrix;
use rusanta::ml::pipeline::{Estimator, Pipeline, Transformer};

#[test]
fn in_memory_dataset_accessors() {
    let d = InMemoryDataset::new(vec![vec![1i64, 2], vec![3, 4], vec![5, 6]], vec![0i64, 1, 0]);
    assert_eq!(d.len(), 3);
    assert!(!d.is_empty());
    assert_eq!(d.n_features(), 2);
    assert_eq!(d.get_feature(1, 0), 3);
    assert_eq!(d.feature_row(2), &[5, 6]);
    assert_eq!(d.get_target(1), 1);
    assert_eq!(d.targets(), &[0, 1, 0]);
    assert_eq!(d.features()[0], vec![1, 2]);
    let c = d.clone();
    assert_eq!(c.get_feature(2, 1), 6);
    let e: InMemoryDataset<i64, i64> = InMemoryDataset::new(vec![], vec![]);
    assert!(e.is_empty());
    assert_eq!(e.n_features(), 0);
}

#[test]
fn confusion_counts() {
    let t = [1i64, 1, 0, 0, 1];
    let p = [1i64, 0, 1, 0, 1];
    assert_eq!(confusion_matrix(&t, &p, &1), (2, 1, 1, 1));
    assert_eq!(confusion_matrix(&t, &p, &0), (1, 1, 1, 2));
    assert_eq!(confusion_matrix(&[], &[], &1), (0, 0, 0, 0));
}

#[test]
fn confusion_counts_add_up() {
    let t = [3i64, 1, 4, 1, 5, 9, 2, 6];
    let p = [3i64, 1, 1, 1, 5, 2, 2, 2];
    let (a, b, c, d) = confusion_matrix(&t, &p, &1);
    assert_eq!(a + b + c + d, t.len());
}

fn points() -> Vec<i64> {
    vec![0, 1, 10, 11, 30]
}

fn single_link(a: &[usize], b: &[usize]) -> u64 {
    let pts = points();
    let mut best = u64::MAX;
    for &i in a {
        for &j in b {
            let d = (pts[i] - pts[j]).unsigned_abs();
            if d < best {
                best = d;
            }
        }
    }
    best
}

#[test]
fn hierarchical_groups_close_points() {
    let mut h = HierarchicalClustering::new(3, Linkage::Single);
    h.fit_with(5, single_link);
    let l = h.labels().to_vec();
    assert_eq!(l.len(), 5);
    assert_eq!(l[0], l[1]);
    assert_eq!(l[2], l[3]);
    assert_ne!(l[0], l[2]);
    assert_ne!(l[4], l[0]);
    assert_ne!(l[4], l[2]);
    assert!(l.iter().all(|&c| c < 3));
}

#[test]
fn hierarchical_one_cluster_per_sample() {
    let mut h = HierarchicalClustering::new(4, Linkage::Complete);
    h.fit_with(4, |_a: &[usize], _b: &[usize]| 0u64);
    let mut l = h.labels().to_vec();
    l.sort();
    assert_eq!(l, vec![0, 1, 2, 3]);
    assert_eq!(h.n_clusters, 4);
}

#[test]
fn hierarchical_single_cluster() {
    let mut h = HierarchicalClustering::new(1, Linkage::Average);
    h.fit_with(3, single_link);
    assert_eq!(h.labels(), &[0, 0, 0]);
}

struct AddOne {
    fitted: bool,
}

impl Transformer<InMemoryDataset<i64, i64>> for AddOne {
    fn fit(&mut self, _data: &InMemoryDataset<i64, i64>) {
        self.fitted = true;
    }

    fn transform(&self, data: &InMemoryDataset<i64, i64>) -> InMemoryDataset<i64, i64> {
        let rows = data.features().iter().map(|r| r.iter().map(|x| x + 1).collect()).collect();
        InMemoryDataset::new(rows, data.targets().to_vec())
    }
}

struct FirstFeature {
    offset: i64,
}

impl Estimator<InMemoryDataset<i64, i64>> for FirstFeature {
    fn fit(&mut self, data: &InMemoryDataset<i64, i64>) {
        self.offset = data.get_target(0) - data.get_feature(0, 0);
    }

    fn predict(&self, data: &InMemoryDataset<i64, i64>) -> Vec<i64> {
        (0..data.len()).map(|i| data.get_feature(i, 0) + self.offset).collect()
    }
}

#[test]
fn ml_pipeline_transforms_then_predicts() {
    let mut p = Pipeline::new(FirstFeature { offset: 0 });
    p.add_transformer(AddOne { fitted: false });
    p.add_transformer(AddOne { fitted: false });
    let train = InMemoryDataset::new(vec![vec![1i64], vec![2]], vec![10i64, 11]);
    p.fit(train);
    // after two +1 steps the first feature is 3, target 10: offset 7
    let test = InMemoryDataset::new(vec![vec![5i64], vec![0]], vec![0i64, 0]);
    assert_eq!(p.predict(test), vec![14, 9]);
}

fn five() -> InMemoryDataset<i64, i64> {
    InMemoryDataset::new((0..5).map(|i| vec![i, 10 * i]).collect(), (0..5).map(|i| 100 + i).collect())
}

#[test]
fn split_in_order_keeps_tail_for_test() {
    let (train, test) = split_samples(&five(), 2, false, None);
    assert_eq!(train.targets(), &[100, 101, 102]);
    assert_eq!(test.targets(), &[103, 104]);
    assert_eq!(test.feature_row(0), &[3, 30]);
    let (all, none) = split_samples(&five(), 0, false, None);
    assert_eq!(all.len(), 5);
    assert!(none.is_empty());
}

#[test]
fn split_shuffled_is_a_partition_and_seed_reproduces_it() {
    let (train, test) = split_samples(&five(), 2, true, Some(42));
    assert_eq!(train.len(), 3);
    assert_eq!(test.len(), 2);
    let mut seen: Vec<i64> = train.targets().iter().chain(test.targets().iter()).copied().collect();
    seen.sort();
    assert_eq!(seen, vec![100, 101, 102, 103, 104]);
    for k in 0..train.len() {
        assert_eq!(train.feature_row(k)[1], 10 * (train.get_target(k) - 100));
    }
    let (train2, test2) = split_samples(&five(), 2, true, Some(42));
    assert_eq!(train.targets(), train2.targets());
    assert_eq!(test.targets(), test2.targets());
    let (t3, _) = split_samples(&five(), 1, true, None);
    assert_eq!(t3.len(), 4);
}

#[test]
fn seeded_split_changes_the_order() {
    let data = InMemoryDataset::new((0..20).map(|i| vec![i]).collect(), (0..20).collect::<Vec<i64>>());
    let (train, test) = split_samples(&data, 5, true, Some(7));
    let mut order: Vec<i64> = train.targets().to_vec();
    order.extend_from_slice(test.targets());
    assert_ne!(order, (0..20).collect::<Vec<i64>>());
    order.sort();
    assert_eq!(order, (0..20).collect::<Vec<i64>>());
}
