//! Splitting the samples of a dataset into a training and a test set.
use vstd::prelude::*;
use crate::array::random::{rng_from_seed, shuffle_with_rng, seeded_rng, shuffle_outcome};
use crate::frame::dataloader::{positions, shuffle_in_place};
use crate::ml::dataset::{Dataset, InMemoryDataset, rectangular};

verus! {

/// `p` lists each of `0 .. n` exactly once.
pub open spec fn is_permutation(p: Seq<usize>, n: nat) -> bool {
    &&& p.len() == n
    &&& p.to_multiset() == positions(n).to_multiset()
}

/// The rows of `rows` at the positions `p`, in that order.
pub open spec fn picked<A>(rows: Seq<A>, p: Seq<usize>) -> Seq<A> {
    p.map_values(|i: usize| rows[i as int])
}

/// `train` and `test` split the samples of `data` along the visiting order
/// `p`: the first `n - test_len` positions go to training, the others to test.
pub open spec fn split_along<D: Dataset>(
    data: D,
    p: Seq<usize>,
    test_len: nat,
    train: InMemoryDataset<D::Feature, D::Target>,
    test: InMemoryDataset<D::Feature, D::Target>,
) -> bool {
    let cut = p.len() - test_len;
    &&& train.rows() == picked(data.feature_rows(), p.take(cut))
    &&& train.labels() == picked(data.target_values(), p.take(cut))
    &&& test.rows() == picked(data.feature_rows(), p.skip(cut))
    &&& test.labels() == picked(data.target_values(), p.skip(cut))
}

/// `train` and `test` are a split of `data` with `test_len` test samples
/// along some visiting order: the positions in order without shuffling, the
/// order the shuffle gives from a generator seeded with `seed` when there is
/// one, and some permutation otherwise.
pub open spec fn split_result<D: Dataset>(
    data: D,
    test_len: nat,
    shuffle: bool,
    seed: Option<u64>,
    train: InMemoryDataset<D::Feature, D::Target>,
    test: InMemoryDataset<D::Feature, D::Target>,
) -> bool {
    let n = data.feature_rows().len();
    exists|p: Seq<usize>|
        #![trigger is_permutation(p, n)]
        is_permutation(p, n) && (!shuffle ==> p == positions(n)) && (shuffle && seed is Some ==> p
            == shuffle_outcome(positions(n), seeded_rng(seed->0)).0) && split_along(data, p, test_len, train, test)
}

/// Splitting the same data twice without shuffling, or shuffling with the
/// same seed, gives the same training and test sets.
pub proof fn lemma_split_repeats<D: Dataset>(
    data: D,
    test_len: nat,
    shuffle: bool,
    seed: Option<u64>,
    train1: InMemoryDataset<D::Feature, D::Target>,
    test1: InMemoryDataset<D::Feature, D::Target>,
    train2: InMemoryDataset<D::Feature, D::Target>,
    test2: InMemoryDataset<D::Feature, D::Target>,
)
    requires
        shuffle ==> seed is Some,
        split_result(data, test_len, shuffle, seed, train1, test1),
        split_result(data, test_len, shuffle, seed, train2, test2),
    ensures
        train1.rows() == train2.rows(),
        train1.labels() == train2.labels(),
        test1.rows() == test2.rows(),
        test1.labels() == test2.labels(),
{
    let n = data.feature_rows().len();
    let p1 = choose|p: Seq<usize>|
        #![trigger is_permutation(p, n)]
        is_permutation(p, n) && (!shuffle ==> p == positions(n)) && (shuffle && seed is Some ==> p
            == shuffle_outcome(positions(n), seeded_rng(seed->0)).0) && split_along(data, p, test_len, train1, test1);
    let p2 = choose|p: Seq<usize>|
        #![trigger is_permutation(p, n)]
        is_permutation(p, n) && (!shuffle ==> p == positions(n)) && (shuffle && seed is Some ==> p
            == shuffle_outcome(positions(n), seeded_rng(seed->0)).0) && split_along(data, p, test_len, train2, test2);
    assert(p1 == p2);
}

/// A copy of a row.
fn row_copy<F: Copy>(s: &[F]) -> (r: Vec<F>)
    ensures
        r@ == s@,
{
    let mut out: Vec<F> = Vec::new();
    let mut i: usize = 0;
    while i < s.len()
        invariant
            i <= s@.len(),
            out@ == s@.take(i as int),
        decreases s@.len() - i,
    {
        out.push(s[i]);
        i = i + 1;
        proof {
            assert(out@ =~= s@.take(i as int));
        }
    }
    proof {
        assert(s@.take(i as int) =~= s@);
    }
    out
}

/// The samples of `data` at the positions `idx`, in that order.
fn gather_samples<D: Dataset>(data: &D, idx: &[usize]) -> (r: InMemoryDataset<D::Feature, D::Target>)
    requires
        forall|k: int| 0 <= k < idx@.len() ==> #[trigger] idx@[k] < data.feature_rows().len(),
        data.target_values().len() == data.feature_rows().len(),
        rectangular(data.feature_rows()),
    ensures
        r.rows() == picked(data.feature_rows(), idx@),
        r.labels() == picked(data.target_values(), idx@),
{
    let ghost rows = data.feature_rows();
    let mut features: Vec<Vec<D::Feature>> = Vec::new();
    let mut targets: Vec<D::Target> = Vec::new();
    let mut k: usize = 0;
    while k < idx.len()
        invariant
            k <= idx@.len(),
            rows == data.feature_rows(),
            forall|j: int| 0 <= j < idx@.len() ==> #[trigger] idx@[j] < rows.len(),
            data.target_values().len() == rows.len(),
            features@.map_values(|r: Vec<D::Feature>| r@) == picked(rows, idx@.take(k as int)),
            targets@ == picked(data.target_values(), idx@.take(k as int)),
        decreases idx@.len() - k,
    {
        let i = idx[k];
        let row = row_copy(data.feature_row(i));
        let ghost before = features@;
        features.push(row);
        targets.push(data.get_target(i));
        proof {
            assert(idx@.take(k + 1) =~= idx@.take(k as int).push(i));
            assert(features@.map_values(|r: Vec<D::Feature>| r@) =~= before.map_values(|r: Vec<D::Feature>| r@).push(
                row@,
            ));
            assert(picked(rows, idx@.take(k + 1)) =~= picked(rows, idx@.take(k as int)).push(rows[i as int]));
            assert(picked(data.target_values(), idx@.take(k + 1)) =~= picked(
                data.target_values(),
                idx@.take(k as int),
            ).push(data.target_values()[i as int]));
        }
        k = k + 1;
    }
    proof {
        assert(idx@.take(k as int) =~= idx@);
        let fv = features@.map_values(|r: Vec<D::Feature>| r@);
        assert forall|j: int| 0 <= j < fv.len() implies #[trigger] fv[j].len() == fv[0].len() by {
            assert(fv[j] == rows[idx@[j] as int]);
            assert(fv[0] == rows[idx@[0] as int]);
            assert(rows[idx@[j] as int].len() == rows[0].len());
            assert(rows[idx@[0] as int].len() == rows[0].len());
        }
    }
    InMemoryDataset::new(features, targets)
}

/// Splits the samples of `data` into a training and a test set of
/// `test_len` samples. The samples are visited in order, or, when `shuffle`
/// is set, in a random order: drawn from a generator seeded with `seed`
/// when there is one, else from the thread's generator. The first
/// `n - test_len` samples visited form the training set, the rest the test
/// set.
pub fn split_samples<D: Dataset>(data: &D, test_len: usize, shuffle: bool, seed: Option<u64>) -> (r: (
    InMemoryDataset<D::Feature, D::Target>,
    InMemoryDataset<D::Feature, D::Target>,
))
    requires
        test_len <= data.feature_rows().len(),
        data.target_values().len() == data.feature_rows().len(),
        rectangular(data.feature_rows()),
    ensures
        split_result(*data, test_len as nat, shuffle, seed, r.0, r.1),
{
    let n = data.len();
    let mut indices: Vec<usize> = Vec::new();
    let mut i: usize = 0;
    while i < n
        invariant
            i <= n,
            indices@ == positions(i as nat),
        decreases n - i,
    {
        indices.push(i);
        i = i + 1;
        proof {
            assert(indices@ =~= positions(i as nat));
        }
    }
    if shuffle {
        match seed {
            Some(s) => {
                let mut rng = rng_from_seed(s);
                shuffle_with_rng(&mut indices, &mut rng);
            },
            None => {
                shuffle_in_place(&mut indices);
            },
        }
    }
    let ghost p = indices@;
    proof {
        p.to_multiset_ensures();
        positions(n as nat).to_multiset_ensures();
        assert forall|k: int| 0 <= k < p.len() implies #[trigger] p[k] < n by {
            assert(p.contains(p[k]));
            assert(p.to_multiset().count(p[k]) > 0);
            assert(positions(n as nat).contains(p[k]));
        }
    }
    let cut = n - test_len;
    let train_idx = vstd::slice::slice_subrange(indices.as_slice(), 0, cut);
    let test_idx = vstd::slice::slice_subrange(indices.as_slice(), cut, n);
    proof {
        assert(train_idx@ =~= p.take(cut as int));
        assert(test_idx@ =~= p.skip(cut as int));
    }
    let train = gather_samples(data, train_idx);
    let test = gather_samples(data, test_idx);
    proof {
        assert(is_permutation(p, n as nat));
        assert(split_along(*data, p, test_len as nat, train, test));
        assert(split_result(*data, test_len as nat, shuffle, seed, train, test));
    }
    (train, test)
}

} // verus!
