//! Batched, optionally shuffled reading of an indexed dataset.
use vstd::prelude::*;
use std::sync::Arc;
use rand::seq::SliceRandom;
use crate::frame::error::{Error, Result};

verus! {

/// A dataset read by position.
pub trait IndexDataset<D> {
    /// Number of samples.
    fn len(&self) -> usize;

    /// The sample at a position.
    fn get(&self, index: usize) -> Result<D>;
}

/// How a DataLoader batches.
#[derive(Debug, Clone)]
pub struct DataLoaderConfig {
    /// Samples per batch.
    pub batch_size: usize,
    /// Visit the samples in a new random order every epoch.
    pub shuffle: bool,
    /// Leave out a last batch smaller than `batch_size`.
    pub drop_last: bool,
}

impl Default for DataLoaderConfig {
    fn default() -> (r: Self)
        ensures
            r.batch_size == 32,
            !r.shuffle,
            !r.drop_last,
    {
        DataLoaderConfig { batch_size: 32, shuffle: false, drop_last: false }
    }
}

/// The positions `0 .. n`, in order.
pub open spec fn positions(n: nat) -> Seq<usize> {
    Seq::new(n, |i: int| i as usize)
}

/// `rand::seq::SliceRandom::shuffle` with the thread-local generator: puts
/// the elements in a random order. It only swaps elements, so the result is a
/// permutation of its input; which one is left to chance.
#[verifier::external_body]
pub(crate) fn shuffle_in_place(v: &mut Vec<usize>)
    ensures
        final(v)@.to_multiset() == old(v)@.to_multiset(),
        final(v)@.len() == old(v)@.len(),
{
    v.shuffle(&mut rand::thread_rng());
}

/// Where the batch starting at position `c` ends.
pub open spec fn batch_end(c: int, n: int, bs: int) -> int {
    if c + bs < n {
        c + bs
    } else {
        n
    }
}

/// A batch starts at position `c`: positions are left, and the batch is
/// full or short batches are kept.
pub open spec fn yields_batch(c: int, n: int, bs: int, drop_last: bool) -> bool {
    c < n && !(drop_last && batch_end(c, n, bs) - c < bs)
}

/// Number of batches read from position `c` to the end of the epoch.
pub open spec fn batches_from(c: int, n: int, bs: int, drop_last: bool) -> int
    decreases n - c,
{
    if bs > 0 && yields_batch(c, n, bs, drop_last) {
        1 + batches_from(batch_end(c, n, bs), n, bs, drop_last)
    } else {
        0
    }
}

/// The batches read in an epoch are as many as `num_batches` counts: `n / bs`
/// when short batches are dropped, `ceil(n / bs)` otherwise.
pub proof fn lemma_epoch_batches(n: int, bs: int, drop_last: bool)
    requires
        n >= 0,
        bs > 0,
    ensures
        batches_from(0, n, bs, drop_last) == if drop_last { n / bs } else { (n + bs - 1) / bs },
{
    lemma_batches_from(0, n, bs, drop_last);
}

proof fn lemma_batches_from(c: int, n: int, bs: int, drop_last: bool)
    requires
        0 <= c <= n,
        bs > 0,
    ensures
        batches_from(c, n, bs, drop_last) == if drop_last { (n - c) / bs } else { (n - c + bs - 1) / bs },
    decreases n - c,
{
    let m = n - c;
    if !yields_batch(c, n, bs, drop_last) {
        if c >= n {
            assert(m == 0);
            assert(0int / bs == 0) by (nonlinear_arith)
                requires
                    bs > 0,
            ;
            assert((bs - 1) / bs == 0) by (nonlinear_arith)
                requires
                    bs > 0,
            ;
        } else {
            assert(m / bs == 0) by (nonlinear_arith)
                requires
                    0 <= m < bs,
            ;
        }
    } else {
        let e = batch_end(c, n, bs);
        lemma_batches_from(e, n, bs, drop_last);
        if c + bs < n {
            assert(e == c + bs);
            assert((m - bs) / bs + 1 == m / bs) by (nonlinear_arith)
                requires
                    bs > 0,
                    m >= bs,
            ;
            assert((m - bs + bs - 1) / bs + 1 == (m + bs - 1) / bs) by (nonlinear_arith)
                requires
                    bs > 0,
                    m >= bs,
            ;
        } else {
            assert(e == n);
            assert(!drop_last || m >= bs);
            if drop_last {
                assert(m == bs);
                assert(m / bs == 1) by (nonlinear_arith)
                    requires
                        bs > 0,
                        m == bs,
                ;
                assert(0int / bs == 0) by (nonlinear_arith)
                    requires
                        bs > 0,
                ;
            } else {
                assert((m + bs - 1) / bs == 1) by (nonlinear_arith)
                    requires
                        bs > 0,
                        0 < m <= bs,
                ;
                assert((bs - 1) / bs == 0) by (nonlinear_arith)
                    requires
                        bs > 0,
                ;
            }
        }
    }
}

/// A permutation of the positions `0 .. n` holds only positions below `n`.
proof fn lemma_order_bounded(order: Seq<usize>, k: int)
    requires
        order.to_multiset() == positions(order.len()).to_multiset(),
        0 <= k < order.len(),
    ensures
        order[k] < order.len(),
{
    broadcast use vstd::seq_lib::group_to_multiset_ensures;

    let p = positions(order.len());
    assert(order.contains(order[k]));
    assert(order.to_multiset().count(order[k]) > 0);
    assert(p.contains(order[k]));
    let j = choose|j: int| 0 <= j < p.len() && p[j] == order[k];
    assert(p[j] == j as usize);
}

/// A permutation of the positions `0 .. n` holds each position once.
pub proof fn lemma_order_distinct(order: Seq<usize>)
    requires
        order.to_multiset() == positions(order.len()).to_multiset(),
        order.len() <= usize::MAX,
    ensures
        order.no_duplicates(),
{
    let p = positions(order.len());
    assert(p.no_duplicates()) by {
        assert forall|i: int, j: int| 0 <= i < p.len() && 0 <= j < p.len() && i != j implies p[i] != p[j] by {
            assert(p[i] == i as usize && p[j] == j as usize);
        }
    }
    p.lemma_multiset_has_no_duplicates();
    order.lemma_multiset_has_no_duplicates_conv();
}

/// Reads a dataset in batches, in order or shuffled.
#[verifier::reject_recursive_types(D)]
pub struct DataLoader<D, S: IndexDataset<D>> {
    dataset: Arc<S>,
    marker: core::marker::PhantomData<D>,
    indices: Vec<usize>,
    config: DataLoaderConfig,
    position: usize,
}

impl<D, S: IndexDataset<D>> DataLoader<D, S> {
    /// The visiting order is a permutation of the dataset's positions, and
    /// the read position stays within it.
    #[verifier::type_invariant]
    spec fn inv(self) -> bool {
        &&& self.indices@.to_multiset() == positions(self.indices@.len()).to_multiset()
        &&& self.position <= self.indices@.len()
    }

    /// The order in which samples are visited this epoch.
    pub closed spec fn order(&self) -> Seq<usize> {
        self.indices@
    }

    /// How many positions of the order were read this epoch.
    pub closed spec fn cursor(&self) -> nat {
        self.position as nat
    }

    /// The dataset read.
    pub closed spec fn source(&self) -> S {
        *self.dataset
    }

    /// The configuration.
    pub closed spec fn settings(&self) -> DataLoaderConfig {
        self.config
    }

    /// A loader over all samples of the dataset, shuffled if configured.
    pub fn new(dataset: Arc<S>, config: DataLoaderConfig) -> (r: Self)
        ensures
            r.order().to_multiset() == positions(r.order().len()).to_multiset(),
            !config.shuffle ==> r.order() == positions(r.order().len()),
            call_ensures(S::len, (&*dataset,), r.order().len() as usize),
            r.cursor() == 0,
            r.settings() == config,
            r.source() == *dataset,
    {
        let n = dataset.len();
        let mut indices: Vec<usize> = Vec::new();
        let mut i: usize = 0;
        while i < n
            invariant
                i <= n,
                indices@ == positions(i as nat),
            decreases n - i,
        {
            indices.push(i);
            i = i + 1;
            proof {
                assert(indices@ =~= positions(i as nat));
            }
        }
        if config.shuffle {
            shuffle_in_place(&mut indices);
        }
        DataLoader { dataset, marker: core::marker::PhantomData, indices, config, position: 0 }
    }

    /// Starts a new epoch: reading restarts at the beginning, in a new random
    /// order if configured.
    pub fn reset(&mut self)
        ensures
            final(self).cursor() == 0,
            final(self).settings() == old(self).settings(),
            final(self).source() == old(self).source(),
            final(self).order().to_multiset() == old(self).order().to_multiset(),
            final(self).order().len() == old(self).order().len(),
            final(self).order().to_multiset() == positions(final(self).order().len()).to_multiset(),
            !old(self).settings().shuffle ==> final(self).order() == old(self).order(),
    {
        proof {
            use_type_invariant(&*self);
        }
        self.position = 0;
        if self.config.shuffle {
            let ghost before = self.indices@;
            let mut indices = Vec::new();
            proof {
                assert(positions(0) =~= indices@);
            }
            std::mem::swap(&mut indices, &mut self.indices);
            shuffle_in_place(&mut indices);
            proof {
                assert(indices@.to_multiset() == positions(indices@.len()).to_multiset());
            }
            std::mem::swap(&mut indices, &mut self.indices);
        }
        proof {
            use_type_invariant(&*self);
        }
    }

    /// Number of batches in an epoch.
    pub fn num_batches(&self) -> (r: usize)
        requires
            self.settings().batch_size > 0,
            self.order().len() + self.settings().batch_size - 1 <= usize::MAX,
        ensures
            self.settings().drop_last ==> r == self.order().len() / (self.settings().batch_size as nat),
            !self.settings().drop_last ==> r == (self.order().len() + self.settings().batch_size - 1) / (
            self.settings().batch_size as int),
    {
        let total = self.indices.len();
        let bs = self.config.batch_size;
        if self.config.drop_last {
            total / bs
        } else {
            (total + (bs - 1)) / bs
        }
    }

    /// The next batch of the epoch: the samples at the next `batch_size`
    /// positions of the order, or fewer at the end. `None` once the epoch is
    /// read, or when only a short batch is left and short batches are dropped.
    #[verifier::loop_isolation(false)]
    pub fn next(&mut self) -> (r: Option<Result<Vec<D>>>)
        requires
            old(self).cursor() + old(self).settings().batch_size <= usize::MAX,
        ensures
            final(self).order() == old(self).order(),
            final(self).settings() == old(self).settings(),
            final(self).source() == old(self).source(),
            forall|k: int| 0 <= k < old(self).order().len() ==> #[trigger] old(self).order()[k] < old(self).order().len(),
            ({
                let c = old(self).cursor() as int;
                let n = old(self).order().len() as int;
                let bs = old(self).settings().batch_size as int;
                let drop = old(self).settings().drop_last;
                let end = batch_end(c, n, bs);
                &&& c >= n ==> r is None && final(self).cursor() == c
                &&& c < n && !yields_batch(c, n, bs, drop) ==> r is None && final(self).cursor() == n
                &&& yields_batch(c, n, bs, drop) ==> match r {
                    Some(Ok(batch)) => batch@.len() == end - c && final(self).cursor() == end && forall|i: int|
                        0 <= i < batch@.len() ==> #[trigger] call_ensures(
                            S::get,
                            (&old(self).source(), old(self).order()[c + i]),
                            Ok::<D, Error>(batch@[i]),
                        ),
                    Some(Err(e)) => final(self).cursor() == c && exists|k: int|
                        c <= k < end && #[trigger] call_ensures(
                            S::get,
                            (&old(self).source(), old(self).order()[k]),
                            Err::<D, Error>(e),
                        ),
                    None => false,
                }
            }),
    {
        proof {
            use_type_invariant(&*self);
        }
        proof {
            assert forall|k: int| 0 <= k < self.order().len() implies #[trigger] self.order()[k] < self.order().len() by {
                lemma_order_bounded(self.order(), k);
            }
        }
        let n = self.indices.len();
        if self.position >= n {
            return None;
        }
        let sum = self.position + self.config.batch_size;
        let end = if sum < n { sum } else { n };
        if self.config.drop_last && end - self.position < self.config.batch_size {
            self.position = n;
            return None;
        }
        let mut batch: Vec<D> = Vec::new();
        let mut k = self.position;
        while k < end
            invariant
                self.position <= k <= end <= self.indices@.len(),
                batch@.len() == k - self.position,
                forall|i: int|
                    0 <= i < batch@.len() ==> #[trigger] call_ensures(
                        S::get,
                        (&self.source(), self.order()[self.position + i]),
                        Ok::<D, Error>(batch@[i]),
                    ),
            decreases end - k,
        {
            let pos = self.indices[k];
            let res = self.dataset.get(pos);
            proof {
                assert(call_ensures(S::get, (&self.source(), self.order()[k as int]), res));
            }
            match res {
                Ok(item) => {
                    let ghost before = batch@;
                    batch.push(item);
                    proof {
                        assert forall|i: int| 0 <= i < batch@.len() implies #[trigger] call_ensures(
                            S::get,
                            (&self.source(), self.order()[self.position + i]),
                            Ok::<D, Error>(batch@[i]),
                        ) by {
                            if i < before.len() {
                                assert(batch@[i] == before[i]);
                            }
                        }
                    }
                },
                Err(e) => {
                    return Some(Err(e));
                },
            }
            k = k + 1;
        }
        self.position = end;
        Some(Ok(batch))
    }
}

} // verus!
