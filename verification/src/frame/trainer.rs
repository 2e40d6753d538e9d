//! Training loops over batched data.
use vstd::prelude::*;
use crate::base::dataset::Dataset;
use crate::base::model::{Estimator, IsFitted, IsUnfitted, Predictor};
use crate::frame::metrics::Metric;
use crate::base::numeric::Numeric;
use crate::frame::dataloader::{DataLoader, IndexDataset, batch_end, yields_batch};
use crate::error::RusantaError;
use crate::frame::error::{Error, Result};

verus! {

/// How training runs.
#[derive(Debug, Clone)]
pub struct TrainerConfig {
    /// Passes over the data.
    pub epochs: usize,
    /// Report progress while training.
    pub verbose: bool,
}

impl Default for TrainerConfig {
    fn default() -> (r: Self)
        ensures
            r.epochs == 1,
            r.verbose,
    {
        TrainerConfig { epochs: 1, verbose: true }
    }
}

/// `x` is a possible `Ok` result of `src.get` at some position below `n`.
pub open spec fn read_sample<D, S: IndexDataset<D>>(src: S, n: nat, x: D) -> bool {
    exists|pos: usize| pos < n && #[trigger] call_ensures(S::get, (&src, pos), Ok::<D, Error>(x))
}

/// `ms` are the models met while fitting `model` on `samples` in order:
/// `ms[0]` is `model`, and each later one is a possible `Ok` result of
/// `fit` on the one before and the matching sample.
pub open spec fn fit_chain<T: Numeric, X: Dataset<T>, Y: Dataset<T>, M: Estimator<T, X, Y, IsUnfitted>>(
    model: M,
    samples: Seq<(X, Y)>,
    ms: Seq<M>,
) -> bool {
    &&& ms.len() == samples.len() + 1
    &&& ms[0] == model
    &&& forall|i: int|
        0 <= i < samples.len() ==> #[trigger] call_ensures(
            M::fit,
            (ms[i], &samples[i].0, &samples[i].1),
            Ok::<M, RusantaError>(ms[i + 1]),
        )
}

/// `model` was fitted in order on `samples`, giving the models `ms`, and
/// each sample is a possible `Ok` result of `src.get` at the matching
/// position of `ps`, all below `n`.
pub open spec fn trained<T: Numeric, X: Dataset<T>, Y: Dataset<T>, M: Estimator<T, X, Y, IsUnfitted>, S: IndexDataset<(X, Y)>>(
    model: M,
    src: S,
    n: nat,
    samples: Seq<(X, Y)>,
    ms: Seq<M>,
    ps: Seq<usize>,
) -> bool {
    &&& fit_chain(model, samples, ms)
    &&& reads_at(src, n, samples, ps)
}

/// Each of `samples` is a possible `Ok` result of `src.get` at the matching
/// position of `ps`, and every position is below `n`.
pub open spec fn reads_at<D, S: IndexDataset<D>>(src: S, n: nat, samples: Seq<D>, ps: Seq<usize>) -> bool {
    &&& ps.len() == samples.len()
    &&& forall|i: int| 0 <= i < ps.len() ==> #[trigger] ps[i] < n
    &&& forall|i: int|
        0 <= i < samples.len() ==> #[trigger] call_ensures(S::get, (&src, ps[i]), Ok::<D, Error>(samples[i]))
}

/// The positions read in epoch `e`, when each epoch reads `len` of them.
pub open spec fn epoch_block(ps: Seq<usize>, e: int, len: int) -> Seq<usize> {
    ps.subrange(e * len, e * len + len)
}

/// Samples read in one epoch over `n` samples in batches of `bs`: all of
/// them, or only the full batches when short batches are dropped.
pub open spec fn epoch_len(n: int, bs: int, drop_last: bool) -> int {
    if drop_last {
        n / bs * bs
    } else {
        n
    }
}

/// An epoch stops reading at `c`: with short batches dropped, `c` is the
/// last multiple of `bs` that a full batch could start from.
proof fn lemma_epoch_end(c: int, n: int, bs: int, drop_last: bool)
    requires
        0 <= c <= n,
        bs > 0,
        !yields_batch(c, n, bs, drop_last),
        drop_last ==> c % bs == 0,
    ensures
        c == epoch_len(n, bs, drop_last),
{
    if drop_last {
        vstd::arithmetic::div_mod::lemma_fundamental_div_mod(c, bs);
        let q = c / bs;
        assert(c == bs * q);
        assert(n - c < bs);
        assert(n == q * bs + (n - c)) by (nonlinear_arith)
            requires
                c == bs * q,
        ;
        vstd::arithmetic::div_mod::lemma_fundamental_div_mod_converse(n, bs, q, n - c);
        assert(c == q * bs) by (nonlinear_arith)
            requires
                c == bs * q,
        ;
    }
}

/// Sum of the scores of `mt` over the first `k` samples, each against its
/// predictions.
pub open spec fn score_total<X, Y: Dataset<i64>, Mt: Metric<i64>>(
    mt: Mt,
    preds: Seq<Vec<i64>>,
    samples: Seq<(X, Y)>,
    k: int,
) -> int
    decreases k,
{
    if k <= 0 {
        0
    } else {
        score_total(mt, preds, samples, k - 1) + mt.score(preds[k - 1]@, samples[k - 1].1.elems()) as int
    }
}

/// The quotient rounded toward zero, as integer division does.
pub open spec fn trunc_div(a: int, b: int) -> int {
    if a >= 0 {
        a / b
    } else {
        -((-a) / b)
    }
}

/// The mean score of each metric over the samples, in integers, or zeros
/// when there are no samples.
pub open spec fn mean_scores<X, Y: Dataset<i64>, Mt: Metric<i64>>(
    metrics: Seq<Mt>,
    preds: Seq<Vec<i64>>,
    samples: Seq<(X, Y)>,
) -> Seq<i64> {
    Seq::new(
        metrics.len(),
        |i: int|
            if samples.len() == 0 {
                0i64
            } else {
                trunc_div(score_total(metrics[i], preds, samples, samples.len() as int), samples.len() as int) as i64
            },
    )
}

/// `model` predicted `preds` for `samples`, read from `src` at the positions
/// `ps`, and every metric is defined on each prediction and its targets,
/// which have the same length when there is a metric.
pub open spec fn evaluated<X: Dataset<i64>, Y: Dataset<i64>, M: Predictor<i64, X, IsFitted>, S: IndexDataset<(X, Y)>, Mt: Metric<i64>>(
    model: M,
    src: S,
    n: nat,
    metrics: Seq<Mt>,
    samples: Seq<(X, Y)>,
    ps: Seq<usize>,
    preds: Seq<Vec<i64>>,
) -> bool {
    &&& reads_at(src, n, samples, ps)
    &&& preds.len() == samples.len()
    &&& forall|j: int|
        0 <= j < samples.len() ==> #[trigger] call_ensures(
            M::predict,
            (&model, &samples[j].0),
            Ok::<Vec<i64>, RusantaError>(preds[j]),
        )
    &&& forall|j: int|
        0 <= j < samples.len() && metrics.len() > 0 ==> (#[trigger] preds[j])@.len() == samples[j].1.elems().len()
    &&& forall|i: int, j: int|
        0 <= i < metrics.len() && 0 <= j < samples.len() ==> #[trigger] metrics[i].defined_on(
            preds[j]@,
            samples[j].1.elems(),
        )
}

/// `e` is an error evaluating may end with: one the loader's `get` returned
/// at a position below `n`; one `predict` returned on a sample read; or, for
/// a sample read and a prediction `predict` made for it, the length mismatch
/// a metric reports when the prediction and the targets differ in length, or
/// the error for a metric not defined on them.
pub open spec fn evaluation_error<X: Dataset<i64>, Y: Dataset<i64>, M: Predictor<i64, X, IsFitted>, S: IndexDataset<(X, Y)>, Mt: Metric<i64>>(
    model: M,
    src: S,
    n: nat,
    metrics: Seq<Mt>,
    e: Error,
) -> bool {
    ||| exists|pos: usize| pos < n && #[trigger] call_ensures(S::get, (&src, pos), Err::<(X, Y), Error>(e))
    ||| exists|x: (X, Y), ce: RusantaError|
        read_sample(src, n, x) && #[trigger] call_ensures(M::predict, (&model, &x.0), Err::<Vec<i64>, RusantaError>(ce))
            && e == Error::Core(ce)
    ||| exists|x: (X, Y), p: Vec<i64>|
        read_sample(src, n, x) && #[trigger] call_ensures(M::predict, (&model, &x.0), Ok::<Vec<i64>, RusantaError>(p))
            && ((metrics.len() > 0 && p@.len() != x.1.elems().len() && (e matches Error::InvalidValue(m) && m@
            == "prediction/target length mismatch"@)) || ((exists|i: int|
            0 <= i < metrics.len() && !#[trigger] metrics[i].defined_on(p@, x.1.elems())) && (e matches Error::InvalidValue(
            m,
        ) && m@ == "metric is not defined on these predictions"@)))
}

/// A batch read means the epoch reads some samples.
proof fn lemma_batch_means_samples(c: int, n: int, bs: int, drop_last: bool)
    requires
        0 <= c,
        bs > 0,
        yields_batch(c, n, bs, drop_last),
    ensures
        epoch_len(n, bs, drop_last) > 0,
{
    if drop_last {
        assert(c + bs <= n);
        vstd::arithmetic::div_mod::lemma_fundamental_div_mod(n, bs);
        let q = n / bs;
        assert(n % bs < bs) by {
            vstd::arithmetic::div_mod::lemma_mod_bound(n, bs);
        }
        assert(bs * q > 0);
        assert(q * bs == bs * q) by (nonlinear_arith);
    }
}

/// The totals over samples that agree on a prefix agree.
proof fn lemma_score_total_prefix<X, Y: Dataset<i64>, Mt: Metric<i64>>(
    mt: Mt,
    p1: Seq<Vec<i64>>,
    s1: Seq<(X, Y)>,
    p2: Seq<Vec<i64>>,
    s2: Seq<(X, Y)>,
    k: int,
)
    requires
        0 <= k <= p1.len(),
        k <= p2.len(),
        k <= s1.len(),
        k <= s2.len(),
        forall|j: int| 0 <= j < k ==> p1[j] == p2[j] && s1[j] == s2[j],
    ensures
        score_total(mt, p1, s1, k) == score_total(mt, p2, s2, k),
    decreases k,
{
    if k > 0 {
        lemma_score_total_prefix(mt, p1, s1, p2, s2, k - 1);
    }
}

/// A total of `k` scores lies between `k` times the least and the greatest
/// `i64`.
proof fn lemma_score_total_bounds<X, Y: Dataset<i64>, Mt: Metric<i64>>(
    mt: Mt,
    preds: Seq<Vec<i64>>,
    samples: Seq<(X, Y)>,
    k: int,
)
    requires
        k >= 0,
    ensures
        k * (i64::MIN as int) <= score_total(mt, preds, samples, k) <= k * (i64::MAX as int),
    decreases k,
{
    if k > 0 {
        lemma_score_total_bounds(mt, preds, samples, k - 1);
        assert((k - 1) * (i64::MIN as int) + (i64::MIN as int) == k * (i64::MIN as int)) by (nonlinear_arith);
        assert((k - 1) * (i64::MAX as int) + (i64::MAX as int) == k * (i64::MAX as int)) by (nonlinear_arith);
    }
}

/// Runs training: iterates epochs and batches and calls the model's API.
pub struct Trainer;

impl Trainer {
    /// Fits the model on every sample of every batch, for the configured
    /// number of epochs, restarting the loader at each epoch. The first
    /// failure, of the loader or of the model, ends the training.
    #[verifier::loop_isolation(false)]
    pub fn fit<T: Numeric, X: Dataset<T>, Y: Dataset<T>, M: Estimator<T, X, Y, IsUnfitted>, S: IndexDataset<(X, Y)>>(
        model: M,
        loader: DataLoader<(X, Y), S>,
        config: TrainerConfig,
    ) -> (r: Result<M>)
        requires
            loader.settings().batch_size > 0,
            loader.order().len() + loader.settings().batch_size <= usize::MAX,
        ensures
            config.epochs == 0 ==> (r matches Ok(m) && m == model),
            ({
                let src = loader.source();
                let n = loader.order().len();
                let bs = loader.settings().batch_size as int;
                let drop = loader.settings().drop_last;
                &&& r matches Ok(m) ==> exists|samples: Seq<(X, Y)>, ms: Seq<M>, ps: Seq<usize>|
                    #[trigger] trained(model, src, n, samples, ms, ps) && m == ms.last() && samples.len()
                        == config.epochs * epoch_len(n as int, bs, drop) && forall|e: int|
                        0 <= e < config.epochs ==> #[trigger] epoch_block(ps, e, epoch_len(n as int, bs, drop)).no_duplicates()
                &&& r matches Err(e) ==> exists|samples: Seq<(X, Y)>, ms: Seq<M>, ps: Seq<usize>|
                    #[trigger] trained(model, src, n, samples, ms, ps) && ((exists|pos: usize|
                        pos < n && #[trigger] call_ensures(S::get, (&src, pos), Err::<(X, Y), Error>(e)))
                        || (exists|x: (X, Y), ce: RusantaError|
                        #[trigger] call_ensures(M::fit, (ms.last(), &x.0, &x.1), Err::<M, RusantaError>(ce))
                            && read_sample(src, n, x) && e == Error::Core(ce)))
            }),
    {
        let ghost initial = model;
        let mut model = model;
        let mut loader = loader;
        let ghost src = loader.source();
        let ghost n = loader.order().len();
        let ghost settings = loader.settings();
        let ghost bs = settings.batch_size as int;
        let ghost drop = settings.drop_last;
        let ghost len = epoch_len(n as int, bs, drop);
        let ghost mut samples: Seq<(X, Y)> = Seq::empty();
        let ghost mut ms: Seq<M> = seq![model];
        let ghost mut ps: Seq<usize> = Seq::empty();
        let mut epoch: usize = 0;
        proof {
            assert(trained(initial, src, n, samples, ms, ps));
        }
        while epoch < config.epochs
            invariant
                loader.settings() == settings,
                loader.source() == src,
                loader.order().len() == n,
                settings.batch_size > 0,
                n + settings.batch_size <= usize::MAX,
                epoch <= config.epochs,
                epoch == 0 ==> model == initial,
                trained(initial, src, n, samples, ms, ps),
                model == ms.last(),
                samples.len() == epoch * len,
                forall|e: int| 0 <= e < epoch ==> #[trigger] epoch_block(ps, e, len).no_duplicates(),
            decreases config.epochs - epoch,
        {
            loader.reset();
            let ghost order = loader.order();
            proof {
                crate::frame::dataloader::lemma_order_distinct(order);
            }
            let ghost base = ps;
            let ghost mut eps: Seq<usize> = Seq::empty();
            let mut done = false;
            let ghost mut read: int = 0;
            while !done
                invariant
                    loader.settings() == settings,
                    loader.source() == src,
                    loader.order() == order,
                    order.len() == n,
                    order.no_duplicates(),
                    settings.batch_size > 0,
                    n + settings.batch_size <= usize::MAX,
                    loader.cursor() <= n,
                    trained(initial, src, n, samples, ms, ps),
                    model == ms.last(),
                    base.len() == epoch * len,
                    0 <= read <= n,
                    ps == base + eps,
                    eps == order.take(read),
                    !done ==> read == loader.cursor(),
                    !done && drop ==> (loader.cursor() as int) % bs == 0,
                    done ==> read == len,
                decreases n - loader.cursor() + (if done { 0int } else { 1int }),
            {
                let ghost c = loader.cursor() as int;
                match loader.next() {
                    None => {
                        proof {
                            lemma_epoch_end(c, n as int, bs, drop);
                        }
                        done = true;
                    },
                    Some(Err(e)) => {
                        proof {
                            let k = choose|k: int|
                                c <= k < batch_end(c, n as int, bs) && #[trigger] call_ensures(
                                    S::get,
                                    (&src, order[k]),
                                    Err::<(X, Y), Error>(e),
                                );
                            assert(order[k] < n);
                            assert(trained(initial, src, n, samples, ms, ps));
                        }
                        return Err(e);
                    },
                    Some(Ok(batch)) => {
                        let mut i: usize = 0;
                        while i < batch.len()
                            invariant
                                i <= batch@.len(),
                                c + batch@.len() <= n,
                                trained(initial, src, n, samples, ms, ps),
                                model == ms.last(),
                                ps == base + eps,
                                eps == order.take(c + i),
                                samples.len() == epoch * len + read + i,
                            decreases batch@.len() - i,
                        {
                            let pair = &batch[i];
                            proof {
                                assert(order[c + i] < n);
                                assert(call_ensures(S::get, (&src, order[c + i]), Ok::<(X, Y), Error>(batch@[i as int])));
                                assert(read_sample(src, n, batch@[i as int]));
                            }
                            let res = model.fit(&pair.0, &pair.1);
                            model = match res {
                                Ok(m) => m,
                                Err(e) => {
                                    proof {
                                        assert(call_ensures(M::fit, (ms.last(), &pair.0, &pair.1), Err::<M, RusantaError>(e)));
                                        assert(trained(initial, src, n, samples, ms, ps));
                                    }
                                    return Err(Error::Core(e));
                                },
                            };
                            proof {
                                let old_samples = samples;
                                let old_ms = ms;
                                let old_ps = ps;
                                samples = samples.push(*pair);
                                ms = ms.push(model);
                                ps = ps.push(order[c + i]);
                                eps = eps.push(order[c + i]);
                                assert(eps =~= order.take(c + i + 1));
                                assert(ps =~= base + eps);
                                assert forall|j: int| 0 <= j < samples.len() implies #[trigger] call_ensures(
                                    M::fit,
                                    (ms[j], &samples[j].0, &samples[j].1),
                                    Ok::<M, RusantaError>(ms[j + 1]),
                                ) by {
                                    if j < old_samples.len() {
                                        assert(ms[j] == old_ms[j] && ms[j + 1] == old_ms[j + 1]);
                                        assert(samples[j] == old_samples[j]);
                                    }
                                }
                                assert forall|j: int| 0 <= j < ps.len() implies #[trigger] ps[j] < n by {
                                    if j < old_ps.len() {
                                        assert(ps[j] == old_ps[j]);
                                    }
                                }
                                assert forall|j: int| 0 <= j < samples.len() implies #[trigger] call_ensures(
                                    S::get,
                                    (&src, ps[j]),
                                    Ok::<(X, Y), Error>(samples[j]),
                                ) by {
                                    if j < old_samples.len() {
                                        assert(samples[j] == old_samples[j] && ps[j] == old_ps[j]);
                                    } else {
                                        assert(ps[j] == order[c + i] && samples[j] == batch@[i as int]);
                                    }
                                }
                                assert(ms[0] == old_ms[0]);
                            }
                            i = i + 1;
                        }
                        proof {
                            read = read + batch@.len();
                            if drop {
                                assert(batch@.len() == bs);
                                vstd::arithmetic::div_mod::lemma_mod_add_multiples_vanish(c, bs);
                            }
                        }
                    },
                }
            }
            proof {
                assert((epoch + 1) * len == epoch * len + len) by (nonlinear_arith);
                assert(epoch_block(ps, epoch as int, len) =~= eps);
                assert(eps.no_duplicates()) by {
                    assert forall|i: int, j: int| 0 <= i < eps.len() && 0 <= j < eps.len() && i != j implies eps[i]
                        != eps[j] by {
                        assert(eps[i] == order[i] && eps[j] == order[j]);
                    }
                }
                assert forall|e: int| 0 <= e < epoch + 1 implies #[trigger] epoch_block(ps, e, len).no_duplicates() by {
                    if e < epoch {
                        assert(e * len + len <= epoch * len) by (nonlinear_arith)
                            requires
                                0 <= e < epoch,
                                len >= 0,
                        ;
                        assert(0 <= e * len) by (nonlinear_arith)
                            requires
                                0 <= e,
                                len >= 0,
                        ;
                        assert(epoch_block(ps, e, len) =~= epoch_block(base, e, len));
                    }
                }
            }
            epoch = epoch + 1;
        }
        Ok(model)
    }

    /// Evaluates a fitted model over one epoch of the loader: predicts for
    /// the inputs of every sample and scores the predictions against the
    /// sample's targets with each metric. Gives each metric's mean score over
    /// the samples, in integers (zeros when there are none). The first
    /// failure, of the loader, the model or a metric, ends the evaluation; a
    /// metric not defined on a prediction (its score would overflow) fails
    /// with an error.
    #[verifier::loop_isolation(false)]
    pub fn evaluate<X: Dataset<i64>, Y: Dataset<i64>, M: Predictor<i64, X, IsFitted>, S: IndexDataset<(X, Y)>, Mt: Metric<i64>>(
        model: &M,
        loader: DataLoader<(X, Y), S>,
        metrics: &[Mt],
    ) -> (r: Result<Vec<i64>>)
        requires
            loader.settings().batch_size > 0,
            loader.order().len() + loader.settings().batch_size <= usize::MAX,
        ensures
            ({
                let src = loader.source();
                let n = loader.order().len();
                let bs = loader.settings().batch_size as int;
                let drop = loader.settings().drop_last;
                &&& r matches Ok(res) ==> exists|samples: Seq<(X, Y)>, ps: Seq<usize>, preds: Seq<Vec<i64>>|
                    #[trigger] evaluated(*model, src, n, metrics@, samples, ps, preds) && samples.len() == epoch_len(
                        n as int,
                        bs,
                        drop,
                    ) && ps.no_duplicates() && res@ == mean_scores(metrics@, preds, samples)
                &&& r matches Err(e) ==> evaluation_error(*model, src, n, metrics@, e)
                &&& epoch_len(n as int, bs, drop) == 0 ==> (r matches Ok(res) && res@ == Seq::new(
                    metrics@.len(),
                    |i: int| 0i64,
                ))
            }),
    {
        let nm = metrics.len();
        let mut totals: Vec<i128> = Vec::new();
        let mut i: usize = 0;
        while i < nm
            invariant
                i <= nm,
                totals@ == Seq::new(i as nat, |k: int| 0i128),
            decreases nm - i,
        {
            totals.push(0);
            i = i + 1;
            proof {
                assert(totals@ =~= Seq::new(i as nat, |k: int| 0i128));
            }
        }
        let mut loader = loader;
        let ghost src = loader.source();
        let ghost n = loader.order().len();
        let ghost settings = loader.settings();
        let ghost bs = settings.batch_size as int;
        let ghost drop = settings.drop_last;
        let ghost len = epoch_len(n as int, bs, drop);
        let ghost mut samples: Seq<(X, Y)> = Seq::empty();
        let ghost mut preds_g: Seq<Vec<i64>> = Seq::empty();
        let ghost mut ps: Seq<usize> = Seq::empty();
        let mut count: usize = 0;
        loader.reset();
        let ghost order = loader.order();
        proof {
            crate::frame::dataloader::lemma_order_distinct(order);
        }
        let mut done = false;
        let ghost mut read: int = 0;
        while !done
            invariant
                loader.settings() == settings,
                loader.source() == src,
                loader.order() == order,
                order.len() == n,
                order.no_duplicates(),
                settings.batch_size > 0,
                n + settings.batch_size <= usize::MAX,
                loader.cursor() <= n,
                nm == metrics@.len(),
                totals@.len() == nm,
                evaluated(*model, src, n, metrics@, samples, ps, preds_g),
                forall|k: int|
                    0 <= k < nm ==> #[trigger] totals@[k] as int == score_total(metrics@[k], preds_g, samples, read),
                samples.len() == read,
                count == read,
                0 <= read <= n,
                ps == order.take(read),
                !done ==> read == loader.cursor(),
                !done && drop ==> (loader.cursor() as int) % bs == 0,
                done ==> read == len,
            decreases n - loader.cursor() + (if done { 0int } else { 1int }),
        {
            let ghost c = loader.cursor() as int;
            match loader.next() {
                None => {
                    proof {
                        lemma_epoch_end(c, n as int, bs, drop);
                    }
                    done = true;
                },
                Some(Err(e)) => {
                    proof {
                        let k = choose|k: int|
                            c <= k < batch_end(c, n as int, bs) && #[trigger] call_ensures(
                                S::get,
                                (&src, order[k]),
                                Err::<(X, Y), Error>(e),
                            );
                        assert(order[k] < n);
                        lemma_batch_means_samples(c, n as int, bs, drop);
                        assert(evaluation_error(*model, src, n, metrics@, e));
                    }
                    return Err(e);
                },
                Some(Ok(batch)) => {
                    proof {
                        lemma_batch_means_samples(c, n as int, bs, drop);
                    }
                    let mut j: usize = 0;
                    while j < batch.len()
                        invariant
                            j <= batch@.len(),
                            c + batch@.len() <= n,
                            totals@.len() == nm,
                            evaluated(*model, src, n, metrics@, samples, ps, preds_g),
                            forall|k: int|
                                0 <= k < nm ==> #[trigger] totals@[k] as int == score_total(
                                    metrics@[k],
                                    preds_g,
                                    samples,
                                    read + j,
                                ),
                            samples.len() == read + j,
                            count == read + j,
                            ps == order.take(c + j),
                        decreases batch@.len() - j,
                    {
                        let pair = &batch[j];
                        proof {
                            assert(order[c + j] < n);
                            assert(call_ensures(S::get, (&src, order[c + j]), Ok::<(X, Y), Error>(batch@[j as int])));
                            assert(read_sample(src, n, *pair));
                        }
                        let res = model.predict(&pair.0);
                        proof {
                            assert(call_ensures(M::predict, (&*model, &pair.0), res));
                        }
                        let preds = match res {
                            Ok(p) => p,
                            Err(e) => {
                                proof {
                                    assert(evaluation_error(*model, src, n, metrics@, Error::Core(e)));
                                }
                                return Err(Error::Core(e));
                            },
                        };
                        let ghost old_samples = samples;
                        let ghost old_preds = preds_g;
                        let ghost old_ps = ps;
                        let ghost new_samples = samples.push(*pair);
                        let ghost new_preds = preds_g.push(preds);
                        let ghost k0 = (read + j) as int;
                        let mut i: usize = 0;
                        while i < nm
                            invariant
                                i <= nm,
                                totals@.len() == nm,
                                k0 == old_samples.len(),
                                count == k0,
                                count < n,
                                forall|k: int|
                                    0 <= k < i ==> #[trigger] totals@[k] as int == score_total(
                                        metrics@[k],
                                        new_preds,
                                        new_samples,
                                        k0 + 1,
                                    ),
                                forall|k: int|
                                    i <= k < nm ==> #[trigger] totals@[k] as int == score_total(
                                        metrics@[k],
                                        old_preds,
                                        old_samples,
                                        k0,
                                    ),
                                forall|k: int|
                                    0 <= k < i ==> #[trigger] metrics@[k].defined_on(preds@, pair.1.elems()),
                                i > 0 ==> preds@.len() == pair.1.elems().len(),
                            decreases nm - i,
                        {
                            if !metrics[i].accepts(preds.as_slice(), &pair.1) {
                                let e = Error::InvalidValue(String::from_str("metric is not defined on these predictions"));
                                proof {
                                    assert(!metrics@[i as int].defined_on(preds@, pair.1.elems()));
                                    assert(evaluation_error(*model, src, n, metrics@, e));
                                }
                                return Err(e);
                            }
                            let v = match metrics[i].compute(preds.as_slice(), &pair.1) {
                                Ok(v) => v,
                                Err(e) => {
                                    proof {
                                        assert(preds@.len() != pair.1.elems().len());
                                        assert(evaluation_error(*model, src, n, metrics@, e));
                                    }
                                    return Err(e);
                                },
                            };
                            proof {
                                lemma_score_total_prefix(metrics@[i as int], old_preds, old_samples, new_preds, new_samples, k0);
                                lemma_score_total_bounds(metrics@[i as int], old_preds, old_samples, k0);
                                assert(v == metrics@[i as int].score(new_preds[k0]@, new_samples[k0].1.elems()));
                                assert(k0 * (i64::MIN as int) + (i64::MIN as int) > i128::MIN as int) by (nonlinear_arith)
                                    requires
                                        0 <= k0 < usize::MAX,
                                ;
                                assert(k0 * (i64::MAX as int) + (i64::MAX as int) < i128::MAX as int) by (nonlinear_arith)
                                    requires
                                        0 <= k0 < usize::MAX,
                                ;
                            }
                            let t = totals[i] + v as i128;
                            totals.set(i, t);
                            i = i + 1;
                        }
                        proof {
                            samples = new_samples;
                            preds_g = new_preds;
                            ps = ps.push(order[c + j]);
                            assert(ps =~= order.take(c + j + 1));
                            assert forall|q: int| 0 <= q < ps.len() implies #[trigger] ps[q] < n by {
                                if q < old_ps.len() {
                                    assert(ps[q] == old_ps[q]);
                                }
                            }
                            assert forall|q: int| 0 <= q < samples.len() implies #[trigger] call_ensures(
                                S::get,
                                (&src, ps[q]),
                                Ok::<(X, Y), Error>(samples[q]),
                            ) by {
                                if q < old_samples.len() {
                                    assert(samples[q] == old_samples[q] && ps[q] == old_ps[q]);
                                } else {
                                    assert(ps[q] == order[c + j] && samples[q] == batch@[j as int]);
                                }
                            }
                            assert forall|q: int| 0 <= q < samples.len() implies #[trigger] call_ensures(
                                M::predict,
                                (model, &samples[q].0),
                                Ok::<Vec<i64>, RusantaError>(preds_g[q]),
                            ) by {
                                if q < old_samples.len() {
                                    assert(samples[q] == old_samples[q] && preds_g[q] == old_preds[q]);
                                }
                            }
                            assert forall|q: int| 0 <= q < samples.len() && nm > 0 implies (#[trigger] preds_g[q])@.len()
                                == samples[q].1.elems().len() by {
                                if q < old_samples.len() {
                                    assert(samples[q] == old_samples[q] && preds_g[q] == old_preds[q]);
                                }
                            }
                            assert forall|a: int, q: int| 0 <= a < nm && 0 <= q < samples.len() implies #[trigger] metrics@[a].defined_on(
                                preds_g[q]@,
                                samples[q].1.elems(),
                            ) by {
                                if q < old_samples.len() {
                                    assert(samples[q] == old_samples[q] && preds_g[q] == old_preds[q]);
                                }
                            }
                        }
                        count = count + 1;
                        j = j + 1;
                    }
                    proof {
                        read = read + batch@.len();
                        if drop {
                            assert(batch@.len() == bs);
                            vstd::arithmetic::div_mod::lemma_mod_add_multiples_vanish(c, bs);
                        }
                    }
                },
            }
        }
        let mut results: Vec<i64> = Vec::new();
        let mut i: usize = 0;
        while i < nm
            invariant
                i <= nm,
                results@.len() == i,
                forall|k: int| 0 <= k < i ==> #[trigger] results@[k] == mean_scores(metrics@, preds_g, samples)[k],
            decreases nm - i,
        {
            let q: i64 = if count == 0 {
                0
            } else {
                let t = totals[i];
                let c = count as i128;
                proof {
                    lemma_score_total_bounds(metrics@[i as int], preds_g, samples, count as int);
                }
                if t >= 0 {
                    proof {
                        assert((t as int) / (c as int) <= i64::MAX) by (nonlinear_arith)
                            requires
                                0 <= t <= (c as int) * (i64::MAX as int),
                                c > 0,
                        ;
                    }
                    (t / c) as i64
                } else {
                    proof {
                        let ghost mt: int = -(t as int);
                        assert(mt / (c as int) <= 0x8000_0000_0000_0000) by (nonlinear_arith)
                            requires
                                0 < mt <= (c as int) * 0x8000_0000_0000_0000,
                                c > 0,
                        ;
                    }
                    (-((-t) / c)) as i64
                }
            };
            results.push(q);
            i = i + 1;
        }
        proof {
            assert(ps.no_duplicates()) by {
                assert forall|a: int, b: int| 0 <= a < ps.len() && 0 <= b < ps.len() && a != b implies ps[a] != ps[b] by {
                    assert(ps[a] == order[a] && ps[b] == order[b]);
                }
            }
            assert(results@ =~= mean_scores(metrics@, preds_g, samples));
        }
        Ok(results)
    }
}

} // verus!
