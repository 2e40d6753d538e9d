//! Pipelines: transformers applied in order, then a model.
use vstd::prelude::*;
use crate::ml::dataset::Dataset;

verus! {

/// A preprocessing step: learns from a dataset, then maps datasets to
/// datasets.
pub trait Transformer<D: Dataset> {
    /// The step is in a state that fitting on `data` may leave. A step that
    /// says nothing of its fitting keeps this default, which allows any state.
    closed spec fn fitted_for(&self, data: D) -> bool {
        true
    }

    /// Learns the step's parameters from a dataset.
    fn fit(&mut self, data: &D)
        ensures
            final(self).fitted_for(*data),
    ;

    /// Maps a dataset to a new one.
    fn transform(&self, data: &D) -> D;

    /// Learns from a dataset, then maps it.
    fn fit_transform(&mut self, data: &D) -> (r: D)
        ensures
            final(self).fitted_for(*data),
            call_ensures(Self::transform, (&*final(self), data), r),
    {
        self.fit(data);
        self.transform(data)
    }
}

/// A model that learns from a dataset and predicts targets.
pub trait Estimator<D: Dataset> {
    /// `after` is what fitting this model on `data` may leave. A model that
    /// says nothing of its fitting keeps this default, which allows any state.
    closed spec fn fitted_on(&self, data: D, after: &Self) -> bool {
        true
    }

    /// Learns from a dataset.
    fn fit(&mut self, data: &D)
        ensures
            old(self).fitted_on(*data, &*final(self)),
    ;

    /// Predicts one target per sample.
    fn predict(&self, data: &D) -> Vec<D::Target>;
}

/// `trace` records `data` mapped through `ts` in order: it starts at `data`,
/// and each entry after the first is a possible result of the matching
/// transformer's `transform` on the entry before it.
pub open spec fn transform_trace<D: Dataset>(ts: Seq<Box<dyn Transformer<D>>>, data: D, trace: Seq<D>) -> bool {
    &&& trace.len() == ts.len() + 1
    &&& trace[0] == data
    &&& forall|i: int| 0 <= i < ts.len() ==> #[trigger] transform_result(&*ts[i], &trace[i], trace[i + 1])
}

/// `out` is a possible result of mapping `data` through `ts` in order.
pub open spec fn transforms_to<D: Dataset>(ts: Seq<Box<dyn Transformer<D>>>, data: D, out: D) -> bool {
    exists|trace: Seq<D>| #[trigger] transform_trace(ts, data, trace) && trace.last() == out
}

/// `out` is a possible result of `t.transform(data)`.
pub open spec fn transform_result<D: Dataset, T: Transformer<D> + ?Sized>(t: &T, data: &D, out: D) -> bool {
    call_ensures(T::transform, (t, data), out)
}

/// `t` is in a state that fitting on `data` may leave.
pub open spec fn fitted_step<D: Dataset, T: Transformer<D> + ?Sized>(t: &T, data: D) -> bool {
    t.fitted_for(data)
}

/// `trace` records fitting `ts` in order on `data`: each transformer was
/// fitted on its entry of the trace and maps it to the next entry.
pub open spec fn fit_record<D: Dataset>(ts: Seq<Box<dyn Transformer<D>>>, data: D, trace: Seq<D>) -> bool {
    &&& transform_trace(ts, data, trace)
    &&& forall|i: int| 0 <= i < ts.len() ==> #[trigger] fitted_step(&*ts[i], trace[i])
}

/// Transformers applied in the order they were added, then a model.
#[verifier::reject_recursive_types(D)]
pub struct Pipeline<D: Dataset, M: Estimator<D>> {
    transformers: Vec<Box<dyn Transformer<D>>>,
    model: M,
}

impl<D: Dataset, M: Estimator<D>> Pipeline<D, M> {
    /// Number of transformers.
    pub closed spec fn transformer_count(&self) -> nat {
        self.transformers@.len()
    }

    /// The transformers, in order.
    pub closed spec fn transformer_list(&self) -> Seq<Box<dyn Transformer<D>>> {
        self.transformers@
    }

    /// The model.
    pub closed spec fn estimator(&self) -> M {
        self.model
    }

    /// A pipeline of just the model.
    pub fn new(model: M) -> (r: Self)
        ensures
            r.transformer_count() == 0,
    {
        Pipeline { transformers: Vec::new(), model }
    }

    /// Adds a transformer after the existing ones.
    pub fn add_transformer<T: Transformer<D> + 'static>(&mut self, t: T)
        ensures
            final(self).transformer_count() == old(self).transformer_count() + 1,
    {
        let ghost before = self.transformers@;
        let boxed: Box<dyn Transformer<D>> = Box::new(t);
        self.transformers.push(boxed);
        proof {
            vstd::seq::axiom_seq_push_len(before, boxed);
        }
    }

    /// Fits each transformer on the output of the previous one, then the
    /// model on the last output: each transformer was fitted on the output of
    /// the ones before it and maps it on, and the model was fitted on the last
    /// output.
    pub fn fit(&mut self, data: D)
        ensures
            final(self).transformer_count() == old(self).transformer_count(),
            exists|trace: Seq<D>|
                #![trigger fit_record(final(self).transformer_list(), data, trace)]
                fit_record(final(self).transformer_list(), data, trace) && old(self).estimator().fitted_on(
                    trace.last(),
                    &final(self).estimator(),
                ),
    {
        let ghost mut trace: Seq<D> = seq![data];
        let mut current = data;
        let n = self.transformers.len();
        let mut k: usize = 0;
        while k < n
            invariant
                k <= n,
                n == self.transformers@.len(),
                n == old(self).transformers@.len(),
                self.model == old(self).model,
                fit_record(self.transformers@.take(k as int), data, trace),
                trace.last() == current,
            decreases n - k,
        {
            let ghost before = self.transformers@;
            current = self.transformers[k].fit_transform(&current);
            proof {
                let old_trace = trace;
                let ts = self.transformers@;
                trace = trace.push(current);
                assert(ts.len() == n);
                assert forall|i: int| 0 <= i < k + 1 implies #[trigger] transform_result(
                    &*ts.take(k + 1)[i],
                    &trace[i],
                    trace[i + 1],
                ) by {
                    if i < k {
                        assert(ts[i] == before[i]);
                        assert(ts.take(k + 1)[i] == before.take(k as int)[i]);
                        assert(transform_result(&*before.take(k as int)[i], &old_trace[i], old_trace[i + 1]));
                    }
                }
                assert forall|i: int| 0 <= i < k + 1 implies #[trigger] fitted_step(&*ts.take(k + 1)[i], trace[i]) by {
                    if i < k {
                        assert(ts[i] == before[i]);
                        assert(ts.take(k + 1)[i] == before.take(k as int)[i]);
                        assert(fitted_step(&*before.take(k as int)[i], old_trace[i]));
                    }
                }
            }
            k = k + 1;
        }
        proof {
            assert(self.transformers@.take(k as int) =~= self.transformers@);
        }
        self.model.fit(&current);
        proof {
            assert(transform_trace(self.transformer_list(), data, trace));
            assert(fit_record(self.transformer_list(), data, trace));
        }
    }

    /// Maps the data through the transformers, then predicts with the model.
    pub fn predict(&self, data: D) -> (r: Vec<D::Target>)
        ensures
            exists|out: D|
                #![trigger transforms_to(self.transformer_list(), data, out)]
                transforms_to(self.transformer_list(), data, out) && call_ensures(
                    M::predict,
                    (&self.estimator(), &out),
                    r,
                ),
    {
        let ghost ts = self.transformers@;
        let ghost mut trace: Seq<D> = seq![data];
        let mut current = data;
        let mut k: usize = 0;
        while k < self.transformers.len()
            invariant
                ts == self.transformers@,
                k <= ts.len(),
                transform_trace(ts.take(k as int), data, trace),
                trace.last() == current,
            decreases ts.len() - k,
        {
            current = self.transformers[k].transform(&current);
            proof {
                let old_trace = trace;
                trace = trace.push(current);
                assert forall|i: int| 0 <= i < k + 1 implies #[trigger] transform_result(
                    &*ts.take(k + 1)[i],
                    &trace[i],
                    trace[i + 1],
                ) by {
                    if i < k {
                        assert(ts.take(k + 1)[i] == ts.take(k as int)[i]);
                        assert(transform_result(&*ts.take(k as int)[i], &old_trace[i], old_trace[i + 1]));
                    }
                }
            }
            k = k + 1;
        }
        proof {
            assert(ts.take(k as int) =~= ts);
            assert(transform_trace(self.transformer_list(), data, trace));
            assert(transforms_to(self.transformer_list(), data, current));
        }
        self.model.predict(&current)
    }
}

} // verus!
