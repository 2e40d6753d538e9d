//! Sequential processing pipelines over data.
use vstd::prelude::*;
use crate::frame::error::{Error, Result};

verus! {

/// One processing step: consumes data and produces data, or fails.
pub trait Step<D> {
    /// Human-readable name of the step.
    fn name(&self) -> &str;

    /// Applies the step.
    fn run(&self, input: D) -> Result<D>;
}

/// `out` is a possible result of `s.run(input)`.
pub open spec fn step_result<D, S: Step<D> + ?Sized>(s: &S, input: D, out: Result<D>) -> bool {
    call_ensures(S::run, (s, input), out)
}

/// `trace` starts at `data`, and each later entry is a possible `Ok` result
/// of the matching step on the entry before it; at most one entry per step
/// follows `data`.
pub open spec fn run_trace<D>(steps: Seq<Box<dyn Step<D>>>, data: D, trace: Seq<D>) -> bool {
    &&& 1 <= trace.len() <= steps.len() + 1
    &&& trace[0] == data
    &&& forall|i: int|
        0 <= i < trace.len() - 1 ==> #[trigger] step_result(&*steps[i], trace[i], Ok::<D, Error>(trace[i + 1]))
}

/// What running the steps gives once they have produced `trace`: when every
/// step produced an entry, the last one; otherwise the next step failed on
/// the last entry, and its error is the result.
pub open spec fn run_outcome<D>(steps: Seq<Box<dyn Step<D>>>, trace: Seq<D>, r: Result<D>) -> bool {
    if trace.len() == steps.len() + 1 {
        r == Ok::<D, Error>(trace.last())
    } else {
        r matches Err(e) && step_result(&*steps[trace.len() - 1], trace.last(), Err::<D, Error>(e))
    }
}

/// Steps applied one after another, in the order they were added.
#[verifier::reject_recursive_types(D)]
pub struct Pipeline<D> {
    steps: Vec<Box<dyn Step<D>>>,
}

impl<D> Pipeline<D> {
    /// Number of steps.
    pub closed spec fn step_count(&self) -> nat {
        self.steps@.len()
    }

    /// The steps, in order.
    pub closed spec fn step_list(&self) -> Seq<Box<dyn Step<D>>> {
        self.steps@
    }

    /// An empty pipeline.
    pub fn new() -> (r: Self)
        ensures
            r.step_count() == 0,
    {
        Pipeline { steps: Vec::new() }
    }

    /// The pipeline with one more step at its end.
    pub fn add_step<S: Step<D> + 'static>(self, step: S) -> (r: Self)
        ensures
            r.step_count() == self.step_count() + 1,
    {
        let mut steps = self.steps;
        let ghost before = steps@;
        let boxed: Box<dyn Step<D>> = Box::new(step);
        steps.push(boxed);
        proof {
            assert(steps@ == before.push(boxed));
            vstd::seq::axiom_seq_push_len(before, boxed);
            assert(steps@.len() == before.len() + 1);
        }
        let r = Pipeline { steps };
        proof {
            assert(r.step_count() == before.len() + 1);
        }
        r
    }

    /// Runs the data through every step in order, stopping at the first
    /// failure. An empty pipeline returns the data unchanged.
    pub fn run(&self, data: D) -> (r: Result<D>)
        ensures
            self.step_count() == 0 ==> (r matches Ok(d) && d == data),
            exists|trace: Seq<D>| #[trigger] run_trace(self.step_list(), data, trace) && run_outcome(
                self.step_list(),
                trace,
                r,
            ),
    {
        let ghost ss = self.steps@;
        let ghost mut trace: Seq<D> = seq![data];
        let mut current = data;
        let mut k: usize = 0;
        while k < self.steps.len()
            invariant
                ss == self.steps@,
                k <= ss.len(),
                k == 0 ==> current == data,
                trace.len() == k + 1,
                run_trace(ss, data, trace),
                trace.last() == current,
            decreases ss.len() - k,
        {
            let ghost input = current;
            let res = self.steps[k].run(current);
            proof {
                assert(step_result(&*ss[k as int], input, res));
            }
            current = match res {
                Ok(d) => d,
                Err(e) => {
                    proof {
                        assert(run_outcome(ss, trace, Err::<D, Error>(e)));
                        assert(run_trace(self.step_list(), data, trace));
                    }
                    return Err(e);
                },
            };
            proof {
                let old_trace = trace;
                trace = trace.push(current);
                assert forall|i: int| 0 <= i < trace.len() - 1 implies #[trigger] step_result(
                    &*ss[i],
                    trace[i],
                    Ok::<D, Error>(trace[i + 1]),
                ) by {
                    if i < k {
                        assert(trace[i] == old_trace[i] && trace[i + 1] == old_trace[i + 1]);
                    }
                }
            }
            k = k + 1;
        }
        proof {
            assert(run_outcome(ss, trace, Ok::<D, Error>(current)));
            assert(run_trace(self.step_list(), data, trace));
        }
        Ok(current)
    }

    /// Number of steps.
    pub fn len(&self) -> (r: usize)
        ensures
            r == self.step_count(),
    {
        self.steps.len()
    }

    /// The pipeline has no steps.
    pub fn is_empty(&self) -> (r: bool)
        ensures
            r == (self.step_count() == 0),
    {
        self.steps.len() == 0
    }

    /// The names of the steps, in order.
    pub fn steps(&self) -> (r: Vec<&str>)
        ensures
            r@.len() == self.step_count(),
    {
        let mut out: Vec<&str> = Vec::new();
        let mut k: usize = 0;
        while k < self.steps.len()
            invariant
                k <= self.steps@.len(),
                out@.len() == k,
            decreases self.steps@.len() - k,
        {
            out.push(self.steps[k].name());
            k = k + 1;
        }
        out
    }
}

impl<D> Default for Pipeline<D> {
    fn default() -> (r: Self)
        ensures
            r.step_count() == 0,
    {
        Pipeline::new()
    }
}

/// A step made from a name and a function.
#[verifier::reject_recursive_types(D)]
pub struct FnStep<D, F: Fn(D) -> Result<D>> {
    name: String,
    func: F,
    marker: core::marker::PhantomData<D>,
}

impl<D, F: Fn(D) -> Result<D>> FnStep<D, F> {
    /// The function accepts every input.
    #[verifier::type_invariant]
    spec fn inv(self) -> bool {
        forall|d: D| #[trigger] call_requires(self.func, (d,))
    }

    /// The step's name.
    pub closed spec fn name_view(&self) -> Seq<char> {
        self.name@
    }

    /// The function the step applies.
    pub closed spec fn function(&self) -> F {
        self.func
    }

    /// A step with this name that applies `func`.
    pub fn new(name: String, func: F) -> (r: Self)
        requires
            forall|d: D| #[trigger] call_requires(func, (d,)),
        ensures
            r.name_view() == name@,
            r.function() == func,
    {
        FnStep { name, func, marker: core::marker::PhantomData }
    }
}

impl<D, F: Fn(D) -> Result<D>> Step<D> for FnStep<D, F> {
    fn name(&self) -> (r: &str)
        ensures
            r@ == self.name_view(),
    {
        self.name.as_str()
    }

    fn run(&self, input: D) -> (r: Result<D>)
        ensures
            call_ensures(self.function(), (input,), r),
    {
        proof {
            use_type_invariant(self);
        }
        (self.func)(input)
    }
}

} // verus!
