//! Arrays of random integers.
use vstd::prelude::*;
use rand::distributions::{Distribution, Uniform};
use rand::rngs::StdRng;
use rand::SeedableRng;
use rand::seq::SliceRandom;
use crate::array::ndarray::{NdArray, compute_strides, checked_product};
use crate::array::shape::{row_major_strides, shape_fits, shape_product};
use crate::error::Result;

verus! {

#[verifier::external_type_specification]
#[verifier::external_body]
pub struct ExStdRng(StdRng);

/// `StdRng`'s `Clone`, which rand derives: a generator in the same state.
pub assume_specification[<StdRng as Clone>::clone](r: &StdRng) -> (c: StdRng)
    ensures
        c == *r,
;

/// `StdRng::from_entropy`: a generator seeded by the operating system. What
/// it will produce is left to chance.
#[verifier::external_body]
fn rng_from_entropy() -> StdRng {
    StdRng::from_entropy()
}

/// The generator `StdRng::seed_from_u64` builds from a seed.
pub uninterp spec fn seeded_rng(seed: u64) -> StdRng;

/// What `SliceRandom::shuffle` leaves behind, from the order it is given and
/// the generator's state: the new order and the generator's new state.
pub uninterp spec fn shuffle_outcome(v: Seq<usize>, rng: StdRng) -> (Seq<usize>, StdRng);

/// `StdRng::seed_from_u64`: a generator seeded with `seed`. It is a function
/// of the seed alone (within one build of rand), named `seeded_rng`.
#[verifier::external_body]
pub(crate) fn rng_from_seed(seed: u64) -> (r: StdRng)
    ensures
        r == seeded_rng(seed),
{
    StdRng::seed_from_u64(seed)
}

/// `rand::seq::SliceRandom::shuffle` with the given generator: puts the
/// elements in an order drawn from it. It only swaps elements, so the result
/// is a permutation of its input. The order and the generator's new state
/// are a function of the input order and the generator's state, named
/// `shuffle_outcome`.
#[verifier::external_body]
pub(crate) fn shuffle_with_rng(v: &mut Vec<usize>, rng: &mut StdRng)
    ensures
        final(v)@.to_multiset() == old(v)@.to_multiset(),
        final(v)@.len() == old(v)@.len(),
        (final(v)@, *final(rng)) == shuffle_outcome(old(v)@, *old(rng)),
{
    v.shuffle(rng);
}

/// What sampling `Uniform::new(low, high)` once with a generator gives: the
/// value drawn and the generator's new state.
pub uninterp spec fn uniform_draw(low: i64, high: i64, rng: StdRng) -> (i64, StdRng);

/// `Uniform::new(low, high)` sampled once with the generator: a value at
/// least `low` and below `high`. The value and the generator's new state are
/// a function of the bounds and the generator's state, named `uniform_draw`.
/// (`Uniform::new` panics when `low >= high`.)
#[verifier::external_body]
fn sample_between(rng: &mut StdRng, low: i64, high: i64) -> (v: i64)
    requires
        low < high,
    ensures
        low <= v < high,
        (v, *final(rng)) == uniform_draw(low, high, *old(rng)),
{
    Uniform::new(low, high).sample(rng)
}

/// Every value of the array lies in `[low, high)`.
pub open spec fn all_between(s: Seq<i64>, low: i64, high: i64) -> bool {
    forall|k: int| 0 <= k < s.len() ==> low <= #[trigger] s[k] < high
}

/// A random array of `shape`, row-major, values in `[low, high)`.
pub open spec fn random_array(a: NdArray<i64>, shape: Seq<usize>, low: i64, high: i64) -> bool {
    &&& a.wf()
    &&& a.dims() == shape
    &&& a.steps() == row_major_strides(shape)
    &&& a.origin() == 0
    &&& a.buf_view().len() == shape_product(shape)
    &&& all_between(a.buf_view(), low, high)
}

/// The first `k` values drawn one after another from `[low, high)` with a
/// generator starting at `rng`, and the generator's state after them.
pub open spec fn draws(low: i64, high: i64, rng: StdRng, k: nat) -> (Seq<i64>, StdRng)
    decreases k,
{
    if k == 0 {
        (Seq::empty(), rng)
    } else {
        let prev = draws(low, high, rng, (k - 1) as nat);
        let next = uniform_draw(low, high, prev.1);
        (prev.0.push(next.0), next.1)
    }
}

/// `a` is the array of `shape` whose values, in row-major order, are the
/// successive draws from `[low, high)` of a generator starting at `rng`.
pub open spec fn drawn_array(a: NdArray<i64>, shape: Seq<usize>, low: i64, high: i64, rng: StdRng) -> bool {
    &&& random_array(a, shape, low, high)
    &&& a.buf_view() == draws(low, high, rng, shape_product(shape)).0
}

/// Two arrays drawn with the same shape and bounds from generators in the
/// same state, such as two generators made with the same seed, are equal.
pub proof fn lemma_same_state_same_array(
    a: NdArray<i64>,
    b: NdArray<i64>,
    shape: Seq<usize>,
    low: i64,
    high: i64,
    rng: StdRng,
)
    requires
        drawn_array(a, shape, low, high, rng),
        drawn_array(b, shape, low, high, rng),
    ensures
        a.buf_view() == b.buf_view(),
        a.dims() == b.dims(),
        a.steps() == b.steps(),
        a.origin() == b.origin(),
{
}

/// A random number generator owned by the caller, so that no global state
/// is involved and a seed reproduces a run.
#[derive(Debug)]
pub struct Random {
    rng: StdRng,
}

impl Random {
    /// A generator seeded by the operating system.
    pub fn new() -> (r: Self) {
        Random { rng: rng_from_entropy() }
    }

    /// A generator with a fixed seed.
    pub fn with_seed(seed: u64) -> (r: Self)
        ensures
            r.generator_state() == seeded_rng(seed),
    {
        Random { rng: rng_from_seed(seed) }
    }

    /// The generator the draws come from.
    pub closed spec fn generator_state(&self) -> StdRng {
        self.rng
    }

    /// The generator itself, for drawing values of other kinds with it.
    pub fn generator(&mut self) -> (r: &mut StdRng)
        ensures
            *r == old(self).generator_state(),
            final(self).generator_state() == *final(r),
    {
        &mut self.rng
    }

    /// An array of `shape` with values drawn uniformly from `[low, high)`.
    pub fn uniform_range(&mut self, low: i64, high: i64, shape: &[usize]) -> (r: Result<NdArray<i64>>)
        requires
            low < high,
            shape_fits(shape@),
        ensures
            r matches Ok(a) && drawn_array(a, shape@, low, high, old(self).generator_state()),
            final(self).generator_state() == draws(low, high, old(self).generator_state(), shape_product(shape@)).1,
    {
        let size = checked_product(shape);
        let ghost start = self.rng;
        proof {
            crate::array::shape::lemma_positive_product_ge(shape@);
        }
        let mut buf: Vec<i64> = Vec::new();
        let mut k: usize = 0;
        while k < size
            invariant
                k <= size,
                buf@.len() == k,
                low < high,
                all_between(buf@, low, high),
                (buf@, self.rng) == draws(low, high, start, k as nat),
            decreases size - k,
        {
            let v = sample_between(&mut self.rng, low, high);
            buf.push(v);
            k = k + 1;
            proof {
                assert(buf@ =~= draws(low, high, start, k as nat).0);
            }
        }
        match NdArray::new(buf, vstd::slice::slice_to_vec(shape)) {
            Ok(a) => Ok(a),
            Err(e) => {
                proof {
                    assert(false);
                }
                Err(e)
            },
        }
    }

    /// An array of `shape` with integers drawn uniformly from `[low, high)`.
    pub fn randint(&mut self, low: i64, high: i64, shape: &[usize]) -> (r: Result<NdArray<i64>>)
        requires
            low < high,
            shape_fits(shape@),
        ensures
            r matches Ok(a) && drawn_array(a, shape@, low, high, old(self).generator_state()),
            final(self).generator_state() == draws(low, high, old(self).generator_state(), shape_product(shape@)).1,
    {
        self.uniform_range(low, high, shape)
    }

    /// An array of `shape` with values drawn uniformly from `[0, 1)`: for
    /// integers, all zero.
    pub fn uniform(&mut self, shape: &[usize]) -> (r: Result<NdArray<i64>>)
        requires
            shape_fits(shape@),
        ensures
            r matches Ok(a) && drawn_array(a, shape@, 0, 1, old(self).generator_state()),
            final(self).generator_state() == draws(0, 1, old(self).generator_state(), shape_product(shape@)).1,
    {
        self.uniform_range(0, 1, shape)
    }
}

/// An array of `shape` drawn uniformly from `[0, 1)`, with a fresh generator.
pub fn rand_uniform(shape: &[usize]) -> (r: Result<NdArray<i64>>)
    requires
        shape_fits(shape@),
    ensures
        r matches Ok(a) && random_array(a, shape@, 0, 1),
{
    let mut g = Random::new();
    g.uniform(shape)
}

/// An array of `shape` of integers drawn from `[low, high)`, with a fresh
/// generator.
pub fn rand_int(low: i64, high: i64, shape: &[usize]) -> (r: Result<NdArray<i64>>)
    requires
        low < high,
        shape_fits(shape@),
    ensures
        r matches Ok(a) && random_array(a, shape@, low, high),
{
    let mut g = Random::new();
    g.randint(low, high, shape)
}

impl Clone for Random {
    /// A second generator in the same state.
    fn clone(&self) -> (r: Self)
        ensures
            r.generator_state() == self.generator_state(),
    {
        Random { rng: self.rng.clone() }
    }
}

} // verus!
