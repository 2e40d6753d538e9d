//! The strided n-dimensional array and its zero-copy views.
use vstd::prelude::*;
use std::sync::Arc;
use crate::error::{Result, RusantaError};
use crate::base::dataset::Dataset;
use crate::base::numeric::Numeric;
use crate::array::elementwise::{unravel, unravel_index};
use crate::array::shape::{
    extent, first_bad_axis, index_in_shape, positive_product, row_major_strides, shape_fits,
    shape_product, strides_nonneg, weighted,
};
use crate::array::shape;
use crate::array::slicing;
use crate::array::shape::{is_permutation, permute};

verus! {

/// Slice specification for NdArray views (NumPy-like).
#[derive(Debug, Clone)]
pub enum Slice {
    /// Select a single index, removing the axis.
    Index(usize),
    /// Select `start, start + step, ...` below `end`.
    Range { start: usize, end: usize, step: usize },
    /// Select the full axis.
    All,
}

/// A contiguous or strided n-dimensional array over a shared buffer.
///
/// Element `idx` of the array lives at position
/// `offset + sum_k idx[k] * strides[k]` of the buffer.
#[derive(Debug)]
pub struct NdArray<T> {
    buffer: Arc<Vec<T>>,
    shape: Vec<usize>,
    strides: Vec<isize>,
    offset: usize,
}

/// `Arc::clone`: a second handle to the same buffer, which views share
/// without copying it; it holds the same elements.
#[verifier::external_body]
pub(crate) fn share_buffer<T>(b: &Arc<Vec<T>>) -> (r: Arc<Vec<T>>)
    ensures
        r@ == b@,
{
    Arc::clone(b)
}

/// Length of a vector as a row-major shape product, computed left to right.
pub(crate) fn checked_product(shape: &[usize]) -> (p: usize)
    requires
        shape_fits(shape@),
    ensures
        p as nat == shape_product(shape@),
{
    let mut acc: usize = 1;
    let mut k: usize = 0;
    while k < shape.len()
        invariant
            k <= shape@.len(),
            shape_fits(shape@),
            acc as nat == shape_product(shape@.take(k as int)),
        decreases shape@.len() - k,
    {
        proof {
            shape::lemma_product_take(shape@, k as int);
            shape::lemma_split_fits(shape@, k as int + 1);
            shape::lemma_positive_product_ge(shape@);
        }
        acc = acc * shape[k];
        k = k + 1;
    }
    proof {
        assert(shape@.take(k as int) =~= shape@);
    }
    acc
}

/// Row-major strides of a shape.
pub fn compute_strides(shape: &[usize]) -> (strides: Vec<isize>)
    requires
        shape_fits(shape@),
    ensures
        strides@ == row_major_strides(shape@),
{
    let n = shape.len();
    let mut strides: Vec<isize> = Vec::new();
    let mut j: usize = 0;
    while j < n
        invariant
            j <= n,
            n == shape@.len(),
            strides@.len() == j,
        decreases n - j,
    {
        strides.push(0);
        j = j + 1;
    }
    let mut acc: usize = 1;
    let mut i: usize = n;
    proof {
        shape::lemma_positive_product_ge(shape@);
        assert(shape@.skip(n as int) =~= Seq::<usize>::empty());
    }
    while i > 0
        invariant
            i <= n,
            n == shape@.len(),
            strides@.len() == n,
            shape_fits(shape@),
            acc as nat == shape_product(shape@.skip(i as int)),
            forall|k: int| i <= k < n ==> strides@[k] == row_major_strides(shape@)[k],
        decreases i,
    {
        proof {
            shape::lemma_product_skip(shape@, i - 1);
            shape::lemma_split_fits(shape@, i - 1);
            shape::lemma_split_fits(shape@, i as int);
            shape::lemma_positive_product_ge(shape@);
            let a = acc as nat;
            let d = shape@[i - 1] as nat;
            assert(a * d == d * a) by (nonlinear_arith);
        }
        strides.set(i - 1, acc as isize);
        acc = acc * shape[i - 1];
        i = i - 1;
    }
    proof {
        assert(strides@ =~= row_major_strides(shape@));
    }
    strides
}

impl<T: Copy> NdArray<T> {
    /// The buffer the array reads from.
    pub closed spec fn buf_view(&self) -> Seq<T> {
        self.buffer@
    }

    /// The extents of the array.
    pub closed spec fn dims(&self) -> Seq<usize> {
        self.shape@
    }

    /// The strides of the array, in buffer positions.
    pub closed spec fn steps(&self) -> Seq<isize> {
        self.strides@
    }

    /// The buffer position of the first element.
    pub closed spec fn origin(&self) -> nat {
        self.offset as nat
    }

    /// Every valid multi-index addresses a buffer position.
    pub open spec fn wf(&self) -> bool {
        &&& self.dims().len() == self.steps().len()
        &&& strides_nonneg(self.steps())
        &&& self.buf_view().len() <= isize::MAX
        &&& self.origin() + extent(self.dims(), self.steps()) <= isize::MAX
        &&& shape_product(self.dims()) > 0 ==> self.origin() + extent(self.dims(), self.steps())
            < self.buf_view().len()
    }

    /// Buffer position of a multi-index.
    pub open spec fn position(&self, idx: Seq<usize>) -> int {
        self.origin() + weighted(idx, self.steps())
    }

    /// Element at a multi-index.
    pub open spec fn at(&self, idx: Seq<usize>) -> T {
        self.buf_view()[self.position(idx)]
    }

    pub proof fn lemma_position_in_buffer(&self, idx: Seq<usize>)
        requires
            self.wf(),
            index_in_shape(idx, self.dims()),
        ensures
            0 <= self.origin() <= self.position(idx) < self.buf_view().len(),
    {
        shape::lemma_weighted_bounds(idx, self.dims(), self.steps());
        shape::lemma_product_positive(self.dims());
        assert forall|k: int| 0 <= k < self.dims().len() implies self.dims()[k] > 0 by {
            assert(idx[k] < self.dims()[k]);
        }
    }

    /// Assembles a view from its parts.
    pub(crate) fn from_parts(buffer: Arc<Vec<T>>, shape: Vec<usize>, strides: Vec<isize>, offset: usize) -> (r: Self)
        ensures
            r.buf_view() == buffer@,
            r.dims() == shape@,
            r.steps() == strides@,
            r.origin() == offset,
    {
        NdArray { buffer, shape, strides, offset }
    }

    /// The shared buffer of the array.
    pub(crate) fn buffer_handle(&self) -> (r: Arc<Vec<T>>)
        ensures
            r@ == self.buf_view(),
    {
        share_buffer(&self.buffer)
    }

    /// The buffer position of the first element.
    pub(crate) fn offset(&self) -> (r: usize)
        ensures
            r == self.origin(),
    {
        self.offset
    }

    /// Creates a new row-major array from a buffer and a shape.
    pub fn new(buffer: Vec<T>, shape: Vec<usize>) -> (r: Result<Self>)
        requires
            shape_fits(shape@),
            buffer@.len() <= isize::MAX,
        ensures
            shape_product(shape@) != buffer@.len() ==> (r matches Err(RusantaError::ShapeMismatch { expected, found })
                && expected@ == seq![shape_product(shape@) as usize] && found@ == seq![buffer@.len() as usize]),
            shape_product(shape@) == buffer@.len() ==> (r matches Ok(a) && a.wf() && a.buf_view() == buffer@
                && a.dims() == shape@ && a.steps() == row_major_strides(shape@) && a.origin() == 0),
    {
        let expected = checked_product(shape.as_slice());
        if buffer.len() != expected {
            return Err(RusantaError::ShapeMismatch { expected: vec![expected], found: vec![buffer.len()] });
        }
        let strides = compute_strides(shape.as_slice());
        proof {
            shape::lemma_row_major_extent(shape@);
            shape::lemma_positive_product_ge(shape@);
        }
        Ok(NdArray { buffer: Arc::new(buffer), shape, strides, offset: 0 })
    }

    /// The extents of the array.
    pub fn shape(&self) -> (r: &[usize])
        ensures
            r@ == self.dims(),
    {
        self.shape.as_slice()
    }

    /// The strides of the array.
    pub fn strides(&self) -> (r: &[isize])
        ensures
            r@ == self.steps(),
    {
        self.strides.as_slice()
    }

    /// Number of axes.
    pub fn ndim(&self) -> (r: usize)
        ensures
            r == self.dims().len(),
    {
        self.shape.len()
    }

    /// Number of elements.
    pub fn size(&self) -> (r: usize)
        requires
            shape_fits(self.dims()),
        ensures
            r == shape_product(self.dims()),
    {
        checked_product(self.shape.as_slice())
    }

    /// The strides are the row-major strides of the shape.
    pub fn is_contiguous(&self) -> (r: bool)
        requires
            shape_fits(self.dims()),
        ensures
            r == (self.steps() == row_major_strides(self.dims())),
    {
        let expected = compute_strides(self.shape.as_slice());
        if expected.len() != self.strides.len() {
            proof {
                assert(expected@.len() != self.steps().len());
            }
            return false;
        }
        let mut k: usize = 0;
        while k < expected.len()
            invariant
                k <= expected@.len(),
                expected@.len() == self.strides@.len(),
                expected@ == row_major_strides(self.dims()),
                forall|j: int| 0 <= j < k ==> expected@[j] == self.strides@[j],
            decreases expected@.len() - k,
        {
            if expected[k] != self.strides[k] {
                return false;
            }
            k = k + 1;
        }
        proof {
            assert(expected@ =~= self.strides@);
        }
        true
    }

    /// Buffer position of a multi-index, checked against the shape.
    fn linear_index(&self, index: &[usize]) -> (r: Result<usize>)
        requires
            self.wf(),
        ensures
            index@.len() != self.dims().len() ==> r == Err::<usize, RusantaError>(
                RusantaError::DimensionMismatch { lhs: index@.len() as usize, rhs: self.dims().len() as usize },
            ),
            index@.len() == self.dims().len() && !index_in_shape(index@, self.dims()) ==> exists|k: int|
                first_bad_axis(index@, self.dims(), k) && r == Err::<usize, RusantaError>(
                    RusantaError::IndexOutOfBounds { index: index@[k], len: self.dims()[k] },
                ),
            index_in_shape(index@, self.dims()) ==> r == Ok::<usize, RusantaError>(self.position(index@) as usize),
            r is Ok ==> index_in_shape(index@, self.dims()),
    {
        if index.len() != self.shape.len() {
            return Err(RusantaError::DimensionMismatch { lhs: index.len(), rhs: self.shape.len() });
        }
        let mut lin: isize = self.offset as isize;
        let mut k: usize = 0;
        proof {
            shape::lemma_extent_nonneg(self.dims(), self.steps());
        }
        while k < index.len()
            invariant
                self.wf(),
                k <= index@.len(),
                index@.len() == self.dims().len(),
                forall|j: int| 0 <= j < k ==> index@[j] < self.dims()[j],
                lin as int == self.origin() + weighted(index@.take(k as int), self.steps().take(k as int)),
            decreases index@.len() - k,
        {
            let i = index[k];
            let dim = self.shape[k];
            if i >= dim {
                proof {
                    assert(first_bad_axis(index@, self.dims(), k as int));
                }
                return Err(RusantaError::IndexOutOfBounds { index: i, len: dim });
            }
            proof {
                let t = index@.take(k as int + 1);
                let ts = self.steps().take(k as int + 1);
                assert(t.drop_last() =~= index@.take(k as int));
                assert(ts.drop_last() =~= self.steps().take(k as int));
                assert(index_in_shape(t, self.dims().take(k as int + 1)));
                assert(strides_nonneg(ts));
                shape::lemma_weighted_bounds(t, self.dims().take(k as int + 1), ts);
                shape::lemma_extent_prefix(self.dims(), self.steps(), k as int + 1);
                assert(index_in_shape(index@.take(k as int), self.dims().take(k as int)));
                shape::lemma_weighted_bounds(index@.take(k as int), self.dims().take(k as int), self.steps().take(k as int));
                assert(ts[k as int] == self.steps()[k as int]);
                assert(weighted(t, ts) == weighted(index@.take(k as int), self.steps().take(k as int))
                    + (i as int) * (self.strides@[k as int] as int));
                assert(0 <= (i as int) * (self.strides@[k as int] as int)) by (nonlinear_arith)
                    requires
                        i >= 0,
                        self.strides@[k as int] >= 0,
                ;
            }
            let stride = self.strides[k];
            let term: isize = if stride == 0 {
                proof {
                    assert((i as int) * (stride as int) == 0) by (nonlinear_arith)
                        requires
                            stride == 0,
                    ;
                }
                0
            } else {
                proof {
                    assert((i as int) * (stride as int) <= isize::MAX);
                    assert(i as int <= isize::MAX) by (nonlinear_arith)
                        requires
                            (i as int) * (stride as int) <= isize::MAX,
                            stride >= 1,
                            i >= 0,
                    ;
                }
                (i as isize) * stride
            };
            lin = lin + term;
            k = k + 1;
        }
        proof {
            assert(index@.take(k as int) =~= index@);
            assert(self.steps().take(k as int) =~= self.steps());
            self.lemma_position_in_buffer(index@);
        }
        Ok(lin as usize)
    }

    /// Element at a multi-index.
    pub fn get_nd(&self, index: &[usize]) -> (r: Result<T>)
        requires
            self.wf(),
        ensures
            index@.len() != self.dims().len() ==> r == Err::<T, RusantaError>(
                RusantaError::DimensionMismatch { lhs: index@.len() as usize, rhs: self.dims().len() as usize },
            ),
            index@.len() == self.dims().len() && !index_in_shape(index@, self.dims()) ==> exists|k: int|
                first_bad_axis(index@, self.dims(), k) && r == Err::<T, RusantaError>(
                    RusantaError::IndexOutOfBounds { index: index@[k], len: self.dims()[k] },
                ),
            index_in_shape(index@, self.dims()) ==> r == Ok::<T, RusantaError>(self.at(index@)),
    {
        let lin = self.linear_index(index)?;
        proof {
            self.lemma_position_in_buffer(index@);
        }
        Ok(self.buffer[lin])
    }

    /// Returns the buffer window `offset .. offset + size` as a flat view.
    pub fn flat_view(&self) -> (r: &[T])
        requires
            shape_fits(self.dims()),
            self.origin() + shape_product(self.dims()) <= self.buf_view().len(),
        ensures
            r@ == self.buf_view().subrange(self.origin() as int, (self.origin() + shape_product(self.dims())) as int),
    {
        let size = self.size();
        let v: &Vec<T> = &self.buffer;
        let n = v.len();
        assert(n == self.buf_view().len());
        vstd::slice::slice_subrange(v.as_slice(), self.offset, self.offset + size)
    }

    /// Reshapes the array without copying: same buffer and offset, row-major
    /// strides for the new shape.
    pub fn reshape(&self, new_shape: &[usize]) -> (r: Result<Self>)
        requires
            shape_fits(self.dims()),
            shape_fits(new_shape@),
        ensures
            shape_product(new_shape@) != shape_product(self.dims()) ==> (r matches Err(
                RusantaError::ShapeMismatch { expected, found },
            ) && expected@ == seq![shape_product(self.dims()) as usize] && found@ == seq![
                shape_product(new_shape@) as usize,
            ]),
            shape_product(new_shape@) == shape_product(self.dims()) ==> (r matches Ok(a) && a.buf_view()
                == self.buf_view() && a.dims() == new_shape@ && a.steps() == row_major_strides(new_shape@)
                && a.origin() == self.origin()),
            shape_product(new_shape@) == shape_product(self.dims()) && self.wf() && self.steps() == row_major_strides(
                self.dims(),
            ) && (shape_product(self.dims()) > 0 || self.origin() == 0) ==> (r matches Ok(a) && a.wf()),
    {
        proof {
            shape::lemma_row_major_extent(self.dims());
            shape::lemma_row_major_extent(new_shape@);
        }
        let new_size = checked_product(new_shape);
        let size = self.size();
        if new_size != size {
            return Err(RusantaError::ShapeMismatch { expected: vec![size], found: vec![new_size] });
        }
        let shape = vstd::slice::slice_to_vec(new_shape);
        let strides = compute_strides(new_shape);
        Ok(NdArray { buffer: share_buffer(&self.buffer), shape, strides, offset: self.offset })
    }
}

impl<T: Copy> NdArray<T> {
    /// Creates a zero-copy sliced view.
    pub fn slice(&self, slices: &[Slice]) -> (r: Result<Self>)
        requires
            self.wf(),
            slicing::steps_fit(slices@, self.dims(), self.steps()),
        ensures
            slicing::slicing_result(*self, slices@, false, r),
    {
        slicing::slice_view(self, slices, false)
    }

    /// Permutes axes without copying (transpose is a special case).
    pub fn permute_axes(&self, axes: &[usize]) -> (r: Result<Self>)
        requires
            self.wf(),
        ensures
            axes@.len() != self.dims().len() ==> r == Err::<Self, RusantaError>(
                RusantaError::DimensionMismatch { lhs: axes@.len() as usize, rhs: self.dims().len() as usize },
            ),
            axes@.len() == self.dims().len() && !is_permutation(axes@, self.dims().len()) ==> (r matches Err(
                RusantaError::InvalidValue { message },
            ) && message@ == "invalid axis permutation"@),
            is_permutation(axes@, self.dims().len()) ==> (r matches Ok(a) && permuted_view(*self, a, axes@)),
    {
        let n = self.shape.len();
        if axes.len() != n {
            return Err(RusantaError::DimensionMismatch { lhs: axes.len(), rhs: n });
        }
        let mut seen: Vec<bool> = Vec::new();
        let mut j: usize = 0;
        while j < n
            invariant
                j <= n,
                seen@ == Seq::new(j as nat, |v: int| false),
            decreases n - j,
        {
            seen.push(false);
            j = j + 1;
            proof {
                assert(seen@ =~= Seq::new(j as nat, |v: int| false));
            }
        }
        let mut k: usize = 0;
        while k < n
            invariant
                k <= n,
                n == axes@.len(),
                n == self.dims().len(),
                seen@.len() == n,
                forall|i: int| 0 <= i < k ==> axes@[i] < n,
                forall|i: int, i2: int| 0 <= i < k && 0 <= i2 < k && i != i2 ==> axes@[i] != axes@[i2],
                forall|v: int| 0 <= v < n ==> (seen@[v] <==> exists|i: int| 0 <= i < k && axes@[i] == v),
            decreases n - k,
        {
            let a = axes[k];
            if a >= n || seen[a] {
                proof {
                    if a < n {
                        let i = choose|i: int| 0 <= i < k && axes@[i] == a;
                        assert(axes@[i] == axes@[k as int]);
                    }
                }
                return Err(RusantaError::InvalidValue { message: String::from_str("invalid axis permutation") });
            }
            proof {
                assert forall|i: int| 0 <= i < k implies axes@[i] != a by {
                    if axes@[i] == a {
                        assert(seen@[a as int]);
                    }
                }
            }
            seen.set(a, true);
            k = k + 1;
            proof {
                assert forall|v: int| 0 <= v < n implies (seen@[v] <==> exists|i: int| 0 <= i < k && axes@[i] == v) by {
                    if v == a {
                        assert(axes@[k - 1] == v);
                    } else if seen@[v] {
                        let i = choose|i: int| 0 <= i < k - 1 && axes@[i] == v;
                        assert(0 <= i < k && axes@[i] == v);
                    } else {
                        if exists|i: int| 0 <= i < k && axes@[i] == v {
                            let i = choose|i: int| 0 <= i < k && axes@[i] == v;
                            assert(i != k - 1);
                        }
                    }
                }
            }
        }
        let mut new_shape: Vec<usize> = Vec::new();
        let mut new_strides: Vec<isize> = Vec::new();
        let mut i: usize = 0;
        while i < n
            invariant
                i <= n,
                n == axes@.len(),
                n == self.dims().len(),
                self.wf(),
                is_permutation(axes@, n as nat),
                new_shape@ == permute(self.dims(), axes@.take(i as int)),
                new_strides@ == permute(self.steps(), axes@.take(i as int)),
            decreases n - i,
        {
            let a = axes[i];
            new_shape.push(self.shape[a]);
            new_strides.push(self.strides[a]);
            i = i + 1;
            proof {
                assert(new_shape@ =~= permute(self.dims(), axes@.take(i as int)));
                assert(new_strides@ =~= permute(self.steps(), axes@.take(i as int)));
            }
        }
        proof {
            assert(axes@.take(n as int) =~= axes@);
        }
        let a = NdArray { buffer: share_buffer(&self.buffer), shape: new_shape, strides: new_strides, offset: self.offset };
        proof {
            let d = self.dims();
            let st = self.steps();
            shape::lemma_permute_axes(d, d, st, axes@);
            assert forall|q: int| 0 <= q < a.steps().len() implies a.steps()[q] >= 0 by {
                assert(a.steps()[q] == st[axes@[q] as int]);
            }
            assert forall|x: Seq<usize>| #![trigger self.at(x)] index_in_shape(x, self.dims()) implies index_in_shape(
                permute(x, axes@),
                a.dims(),
            ) && a.at(permute(x, axes@)) == self.at(x) by {
                shape::lemma_permute_axes(x, d, st, axes@);
            }
        }
        Ok(a)
    }

    /// Transposes the array (reverses axes).
    pub fn transpose(&self) -> (r: Self)
        requires
            self.wf(),
        ensures
            permuted_view(*self, r, reversed_axes(self.dims().len())),
            r.dims() == self.dims().reverse(),
            r.steps() == self.steps().reverse(),
    {
        let n = self.shape.len();
        let mut axes: Vec<usize> = Vec::new();
        let mut k: usize = n;
        while k > 0
            invariant
                k <= n,
                axes@ == reversed_axes(n as nat).take((n - k) as int),
            decreases k,
        {
            axes.push(k - 1);
            k = k - 1;
            proof {
                assert(axes@ =~= reversed_axes(n as nat).take((n - k) as int));
            }
        }
        proof {
            assert(axes@ =~= reversed_axes(n as nat));
        }
        let r = self.permute_axes(axes.as_slice());
        match r {
            Ok(a) => {
                proof {
                    assert(a.dims() =~= self.dims().reverse());
                    assert(a.steps() =~= self.steps().reverse());
                }
                a
            },
            Err(_) => {
                proof {
                    assert(false);
                }
                NdArray { buffer: share_buffer(&self.buffer), shape: Vec::new(), strides: Vec::new(), offset: 0 }
            },
        }
    }
}

/// `0 .. n` in reverse order.
pub open spec fn reversed_axes(n: nat) -> Seq<usize> {
    Seq::new(n, |i: int| (n - 1 - i) as usize)
}

/// `b` is the view of `a` with axes reordered by `axes`.
pub open spec fn permuted_view<T: Copy>(a: NdArray<T>, b: NdArray<T>, axes: Seq<usize>) -> bool {
    &&& b.wf()
    &&& b.buf_view() == a.buf_view()
    &&& b.origin() == a.origin()
    &&& b.dims() == permute(a.dims(), axes)
    &&& b.steps() == permute(a.steps(), axes)
    &&& forall|x: Seq<usize>|
        #![trigger a.at(x)]
        index_in_shape(x, a.dims()) ==> index_in_shape(permute(x, axes), b.dims()) && b.at(permute(x, axes))
            == a.at(x)
}

impl NdArray<i64> {
    /// Creates a zero-filled row-major array.
    pub fn zeros(shape: &[usize]) -> (r: Result<Self>)
        requires
            shape_fits(shape@),
        ensures
            r matches Ok(a) && a.wf() && a.dims() == shape@ && a.steps() == row_major_strides(shape@)
                && a.origin() == 0 && a.buf_view() == Seq::new(shape_product(shape@), |i: int| 0i64),
    {
        let size = checked_product(shape);
        let mut buffer: Vec<i64> = Vec::new();
        let mut k: usize = 0;
        while k < size
            invariant
                k <= size,
                buffer@ == Seq::new(k as nat, |i: int| 0i64),
            decreases size - k,
        {
            buffer.push(0);
            k = k + 1;
            proof {
                assert(buffer@ =~= Seq::new(k as nat, |i: int| 0i64));
            }
        }
        let strides = compute_strides(shape);
        proof {
            shape::lemma_row_major_extent(shape@);
            shape::lemma_positive_product_ge(shape@);
        }
        Ok(NdArray { buffer: Arc::new(buffer), shape: vstd::slice::slice_to_vec(shape), strides, offset: 0 })
    }
}


/// The array's layout is addressable: it is well formed and its shape fits.
pub open spec fn layout_ok<T: Copy>(a: NdArray<T>) -> bool {
    a.wf() && shape_fits(a.dims())
}

/// The elements an array yields as a dataset: its elements in row-major
/// order, read through its layout; nothing when the layout is not
/// addressable.
pub open spec fn flat_elems<T: Copy>(a: NdArray<T>) -> Seq<T> {
    if layout_ok(a) {
        Seq::new(shape_product(a.dims()), |p: int| a.at(unravel(p, a.dims())))
    } else {
        Seq::empty()
    }
}

impl<T: Numeric> NdArray<T> {
    /// The shape fits: its extents, empty ones counted as one, multiply to at
    /// most `isize::MAX`.
    fn shape_fits_exec(&self) -> (r: bool)
        ensures
            r == shape_fits(self.dims()),
    {
        let n = self.shape.len();
        let mut acc: usize = 1;
        let mut k: usize = 0;
        while k < n
            invariant
                k <= n,
                n == self.dims().len(),
                acc as nat == positive_product(self.dims().take(k as int)),
                acc <= isize::MAX,
            decreases n - k,
        {
            proof {
                assert(self.dims().take(k + 1).drop_last() =~= self.dims().take(k as int));
            }
            let d = self.shape[k];
            let f = if d == 0 { 1 } else { d };
            match acc.checked_mul(f) {
                Some(v) => {
                    if v > isize::MAX as usize {
                        proof {
                            shape::lemma_split_fits(self.dims(), k + 1);
                        }
                        return false;
                    }
                    acc = v;
                },
                None => {
                    proof {
                        shape::lemma_split_fits(self.dims(), k + 1);
                    }
                    return false;
                },
            }
            k = k + 1;
        }
        proof {
            assert(self.dims().take(n as int) =~= self.dims());
        }
        true
    }

    /// The array is well formed.
    fn wf_exec(&self) -> (r: bool)
        ensures
            r == self.wf(),
    {
        let n = self.shape.len();
        if self.strides.len() != n {
            return false;
        }
        let blen = self.buffer.len();
        if blen > isize::MAX as usize {
            return false;
        }
        let mut k: usize = 0;
        while k < n
            invariant
                k <= n,
                n == self.dims().len(),
                n == self.steps().len(),
                forall|j: int| 0 <= j < k ==> self.steps()[j] >= 0,
            decreases n - k,
        {
            if self.strides[k] < 0 {
                return false;
            }
            k = k + 1;
        }
        assert(strides_nonneg(self.steps()));
        let mut ext: i128 = 0;
        let mut k: usize = 0;
        while k < n
            invariant
                k <= n,
                n == self.dims().len(),
                n == self.steps().len(),
                strides_nonneg(self.steps()),
                ext as int == extent(self.dims().take(k as int), self.steps().take(k as int)),
                0 <= ext <= isize::MAX,
            decreases n - k,
        {
            proof {
                assert(self.dims().take(k + 1).drop_last() =~= self.dims().take(k as int));
                assert(self.steps().take(k + 1).drop_last() =~= self.steps().take(k as int));
                shape::lemma_extent_prefix(self.dims(), self.steps(), k + 1);
            }
            let d = self.shape[k];
            let c: i128 = if d == 0 { 0 } else { d as i128 - 1 };
            let st = self.strides[k] as i128;
            proof {
                assert(c * st < 0x8000_0000_0000_0000_0000_0000_0000_0000) by (nonlinear_arith)
                    requires
                        0 <= c < 0x1_0000_0000_0000_0000,
                        0 <= st < 0x8000_0000_0000_0000,
                ;
                assert(c * st >= 0) by (nonlinear_arith)
                    requires
                        0 <= c,
                        0 <= st,
                ;
            }
            let term = c * st;
            if term > isize::MAX as i128 || ext + term > isize::MAX as i128 {
                proof {
                    assert(extent(self.dims().take(k + 1), self.steps().take(k + 1)) > isize::MAX);
                }
                return false;
            }
            ext = ext + term;
            k = k + 1;
        }
        proof {
            assert(self.dims().take(n as int) =~= self.dims());
            assert(self.steps().take(n as int) =~= self.steps());
        }
        let off = self.offset as i128;
        if off + ext > isize::MAX as i128 {
            return false;
        }
        let mut positive = true;
        let mut k: usize = 0;
        while k < n
            invariant
                k <= n,
                n == self.dims().len(),
                positive == (forall|j: int| 0 <= j < k ==> self.dims()[j] > 0),
            decreases n - k,
        {
            if self.shape[k] == 0 {
                positive = false;
            }
            k = k + 1;
        }
        proof {
            shape::lemma_product_positive(self.dims());
        }
        !positive || off + ext < blen as i128
    }

    /// Number of elements when the layout is addressable, else 0.
    fn flat_len(&self) -> (r: usize)
        ensures
            r == flat_elems(*self).len(),
            r > 0 ==> layout_ok(*self),
    {
        if self.shape_fits_exec() && self.wf_exec() {
            self.size()
        } else {
            0
        }
    }
}

/// An array read as a dataset: its elements in row-major order, through its
/// layout.
impl<T: Numeric> Dataset<T> for NdArray<T> {
    open spec fn elems(&self) -> Seq<T> {
        flat_elems(*self)
    }

    fn len(&self) -> (r: usize) {
        self.flat_len()
    }

    fn get(&self, index: usize) -> (r: Result<T>) {
        let n = self.flat_len();
        if index < n {
            let steps = compute_strides(self.shape.as_slice());
            let idx = unravel_index(index, self.shape.as_slice(), &steps);
            self.get_nd(idx.as_slice())
        } else {
            Err(RusantaError::IndexOutOfBounds { index, len: n })
        }
    }
}

} // verus!
