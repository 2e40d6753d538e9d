//! Zero-copy slicing of strided arrays.
use vstd::prelude::*;
use crate::error::{Result, RusantaError};
use crate::array::ndarray::NdArray;
pub use crate::array::ndarray::Slice;
use crate::array::shape::{below_clamp, extent, index_in_shape, strides_nonneg, weighted};
use crate::array::shape;

verus! {

/// The slice is valid for an axis of the given extent.
pub open spec fn axis_ok(s: Slice, dim: usize) -> bool {
    match s {
        Slice::Index(i) => i < dim,
        Slice::Range { start, end, step } => step != 0 && start < end && end <= dim,
        Slice::All => true,
    }
}

/// Number of positions `start, start + step, ...` below `end`.
pub open spec fn range_len(start: usize, end: usize, step: usize) -> int {
    (end - start - 1) / (step as int) + 1
}

/// The first `k` slices are valid for their axes.
pub open spec fn axes_ok(sl: Seq<Slice>, dims: Seq<usize>, k: int) -> bool {
    forall|m: int| 0 <= m < k ==> axis_ok(#[trigger] sl[m], dims[m])
}

/// `k` is the first axis whose slice is invalid.
pub open spec fn first_bad_slice(sl: Seq<Slice>, dims: Seq<usize>, k: int) -> bool {
    &&& 0 <= k < sl.len()
    &&& !axis_ok(sl[k], dims[k])
    &&& axes_ok(sl, dims, k)
}

/// Stepped strides of valid range slices stay addressable.
pub open spec fn steps_fit(sl: Seq<Slice>, dims: Seq<usize>, st: Seq<isize>) -> bool {
    forall|k: int|
        0 <= k < sl.len() && k < dims.len() ==> match #[trigger] sl[k] {
            Slice::Range { start, end, step } => (axis_ok(sl[k], dims[k]) && st[k] > 0) ==> (step as int) * (
            st[k] as int) <= isize::MAX,
            _ => true,
        }
}

/// Number of axes kept by the first `k` slices.
pub open spec fn out_count(sl: Seq<Slice>, k: int) -> nat
    decreases k,
{
    if k <= 0 {
        0
    } else {
        out_count(sl, k - 1) + (if sl[k - 1] is Index { 0nat } else { 1nat })
    }
}

/// Extents of the axes kept by the first `k` slices.
pub open spec fn sliced_dims(sl: Seq<Slice>, dims: Seq<usize>, k: int) -> Seq<usize>
    decreases k,
{
    if k <= 0 {
        Seq::empty()
    } else {
        let prev = sliced_dims(sl, dims, k - 1);
        match sl[k - 1] {
            Slice::Index(_) => prev,
            Slice::Range { start, end, step } => prev.push(range_len(start, end, step) as usize),
            Slice::All => prev.push(dims[k - 1]),
        }
    }
}

/// Strides of the axes kept by the first `k` slices.
pub open spec fn sliced_strides(sl: Seq<Slice>, st: Seq<isize>, k: int) -> Seq<isize>
    decreases k,
{
    if k <= 0 {
        Seq::empty()
    } else {
        let prev = sliced_strides(sl, st, k - 1);
        match sl[k - 1] {
            Slice::Index(_) => prev,
            Slice::Range { start, end, step } => prev.push(
                if st[k - 1] == 0 { 0isize } else { (st[k - 1] * step) as isize },
            ),
            Slice::All => prev.push(st[k - 1]),
        }
    }
}

/// Offset added by the first `k` slices.
pub open spec fn sliced_delta(sl: Seq<Slice>, st: Seq<isize>, k: int) -> int
    decreases k,
{
    if k <= 0 {
        0
    } else {
        let prev = sliced_delta(sl, st, k - 1);
        match sl[k - 1] {
            Slice::Index(i) => prev + (i as int) * (st[k - 1] as int),
            Slice::Range { start, end, step } => prev + (start as int) * (st[k - 1] as int),
            Slice::All => prev,
        }
    }
}

/// Shape of the sliced view.
pub open spec fn slice_shape(sl: Seq<Slice>, dims: Seq<usize>) -> Seq<usize> {
    sliced_dims(sl, dims, sl.len() as int) + dims.skip(sl.len() as int)
}

/// Strides of the sliced view.
pub open spec fn slice_strides(sl: Seq<Slice>, st: Seq<isize>) -> Seq<isize> {
    sliced_strides(sl, st, sl.len() as int) + st.skip(sl.len() as int)
}

/// Index along source axis `m` selected by view index `j`.
pub open spec fn source_component(sl: Seq<Slice>, j: Seq<usize>, m: int) -> usize {
    match sl[m] {
        Slice::Index(i) => i,
        Slice::Range { start, end, step } => (start + j[out_count(sl, m) as int] * step) as usize,
        Slice::All => j[out_count(sl, m) as int],
    }
}

/// Source indices along the first `k` sliced axes.
pub open spec fn expand(sl: Seq<Slice>, j: Seq<usize>, k: int) -> Seq<usize> {
    Seq::new(k as nat, |m: int| source_component(sl, j, m))
}

/// Source index of view index `j`.
pub open spec fn source_index(sl: Seq<Slice>, j: Seq<usize>) -> Seq<usize> {
    expand(sl, j, sl.len() as int) + j.skip(out_count(sl, sl.len() as int) as int)
}

/// What slicing `arr` by `sl` produces.
pub open spec fn slicing_result<T: Copy>(
    arr: NdArray<T>,
    sl: Seq<Slice>,
    split_step_error: bool,
    r: Result<NdArray<T>>,
) -> bool {
    let dims = arr.dims();
    &&& sl.len() > dims.len() ==> r == Err::<NdArray<T>, RusantaError>(
        RusantaError::DimensionMismatch { lhs: sl.len() as usize, rhs: dims.len() as usize },
    )
    &&& sl.len() <= dims.len() ==> forall|k: int|
        #![trigger first_bad_slice(sl, dims, k)]
        first_bad_slice(sl, dims, k) ==> match sl[k] {
            Slice::Index(i) => r == Err::<NdArray<T>, RusantaError>(
                RusantaError::IndexOutOfBounds { index: i, len: dims[k] },
            ),
            Slice::Range { start, end, step } => r matches Err(RusantaError::InvalidValue { message })
                && message@ == (if split_step_error && step == 0 {
                "slice step must be non-zero"@
            } else {
                "invalid slice range"@
            }),
            Slice::All => false,
        }
    &&& (sl.len() <= dims.len() && axes_ok(sl, dims, sl.len() as int)) ==> (r matches Ok(a) && a.wf()
        && a.buf_view() == arr.buf_view() && a.dims() == slice_shape(sl, dims) && a.steps() == slice_strides(
        sl,
        arr.steps(),
    ) && a.origin() == arr.origin() + sliced_delta(sl, arr.steps(), sl.len() as int) && forall|j: Seq<usize>|
        #![trigger a.at(j)]
        index_in_shape(j, a.dims()) ==> index_in_shape(source_index(sl, j), dims) && a.at(j) == arr.at(
            source_index(sl, j),
        ))
    &&& r is Ok ==> sl.len() <= dims.len() && axes_ok(sl, dims, sl.len() as int)
}

pub proof fn lemma_out_count(sl: Seq<Slice>, dims: Seq<usize>, st: Seq<isize>, k: int)
    requires
        0 <= k <= sl.len(),
    ensures
        sliced_dims(sl, dims, k).len() == out_count(sl, k),
        sliced_strides(sl, st, k).len() == out_count(sl, k),
        out_count(sl, k) <= k,
    decreases k,
{
    if k > 0 {
        lemma_out_count(sl, dims, st, k - 1);
    }
}

pub proof fn lemma_out_count_mono(sl: Seq<Slice>, m: int, k: int)
    requires
        0 <= m <= k <= sl.len(),
    ensures
        out_count(sl, m) <= out_count(sl, k),
        m < k && !(sl[m] is Index) ==> out_count(sl, m) < out_count(sl, k),
    decreases k - m,
{
    if m < k {
        lemma_out_count_mono(sl, m + 1, k);
    }
}

/// The kept extent of slice `m` sits at position `out_count(m)`.
pub proof fn lemma_sliced_at(sl: Seq<Slice>, dims: Seq<usize>, st: Seq<isize>, k: int, m: int)
    requires
        0 <= m < k <= sl.len(),
        !(sl[m] is Index),
    ensures
        out_count(sl, m) < sliced_dims(sl, dims, k).len(),
        sliced_dims(sl, dims, k)[out_count(sl, m) as int] == sliced_dims(sl, dims, m + 1).last(),
        sliced_strides(sl, st, k)[out_count(sl, m) as int] == sliced_strides(sl, st, m + 1).last(),
    decreases k - m,
{
    lemma_out_count(sl, dims, st, k);
    lemma_out_count(sl, dims, st, m + 1);
    lemma_out_count_mono(sl, m, k);
    if k > m + 1 {
        lemma_sliced_at(sl, dims, st, k - 1, m);
        lemma_out_count(sl, dims, st, k - 1);
        lemma_out_count_mono(sl, m, k - 1);
    }
}

pub proof fn lemma_range_bound(start: usize, end: usize, step: usize, j: int)
    requires
        step != 0,
        start < end,
        0 <= j < range_len(start, end, step),
    ensures
        (start as int) + j * (step as int) < end,
        range_len(start, end, step) <= end - start,
        range_len(start, end, step) >= 1,
{
    let m = end - start - 1;
    let s = step as int;
    let q = m / s;
    vstd::arithmetic::div_mod::lemma_fundamental_div_mod(m, s);
    vstd::arithmetic::div_mod::lemma_mod_pos_bound(m, s);
    vstd::arithmetic::div_mod::lemma_div_pos_is_pos(m, s);
    assert(j <= q);
    assert(j * s <= q * s) by (nonlinear_arith)
        requires
            j <= q,
            s > 0,
    ;
    assert(q * s <= m) by (nonlinear_arith)
        requires
            m == s * q + m % s,
            m % s >= 0,
    ;
    assert(q <= m) by (nonlinear_arith)
        requires
            q * s <= m,
            s >= 1,
            q >= 0,
    ;
}

pub proof fn lemma_delta_bound(sl: Seq<Slice>, dims: Seq<usize>, st: Seq<isize>, k: int)
    requires
        0 <= k <= sl.len() <= dims.len(),
        st.len() == dims.len(),
        strides_nonneg(st),
        axes_ok(sl, dims, k),
    ensures
        0 <= sliced_delta(sl, st, k) <= extent(dims.take(k), st.take(k)),
    decreases k,
{
    if k > 0 {
        lemma_delta_bound(sl, dims, st, k - 1);
        assert(dims.take(k).drop_last() =~= dims.take(k - 1));
        assert(st.take(k).drop_last() =~= st.take(k - 1));
        assert(axis_ok(sl[k - 1], dims[k - 1]));
        let d = dims[k - 1];
        let s = st[k - 1] as int;
        let c: int = if d == 0 { 0int } else { d as int - 1 };
        match sl[k - 1] {
            Slice::Index(i) => {
                assert(0 <= (i as int) * s <= c * s) by (nonlinear_arith)
                    requires
                        0 <= i <= c,
                        s >= 0,
                ;
            },
            Slice::Range { start, end, step } => {
                assert(0 <= (start as int) * s <= c * s) by (nonlinear_arith)
                    requires
                        0 <= start <= c,
                        s >= 0,
                ;
            },
            Slice::All => {
                assert(0 <= c * s) by (nonlinear_arith)
                    requires
                        0 <= c,
                        s >= 0,
                ;
            },
        }
    }
}

/// Source components only read the view index below `out_count(k)`.
pub proof fn lemma_expand_take(sl: Seq<Slice>, j: Seq<usize>, k: int)
    requires
        0 <= k <= sl.len(),
        out_count(sl, k) <= j.len(),
    ensures
        expand(sl, j, k) == expand(sl, j.take(out_count(sl, k) as int), k),
{
    let c = out_count(sl, k) as int;
    assert forall|m: int| 0 <= m < k implies source_component(sl, j, m) == source_component(
        sl,
        j.take(c),
        m,
    ) by {
        lemma_out_count_mono(sl, m, k);
    }
    assert(expand(sl, j, k) =~= expand(sl, j.take(c), k));
}

/// The view address of `j` equals the source address of its source index.
pub proof fn lemma_slice_address(sl: Seq<Slice>, dims: Seq<usize>, st: Seq<isize>, j: Seq<usize>, k: int)
    requires
        0 <= k <= sl.len() <= dims.len(),
        st.len() == dims.len(),
        strides_nonneg(st),
        axes_ok(sl, dims, k),
        steps_fit(sl, dims, st),
        j.len() == out_count(sl, k),
        forall|m: int|
            0 <= m < k ==> match #[trigger] sl[m] {
                Slice::Range { start, end, step } => j[out_count(sl, m) as int] < range_len(start, end, step),
                _ => true,
            },
    ensures
        sliced_delta(sl, st, k) + weighted(j, sliced_strides(sl, st, k)) == weighted(expand(sl, j, k), st.take(k)),
    decreases k,
{
    lemma_out_count(sl, dims, st, k);
    if k > 0 {
        let c = out_count(sl, k - 1) as int;
        lemma_out_count(sl, dims, st, k - 1);
        let jp = j.take(c);
        assert forall|m: int|
            0 <= m < k - 1 implies match #[trigger] sl[m] {
                Slice::Range { start, end, step } => jp[out_count(sl, m) as int] < range_len(start, end, step),
                _ => true,
            } by {
            lemma_out_count_mono(sl, m, k - 1);
            assert(sl[m] == sl[m]);
        }
        lemma_slice_address(sl, dims, st, jp, k - 1);
        lemma_expand_take(sl, j, k - 1);
        let ex = expand(sl, j, k);
        let ex1 = expand(sl, j, k - 1);
        let stk = st.take(k);
        assert(ex.drop_last() =~= ex1);
        assert(stk.drop_last() =~= st.take(k - 1));
        assert(stk[k - 1] == st[k - 1]);
        assert(weighted(ex, stk) == weighted(ex1, st.take(k - 1)) + (ex[k - 1] as int) * (st[k - 1] as int));
        let s = st[k - 1] as int;
        assert(axis_ok(sl[k - 1], dims[k - 1]));
        let ss1 = sliced_strides(sl, st, k - 1);
        let d1 = sliced_delta(sl, st, k - 1);
        assert(d1 + weighted(jp, ss1) == weighted(ex1, st.take(k - 1)));
        match sl[k - 1] {
            Slice::Index(i) => {
                assert(j =~= jp);
                assert(sliced_strides(sl, st, k) == ss1);
                assert(sliced_delta(sl, st, k) == d1 + (i as int) * s);
                assert(ex[k - 1] == i);
            },
            Slice::Range { start, end, step } => {
                assert(j.drop_last() =~= jp);
                let jc = j[c] as int;
                assert(jc < range_len(start, end, step));
                lemma_range_bound(start, end, step, jc);
                let ns: isize = if st[k - 1] == 0 { 0isize } else { (st[k - 1] * step) as isize };
                if st[k - 1] != 0 {
                    assert((step as int) * s <= isize::MAX);
                    assert(0 <= s * (step as int) <= isize::MAX) by (nonlinear_arith)
                        requires
                            (step as int) * s <= isize::MAX,
                            s >= 0,
                            step >= 0,
                    ;
                    assert(ns as int == s * (step as int));
                } else {
                    assert(ns as int == 0);
                }
                assert(sliced_strides(sl, st, k) == ss1.push(ns));
                assert(sliced_strides(sl, st, k).drop_last() =~= ss1);
                assert(weighted(j, sliced_strides(sl, st, k)) == weighted(jp, ss1) + jc * (ns as int));
                assert(sliced_delta(sl, st, k) == d1 + (start as int) * s);
                assert(0 <= (start as int) + jc * (step as int)) by (nonlinear_arith)
                    requires
                        jc >= 0,
                        step >= 0,
                ;
                assert(ex[k - 1] as int == (start as int) + jc * (step as int));
                assert((start as int) * s + jc * (ns as int) == ((start as int) + jc * (step as int)) * s) by (nonlinear_arith)
                    requires
                        ns as int == (if s == 0 { 0int } else { s * (step as int) }),
                ;
            },
            Slice::All => {
                assert(j.drop_last() =~= jp);
                assert(sliced_strides(sl, st, k) == ss1.push(st[k - 1]));
                assert(sliced_strides(sl, st, k).drop_last() =~= ss1);
                assert(weighted(j, sliced_strides(sl, st, k)) == weighted(jp, ss1) + (j[c] as int) * s);
                assert(sliced_delta(sl, st, k) == d1);
                assert(ex[k - 1] == j[c]);
            },
        }
    }
}

/// Source indices of in-range view indices are in range.
pub proof fn lemma_source_in_range(sl: Seq<Slice>, dims: Seq<usize>, st: Seq<isize>, j: Seq<usize>, strict: bool)
    requires
        sl.len() <= dims.len(),
        axes_ok(sl, dims, sl.len() as int),
        strict ==> index_in_shape(j, slice_shape(sl, dims)),
        !strict ==> below_clamp(j, slice_shape(sl, dims)),
    ensures
        strict ==> index_in_shape(source_index(sl, j), dims),
        !strict ==> below_clamp(source_index(sl, j), dims),
        forall|m: int|
            0 <= m < sl.len() ==> match #[trigger] sl[m] {
                Slice::Range { start, end, step } => j[out_count(sl, m) as int] < range_len(start, end, step),
                _ => true,
            },
{
    let n = sl.len() as int;
    let c = out_count(sl, n) as int;
    lemma_out_count(sl, dims, st, n);
    let sd = sliced_dims(sl, dims, n);
    let src = source_index(sl, j);
    assert(slice_shape(sl, dims)[0] == slice_shape(sl, dims)[0]);
    assert forall|m: int|
        0 <= m < sl.len() implies match #[trigger] sl[m] {
            Slice::Range { start, end, step } => j[out_count(sl, m) as int] < range_len(start, end, step),
            _ => true,
        } by {
        if !(sl[m] is Index) {
            lemma_sliced_at(sl, dims, st, n, m);
            let p = out_count(sl, m) as int;
            assert(slice_shape(sl, dims)[p] == sd[p]);
            match sl[m] {
                Slice::Range { start, end, step } => {
                    assert(axis_ok(sl[m], dims[m]));
                    lemma_range_bound(start, end, step, 0);
                    assert(sd[p] == range_len(start, end, step) as usize);
                },
                _ => {},
            }
        }
    }
    assert forall|m: int| 0 <= m < dims.len() implies (src[m] < dims[m] || (!strict && dims[m] == 0 && src[m] == 0)) by {
        if m < n {
            assert(axis_ok(sl[m], dims[m]));
            assert(src[m] == source_component(sl, j, m));
            if !(sl[m] is Index) {
                lemma_sliced_at(sl, dims, st, n, m);
                let p = out_count(sl, m) as int;
                assert(slice_shape(sl, dims)[p] == sd[p]);
                match sl[m] {
                    Slice::Range { start, end, step } => {
                        lemma_range_bound(start, end, step, j[p] as int);
                    },
                    _ => {},
                }
            }
        } else {
            assert(src[m] == j[c + (m - n)]);
            assert(slice_shape(sl, dims)[c + (m - n)] == dims[m]);
        }
    }
}

/// Slices an array: the shared core of `NdArray::slice` and `apply_slice`.
#[verifier::spinoff_prover]
#[verifier::rlimit(40)]
pub(crate) fn slice_view<T: Copy>(arr: &NdArray<T>, slices: &[Slice], split_step_error: bool) -> (r: Result<NdArray<T>>)
    requires
        arr.wf(),
        steps_fit(slices@, arr.dims(), arr.steps()),
    ensures
        slicing_result(*arr, slices@, split_step_error, r),
{
    let ghost sl = slices@;
    let ghost dims = arr.dims();
    let ghost st = arr.steps();
    let ndim = arr.ndim();
    if slices.len() > ndim {
        return Err(RusantaError::DimensionMismatch { lhs: slices.len(), rhs: ndim });
    }
    let shape = arr.shape();
    let strides = arr.strides();
    let mut new_shape: Vec<usize> = Vec::new();
    let mut new_strides: Vec<isize> = Vec::new();
    proof {
        shape::lemma_extent_nonneg(dims, st);
    }
    let mut new_offset: isize = arr.offset() as isize;
    let mut axis: usize = 0;
    while axis < slices.len()
        invariant
            arr.wf(),
            sl == slices@,
            dims == arr.dims(),
            st == arr.steps(),
            shape@ == dims,
            strides@ == st,
            steps_fit(sl, dims, st),
            slices@.len() <= ndim,
            ndim == dims.len(),
            axis <= slices@.len(),
            axes_ok(sl, dims, axis as int),
            new_shape@ == sliced_dims(sl, dims, axis as int),
            new_strides@ == sliced_strides(sl, st, axis as int),
            new_offset as int == arr.origin() + sliced_delta(sl, st, axis as int),
        decreases slices@.len() - axis,
    {
        let dim = shape[axis];
        let stride = strides[axis];
        proof {
            shape::lemma_extent_prefix(dims, st, axis as int + 1);
        }
        match &slices[axis] {
            Slice::Index(i) => {
                let i = *i;
                if i >= dim {
                    proof {
                        assert(first_bad_slice(sl, dims, axis as int));
                    }
                    return Err(RusantaError::IndexOutOfBounds { index: i, len: dim });
                }
                proof {
                    assert(axes_ok(sl, dims, axis as int + 1));
                    lemma_delta_bound(sl, dims, st, axis as int + 1);
                    lemma_delta_bound(sl, dims, st, axis as int);
                    shape::lemma_extent_prefix(dims, st, axis as int);
                    assert(sl[axis as int] == Slice::Index(i));
                    assert(sliced_delta(sl, st, axis as int + 1) == sliced_delta(sl, st, axis as int) + (i as int) * (
                    stride as int));
                }
                let term: isize = if stride == 0 {
                    proof {
                        assert((i as int) * (stride as int) == 0) by (nonlinear_arith)
                            requires
                                stride == 0,
                        ;
                    }
                    0
                } else {
                    proof {
                        assert(i as int <= isize::MAX) by (nonlinear_arith)
                            requires
                                (i as int) * (stride as int) <= isize::MAX,
                                stride >= 1,
                                i >= 0,
                        ;
                    }
                    (i as isize) * stride
                };
                new_offset = new_offset + term;
            },
            Slice::Range { start, end, step } => {
                let start = *start;
                let end = *end;
                let step = *step;
                if split_step_error && step == 0 {
                    proof {
                        assert(first_bad_slice(sl, dims, axis as int));
                    }
                    return Err(RusantaError::InvalidValue { message: String::from_str("slice step must be non-zero") });
                }
                if step == 0 || start >= end || end > dim {
                    proof {
                        assert(first_bad_slice(sl, dims, axis as int));
                    }
                    return Err(RusantaError::InvalidValue { message: String::from_str("invalid slice range") });
                }
                proof {
                    assert(axes_ok(sl, dims, axis as int + 1));
                    lemma_delta_bound(sl, dims, st, axis as int + 1);
                    lemma_delta_bound(sl, dims, st, axis as int);
                    shape::lemma_extent_prefix(dims, st, axis as int);
                    lemma_range_bound(start, end, step, 0);
                    assert(sl[axis as int] == (Slice::Range { start, end, step }));
                    assert(sliced_delta(sl, st, axis as int + 1) == sliced_delta(sl, st, axis as int) + (start as int) * (
                    stride as int));
                }
                let len = (end - start - 1) / step + 1;
                let (new_stride, term): (isize, isize) = if stride == 0 {
                    proof {
                        assert((start as int) * (stride as int) == 0) by (nonlinear_arith)
                            requires
                                stride == 0,
                        ;
                    }
                    (0, 0)
                } else {
                    proof {
                        assert(sl[axis as int] == slices@[axis as int]);
                        assert((step as int) * (stride as int) <= isize::MAX);
                        assert(step as int <= isize::MAX) by (nonlinear_arith)
                            requires
                                (step as int) * (stride as int) <= isize::MAX,
                                stride >= 1,
                                step >= 1,
                        ;
                        assert(start as int <= isize::MAX) by (nonlinear_arith)
                            requires
                                (start as int) * (stride as int) <= isize::MAX,
                                stride >= 1,
                                start >= 0,
                        ;
                        assert((stride as int) * (step as int) == (step as int) * (stride as int)) by (nonlinear_arith);
                    }
                    (stride * (step as isize), (start as isize) * stride)
                };
                new_shape.push(len);
                new_strides.push(new_stride);
                new_offset = new_offset + term;
            },
            Slice::All => {
                new_shape.push(dim);
                new_strides.push(stride);
            },
        }
        axis = axis + 1;
    }
    let mut rest: usize = slices.len();
    while rest < ndim
        invariant
            slices@.len() <= rest <= ndim,
            sl == slices@,
            ndim == dims.len(),
            shape@ == dims,
            strides@ == st,
            st.len() == dims.len(),
            new_shape@ == sliced_dims(sl, dims, sl.len() as int) + dims.subrange(sl.len() as int, rest as int),
            new_strides@ == sliced_strides(sl, st, sl.len() as int) + st.subrange(sl.len() as int, rest as int),
        decreases ndim - rest,
    {
        new_shape.push(shape[rest]);
        new_strides.push(strides[rest]);
        rest = rest + 1;
        proof {
            assert(new_shape@ =~= sliced_dims(sl, dims, sl.len() as int) + dims.subrange(sl.len() as int, rest as int));
            assert(new_strides@ =~= sliced_strides(sl, st, sl.len() as int) + st.subrange(sl.len() as int, rest as int));
        }
    }
    proof {
        let n = sl.len() as int;
        assert(dims.subrange(n, dims.len() as int) =~= dims.skip(n));
        assert(st.subrange(n, st.len() as int) =~= st.skip(n));
        lemma_delta_bound(sl, dims, st, n);
        shape::lemma_extent_prefix(dims, st, n);
    }
    let a = NdArray::from_parts(arr.buffer_handle(), new_shape, new_strides, new_offset as usize);
    proof {
        let n = sl.len() as int;
        let c = out_count(sl, n) as int;
        lemma_out_count(sl, dims, st, n);
        let nd = slice_shape(sl, dims);
        let ns = slice_strides(sl, st);
        assert(nd.len() == ns.len());
        // strides stay non-negative
        assert forall|q: int| 0 <= q < ns.len() implies ns[q] >= 0 by {
            if q < c {
                lemma_stride_nonneg(sl, dims, st, n, q);
            } else {
                assert(ns[q] == st[n + (q - c)]);
            }
        }
        // address identity for every view index within the clamped shape
        assert forall|j: Seq<usize>| below_clamp(j, nd) implies a.origin() + weighted(j, ns) == arr.position(
            source_index(sl, j),
        ) && below_clamp(source_index(sl, j), dims) by {
            lemma_source_in_range(sl, dims, st, j, false);
            lemma_view_address(sl, dims, st, j);
        }
        // the clamped maximum index reaches the extent
        let cm = clamp_max(nd);
        lemma_clamp_max(nd, ns);
        lemma_source_in_range(sl, dims, st, cm, false);
        lemma_view_address(sl, dims, st, cm);
        shape::lemma_weighted_below_clamp(source_index(sl, cm), dims, st);
        assert(a.origin() + extent(nd, ns) <= arr.origin() + extent(dims, st));
        if shape::shape_product(nd) > 0 {
            shape::lemma_product_positive(nd);
            shape::lemma_product_positive(dims);
            assert forall|m: int| 0 <= m < dims.len() implies dims[m] > 0 by {
                lemma_dim_kept_positive(sl, dims, st, m);
            }
        }
        assert forall|j: Seq<usize>| #![trigger a.at(j)] index_in_shape(j, a.dims()) implies index_in_shape(
            source_index(sl, j),
            dims,
        ) && a.at(j) == arr.at(source_index(sl, j)) by {
            lemma_source_in_range(sl, dims, st, j, true);
            assert(below_clamp(j, nd));
        }
    }
    Ok(a)
}

/// Applies slicing to an array, producing a zero-copy view.
pub fn apply_slice<T: Copy>(arr: &NdArray<T>, slices: &[Slice]) -> (r: Result<NdArray<T>>)
    requires
        arr.wf(),
        steps_fit(slices@, arr.dims(), arr.steps()),
    ensures
        slicing_result(*arr, slices@, true, r),
{
    slice_view(arr, slices, true)
}

/// Largest index of each axis, counting empty axes as one.
pub open spec fn clamp_max(dims: Seq<usize>) -> Seq<usize> {
    Seq::new(dims.len(), |k: int| if dims[k] == 0 { 0usize } else { (dims[k] - 1) as usize })
}

pub proof fn lemma_clamp_max(dims: Seq<usize>, st: Seq<isize>)
    requires
        st.len() == dims.len(),
    ensures
        below_clamp(clamp_max(dims), dims),
        weighted(clamp_max(dims), st) == extent(dims, st),
    decreases dims.len(),
{
    if dims.len() > 0 {
        assert(clamp_max(dims).drop_last() =~= clamp_max(dims.drop_last()));
        lemma_clamp_max(dims.drop_last(), st.drop_last());
    }
}

pub proof fn lemma_stride_nonneg(sl: Seq<Slice>, dims: Seq<usize>, st: Seq<isize>, k: int, q: int)
    requires
        0 <= k <= sl.len() <= dims.len(),
        st.len() == dims.len(),
        strides_nonneg(st),
        axes_ok(sl, dims, k),
        steps_fit(sl, dims, st),
        0 <= q < sliced_strides(sl, st, k).len(),
    ensures
        sliced_strides(sl, st, k)[q] >= 0,
    decreases k,
{
    lemma_out_count(sl, dims, st, k);
    lemma_out_count(sl, dims, st, k - 1);
    if q < sliced_strides(sl, st, k - 1).len() {
        lemma_stride_nonneg(sl, dims, st, k - 1, q);
    } else {
        assert(axis_ok(sl[k - 1], dims[k - 1]));
        match sl[k - 1] {
            Slice::Range { start, end, step } => {
                if st[k - 1] != 0 {
                    assert((step as int) * (st[k - 1] as int) <= isize::MAX);
                    assert(0 <= (st[k - 1] as int) * (step as int) <= isize::MAX) by (nonlinear_arith)
                        requires
                            (step as int) * (st[k - 1] as int) <= isize::MAX,
                            st[k - 1] >= 0,
                            step >= 0,
                    ;
                }
            },
            _ => {},
        }
    }
}

/// Every source axis of a non-empty view is non-empty.
pub proof fn lemma_dim_kept_positive(sl: Seq<Slice>, dims: Seq<usize>, st: Seq<isize>, m: int)
    requires
        sl.len() <= dims.len(),
        axes_ok(sl, dims, sl.len() as int),
        0 <= m < dims.len(),
        forall|q: int| 0 <= q < slice_shape(sl, dims).len() ==> slice_shape(sl, dims)[q] > 0,
    ensures
        dims[m] > 0,
{
    let n = sl.len() as int;
    lemma_out_count(sl, dims, st, n);
    let c = out_count(sl, n) as int;
    if m < n {
        assert(axis_ok(sl[m], dims[m]));
        if sl[m] is All {
            lemma_sliced_at(sl, dims, st, n, m);
            assert(slice_shape(sl, dims)[out_count(sl, m) as int] == sliced_dims(sl, dims, n)[out_count(sl, m) as int]);
        }
    } else {
        assert(slice_shape(sl, dims)[c + (m - n)] == dims[m]);
    }
}

/// The view address of `j` equals the source address of its source index.
pub proof fn lemma_view_address(sl: Seq<Slice>, dims: Seq<usize>, st: Seq<isize>, j: Seq<usize>)
    requires
        sl.len() <= dims.len(),
        st.len() == dims.len(),
        strides_nonneg(st),
        axes_ok(sl, dims, sl.len() as int),
        steps_fit(sl, dims, st),
        j.len() == slice_shape(sl, dims).len(),
        forall|m: int|
            0 <= m < sl.len() ==> match #[trigger] sl[m] {
                Slice::Range { start, end, step } => j[out_count(sl, m) as int] < range_len(start, end, step),
                _ => true,
            },
    ensures
        sliced_delta(sl, st, sl.len() as int) + weighted(j, slice_strides(sl, st)) == weighted(source_index(sl, j), st),
{
    let n = sl.len() as int;
    lemma_out_count(sl, dims, st, n);
    let c = out_count(sl, n) as int;
    let j1 = j.take(c);
    let j2 = j.skip(c);
    assert(j =~= j1 + j2);
    assert forall|m: int|
        0 <= m < n implies match #[trigger] sl[m] {
            Slice::Range { start, end, step } => j1[out_count(sl, m) as int] < range_len(start, end, step),
            _ => true,
        } by {
        lemma_out_count_mono(sl, m, n);
        assert(sl[m] == sl[m]);
    }
    lemma_slice_address(sl, dims, st, j1, n);
    lemma_expand_take(sl, j, n);
    shape::lemma_weighted_concat(j1, j2, sliced_strides(sl, st, n), st.skip(n));
    assert(st =~= st.take(n) + st.skip(n));
    shape::lemma_weighted_concat(expand(sl, j, n), j2, st.take(n), st.skip(n));
}

} // verus!
