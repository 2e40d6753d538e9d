//! NumPy broadcasting of shapes and zero-copy broadcast views.
use vstd::prelude::*;
use crate::error::{Result, RusantaError};
use crate::array::ndarray::NdArray;
use crate::array::shape::{extent, index_in_shape, shape_product, strides_nonneg, weighted};
use crate::array::shape;

verus! {

/// Result of broadcasting two arrays.
#[derive(Debug)]
pub struct BroadcastSpec {
    pub shape: Vec<usize>,
    pub lhs_strides: Vec<isize>,
    pub rhs_strides: Vec<isize>,
}

/// Number of axes of the broadcast of two shapes.
pub open spec fn broadcast_ndim(a: Seq<usize>, b: Seq<usize>) -> int {
    if a.len() >= b.len() { a.len() as int } else { b.len() as int }
}

/// Extent of `s` on axis `k` once right-aligned to `n` axes (missing axes are 1).
pub open spec fn aligned_dim(s: Seq<usize>, n: int, k: int) -> usize {
    if k >= n - s.len() { s[k - (n - s.len())] } else { 1usize }
}

/// Stride of `s` on axis `k` once right-aligned to `n` axes (missing axes are 0).
pub open spec fn aligned_stride(s: Seq<usize>, st: Seq<isize>, n: int, k: int) -> isize {
    if k >= n - s.len() { st[k - (n - s.len())] } else { 0isize }
}

/// Two shapes can be broadcast: on every aligned axis the extents agree or one is 1.
pub open spec fn broadcastable(a: Seq<usize>, b: Seq<usize>) -> bool {
    let n = broadcast_ndim(a, b);
    forall|k: int|
        0 <= k < n ==> aligned_dim(a, n, k) == aligned_dim(b, n, k) || aligned_dim(a, n, k) == 1
            || aligned_dim(b, n, k) == 1
}

/// The broadcast shape: on every axis the extent that is not 1.
pub open spec fn broadcast_shape(a: Seq<usize>, b: Seq<usize>) -> Seq<usize> {
    let n = broadcast_ndim(a, b);
    Seq::new(n as nat, |k: int| if aligned_dim(a, n, k) == 1 { aligned_dim(b, n, k) } else { aligned_dim(a, n, k) })
}

/// Strides that read `s` along the broadcast axes (0 where `s` is stretched).
pub open spec fn broadcast_strides(s: Seq<usize>, st: Seq<isize>, n: int) -> Seq<isize> {
    Seq::new(n as nat, |k: int| if aligned_dim(s, n, k) == 1 { 0isize } else { aligned_stride(s, st, n, k) })
}

/// The index of an operand of shape `s` read by broadcast index `j`.
pub open spec fn project(j: Seq<usize>, s: Seq<usize>) -> Seq<usize> {
    Seq::new(s.len(), |m: int| if s[m] == 1 { 0usize } else { j[m + (j.len() - s.len())] })
}

/// Computes broadcasting rules between two shapes (NumPy semantics).
pub fn broadcast_shapes(
    lhs_shape: &[usize],
    rhs_shape: &[usize],
    lhs_strides: &[isize],
    rhs_strides: &[isize],
) -> (r: Result<BroadcastSpec>)
    requires
        lhs_strides@.len() >= lhs_shape@.len(),
        rhs_strides@.len() >= rhs_shape@.len(),
    ensures
        !broadcastable(lhs_shape@, rhs_shape@) ==> (r matches Err(RusantaError::ShapeMismatch { expected, found })
            && expected@ == lhs_shape@ && found@ == rhs_shape@),
        broadcastable(lhs_shape@, rhs_shape@) ==> (r matches Ok(spec) && spec.shape@ == broadcast_shape(
            lhs_shape@,
            rhs_shape@,
        ) && spec.lhs_strides@ == broadcast_strides(
            lhs_shape@,
            lhs_strides@,
            broadcast_ndim(lhs_shape@, rhs_shape@),
        ) && spec.rhs_strides@ == broadcast_strides(
            rhs_shape@,
            rhs_strides@,
            broadcast_ndim(lhs_shape@, rhs_shape@),
        )),
{
    let ghost a = lhs_shape@;
    let ghost b = rhs_shape@;
    let ndim = if lhs_shape.len() >= rhs_shape.len() { lhs_shape.len() } else { rhs_shape.len() };
    let ghost n = ndim as int;
    let mut shape: Vec<usize> = Vec::new();
    let mut lhs_new: Vec<isize> = Vec::new();
    let mut rhs_new: Vec<isize> = Vec::new();
    let mut j: usize = 0;
    while j < ndim
        invariant
            j <= ndim,
            shape@.len() == j,
            lhs_new@.len() == j,
            rhs_new@.len() == j,
        decreases ndim - j,
    {
        shape.push(0);
        lhs_new.push(0);
        rhs_new.push(0);
        j = j + 1;
    }
    let mut i: usize = 0;
    while i < ndim
        invariant
            a == lhs_shape@,
            b == rhs_shape@,
            n == ndim,
            n == broadcast_ndim(a, b),
            lhs_strides@.len() >= a.len(),
            rhs_strides@.len() >= b.len(),
            i <= ndim,
            shape@.len() == ndim,
            lhs_new@.len() == ndim,
            rhs_new@.len() == ndim,
            forall|k: int|
                #![trigger aligned_dim(a, n, k)]
                n - i <= k < n ==> (aligned_dim(a, n, k) == aligned_dim(b, n, k) || aligned_dim(a, n, k) == 1
                    || aligned_dim(b, n, k) == 1),
            forall|k: int| n - i <= k < n ==> shape@[k] == broadcast_shape(a, b)[k],
            forall|k: int| n - i <= k < n ==> lhs_new@[k] == broadcast_strides(a, lhs_strides@, n)[k],
            forall|k: int| n - i <= k < n ==> rhs_new@[k] == broadcast_strides(b, rhs_strides@, n)[k],
        decreases ndim - i,
    {
        let k = ndim - 1 - i;
        let lhs_dim: usize = if i < lhs_shape.len() { lhs_shape[lhs_shape.len() - 1 - i] } else { 1 };
        let rhs_dim: usize = if i < rhs_shape.len() { rhs_shape[rhs_shape.len() - 1 - i] } else { 1 };
        let lhs_stride: isize = if i < lhs_shape.len() { lhs_strides[lhs_shape.len() - 1 - i] } else { 0 };
        let rhs_stride: isize = if i < rhs_shape.len() { rhs_strides[rhs_shape.len() - 1 - i] } else { 0 };
        proof {
            assert(lhs_dim == aligned_dim(a, n, k as int));
            assert(rhs_dim == aligned_dim(b, n, k as int));
        }
        if lhs_dim != rhs_dim && lhs_dim != 1 && rhs_dim != 1 {
            return Err(RusantaError::ShapeMismatch {
                expected: vstd::slice::slice_to_vec(lhs_shape),
                found: vstd::slice::slice_to_vec(rhs_shape),
            });
        }
        let out_dim = if lhs_dim == 1 { rhs_dim } else { lhs_dim };
        shape.set(k, out_dim);
        lhs_new.set(k, if lhs_dim == 1 { 0 } else { lhs_stride });
        rhs_new.set(k, if rhs_dim == 1 { 0 } else { rhs_stride });
        i = i + 1;
    }
    proof {
        assert(shape@ =~= broadcast_shape(a, b));
        assert(lhs_new@ =~= broadcast_strides(a, lhs_strides@, n));
        assert(rhs_new@ =~= broadcast_strides(b, rhs_strides@, n));
    }
    Ok(BroadcastSpec { shape, lhs_strides: lhs_new, rhs_strides: rhs_new })
}

/// `v` is the broadcast view of `x` for the shape `out`.
pub open spec fn broadcast_view<T: Copy>(x: NdArray<T>, v: NdArray<T>, out: Seq<usize>) -> bool {
    &&& v.wf()
    &&& v.buf_view() == x.buf_view()
    &&& v.origin() == x.origin()
    &&& v.dims() == out
    &&& v.steps() == broadcast_strides(x.dims(), x.steps(), out.len() as int)
    &&& forall|j: Seq<usize>|
        #![trigger v.at(j)]
        index_in_shape(j, out) ==> index_in_shape(project(j, x.dims()), x.dims()) && v.at(j) == x.at(
            project(j, x.dims()),
        )
}

/// Reading a broadcast view at `j` reads the operand at its projection.
pub proof fn lemma_broadcast_address(s: Seq<usize>, st: Seq<isize>, other: Seq<usize>, j: Seq<usize>, out: Seq<usize>)
    requires
        st.len() == s.len(),
        out.len() >= s.len(),
        j.len() == out.len(),
        forall|m: int| 0 <= m < s.len() ==> s[m] == 1 || s[m] == out[m + (out.len() - s.len())],
    ensures
        weighted(j, broadcast_strides(s, st, out.len() as int)) == weighted(project(j, s), st),
        extent(out, broadcast_strides(s, st, out.len() as int)) == extent(s, st),
        index_in_shape(j, out) ==> index_in_shape(project(j, s), s),
        shape_product(out) > 0 ==> shape_product(s) > 0,
{
    let n = out.len() as int;
    let p = n - s.len();
    let bs = broadcast_strides(s, st, n);
    let pj = project(j, s);
    let j1 = j.take(p);
    let j2 = j.skip(p);
    let o1 = out.take(p);
    let o2 = out.skip(p);
    let b1 = bs.take(p);
    let b2 = bs.skip(p);
    assert(j =~= j1 + j2);
    assert(out =~= o1 + o2);
    assert(bs =~= b1 + b2);
    shape::lemma_weighted_concat(j1, j2, b1, b2);
    shape::lemma_as_sums(j1, o1, b1);
    shape::lemma_as_sums(j2, o2, b2);
    shape::lemma_as_sums(pj, s, st);
    assert(shape::weight_terms(j1, b1) =~= Seq::new(p as nat, |k: int| 0int));
    lemma_sum_zero(p as nat);
    assert(shape::weight_terms(j2, b2) =~= shape::weight_terms(pj, st));
    assert forall|k: int| 0 <= k < s.len() implies #[trigger] shape::extent_terms(o2, b2)[k] == shape::extent_terms(
        s,
        st,
    )[k] by {
        assert(aligned_dim(s, n, k + p) == s[k]);
        assert(o2[k] == out[k + p]);
        assert(b2[k] == bs[k + p]);
        let co: int = if o2[k] == 0 { 0int } else { o2[k] as int - 1 };
        if s[k] == 1 {
            assert(b2[k] == 0);
            assert(co * (b2[k] as int) == 0) by (nonlinear_arith)
                requires
                    b2[k] == 0,
            ;
            let cs: int = if s[k] == 0 { 0int } else { s[k] as int - 1 };
            assert(cs == 0);
            assert(cs * (st[k] as int) == 0) by (nonlinear_arith)
                requires
                    cs == 0,
            ;
        } else {
            assert(b2[k] == st[k]);
            assert(o2[k] == s[k]);
        }
    }
    assert(shape::extent_terms(o2, b2) =~= shape::extent_terms(s, st));
    assert(shape::extent_terms(o1, b1) =~= Seq::new(p as nat, |k: int| 0int));
    lemma_extent_concat(o1, o2, b1, b2);
    if shape_product(out) > 0 {
        shape::lemma_product_positive(out);
        shape::lemma_product_positive(s);
        assert forall|m: int| 0 <= m < s.len() implies s[m] > 0 by {
            assert(out[m + p] > 0);
        }
    }
}

pub proof fn lemma_sum_zero(n: nat)
    ensures
        shape::seq_sum(Seq::new(n, |k: int| 0int)) == 0,
    decreases n,
{
    if n > 0 {
        assert(Seq::new(n, |k: int| 0int).drop_last() =~= Seq::new((n - 1) as nat, |k: int| 0int));
        lemma_sum_zero((n - 1) as nat);
    }
}

pub proof fn lemma_sum_concat(a: Seq<int>, b: Seq<int>)
    ensures
        shape::seq_sum(a + b) == shape::seq_sum(a) + shape::seq_sum(b),
    decreases b.len(),
{
    if b.len() == 0 {
        assert(a + b =~= a);
    } else {
        assert((a + b).drop_last() =~= a + b.drop_last());
        lemma_sum_concat(a, b.drop_last());
    }
}

pub proof fn lemma_extent_concat(d1: Seq<usize>, d2: Seq<usize>, s1: Seq<isize>, s2: Seq<isize>)
    requires
        d1.len() == s1.len(),
        d2.len() == s2.len(),
    ensures
        extent(d1 + d2, s1 + s2) == extent(d1, s1) + extent(d2, s2),
{
    shape::lemma_as_sums(d1 + d2, d1 + d2, s1 + s2);
    shape::lemma_as_sums(d1, d1, s1);
    shape::lemma_as_sums(d2, d2, s2);
    assert(shape::extent_terms(d1 + d2, s1 + s2) =~= shape::extent_terms(d1, s1) + shape::extent_terms(d2, s2));
    lemma_sum_concat(shape::extent_terms(d1, s1), shape::extent_terms(d2, s2));
}

/// Broadcasts two arrays into views of the common shape, without copying.
pub fn broadcast<T: Copy>(lhs: &NdArray<T>, rhs: &NdArray<T>) -> (r: Result<(NdArray<T>, NdArray<T>)>)
    requires
        lhs.wf(),
        rhs.wf(),
    ensures
        !broadcastable(lhs.dims(), rhs.dims()) ==> (r matches Err(RusantaError::ShapeMismatch { expected, found })
            && expected@ == lhs.dims() && found@ == rhs.dims()),
        broadcastable(lhs.dims(), rhs.dims()) ==> (r matches Ok((lv, rv)) && broadcast_view(
            *lhs,
            lv,
            broadcast_shape(lhs.dims(), rhs.dims()),
        ) && broadcast_view(*rhs, rv, broadcast_shape(lhs.dims(), rhs.dims()))),
{
    let spec = broadcast_shapes(lhs.shape(), rhs.shape(), lhs.strides(), rhs.strides())?;
    let BroadcastSpec { shape, lhs_strides, rhs_strides } = spec;
    let shape2 = shape.clone();
    let lv = NdArray::from_parts(lhs.buffer_handle(), shape, lhs_strides, lhs.offset());
    let rv = NdArray::from_parts(rhs.buffer_handle(), shape2, rhs_strides, rhs.offset());
    proof {
        let out = broadcast_shape(lhs.dims(), rhs.dims());
        let n = out.len() as int;
        assert(shape2@ == out);
        lemma_view_wf(*lhs, lv, rhs.dims(), out);
        lemma_view_wf(*rhs, rv, lhs.dims(), out);
    }
    Ok((lv, rv))
}

proof fn lemma_view_wf<T: Copy>(x: NdArray<T>, v: NdArray<T>, other: Seq<usize>, out: Seq<usize>)
    requires
        x.wf(),
        out.len() >= x.dims().len(),
        forall|m: int| 0 <= m < x.dims().len() ==> x.dims()[m] == 1 || x.dims()[m] == out[m + (out.len() - x.dims().len())],
        v.buf_view() == x.buf_view(),
        v.origin() == x.origin(),
        v.dims() == out,
        v.steps() == broadcast_strides(x.dims(), x.steps(), out.len() as int),
    ensures
        broadcast_view(x, v, out),
{
    let s = x.dims();
    let st = x.steps();
    let j0 = Seq::new(out.len(), |k: int| 0usize);
    lemma_broadcast_address(s, st, other, j0, out);
    assert forall|q: int| 0 <= q < v.steps().len() implies v.steps()[q] >= 0 by {
        let p = out.len() - s.len();
        if q >= p {
            assert(st[q - p] >= 0);
        }
    }
    assert forall|j: Seq<usize>| #![trigger v.at(j)] index_in_shape(j, out) implies index_in_shape(
        project(j, s),
        s,
    ) && v.at(j) == x.at(project(j, s)) by {
        lemma_broadcast_address(s, st, other, j, out);
    }
}

} // verus!
