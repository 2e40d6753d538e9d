//! Properties that relate the array operations to each other.
use vstd::prelude::*;
use crate::array::broadcast::{aligned_dim, broadcast_ndim, broadcast_shape, broadcastable};
use crate::array::elementwise::{ElemOp, elementwise_result, lhs_at, op_value, rhs_at};
use crate::array::ndarray::{NdArray, permuted_view, reversed_axes};
use crate::array::shape::{index_in_shape, is_permutation, permute, row_major_strides};
use crate::array::shape;

verus! {

/// Broadcasting is symmetric: two shapes broadcast in either order or in
/// neither, and to the same shape.
pub proof fn lemma_broadcast_symmetric(a: Seq<usize>, b: Seq<usize>)
    ensures
        broadcastable(a, b) == broadcastable(b, a),
        broadcastable(a, b) ==> broadcast_shape(a, b) == broadcast_shape(b, a),
{
    let n = broadcast_ndim(a, b);
    assert(broadcast_ndim(b, a) == n);
    if broadcastable(a, b) {
        assert(broadcast_shape(a, b) =~= broadcast_shape(b, a)) by {
            assert forall|k: int| 0 <= k < n implies #[trigger] broadcast_shape(a, b)[k] == broadcast_shape(b, a)[k] by {
                assert(aligned_dim(a, n, k) == aligned_dim(b, n, k) || aligned_dim(a, n, k) == 1 || aligned_dim(b, n, k) == 1);
            }
        }
    }
}

/// An operation whose value does not depend on the order of its operands
/// gives the same array in either order.
proof fn lemma_elementwise_commutes(
    op: ElemOp,
    a: NdArray<i64>,
    b: NdArray<i64>,
    r1: crate::error::Result<NdArray<i64>>,
    r2: crate::error::Result<NdArray<i64>>,
)
    requires
        forall|x: i64, y: i64| #[trigger] op_value(op, x, y) == op_value(op, y, x),
        elementwise_result(op, a, b, r1),
        elementwise_result(op, b, a, r2),
    ensures
        r1 is Ok <==> r2 is Ok,
        r1 is Ok ==> r1->Ok_0.dims() == r2->Ok_0.dims() && r1->Ok_0.buf_view() == r2->Ok_0.buf_view(),
{
    lemma_broadcast_symmetric(a.dims(), b.dims());
    if broadcastable(a.dims(), b.dims()) {
        let c1 = r1->Ok_0;
        let c2 = r2->Ok_0;
        assert forall|p: int| 0 <= p < c1.buf_view().len() implies #[trigger] c1.buf_view()[p] == c2.buf_view()[p] by {
            assert(lhs_at(a, b, p) == rhs_at(b, a, p));
            assert(rhs_at(a, b, p) == lhs_at(b, a, p));
            assert(op_value(op, lhs_at(a, b, p), rhs_at(a, b, p)) == op_value(op, lhs_at(b, a, p), rhs_at(b, a, p)));
        }
        assert(c1.buf_view() =~= c2.buf_view());
    }
}

/// Elementwise addition commutes: `a + b` and `b + a` hold the same values,
/// or both fail.
pub proof fn lemma_add_commutes(
    a: NdArray<i64>,
    b: NdArray<i64>,
    r1: crate::error::Result<NdArray<i64>>,
    r2: crate::error::Result<NdArray<i64>>,
)
    requires
        elementwise_result(ElemOp::Add, a, b, r1),
        elementwise_result(ElemOp::Add, b, a, r2),
    ensures
        r1 is Ok <==> r2 is Ok,
        r1 is Ok ==> r1->Ok_0.dims() == r2->Ok_0.dims() && r1->Ok_0.buf_view() == r2->Ok_0.buf_view(),
{
    lemma_elementwise_commutes(ElemOp::Add, a, b, r1, r2);
}

/// Elementwise multiplication commutes: `a * b` and `b * a` hold the same
/// values, or both fail.
pub proof fn lemma_mul_commutes(
    a: NdArray<i64>,
    b: NdArray<i64>,
    r1: crate::error::Result<NdArray<i64>>,
    r2: crate::error::Result<NdArray<i64>>,
)
    requires
        elementwise_result(ElemOp::Mul, a, b, r1),
        elementwise_result(ElemOp::Mul, b, a, r2),
    ensures
        r1 is Ok <==> r2 is Ok,
        r1 is Ok ==> r1->Ok_0.dims() == r2->Ok_0.dims() && r1->Ok_0.buf_view() == r2->Ok_0.buf_view(),
{
    assert forall|x: i64, y: i64| #[trigger] op_value(ElemOp::Mul, x, y) == op_value(ElemOp::Mul, y, x) by {
        assert(x * y == y * x) by (nonlinear_arith);
    }
    lemma_elementwise_commutes(ElemOp::Mul, a, b, r1, r2);
}

/// Reversing the axes twice gives the axes back.
proof fn lemma_reverse_twice<A>(s: Seq<A>)
    requires
        s.len() <= usize::MAX,
    ensures
        permute(permute(s, reversed_axes(s.len())), reversed_axes(s.len())) == s,
{
    let n = s.len();
    let r = reversed_axes(n);
    assert forall|i: int| 0 <= i < n implies #[trigger] permute(permute(s, r), r)[i] == s[i] by {
        assert(r[i] as int == n - 1 - i);
        assert(r[r[i] as int] as int == i);
    }
    assert(permute(permute(s, r), r) =~= s);
}

/// Transposing twice gives the array back: the same shape, the same strides
/// and the same element at every index.
pub proof fn lemma_transpose_twice<T: Copy>(a: NdArray<T>, t: NdArray<T>, u: NdArray<T>)
    requires
        a.wf(),
        a.dims().len() <= usize::MAX,
        permuted_view(a, t, reversed_axes(a.dims().len())),
        permuted_view(t, u, reversed_axes(t.dims().len())),
    ensures
        u.dims() == a.dims(),
        u.steps() == a.steps(),
        forall|x: Seq<usize>| #[trigger] index_in_shape(x, a.dims()) ==> u.at(x) == a.at(x),
{
    let n = a.dims().len();
    assert(t.dims().len() == n);
    assert(a.steps().len() == n);
    lemma_reverse_twice(a.dims());
    lemma_reverse_twice(a.steps());
    assert forall|x: Seq<usize>| #[trigger] index_in_shape(x, a.dims()) implies u.at(x) == a.at(x) by {
        let y = permute(x, reversed_axes(n));
        assert(a.at(x) == a.at(x));
        assert(index_in_shape(y, t.dims()) && t.at(y) == a.at(x));
        assert(t.at(y) == t.at(y));
        assert(x.len() == n);
        lemma_reverse_twice(x);
        assert(permute(y, reversed_axes(n)) == x);
    }
}

/// `inv` undoes `axes`: each maps the other's positions back.
pub open spec fn inverse_axes(axes: Seq<usize>, inv: Seq<usize>) -> bool {
    &&& inv.len() == axes.len()
    &&& forall|i: int| 0 <= i < inv.len() ==> #[trigger] inv[i] < axes.len()
    &&& forall|i: int| 0 <= i < axes.len() ==> #[trigger] inv[axes[i] as int] == i
    &&& forall|i: int| 0 <= i < axes.len() ==> #[trigger] axes[inv[i] as int] == i
}

proof fn lemma_permute_back<A>(s: Seq<A>, axes: Seq<usize>, inv: Seq<usize>)
    requires
        is_permutation(axes, s.len()),
        inverse_axes(axes, inv),
    ensures
        permute(permute(s, axes), inv) == s,
{
    let n = s.len();
    assert forall|k: int| 0 <= k < n implies #[trigger] permute(permute(s, axes), inv)[k] == s[k] by {
        assert(axes[inv[k] as int] == k);
        assert(inv[k] < n);
    }
    assert(permute(permute(s, axes), inv) =~= s);
}

/// Permuting the axes of an array, then permuting the result by the inverse
/// permutation, gives the array back: the same shape, the same strides and
/// the same element at every index.
pub proof fn lemma_permute_inverse<T: Copy>(a: NdArray<T>, p: NdArray<T>, q: NdArray<T>, axes: Seq<usize>, inv: Seq<usize>)
    requires
        a.wf(),
        is_permutation(axes, a.dims().len()),
        inverse_axes(axes, inv),
        permuted_view(a, p, axes),
        permuted_view(p, q, inv),
    ensures
        q.dims() == a.dims(),
        q.steps() == a.steps(),
        forall|x: Seq<usize>| #[trigger] index_in_shape(x, a.dims()) ==> q.at(x) == a.at(x),
{
    let n = a.dims().len();
    assert(a.steps().len() == n);
    lemma_permute_back(a.dims(), axes, inv);
    lemma_permute_back(a.steps(), axes, inv);
    assert forall|x: Seq<usize>| #[trigger] index_in_shape(x, a.dims()) implies q.at(x) == a.at(x) by {
        let y = permute(x, axes);
        assert(a.at(x) == a.at(x));
        assert(index_in_shape(y, p.dims()) && p.at(y) == a.at(x));
        assert(p.at(y) == p.at(y));
        assert(x.len() == n);
        lemma_permute_back(x, axes, inv);
        assert(permute(y, inv) == x);
    }
}

/// Reshaping a row-major array and reshaping the result back to the first
/// shape gives the same view: the same buffer, offset, shape and strides, so
/// the same element at every index.
pub proof fn lemma_reshape_back<T: Copy>(a: NdArray<T>, b: NdArray<T>, c: NdArray<T>)
    requires
        a.steps() == row_major_strides(a.dims()),
        b.buf_view() == a.buf_view() && b.origin() == a.origin() && b.steps() == row_major_strides(b.dims()),
        c.buf_view() == b.buf_view() && c.origin() == b.origin() && c.dims() == a.dims() && c.steps()
            == row_major_strides(a.dims()),
    ensures
        c.dims() == a.dims(),
        c.steps() == a.steps(),
        forall|x: Seq<usize>| #[trigger] c.at(x) == a.at(x),
{
}

/// The transpose of a row-major matrix with more than one row and more than
/// one column is not row-major.
pub proof fn lemma_transpose_not_contiguous<T: Copy>(a: NdArray<T>, t: NdArray<T>)
    requires
        a.dims().len() == 2,
        a.dims()[0] > 1,
        a.dims()[1] > 1,
        shape::shape_fits(a.dims()),
        a.steps() == row_major_strides(a.dims()),
        permuted_view(a, t, reversed_axes(2)),
    ensures
        t.steps() != row_major_strides(t.dims()),
{
    let d = a.dims();
    shape::lemma_row_major_extent(d);
    shape::lemma_product_skip(d, 1);
    assert(d.skip(2) =~= Seq::<usize>::empty());
    assert(shape::shape_product(d.skip(2)) == 1);
    assert(a.steps()[1] as int == 1);
    assert(t.steps()[1] == a.steps()[0]);
    assert(shape::shape_product(d.skip(1)) == d[1] as nat) by {
        let p = shape::shape_product(d.skip(2));
        assert((d[1] as nat) * p == d[1] as nat) by (nonlinear_arith)
            requires
                p == 1,
        ;
    }
    assert(a.steps()[0] as int == shape::shape_product(d.skip(1)));
    let td = t.dims();
    assert(td.skip(2) =~= Seq::<usize>::empty());
    assert(shape::shape_product(td.skip(2)) == 1);
    assert(row_major_strides(td)[1] as int == 1);
}

} // verus!
