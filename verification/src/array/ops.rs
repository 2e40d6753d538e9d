//! Linear algebra on integer arrays: matrix product, dot product, transpose.
use vstd::prelude::*;
use crate::error::{Result, RusantaError};
use crate::array::ndarray::{NdArray, permuted_view, reversed_axes};
use crate::array::shape::{index_in_shape, row_major_strides, shape_fits, shape_product};

verus! {

/// Sum of the first `t` products of row `i` of `a` with column `j` of `b`.
pub open spec fn row_col_sum(a: NdArray<i64>, b: NdArray<i64>, i: usize, j: usize, t: int) -> int
    decreases t,
{
    if t <= 0 {
        0
    } else {
        row_col_sum(a, b, i, j, t - 1) + (a.at(seq![i, (t - 1) as usize]) as int) * (b.at(
            seq![(t - 1) as usize, j],
        ) as int)
    }
}

/// Every product and every partial sum of a matrix product fits in `i64`.
pub open spec fn matmul_fits(a: NdArray<i64>, b: NdArray<i64>) -> bool {
    forall|i: usize, j: usize, t: int|
        #![trigger row_col_sum(a, b, i, j, t)]
        i < a.dims()[0] && j < b.dims()[1] && 1 <= t <= a.dims()[1] ==> i64::MIN <= row_col_sum(a, b, i, j, t)
            <= i64::MAX && i64::MIN <= (a.at(seq![i, (t - 1) as usize]) as int) * (b.at(seq![(t - 1) as usize, j])
            as int) <= i64::MAX
}

/// Sum of the first `t` products of two vectors.
pub open spec fn dot_sum(a: NdArray<i64>, b: NdArray<i64>, t: int) -> int
    decreases t,
{
    if t <= 0 {
        0
    } else {
        dot_sum(a, b, t - 1) + (a.at(seq![(t - 1) as usize]) as int) * (b.at(seq![(t - 1) as usize]) as int)
    }
}

/// Every product and every partial sum of a dot product fits in `i64`.
pub open spec fn dot_fits(a: NdArray<i64>, b: NdArray<i64>) -> bool {
    forall|t: int|
        #![trigger dot_sum(a, b, t)]
        1 <= t <= a.dims()[0] ==> i64::MIN <= dot_sum(a, b, t) <= i64::MAX && i64::MIN <= (a.at(
            seq![(t - 1) as usize],
        ) as int) * (b.at(seq![(t - 1) as usize]) as int) <= i64::MAX
}

/// Matrix multiplication of 2-D arrays: `(m x k) @ (k x n) -> (m x n)`.
pub fn matmul(a: &NdArray<i64>, b: &NdArray<i64>) -> (r: Result<NdArray<i64>>)
    requires
        a.wf(),
        b.wf(),
        a.dims().len() == 2 && b.dims().len() == 2 && a.dims()[1] == b.dims()[0] ==> matmul_fits(*a, *b)
            && shape_fits(seq![a.dims()[0], b.dims()[1]]),
    ensures
        a.dims().len() != 2 || b.dims().len() != 2 ==> (r matches Err(RusantaError::InvalidValue { message })
            && message@ == "matmul requires 2D arrays"@),
        a.dims().len() == 2 && b.dims().len() == 2 && a.dims()[1] != b.dims()[0] ==> r == Err::<
            NdArray<i64>,
            RusantaError,
        >(RusantaError::DimensionMismatch { lhs: a.dims()[1], rhs: b.dims()[0] }),
        a.dims().len() == 2 && b.dims().len() == 2 && a.dims()[1] == b.dims()[0] ==> (r matches Ok(c) && c.wf()
            && c.dims() == seq![a.dims()[0], b.dims()[1]] && c.steps() == row_major_strides(c.dims())
            && c.origin() == 0 && c.buf_view().len() == a.dims()[0] * b.dims()[1] && forall|i: usize, j: usize|
            i < a.dims()[0] && j < b.dims()[1] ==> #[trigger] c.buf_view()[i * b.dims()[1] + j] == row_col_sum(
            *a,
            *b,
            i,
            j,
            a.dims()[1] as int,
        )),
{
    if a.ndim() != 2 || b.ndim() != 2 {
        return Err(RusantaError::InvalidValue { message: String::from_str("matmul requires 2D arrays") });
    }
    let m = a.shape()[0];
    let k1 = a.shape()[1];
    let k2 = b.shape()[0];
    let n = b.shape()[1];
    if k1 != k2 {
        return Err(RusantaError::DimensionMismatch { lhs: k1, rhs: k2 });
    }
    proof {
        crate::array::shape::lemma_positive_product_ge(seq![m, n]);
        assert(seq![m, n].drop_last() =~= seq![m]);
        assert(seq![m].drop_last() =~= Seq::<usize>::empty());
        crate::array::shape::lemma_product_concat(seq![m], seq![n]);
        assert(seq![m] + seq![n] =~= seq![m, n]);
        crate::array::shape::lemma_product_single(m);
        crate::array::shape::lemma_product_single(n);
    }
    let mut out: Vec<i64> = Vec::new();
    let mut i: usize = 0;
    while i < m
        invariant
            a.wf(),
            b.wf(),
            a.dims() == seq![m, k1],
            b.dims() == seq![k1, n],
            matmul_fits(*a, *b),
            shape_product(seq![m, n]) == m * n,
            m * n <= isize::MAX,
            i <= m,
            out@.len() == i * n,
            forall|i2: usize, j2: usize| i2 < i && j2 < n ==> #[trigger] out@[i2 * n + j2] == row_col_sum(*a, *b, i2, j2, k1 as int),
        decreases m - i,
    {
        let mut j: usize = 0;
        while j < n
            invariant
                a.wf(),
                b.wf(),
                a.dims() == seq![m, k1],
                b.dims() == seq![k1, n],
                matmul_fits(*a, *b),
                m * n <= isize::MAX,
                i < m,
                j <= n,
                out@.len() == i * n + j,
                forall|i2: usize, j2: usize| (i2 < i && j2 < n) || (i2 == i && j2 < j) ==> #[trigger] out@[i2 * n + j2] == row_col_sum(*a, *b, i2, j2, k1 as int),
            decreases n - j,
        {
            let mut acc: i64 = 0;
            let mut k: usize = 0;
            while k < k1
                invariant
                    a.wf(),
                    b.wf(),
                    a.dims() == seq![m, k1],
                    b.dims() == seq![k1, n],
                    matmul_fits(*a, *b),
                    i < m,
                    j < n,
                    k <= k1,
                    acc as int == row_col_sum(*a, *b, i, j, k as int),
                decreases k1 - k,
            {
                let ia: [usize; 2] = [i, k];
                let ib: [usize; 2] = [k, j];
                proof {
                    assert(ia@ =~= seq![i, k]);
                    assert(ib@ =~= seq![k, j]);
                    assert(i64::MIN <= row_col_sum(*a, *b, i, j, k as int + 1) <= i64::MAX);
                }
                let av = match a.get_nd(ia.as_slice()) {
                    Ok(v) => v,
                    Err(_) => { proof { assert(false); } 0 },
                };
                let bv = match b.get_nd(ib.as_slice()) {
                    Ok(v) => v,
                    Err(_) => { proof { assert(false); } 0 },
                };
                proof {
                    assert(index_in_shape(seq![i, k], a.dims()));
                    assert(index_in_shape(seq![k, j], b.dims()));
                }
                acc = acc + av * bv;
                k = k + 1;
            }
            out.push(acc);
            proof {
                assert forall|i2: usize, j2: usize| (i2 < i && j2 < n) || (i2 == i && j2 < j + 1) implies #[trigger] out@[i2 * n + j2] == row_col_sum(*a, *b, i2, j2, k1 as int) by {
                    if i2 < i {
                        assert(i2 * n + j2 < i * n) by (nonlinear_arith)
                            requires
                                i2 < i,
                                j2 < n,
                        ;
                    }
                }
            }
            j = j + 1;
        }
        proof {
            assert(out@.len() == (i + 1) * n) by (nonlinear_arith)
                requires
                    out@.len() == i * n + n,
            ;
        }
        i = i + 1;
    }
    let shape: Vec<usize> = vec![m, n];
    proof {
        assert(shape@ =~= seq![m, n]);
        assert(out@.len() == m * n);
    }
    match NdArray::new(out, shape) {
        Ok(c) => Ok(c),
        Err(e) => {
            proof {
                assert(false);
            }
            Err(e)
        },
    }
}

/// Dot product of two 1-D arrays.
pub fn dot(a: &NdArray<i64>, b: &NdArray<i64>) -> (r: Result<i64>)
    requires
        a.wf(),
        b.wf(),
        a.dims().len() == 1 && b.dims().len() == 1 && a.dims()[0] == b.dims()[0] ==> dot_fits(*a, *b),
    ensures
        a.dims().len() != 1 || b.dims().len() != 1 ==> (r matches Err(RusantaError::InvalidValue { message })
            && message@ == "dot requires 1D arrays"@),
        a.dims().len() == 1 && b.dims().len() == 1 && a.dims()[0] != b.dims()[0] ==> r == Err::<i64, RusantaError>(
            RusantaError::DimensionMismatch { lhs: a.dims()[0], rhs: b.dims()[0] },
        ),
        a.dims().len() == 1 && b.dims().len() == 1 && a.dims()[0] == b.dims()[0] ==> (r matches Ok(v) && v as int
            == dot_sum(*a, *b, a.dims()[0] as int)),
{
    if a.ndim() != 1 || b.ndim() != 1 {
        return Err(RusantaError::InvalidValue { message: String::from_str("dot requires 1D arrays") });
    }
    if a.shape()[0] != b.shape()[0] {
        return Err(RusantaError::DimensionMismatch { lhs: a.shape()[0], rhs: b.shape()[0] });
    }
    let n = a.shape()[0];
    let mut acc: i64 = 0;
    let mut i: usize = 0;
    while i < n
        invariant
            a.wf(),
            b.wf(),
            a.dims() == seq![n],
            b.dims() == seq![n],
            dot_fits(*a, *b),
            i <= n,
            acc as int == dot_sum(*a, *b, i as int),
        decreases n - i,
    {
        let ix: [usize; 1] = [i];
        proof {
            assert(ix@ =~= seq![i]);
            assert(i64::MIN <= dot_sum(*a, *b, i as int + 1) <= i64::MAX);
            assert(index_in_shape(seq![i], a.dims()));
        }
        let av = match a.get_nd(ix.as_slice()) {
            Ok(v) => v,
            Err(_) => { proof { assert(false); } 0 },
        };
        let bv = match b.get_nd(ix.as_slice()) {
            Ok(v) => v,
            Err(_) => { proof { assert(false); } 0 },
        };
        acc = acc + av * bv;
        i = i + 1;
    }
    Ok(acc)
}

/// Transposes a 2-D array as a zero-copy view: `(m x n) -> (n x m)`.
pub fn transpose<T: Copy>(a: &NdArray<T>) -> (r: Result<NdArray<T>>)
    requires
        a.wf(),
    ensures
        a.dims().len() != 2 ==> (r matches Err(RusantaError::InvalidValue { message }) && message@
            == "transpose requires 2D array"@),
        a.dims().len() == 2 ==> (r matches Ok(t) && permuted_view(*a, t, reversed_axes(2)) && t.dims() == seq![
            a.dims()[1],
            a.dims()[0],
        ] && t.steps() == seq![a.steps()[1], a.steps()[0]]),
{
    if a.ndim() != 2 {
        return Err(RusantaError::InvalidValue { message: String::from_str("transpose requires 2D array") });
    }
    let t = a.transpose();
    proof {
        assert(t.dims() =~= seq![a.dims()[1], a.dims()[0]]);
        assert(t.steps() =~= seq![a.steps()[1], a.steps()[0]]);
    }
    Ok(t)
}

} // verus!
