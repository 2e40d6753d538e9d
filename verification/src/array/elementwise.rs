//! Elementwise arithmetic on integer arrays with NumPy broadcasting.
use vstd::prelude::*;
use crate::error::{Result, RusantaError};
use crate::array::ndarray::{NdArray, compute_strides};
use crate::array::broadcast::{broadcast, broadcast_shape, broadcastable, broadcast_view, project};
use crate::array::shape::{index_in_shape, row_major_strides, shape_fits, shape_product};
use crate::array::shape;

verus! {

/// The arithmetic operation applied elementwise.
#[derive(Debug)]
pub enum ElemOp {
    Add,
    Sub,
    Mul,
    Div,
}

/// Rust's integer division, which truncates toward zero.
pub open spec fn trunc_div(x: int, d: int) -> int {
    if x == 0 {
        0
    } else if x > 0 && d > 0 {
        x / d
    } else if x < 0 && d < 0 {
        (x * -1) / (d * -1)
    } else if x < 0 {
        ((x * -1) / d) * -1
    } else {
        (x / (d * -1)) * -1
    }
}

/// Mathematical value of `x op y`.
pub open spec fn op_value(op: ElemOp, x: i64, y: i64) -> int {
    match op {
        ElemOp::Add => x + y,
        ElemOp::Sub => x - y,
        ElemOp::Mul => x * y,
        ElemOp::Div => trunc_div(x as int, y as int),
    }
}

/// `x op y` is defined and fits in `i64`.
pub open spec fn op_defined(op: ElemOp, x: i64, y: i64) -> bool {
    &&& (op is Div ==> y != 0)
    &&& i64::MIN <= op_value(op, x, y) <= i64::MAX
}

/// Row-major multi-index of flat position `p` in `shape`.
pub open spec fn unravel(p: int, s: Seq<usize>) -> Seq<usize> {
    Seq::new(s.len(), |k: int| ((p / (shape_product(s.skip(k + 1)) as int)) % (s[k] as int)) as usize)
}

/// Operand elements read at flat position `p` of the broadcast result.
pub open spec fn lhs_at(lhs: NdArray<i64>, rhs: NdArray<i64>, p: int) -> i64 {
    lhs.at(project(unravel(p, broadcast_shape(lhs.dims(), rhs.dims())), lhs.dims()))
}

pub open spec fn rhs_at(lhs: NdArray<i64>, rhs: NdArray<i64>, p: int) -> i64 {
    rhs.at(project(unravel(p, broadcast_shape(lhs.dims(), rhs.dims())), rhs.dims()))
}

/// The operation is defined at every position of the broadcast result.
pub open spec fn op_fits(op: ElemOp, lhs: NdArray<i64>, rhs: NdArray<i64>) -> bool {
    forall|p: int|
        0 <= p < shape_product(broadcast_shape(lhs.dims(), rhs.dims())) ==> #[trigger] op_defined(
            op,
            lhs_at(lhs, rhs, p),
            rhs_at(lhs, rhs, p),
        )
}

/// The contract shared by the elementwise operations.
pub open spec fn elementwise_result(op: ElemOp, lhs: NdArray<i64>, rhs: NdArray<i64>, r: Result<NdArray<i64>>) -> bool {
    &&& !broadcastable(lhs.dims(), rhs.dims()) ==> (r matches Err(RusantaError::ShapeMismatch { expected, found })
        && expected@ == lhs.dims() && found@ == rhs.dims())
    &&& broadcastable(lhs.dims(), rhs.dims()) ==> (r matches Ok(c) && c.wf() && c.dims() == broadcast_shape(
        lhs.dims(),
        rhs.dims(),
    ) && c.steps() == row_major_strides(c.dims()) && c.origin() == 0 && c.buf_view().len() == shape_product(
        c.dims(),
    ) && forall|p: int|
        0 <= p < c.buf_view().len() ==> #[trigger] c.buf_view()[p] as int == op_value(
            op,
            lhs_at(lhs, rhs, p),
            rhs_at(lhs, rhs, p),
        ))
}

/// The requirements shared by the elementwise operations.
pub open spec fn elementwise_ok(op: ElemOp, lhs: NdArray<i64>, rhs: NdArray<i64>) -> bool {
    &&& lhs.wf()
    &&& rhs.wf()
    &&& broadcastable(lhs.dims(), rhs.dims()) ==> shape_fits(broadcast_shape(lhs.dims(), rhs.dims())) && op_fits(
        op,
        lhs,
        rhs,
    )
}

fn apply(op: &ElemOp, x: i64, y: i64) -> (r: i64)
    requires
        op_defined(*op, x, y),
    ensures
        r as int == op_value(*op, x, y),
{
    match op {
        ElemOp::Add => x + y,
        ElemOp::Sub => x - y,
        ElemOp::Mul => x * y,
        ElemOp::Div => match x.checked_div(y) {
            Some(q) => q,
            None => {
                proof {
                    assert(false);
                }
                0
            },
        },
    }
}

pub proof fn lemma_unravel_in_shape(p: int, s: Seq<usize>)
    requires
        0 <= p < shape_product(s),
    ensures
        index_in_shape(unravel(p, s), s),
{
    shape::lemma_product_positive(s);
    assert forall|k: int| 0 <= k < s.len() implies unravel(p, s)[k] < s[k] by {
        let q = shape_product(s.skip(k + 1)) as int;
        let d = s[k] as int;
        assert(d > 0);
        shape::lemma_product_positive(s.skip(k + 1));
        assert forall|m: int| 0 <= m < s.skip(k + 1).len() implies #[trigger] s.skip(k + 1)[m] > 0 by {
            assert(s.skip(k + 1)[m] == s[k + 1 + m]);
        }
        vstd::arithmetic::div_mod::lemma_div_pos_is_pos(p, q);
        vstd::arithmetic::div_mod::lemma_mod_pos_bound(p / q, d);
    }
}

/// Row-major multi-index of flat position `p` in `shape`, given the shape's
/// row-major strides.
pub(crate) fn unravel_index(p: usize, shape: &[usize], steps: &Vec<isize>) -> (idx: Vec<usize>)
    requires
        shape_fits(shape@),
        p < shape_product(shape@),
        steps@ == row_major_strides(shape@),
    ensures
        idx@ == unravel(p as int, shape@),
        index_in_shape(idx@, shape@),
{
    let ghost out = shape@;
    let n = shape.len();
    proof {
        shape::lemma_row_major_extent(out);
        lemma_unravel_in_shape(p as int, out);
        shape::lemma_product_positive(out);
    }
    let mut idx: Vec<usize> = Vec::new();
    let mut k: usize = 0;
    while k < n
        invariant
            n == out.len(),
            shape@ == out,
            p < shape_product(out),
            steps@.len() == n,
            forall|k2: int| 0 <= k2 < n ==> (steps@[k2] as int) == shape_product(out.skip(k2 + 1)),
            forall|k2: int| 0 <= k2 < n ==> out[k2] > 0,
            k <= n,
            idx@ == unravel(p as int, out).take(k as int),
        decreases n - k,
    {
        proof {
            shape::lemma_product_positive(out.skip(k + 1));
            assert forall|m: int| 0 <= m < out.skip(k + 1).len() implies #[trigger] out.skip(k + 1)[m] > 0 by {
                assert(out.skip(k + 1)[m] == out[k + 1 + m]);
            }
        }
        let q = steps[k] as usize;
        let comp = (p / q) % shape[k];
        idx.push(comp);
        k = k + 1;
        proof {
            assert(idx@ =~= unravel(p as int, out).take(k as int));
        }
    }
    proof {
        assert(idx@ =~= unravel(p as int, out));
    }
    idx
}

/// Elementwise binary operation with broadcasting, in row-major order.
fn elementwise_op(lhs: &NdArray<i64>, rhs: &NdArray<i64>, op: ElemOp) -> (r: Result<NdArray<i64>>)
    requires
        elementwise_ok(op, *lhs, *rhs),
    ensures
        elementwise_result(op, *lhs, *rhs, r),
{
    let (a, b) = broadcast(lhs, rhs)?;
    let ghost out = broadcast_shape(lhs.dims(), rhs.dims());
    let shape = a.shape();
    let size = a.size();
    let steps = compute_strides(shape);
    let n = shape.len();
    let mut buf: Vec<i64> = Vec::new();
    let mut p: usize = 0;
    proof {
        shape::lemma_row_major_extent(out);
    }
    while p < size
        invariant
            out == broadcast_shape(lhs.dims(), rhs.dims()),
            broadcast_view(*lhs, a, out),
            broadcast_view(*rhs, b, out),
            shape@ == out,
            n == out.len(),
            size == shape_product(out),
            shape_fits(out),
            steps@ == row_major_strides(out),
            forall|k: int| 0 <= k < n ==> (steps@[k] as int) == shape_product(out.skip(k + 1)),
            op_fits(op, *lhs, *rhs),
            p <= size,
            buf@.len() == p,
            forall|q: int| 0 <= q < p ==> #[trigger] buf@[q] as int == op_value(op, lhs_at(*lhs, *rhs, q), rhs_at(*lhs, *rhs, q)),
        decreases size - p,
    {
        proof {
            lemma_unravel_in_shape(p as int, out);
            shape::lemma_product_positive(out);
        }
        let idx = unravel_index(p, shape, &steps);
        let av = match a.get_nd(idx.as_slice()) {
            Ok(v) => v,
            Err(_) => {
                proof {
                    assert(false);
                }
                0
            },
        };
        let bv = match b.get_nd(idx.as_slice()) {
            Ok(v) => v,
            Err(_) => {
                proof {
                    assert(false);
                }
                0
            },
        };
        proof {
            assert(index_in_shape(idx@, out));
            assert(av == a.at(idx@));
            assert(bv == b.at(idx@));
            assert(idx@ == unravel(p as int, broadcast_shape(lhs.dims(), rhs.dims())));
            assert(a.at(idx@) == lhs.at(project(idx@, lhs.dims())));
            assert(b.at(idx@) == rhs.at(project(idx@, rhs.dims())));
            assert(av == lhs_at(*lhs, *rhs, p as int));
            assert(bv == rhs_at(*lhs, *rhs, p as int));
            assert(op_defined(op, lhs_at(*lhs, *rhs, p as int), rhs_at(*lhs, *rhs, p as int)));
        }
        let v = apply(&op, av, bv);
        buf.push(v);
        p = p + 1;
    }
    let shape_vec = vstd::slice::slice_to_vec(shape);
    proof {
        shape::lemma_positive_product_ge(out);
    }
    match NdArray::new(buf, shape_vec) {
        Ok(c) => Ok(c),
        Err(e) => {
            proof {
                assert(false);
            }
            Err(e)
        },
    }
}

/// Elementwise addition with broadcasting.
pub fn add(lhs: &NdArray<i64>, rhs: &NdArray<i64>) -> (r: Result<NdArray<i64>>)
    requires
        elementwise_ok(ElemOp::Add, *lhs, *rhs),
    ensures
        elementwise_result(ElemOp::Add, *lhs, *rhs, r),
{
    elementwise_op(lhs, rhs, ElemOp::Add)
}

/// Elementwise subtraction with broadcasting.
pub fn sub(lhs: &NdArray<i64>, rhs: &NdArray<i64>) -> (r: Result<NdArray<i64>>)
    requires
        elementwise_ok(ElemOp::Sub, *lhs, *rhs),
    ensures
        elementwise_result(ElemOp::Sub, *lhs, *rhs, r),
{
    elementwise_op(lhs, rhs, ElemOp::Sub)
}

/// Elementwise multiplication with broadcasting.
pub fn mul(lhs: &NdArray<i64>, rhs: &NdArray<i64>) -> (r: Result<NdArray<i64>>)
    requires
        elementwise_ok(ElemOp::Mul, *lhs, *rhs),
    ensures
        elementwise_result(ElemOp::Mul, *lhs, *rhs, r),
{
    elementwise_op(lhs, rhs, ElemOp::Mul)
}

/// Elementwise division (truncating toward zero) with broadcasting.
pub fn div(lhs: &NdArray<i64>, rhs: &NdArray<i64>) -> (r: Result<NdArray<i64>>)
    requires
        elementwise_ok(ElemOp::Div, *lhs, *rhs),
    ensures
        elementwise_result(ElemOp::Div, *lhs, *rhs, r),
{
    elementwise_op(lhs, rhs, ElemOp::Div)
}

} // verus!
