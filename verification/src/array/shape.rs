//! Mathematical model of shapes, strides and strided addressing.
use vstd::prelude::*;

verus! {

/// Product of all extents of a shape (the number of elements).
pub open spec fn shape_product(s: Seq<usize>) -> nat
    decreases s.len(),
{
    if s.len() == 0 {
        1
    } else {
        shape_product(s.drop_last()) * (s.last() as nat)
    }
}

/// Product of the extents, counting an empty extent as one.
pub open spec fn positive_product(s: Seq<usize>) -> nat
    decreases s.len(),
{
    if s.len() == 0 {
        1
    } else {
        positive_product(s.drop_last()) * (if s.last() == 0 { 1nat } else { s.last() as nat })
    }
}

/// A shape whose extents (ignoring empty ones) multiply to an addressable size.
pub open spec fn shape_fits(s: Seq<usize>) -> bool {
    positive_product(s) <= isize::MAX
}

/// Row-major (C order) strides of a shape.
pub open spec fn row_major_strides(s: Seq<usize>) -> Seq<isize> {
    Seq::new(s.len(), |k: int| shape_product(s.skip(k + 1)) as isize)
}

/// Offset contributed by a multi-index under the given strides.
pub open spec fn weighted(idx: Seq<usize>, st: Seq<isize>) -> int
    decreases idx.len(),
{
    if idx.len() == 0 {
        0
    } else {
        weighted(idx.drop_last(), st.drop_last()) + (idx.last() as int) * (st[idx.len() - 1] as int)
    }
}

/// Largest offset a valid multi-index can reach (empty extents count as one).
pub open spec fn extent(dims: Seq<usize>, st: Seq<isize>) -> int
    decreases dims.len(),
{
    if dims.len() == 0 {
        0
    } else {
        extent(dims.drop_last(), st.drop_last()) + (if dims.last() == 0 { 0int } else { dims.last() as int - 1 }) * (st[dims.len() - 1] as int)
    }
}

/// `idx` addresses an element of an array of shape `dims`.
pub open spec fn index_in_shape(idx: Seq<usize>, dims: Seq<usize>) -> bool {
    &&& idx.len() == dims.len()
    &&& forall|k: int| 0 <= k < idx.len() ==> idx[k] < dims[k]
}

/// `k` is the first axis on which `idx` leaves the shape.
pub open spec fn first_bad_axis(idx: Seq<usize>, dims: Seq<usize>, k: int) -> bool {
    &&& 0 <= k < idx.len()
    &&& idx[k] >= dims[k]
    &&& forall|j: int| 0 <= j < k ==> idx[j] < dims[j]
}

/// All strides are non-negative.
pub open spec fn strides_nonneg(st: Seq<isize>) -> bool {
    forall|k: int| 0 <= k < st.len() ==> st[k] >= 0
}

pub proof fn lemma_product_concat(a: Seq<usize>, b: Seq<usize>)
    ensures
        shape_product(a + b) == shape_product(a) * shape_product(b),
        positive_product(a + b) == positive_product(a) * positive_product(b),
    decreases b.len(),
{
    if b.len() == 0 {
        assert(a + b =~= a);
        assert(shape_product(b) == 1);
        assert(positive_product(b) == 1);
        assert(shape_product(a) * 1 == shape_product(a));
        assert(positive_product(a) * 1 == positive_product(a));
    } else {
        let b2 = b.drop_last();
        let ab = a + b;
        assert(ab.drop_last() =~= a + b2);
        assert(ab.last() == b.last());
        lemma_product_concat(a, b2);
        let l = b.last() as nat;
        let pl: nat = if b.last() == 0 { 1nat } else { l };
        let pa = shape_product(a);
        let pb2 = shape_product(b2);
        let qa = positive_product(a);
        let qb2 = positive_product(b2);
        assert(shape_product(ab) == shape_product(a + b2) * l);
        assert(positive_product(ab) == positive_product(a + b2) * pl);
        assert(shape_product(b) == pb2 * l);
        assert(positive_product(b) == qb2 * pl);
        assert(pa * pb2 * l == pa * (pb2 * l)) by (nonlinear_arith);
        assert(qa * qb2 * pl == qa * (qb2 * pl)) by (nonlinear_arith);
    }
}

pub proof fn lemma_positive_product_ge(s: Seq<usize>)
    ensures
        positive_product(s) >= 1,
        shape_product(s) <= positive_product(s),
    decreases s.len(),
{
    if s.len() > 0 {
        lemma_positive_product_ge(s.drop_last());
        let p = positive_product(s.drop_last());
        let q = shape_product(s.drop_last());
        let l = s.last() as nat;
        let pl: nat = if s.last() == 0 { 1nat } else { l };
        assert(p * pl >= 1) by (nonlinear_arith)
            requires
                p >= 1,
                pl >= 1,
        ;
        assert(q * l <= p * pl) by (nonlinear_arith)
            requires
                q <= p,
                l <= pl,
        ;
    }
}

/// Every part of a shape fits when the whole shape fits.
pub proof fn lemma_split_fits(s: Seq<usize>, k: int)
    requires
        0 <= k <= s.len(),
    ensures
        positive_product(s.take(k)) <= positive_product(s),
        positive_product(s.skip(k)) <= positive_product(s),
        shape_product(s.take(k)) <= positive_product(s),
        shape_product(s.skip(k)) <= positive_product(s),
{
    assert(s =~= s.take(k) + s.skip(k));
    lemma_product_concat(s.take(k), s.skip(k));
    lemma_positive_product_ge(s.take(k));
    lemma_positive_product_ge(s.skip(k));
    let a = positive_product(s.take(k));
    let b = positive_product(s.skip(k));
    assert(a <= a * b && b <= a * b) by (nonlinear_arith)
        requires
            a >= 1,
            b >= 1,
    ;
}

/// Peeling the first extent off a shape.
pub proof fn lemma_product_skip(s: Seq<usize>, k: int)
    requires
        0 <= k < s.len(),
    ensures
        shape_product(s.skip(k)) == (s[k] as nat) * shape_product(s.skip(k + 1)),
{
    assert(s.skip(k) =~= seq![s[k]] + s.skip(k + 1));
    lemma_product_concat(seq![s[k]], s.skip(k + 1));
    assert(seq![s[k]].drop_last() =~= Seq::<usize>::empty());
    lemma_product_single(s[k]);
}

pub proof fn lemma_product_single(x: usize)
    ensures
        shape_product(seq![x]) == x as nat,
{
    let e = Seq::<usize>::empty();
    assert(seq![x].drop_last() =~= e);
    assert(shape_product(e) == 1);
    let p = shape_product(e);
    assert(shape_product(seq![x]) == p * (x as nat));
    assert(p * (x as nat) == x as nat) by (nonlinear_arith)
        requires
            p == 1,
    ;
}

/// Extending a prefix by one extent.
pub proof fn lemma_product_take(s: Seq<usize>, k: int)
    requires
        0 <= k < s.len(),
    ensures
        shape_product(s.take(k + 1)) == shape_product(s.take(k)) * (s[k] as nat),
{
    assert(s.take(k + 1).drop_last() =~= s.take(k));
}

/// The product is positive exactly when no extent is zero.
pub proof fn lemma_product_positive(s: Seq<usize>)
    ensures
        shape_product(s) > 0 <==> (forall|k: int| 0 <= k < s.len() ==> s[k] > 0),
    decreases s.len(),
{
    if s.len() > 0 {
        lemma_product_positive(s.drop_last());
        let p = shape_product(s.drop_last());
        let l = s.last() as nat;
        assert(p * l > 0 <==> (p > 0 && l > 0)) by (nonlinear_arith);
        if shape_product(s) > 0 {
            assert forall|k: int| 0 <= k < s.len() implies s[k] > 0 by {
                if k < s.len() - 1 {
                    assert(s.drop_last()[k] == s[k]);
                }
            }
        }
        if forall|k: int| 0 <= k < s.len() ==> s[k] > 0 {
            assert forall|k: int| 0 <= k < s.drop_last().len() implies s.drop_last()[k] > 0 by {
                assert(s.drop_last()[k] == s[k]);
            }
        }
    }
}

/// A valid multi-index stays between zero and the extent.
pub proof fn lemma_weighted_bounds(idx: Seq<usize>, dims: Seq<usize>, st: Seq<isize>)
    requires
        index_in_shape(idx, dims),
        st.len() == dims.len(),
        strides_nonneg(st),
    ensures
        0 <= weighted(idx, st) <= extent(dims, st),
    decreases idx.len(),
{
    if idx.len() > 0 {
        let n = idx.len() - 1;
        lemma_weighted_bounds(idx.drop_last(), dims.drop_last(), st.drop_last());
        let i = idx.last() as int;
        let d = dims.last() as int;
        let s = st[n] as int;
        assert(d > 0);
        assert(0 <= i * s <= (d - 1) * s) by (nonlinear_arith)
            requires
                0 <= i < d,
                s >= 0,
        ;
    }
}

/// Scaling every stride scales the addressed offsets.
pub proof fn lemma_extent_scale(dims: Seq<usize>, st: Seq<isize>, scaled: Seq<isize>, c: int)
    requires
        st.len() == dims.len(),
        scaled.len() == dims.len(),
        forall|k: int| 0 <= k < dims.len() ==> scaled[k] as int == c * (st[k] as int),
    ensures
        extent(dims, scaled) == c * extent(dims, st),
    decreases dims.len(),
{
    if dims.len() > 0 {
        let n = dims.len() - 1;
        lemma_extent_scale(dims.drop_last(), st.drop_last(), scaled.drop_last(), c);
        let e = extent(dims.drop_last(), st.drop_last());
        let d = if dims.last() == 0 { 0int } else { dims.last() as int - 1 };
        let s = st[n] as int;
        assert(c * e + d * (c * s) == c * (e + d * s)) by (nonlinear_arith);
    }
}

/// Row-major strides address exactly `0 .. size` of a non-empty shape, and never
/// reach past the positive product.
pub proof fn lemma_row_major_extent(dims: Seq<usize>)
    requires
        shape_fits(dims),
    ensures
        extent(dims, row_major_strides(dims)) <= positive_product(dims) - 1,
        shape_product(dims) > 0 ==> extent(dims, row_major_strides(dims)) == shape_product(dims) - 1,
        strides_nonneg(row_major_strides(dims)),
        forall|k: int| 0 <= k < dims.len() ==> (row_major_strides(dims)[k] as int) == shape_product(dims.skip(k + 1)),
    decreases dims.len(),
{
    let rm = row_major_strides(dims);
    assert forall|k: int| 0 <= k < dims.len() implies (rm[k] as int) == shape_product(dims.skip(k + 1)) by {
        lemma_split_fits(dims, k + 1);
        lemma_positive_product_ge(dims.skip(k + 1));
        assert(shape_product(dims.skip(k + 1)) <= isize::MAX);
    }
    lemma_positive_product_ge(dims);
    if dims.len() > 0 {
        let n = dims.len() - 1;
        let d2 = dims.drop_last();
        let l = dims.last() as nat;
        lemma_product_positive(dims);
        lemma_product_positive(d2);
        assert(d2 =~= dims.take(n));
        lemma_split_fits(dims, n);
        assert(shape_fits(d2));
        lemma_row_major_extent(d2);
        lemma_positive_product_ge(d2);
        let rm2 = row_major_strides(d2);
        // every stride of the shorter shape is scaled by the last extent
        assert forall|k: int| 0 <= k < d2.len() implies rm.drop_last()[k] as int == (l as int) * (
        rm2[k] as int) by {
            assert(dims.skip(k + 1) =~= d2.skip(k + 1) + seq![dims.last()]);
            lemma_product_concat(d2.skip(k + 1), seq![dims.last()]);
            lemma_product_single(dims.last());
            let a = shape_product(d2.skip(k + 1));
            assert(shape_product(dims.skip(k + 1)) == a * l);
            lemma_split_fits(dims, k + 1);
            lemma_positive_product_ge(dims.skip(k + 1));
            lemma_split_fits(d2, k + 1);
            lemma_positive_product_ge(d2.skip(k + 1));
            assert(rm.drop_last()[k] == rm[k]);
            assert(rm2[k] as int == shape_product(d2.skip(k + 1)));
            assert(rm[k] as int == shape_product(dims.skip(k + 1)));
            assert(a * l == l * a) by (nonlinear_arith);
        }
        lemma_extent_scale(d2, rm2, rm.drop_last(), l as int);
        assert(dims.skip(n + 1) =~= Seq::<usize>::empty());
        assert(rm[n] as int == 1);
        let e2 = extent(d2, rm2);
        let q2 = positive_product(d2) as int;
        let big_l: int = if l == 0 { 1 } else { l as int };
        assert(positive_product(dims) == positive_product(d2) * (big_l as nat));
        let cl: int = if dims.last() == 0 { 0int } else { dims.last() as int - 1 };
        assert(cl == big_l - 1);
        assert(extent(dims, rm) == extent(d2, rm.drop_last()) + cl * (rm[n] as int));
        assert(cl * (rm[n] as int) == cl) by (nonlinear_arith)
            requires
                rm[n] as int == 1,
        ;
        assert(extent(dims, rm) == (l as int) * e2 + (big_l - 1));
        assert((l as int) * e2 + (big_l - 1) <= q2 * big_l - 1) by (nonlinear_arith)
            requires
                e2 <= q2 - 1,
                q2 >= 1,
                0 <= l <= big_l,
                big_l >= 1,
        ;
        if shape_product(dims) > 0 {
            let p2 = shape_product(d2) as int;
            assert(l > 0);
            assert((l as int) * (p2 - 1) + (l as int - 1) == p2 * (l as int) - 1) by (nonlinear_arith);
        }
    }
}

/// Dropping trailing axes never increases the extent.
pub proof fn lemma_extent_prefix(dims: Seq<usize>, st: Seq<isize>, k: int)
    requires
        st.len() == dims.len(),
        strides_nonneg(st),
        0 <= k <= dims.len(),
    ensures
        0 <= extent(dims.take(k), st.take(k)) <= extent(dims, st),
    decreases dims.len() - k,
{
    if k == dims.len() {
        assert(dims.take(k) =~= dims);
        assert(st.take(k) =~= st);
        lemma_extent_nonneg(dims, st);
    } else {
        lemma_extent_prefix(dims, st, k + 1);
        assert(dims.take(k + 1).drop_last() =~= dims.take(k));
        assert(st.take(k + 1).drop_last() =~= st.take(k));
        let d = dims[k];
        let c: int = if d == 0 { 0int } else { d as int - 1 };
        let s = st[k] as int;
        assert(c * s >= 0) by (nonlinear_arith)
            requires
                c >= 0,
                s >= 0,
        ;
        lemma_extent_nonneg(dims.take(k), st.take(k));
    }
}

pub proof fn lemma_extent_nonneg(dims: Seq<usize>, st: Seq<isize>)
    requires
        st.len() == dims.len(),
        strides_nonneg(st),
    ensures
        extent(dims, st) >= 0,
    decreases dims.len(),
{
    if dims.len() > 0 {
        lemma_extent_nonneg(dims.drop_last(), st.drop_last());
        let d = dims.last();
        let c: int = if d == 0 { 0int } else { d as int - 1 };
        let s = st[dims.len() - 1] as int;
        assert(c * s >= 0) by (nonlinear_arith)
            requires
                c >= 0,
                s >= 0,
        ;
    }
}

/// `idx` stays within the shape, counting an empty extent as one.
pub open spec fn below_clamp(idx: Seq<usize>, dims: Seq<usize>) -> bool {
    &&& idx.len() == dims.len()
    &&& forall|k: int| 0 <= k < idx.len() ==> idx[k] < dims[k] || (dims[k] == 0 && idx[k] == 0)
}

/// Weighted offsets split over a concatenation of axes.
pub proof fn lemma_weighted_concat(a1: Seq<usize>, a2: Seq<usize>, s1: Seq<isize>, s2: Seq<isize>)
    requires
        a1.len() == s1.len(),
        a2.len() == s2.len(),
    ensures
        weighted(a1 + a2, s1 + s2) == weighted(a1, s1) + weighted(a2, s2),
    decreases a2.len(),
{
    if a2.len() == 0 {
        assert(a1 + a2 =~= a1);
        assert(s1 + s2 =~= s1);
    } else {
        assert((a1 + a2).drop_last() =~= a1 + a2.drop_last());
        assert((s1 + s2).drop_last() =~= s1 + s2.drop_last());
        lemma_weighted_concat(a1, a2.drop_last(), s1, s2.drop_last());
        assert((s1 + s2)[(a1 + a2).len() - 1] == s2[a2.len() - 1]);
    }
}

/// Indices within the clamped shape stay within the extent.
pub proof fn lemma_weighted_below_clamp(idx: Seq<usize>, dims: Seq<usize>, st: Seq<isize>)
    requires
        below_clamp(idx, dims),
        st.len() == dims.len(),
        strides_nonneg(st),
    ensures
        0 <= weighted(idx, st) <= extent(dims, st),
    decreases idx.len(),
{
    if idx.len() > 0 {
        let n = idx.len() - 1;
        lemma_weighted_below_clamp(idx.drop_last(), dims.drop_last(), st.drop_last());
        let i = idx.last() as int;
        let c: int = if dims.last() == 0 { 0int } else { dims.last() as int - 1 };
        let s = st[n] as int;
        assert(0 <= i <= c);
        assert(0 <= i * s <= c * s) by (nonlinear_arith)
            requires
                0 <= i <= c,
                s >= 0,
        ;
    }
}

/// `axes` lists each of `0 .. n` exactly once.
pub open spec fn is_permutation(axes: Seq<usize>, n: nat) -> bool {
    &&& axes.len() == n
    &&& forall|i: int| 0 <= i < n ==> axes[i] < n
    &&& forall|i: int, j: int| 0 <= i < n && 0 <= j < n && i != j ==> axes[i] != axes[j]
}

/// Reorders a sequence: position `i` of the result holds `s[axes[i]]`.
pub open spec fn permute<A>(s: Seq<A>, axes: Seq<usize>) -> Seq<A> {
    Seq::new(axes.len(), |i: int| s[axes[i] as int])
}

/// Sum of a sequence of integers.
pub open spec fn seq_sum(v: Seq<int>) -> int
    decreases v.len(),
{
    if v.len() == 0 {
        0
    } else {
        seq_sum(v.drop_last()) + v.last()
    }
}

/// Product of a sequence of integers.
pub open spec fn seq_prod(v: Seq<int>) -> int
    decreases v.len(),
{
    if v.len() == 0 {
        1
    } else {
        seq_prod(v.drop_last()) * v.last()
    }
}

pub proof fn lemma_sum_prod_remove(v: Seq<int>, a: int)
    requires
        0 <= a < v.len(),
    ensures
        seq_sum(v) == seq_sum(v.remove(a)) + v[a],
        seq_prod(v) == seq_prod(v.remove(a)) * v[a],
    decreases v.len(),
{
    if a == v.len() - 1 {
        assert(v.remove(a) =~= v.drop_last());
    } else {
        let w = v.drop_last();
        lemma_sum_prod_remove(w, a);
        assert(v.remove(a).drop_last() =~= w.remove(a));
        assert(v.remove(a).last() == v.last());
        let p = seq_prod(w.remove(a));
        assert(p * v.last() * v[a] == p * v[a] * v.last()) by (nonlinear_arith);
    }
}

/// Sums and products do not depend on the order of their terms.
pub proof fn lemma_sum_prod_permute(v: Seq<int>, axes: Seq<usize>)
    requires
        is_permutation(axes, v.len()),
    ensures
        seq_sum(permute(v, axes)) == seq_sum(v),
        seq_prod(permute(v, axes)) == seq_prod(v),
    decreases v.len(),
{
    let n = v.len();
    if n > 0 {
        let w = permute(v, axes);
        let a = axes[n - 1] as int;
        let v2 = v.remove(a);
        let axes2 = Seq::new((n - 1) as nat, |i: int| if axes[i] < a { axes[i] } else { (axes[i] - 1) as usize });
        assert forall|i: int| 0 <= i < n - 1 implies axes2[i] < n - 1 by {
            assert(axes[i] != axes[n - 1]);
        }
        assert forall|i: int, j: int| 0 <= i < n - 1 && 0 <= j < n - 1 && i != j implies axes2[i] != axes2[j] by {
            assert(axes[i] != axes[n - 1]);
            assert(axes[j] != axes[n - 1]);
            assert(axes[i] != axes[j]);
        }
        lemma_sum_prod_permute(v2, axes2);
        assert forall|i: int| 0 <= i < n - 1 implies w.drop_last()[i] == permute(v2, axes2)[i] by {
            assert(axes[i] != axes[n - 1]);
        }
        assert(w.drop_last() =~= permute(v2, axes2));
        lemma_sum_prod_remove(v, a);
    }
}

/// Terms of the weighted offset of an index.
pub open spec fn weight_terms(idx: Seq<usize>, st: Seq<isize>) -> Seq<int> {
    Seq::new(idx.len(), |k: int| (idx[k] as int) * (st[k] as int))
}

/// Terms of the extent of a shape.
pub open spec fn extent_terms(dims: Seq<usize>, st: Seq<isize>) -> Seq<int> {
    Seq::new(dims.len(), |k: int| (if dims[k] == 0 { 0int } else { dims[k] as int - 1 }) * (st[k] as int))
}

/// Extents as integers, and with empty extents counted as one.
pub open spec fn dim_ints(dims: Seq<usize>) -> Seq<int> {
    Seq::new(dims.len(), |k: int| dims[k] as int)
}

pub open spec fn pos_dim_ints(dims: Seq<usize>) -> Seq<int> {
    Seq::new(dims.len(), |k: int| if dims[k] == 0 { 1int } else { dims[k] as int })
}

pub proof fn lemma_as_sums(idx: Seq<usize>, dims: Seq<usize>, st: Seq<isize>)
    requires
        idx.len() == st.len(),
        dims.len() == st.len(),
    ensures
        weighted(idx, st) == seq_sum(weight_terms(idx, st)),
        extent(dims, st) == seq_sum(extent_terms(dims, st)),
        shape_product(dims) == seq_prod(dim_ints(dims)),
        positive_product(dims) == seq_prod(pos_dim_ints(dims)),
    decreases st.len(),
{
    if st.len() > 0 {
        lemma_as_sums(idx.drop_last(), dims.drop_last(), st.drop_last());
        assert(weight_terms(idx, st).drop_last() =~= weight_terms(idx.drop_last(), st.drop_last()));
        assert(extent_terms(dims, st).drop_last() =~= extent_terms(dims.drop_last(), st.drop_last()));
        assert(dim_ints(dims).drop_last() =~= dim_ints(dims.drop_last()));
        assert(pos_dim_ints(dims).drop_last() =~= pos_dim_ints(dims.drop_last()));
    }
}

/// Permuting the axes of a view permutes its extents, strides and indices
/// together, leaving sizes and addresses unchanged.
pub proof fn lemma_permute_axes(idx: Seq<usize>, dims: Seq<usize>, st: Seq<isize>, axes: Seq<usize>)
    requires
        idx.len() == st.len(),
        dims.len() == st.len(),
        is_permutation(axes, st.len()),
    ensures
        weighted(permute(idx, axes), permute(st, axes)) == weighted(idx, st),
        extent(permute(dims, axes), permute(st, axes)) == extent(dims, st),
        shape_product(permute(dims, axes)) == shape_product(dims),
        positive_product(permute(dims, axes)) == positive_product(dims),
        index_in_shape(idx, dims) ==> index_in_shape(permute(idx, axes), permute(dims, axes)),
{
    let pi = permute(idx, axes);
    let pd = permute(dims, axes);
    let ps = permute(st, axes);
    lemma_as_sums(idx, dims, st);
    lemma_as_sums(pi, pd, ps);
    assert(weight_terms(pi, ps) =~= permute(weight_terms(idx, st), axes));
    assert(extent_terms(pd, ps) =~= permute(extent_terms(dims, st), axes));
    assert(dim_ints(pd) =~= permute(dim_ints(dims), axes));
    assert(pos_dim_ints(pd) =~= permute(pos_dim_ints(dims), axes));
    lemma_sum_prod_permute(weight_terms(idx, st), axes);
    lemma_sum_prod_permute(extent_terms(dims, st), axes);
    lemma_sum_prod_permute(dim_ints(dims), axes);
    lemma_sum_prod_permute(pos_dim_ints(dims), axes);
}

} // verus!
