//! A one-dimensional labelled array.
use vstd::prelude::*;
use crate::error::RusantaError;
use crate::base::dataset::Dataset;
use crate::base::numeric::Numeric;
use crate::array::ndarray::NdArray;
use crate::array::shape;
use crate::array::shape::{index_in_shape, row_major_strides, shape_fits, shape_product, weighted};
use crate::frame::error::{Error, Result};
use crate::frame::index::{Index, aligned_positions, distinct_labels, label_position};

verus! {

/// View of an optional name.
pub open spec fn name_of(o: Option<String>) -> Option<Seq<char>> {
    match o {
        Some(s) => Some(s@),
        None => None,
    }
}

/// The elements of `s` at the given positions.
pub open spec fn gather<A>(s: Seq<A>, pos: Seq<usize>) -> Seq<A> {
    Seq::new(pos.len(), |i: int| s[pos[i] as int])
}

/// No position occurs twice.
pub open spec fn distinct_positions(pos: Seq<usize>) -> bool {
    forall|i: int, j: int| 0 <= i < pos.len() && 0 <= j < pos.len() && i != j ==> pos[i] != pos[j]
}

/// `k` is the first position that is out of range for length `n`.
pub open spec fn first_bad_position(pos: Seq<usize>, n: nat, k: int) -> bool {
    &&& 0 <= k < pos.len()
    &&& pos[k] >= n
    &&& forall|j: int| 0 <= j < k ==> pos[j] < n
}

/// Positions in the other index of the labels selected by inner alignment.
pub open spec fn aligned_partner(a: Seq<Seq<char>>, b: Seq<Seq<char>>) -> Seq<usize> {
    let l = aligned_positions(a, b, a.len() as int);
    Seq::new(l.len(), |k: int| label_position(b, a[l[k] as int]) as usize)
}

/// What `take` returns for a Series with the given values, labels and name.
pub open spec fn take_result<T: Copy>(values: Seq<T>, labels: Seq<Seq<char>>, name: Option<Seq<char>>, pos: Seq<usize>, r: Result<Series<T>>) -> bool {
    &&& (forall|k: int| first_bad_position(pos, values.len(), k) ==> (r matches Err(Error::Core(e)) && e == (
        RusantaError::IndexOutOfBounds { index: pos[k], len: values.len() as usize })))
    &&& ((forall|k: int| 0 <= k < pos.len() ==> pos[k] < values.len()) && distinct_positions(pos)) ==> (r matches Ok(
        s,
    ) && s.values_view() == gather(values, pos) && s.index_view() == gather(labels, pos) && s.name_view() == name)
    &&& ((forall|k: int| 0 <= k < pos.len() ==> pos[k] < values.len()) && !distinct_positions(pos)) ==> (r matches Err(
        Error::InvalidValue(m),
    ) && m@ == "duplicate index label"@)
}

pub proof fn lemma_aligned_positions(a: Seq<Seq<char>>, b: Seq<Seq<char>>, k: int)
    requires
        0 <= k <= a.len(),
        a.len() <= usize::MAX,
    ensures
        forall|i: int| 0 <= i < aligned_positions(a, b, k).len() ==> aligned_positions(a, b, k)[i] < k,
        forall|i: int| 0 <= i < aligned_positions(a, b, k).len() ==> b.contains(a[aligned_positions(a, b, k)[i] as int]),
        distinct_positions(aligned_positions(a, b, k)),
        aligned_positions(a, b, k).len() <= k,
    decreases k,
{
    if k > 0 {
        lemma_aligned_positions(a, b, k - 1);
        let prev = aligned_positions(a, b, k - 1);
        let cur = aligned_positions(a, b, k);
        if b.contains(a[k - 1]) {
            assert(cur == prev.push((k - 1) as usize));
            assert forall|i: int| 0 <= i < cur.len() implies b.contains(a[cur[i] as int]) by {
                if i < prev.len() {
                    assert(cur[i] == prev[i]);
                }
            }
            assert forall|i: int, j: int| 0 <= i < cur.len() && 0 <= j < cur.len() && i != j implies cur[i] != cur[j] by {
                if i < prev.len() && j < prev.len() {
                    assert(cur[i] == prev[i] && cur[j] == prev[j]);
                } else if i < prev.len() {
                    assert(cur[i] == prev[i]);
                } else {
                    assert(cur[j] == prev[j]);
                }
            }
        } else {
            assert(cur == prev);
        }
    }
}

/// Some position is out of range, so a first one is.
pub proof fn lemma_first_bad_position(pos: Seq<usize>, n: nat)
    requires
        !(forall|k: int| 0 <= k < pos.len() ==> pos[k] < n),
    ensures
        exists|k: int| first_bad_position(pos, n, k),
    decreases pos.len(),
{
    if forall|k: int| 0 <= k < pos.len() - 1 ==> pos[k] < n {
        assert(first_bad_position(pos, n, pos.len() - 1));
    } else {
        let p2 = pos.drop_last();
        assert(!(forall|k: int| 0 <= k < p2.len() ==> p2[k] < n)) by {
            let k = choose|k: int| 0 <= k < pos.len() - 1 && !(pos[k] < n);
            assert(p2[k] == pos[k]);
        }
        lemma_first_bad_position(p2, n);
        let k = choose|k: int| first_bad_position(p2, n, k);
        assert forall|j: int| 0 <= j < k implies pos[j] < n by {
            assert(p2[j] == pos[j]);
        }
        assert(p2[k] == pos[k]);
        assert(first_bad_position(pos, n, k));
    }
}

/// A labelled one-dimensional array: values, row labels and an optional name.
#[derive(Debug)]
pub struct Series<T: Copy> {
    name: Option<String>,
    data: NdArray<T>,
    index: Index,
}

pub proof fn lemma_one_axis(n: usize, p: usize)
    requires
        n <= isize::MAX,
    ensures
        shape_product(seq![n]) == n,
        shape_fits(seq![n]),
        row_major_strides(seq![n]) == seq![1isize],
        weighted(seq![p], seq![1isize]) == p,
        p < n ==> index_in_shape(seq![p], seq![n]),
{
    shape::lemma_product_single(n);
    assert(seq![n].drop_last() =~= Seq::<usize>::empty());
    assert(seq![n].skip(1) =~= Seq::<usize>::empty());
    assert(shape::positive_product(Seq::<usize>::empty()) == 1);
    let q: nat = if n == 0 { 1nat } else { n as nat };
    assert(shape::positive_product(seq![n]) == shape::positive_product(Seq::<usize>::empty()) * q);
    assert(1 * q == q) by (nonlinear_arith);
    assert(row_major_strides(seq![n]) =~= seq![1isize]);
    assert(seq![p].drop_last() =~= Seq::<usize>::empty());
    assert(seq![1isize].drop_last() =~= Seq::<isize>::empty());
    assert(weighted(Seq::<usize>::empty(), Seq::<isize>::empty()) == 0);
    assert(seq![1isize][0] == 1);
    assert(weighted(seq![p], seq![1isize]) == weighted(Seq::<usize>::empty(), Seq::<isize>::empty()) + (p as int) * (
    seq![1isize][0] as int));
    assert((p as int) * 1 == p as int) by (nonlinear_arith);
}

impl<T: Copy> Series<T> {
    /// The values are a row-major array as long as the index.
    #[verifier::type_invariant]
    pub open spec fn inv(self) -> bool {
        &&& self.array_view().wf()
        &&& self.array_view().dims() == seq![self.index_view().len() as usize]
        &&& self.array_view().steps() == seq![1isize]
        &&& self.array_view().origin() == 0
        &&& self.array_view().buf_view().len() == self.index_view().len()
    }

    /// The values, in order.
    pub open spec fn values_view(&self) -> Seq<T> {
        self.array_view().buf_view()
    }

    /// The underlying array.
    pub closed spec fn array_view(&self) -> NdArray<T> {
        self.data
    }

    /// The row labels.
    pub closed spec fn index_view(&self) -> Seq<Seq<char>> {
        self.index@
    }

    /// The name, if any.
    pub closed spec fn name_view(&self) -> Option<Seq<char>> {
        name_of(self.name)
    }

    /// Creates a Series from values, row labels and an optional name.
    pub fn new(data: Vec<T>, index: Index, name: Option<String>) -> (r: Result<Self>)
        requires
            data@.len() <= isize::MAX,
        ensures
            data@.len() != index@.len() ==> (r matches Err(Error::InvalidValue(m)) && m@
                == "data length does not match index length"@),
            data@.len() == index@.len() ==> (r matches Ok(s) && s.values_view() == data@ && s.index_view()
                == index@ && s.name_view() == name_of(name)),
    {
        if data.len() != index.len() {
            return Err(Error::InvalidValue(String::from_str("data length does not match index length")));
        }
        let n = index.len();
        proof {
            lemma_one_axis(n, 0);
        }
        let shape: Vec<usize> = vec![n];
        proof {
            assert(shape@ =~= seq![n]);
        }
        match NdArray::new(data, shape) {
            Ok(array) => Ok(Series { name, data: array, index }),
            Err(e) => {
                proof {
                    assert(false);
                }
                Err(Error::Core(e))
            },
        }
    }

    /// Creates a Series with the default labels `"0" .. "n-1"` and no name.
    pub fn from_vec(data: Vec<T>) -> (s: Self)
        requires
            data@.len() <= isize::MAX,
        ensures
            s.values_view() == data@,
            s.index_view() == crate::frame::index::range_labels(data@.len()),
            s.name_view() == None::<Seq<char>>,
    {
        let n = data.len();
        let index = Index::range(n);
        proof {
            lemma_one_axis(n, 0);
        }
        let shape: Vec<usize> = vec![n];
        proof {
            assert(shape@ =~= seq![n]);
        }
        let array = match NdArray::new(data, shape) {
            Ok(a) => a,
            Err(_) => {
                proof {
                    assert(false);
                }
                NdArray::from_parts(std::sync::Arc::new(Vec::new()), Vec::new(), Vec::new(), 0)
            },
        };
        Series { name: None, data: array, index }
    }

    /// Number of values.
    pub fn len(&self) -> (r: usize)
        ensures
            r == self.values_view().len(),
            r == self.index_view().len(),
            r <= isize::MAX,
    {
        proof {
            use_type_invariant(self);
        }
        self.index.len()
    }

    /// There are no values.
    pub fn is_empty(&self) -> (r: bool)
        ensures
            r == (self.values_view().len() == 0),
    {
        proof {
            use_type_invariant(self);
        }
        self.index.is_empty()
    }

    /// The name, if any.
    pub fn name(&self) -> (r: Option<&str>)
        ensures
            match r {
                Some(s) => self.name_view() == Some(s@),
                None => self.name_view() == None::<Seq<char>>,
            },
    {
        match &self.name {
            Some(s) => Some(s.as_str()),
            None => None,
        }
    }

    /// Sets the name.
    pub fn set_name(&mut self, name: String)
        ensures
            final(self).name_view() == Some(name@),
            final(self).values_view() == old(self).values_view(),
            final(self).index_view() == old(self).index_view(),
    {
        proof {
            use_type_invariant(&*self);
        }
        self.name = Some(name);
    }

    /// The row labels.
    pub fn index(&self) -> (r: &Index)
        ensures
            r@ == self.index_view(),
    {
        &self.index
    }

    /// The underlying array.
    pub fn values(&self) -> (r: &NdArray<T>)
        ensures
            *r == self.array_view(),
            r.buf_view() == self.values_view(),
            r.wf(),
            r.dims() == seq![self.values_view().len() as usize],
    {
        proof {
            use_type_invariant(self);
        }
        &self.data
    }

    /// Value at a position.
    pub fn get(&self, pos: usize) -> (r: Result<T>)
        ensures
            pos < self.values_view().len() ==> r == Ok::<T, Error>(self.values_view()[pos as int]),
            pos >= self.values_view().len() ==> (r matches Err(Error::Core(e)) && e == (
            RusantaError::IndexOutOfBounds { index: pos, len: self.values_view().len() as usize })),
    {
        proof {
            use_type_invariant(self);
            lemma_one_axis(self.index@.len() as usize, pos);
        }
        let ix: [usize; 1] = [pos];
        proof {
            assert(ix@ =~= seq![pos]);
            if pos >= self.values_view().len() {
                assert(crate::array::shape::first_bad_axis(seq![pos], self.data.dims(), 0));
            }
        }
        match self.data.get_nd(ix.as_slice()) {
            Ok(v) => Ok(v),
            Err(e) => Err(Error::Core(e)),
        }
    }

    /// Value at a row label.
    pub fn get_label(&self, label: &str) -> (r: Result<T>)
        ensures
            self.index_view().contains(label@) ==> r == Ok::<T, Error>(
                self.values_view()[label_position(self.index_view(), label@)],
            ),
            !self.index_view().contains(label@) ==> (r matches Err(Error::KeyNotFound(k)) && k@ == label@),
    {
        proof {
            use_type_invariant(self);
        }
        let pos = self.index.position(label)?;
        proof {
            let lp = label_position(self.index_view(), label@);
            assert(0 <= lp < self.index_view().len() && self.index_view()[lp] == label@);
        }
        self.get(pos)
    }

    /// Selects values and labels by position.
    pub fn take(&self, positions: &[usize]) -> (r: Result<Self>)
        requires
            positions@.len() <= isize::MAX,
        ensures
            take_result(self.values_view(), self.index_view(), self.name_view(), positions@, r),
    {
        proof {
            use_type_invariant(self);
            use_type_invariant(&self.index);
        }
        let n = positions.len();
        let mut data: Vec<T> = Vec::new();
        let mut labels: Vec<String> = Vec::new();
        let mut i: usize = 0;
        while i < n
            invariant
                n == positions@.len(),
                i <= n,
                forall|k: int| 0 <= k < i ==> positions@[k] < self.values_view().len(),
                data@ == gather(self.values_view(), positions@.take(i as int)),
                labels@.map_values(|s: String| s@) == gather(self.index_view(), positions@.take(i as int)),
                self.values_view().len() == self.index_view().len(),
            decreases n - i,
        {
            let p = positions[i];
            let v = self.get(p);
            let v = match v {
                Ok(v) => v,
                Err(e) => {
                    proof {
                        assert(first_bad_position(positions@, self.values_view().len(), i as int));
                        assert forall|k: int| first_bad_position(positions@, self.values_view().len(), k) implies k == i by {
                            if k < i {
                            } else if k > i {
                                assert(positions@[i as int] >= self.values_view().len());
                            }
                        }
                    }
                    return Err(e);
                },
            };
            let label = match self.index.label(p) {
                Ok(l) => l,
                Err(e) => {
                    proof {
                        assert(false);
                    }
                    return Err(e);
                },
            };
            let owned = String::from_str(label);
            let ghost before = labels@;
            data.push(v);
            labels.push(owned);
            i = i + 1;
            proof {
                assert(owned@ == self.index_view()[p as int]);
                assert(labels@ == before.push(owned));
                assert(labels@.map_values(|s: String| s@) =~= before.map_values(|s: String| s@).push(owned@));
            }
            proof {
                assert(data@ =~= gather(self.values_view(), positions@.take(i as int)));
                assert(labels@.map_values(|s: String| s@) =~= gather(self.index_view(), positions@.take(i as int)));
            }
        }
        proof {
            assert(positions@.take(n as int) =~= positions@);
            let g = gather(self.index_view(), positions@);
            if distinct_positions(positions@) {
                assert forall|a: int, b: int| 0 <= a < g.len() && 0 <= b < g.len() && a != b implies g[a] != g[b] by {
                    assert(positions@[a] != positions@[b]);
                }
            } else {
                let (a, b) = choose|a: int, b: int| 0 <= a < n && 0 <= b < n && a != b && positions@[a] == positions@[b];
                assert(g[a] == g[b]);
            }
        }
        let index = Index::new(labels)?;
        let name = match &self.name {
            Some(s) => Some(s.clone()),
            None => None,
        };
        Series::new(data, index, name)
    }

    /// Aligns two Series by label (inner join): the values of both at the
    /// labels of `self` that also occur in `other`, in the order of `self`.
    pub fn align(&self, other: &Series<T>) -> (r: Result<(Self, Self)>)
        ensures
            r matches Ok((a, b)) && a.values_view() == gather(self.values_view(), aligned_positions(
                self.index_view(),
                other.index_view(),
                self.index_view().len() as int,
            )) && a.index_view() == gather(self.index_view(), aligned_positions(
                self.index_view(),
                other.index_view(),
                self.index_view().len() as int,
            )) && b.values_view() == gather(other.values_view(), aligned_partner(self.index_view(), other.index_view()))
                && b.index_view() == a.index_view() && a.name_view() == self.name_view() && b.name_view()
                == other.name_view(),
    {
        proof {
            use_type_invariant(self);
            use_type_invariant(other);
            use_type_invariant(&self.index);
            use_type_invariant(&other.index);
        }
        let (l_idx, r_idx) = self.index.align(&other.index);
        let ghost a = self.index_view();
        let ghost b = other.index_view();
        proof {
            lemma_aligned_positions(a, b, a.len() as int);
            assert(r_idx@ =~= aligned_partner(a, b));
            assert forall|i: int, j: int| 0 <= i < r_idx@.len() && 0 <= j < r_idx@.len() && i != j implies r_idx@[i]
                != r_idx@[j] by {
                assert(b[r_idx@[i] as int] == a[l_idx@[i] as int]);
                assert(b[r_idx@[j] as int] == a[l_idx@[j] as int]);
                assert(l_idx@[i] != l_idx@[j]);
            }
        }
        let left = self.take(l_idx.as_slice())?;
        let right = other.take(r_idx.as_slice())?;
        proof {
            assert(gather(b, r_idx@) =~= gather(a, l_idx@));
        }
        Ok((left, right))
    }

    /// Applies a function to every value.
    pub fn map<F: Fn(T) -> T>(&self, f: F) -> (r: Result<Self>)
        requires
            forall|x: T| f.requires((x,)),
        ensures
            r matches Ok(s) && s.values_view().len() == self.values_view().len() && s.index_view()
                == self.index_view() && s.name_view() == self.name_view() && forall|i: int|
                0 <= i < self.values_view().len() ==> f.ensures((self.values_view()[i],), #[trigger] s.values_view()[i]),
    {
        proof {
            use_type_invariant(self);
        }
        let n = self.len();
        let mut out: Vec<T> = Vec::new();
        let mut i: usize = 0;
        while i < n
            invariant
                n == self.values_view().len(),
                n <= isize::MAX,
                i <= n,
                out@.len() == i,
                forall|x: T| f.requires((x,)),
                forall|k: int| 0 <= k < i ==> f.ensures((self.values_view()[k],), #[trigger] out@[k]),
            decreases n - i,
        {
            let v = match self.get(i) {
                Ok(v) => v,
                Err(_) => {
                    proof {
                        assert(false);
                    }
                    return Err(Error::InvalidValue(String::new()));
                },
            };
            out.push(f(v));
            i = i + 1;
        }
        let name = match &self.name {
            Some(s) => Some(s.clone()),
            None => None,
        };
        Series::new(out, self.index.clone(), name)
    }

    /// Converts the Series into its values, dropping the labels.
    pub fn to_vec(&self) -> (r: Vec<T>)
        ensures
            r@ == self.values_view(),
    {
        proof {
            use_type_invariant(self);
        }
        let n = self.len();
        let mut out: Vec<T> = Vec::new();
        let mut i: usize = 0;
        while i < n
            invariant
                n == self.values_view().len(),
                i <= n,
                out@ == self.values_view().take(i as int),
            decreases n - i,
        {
            let v = match self.get(i) {
                Ok(v) => v,
                Err(_) => {
                    proof {
                        assert(false);
                    }
                    return out;
                },
            };
            out.push(v);
            i = i + 1;
            proof {
                assert(out@ =~= self.values_view().take(i as int));
            }
        }
        proof {
            assert(self.values_view().take(n as int) =~= self.values_view());
        }
        out
    }
}

impl<T: Numeric> Dataset<T> for Series<T> {
    open spec fn elems(&self) -> Seq<T> {
        self.values_view()
    }

    fn len(&self) -> (r: usize) {
        Series::len(self)
    }

    fn get(&self, index: usize) -> (r: crate::error::Result<T>) {
        match Series::get(self, index) {
            Ok(v) => Ok(v),
            Err(_) => Err(RusantaError::IndexOutOfBounds { index, len: Series::len(self) }),
        }
    }
}

impl<T: Copy> Clone for Series<T> {
    fn clone(&self) -> (r: Self)
        ensures
            r.values_view() == self.values_view(),
            r.index_view() == self.index_view(),
            r.name_view() == self.name_view(),
    {
        proof {
            use_type_invariant(self);
        }
        let name = match &self.name {
            Some(s) => Some(s.clone()),
            None => None,
        };
        let data = NdArray::from_parts(
            self.data.buffer_handle(),
            vstd::slice::slice_to_vec(self.data.shape()),
            vstd::slice::slice_to_vec(self.data.strides()),
            self.data.offset(),
        );
        Series { name, data, index: self.index.clone() }
    }
}

} // verus!
