//! A two-dimensional labelled table of named columns sharing one index.
use vstd::prelude::*;
use crate::frame::error::{Error, Result};
use crate::frame::index::{Index, distinct_labels, range_labels, aligned_positions};
use crate::frame::series::{Series, gather, take_result, aligned_partner, distinct_positions};
use crate::frame::text::same_text;

verus! {

/// Names in order of first occurrence, without repetitions.
pub open spec fn unique_names(s: Seq<Seq<char>>) -> Seq<Seq<char>>
    decreases s.len(),
{
    if s.len() == 0 {
        Seq::empty()
    } else if unique_names(s.drop_last()).contains(s.last()) {
        unique_names(s.drop_last())
    } else {
        unique_names(s.drop_last()).push(s.last())
    }
}

/// Position of the name in the column names (the names are distinct).
pub open spec fn name_position(names: Seq<Seq<char>>, x: Seq<char>) -> int {
    choose|k: int| 0 <= k < names.len() && names[k] == x
}

/// Copies a vector element by element.
pub fn copy_vec<T: Copy>(v: &Vec<T>) -> (r: Vec<T>)
    ensures
        r@ == v@,
{
    let mut out: Vec<T> = Vec::new();
    let mut i: usize = 0;
    while i < v.len()
        invariant
            i <= v@.len(),
            out@ == v@.take(i as int),
        decreases v@.len() - i,
    {
        out.push(v[i]);
        i = i + 1;
        proof {
            assert(out@ =~= v@.take(i as int));
        }
    }
    proof {
        assert(v@.take(i as int) =~= v@);
    }
    out
}

/// Row labels used by `from_vecs`: the given index, or `"0" .. "n-1"` for the
/// length `n` of the first vector.
pub open spec fn vecs_index<T>(data: Seq<(String, Vec<T>)>, index: Option<Index>) -> Seq<Seq<char>> {
    match index {
        Some(i) => i@,
        None => range_labels(if data.len() == 0 { 0nat } else { data[0].1@.len() }),
    }
}

/// Two Series hold the same values, labels and name.
pub open spec fn same_series<T: Copy>(a: Series<T>, b: Series<T>) -> bool {
    &&& a.values_view() == b.values_view()
    &&& a.index_view() == b.index_view()
    &&& a.name_view() == b.name_view()
}

/// `df` holds the rows of `src` at `pos`, in that order.
pub open spec fn taken_frame<T: Copy>(src: DataFrame<T>, pos: Seq<usize>, df: DataFrame<T>) -> bool {
    &&& src.names().len() == 0 ==> df.names() == Seq::<Seq<char>>::empty() && df.index_view() == Seq::<Seq<char>>::empty()
    &&& src.names().len() > 0 ==> {
        &&& df.names() == src.names()
        &&& df.index_view() == gather(src.index_view(), pos)
        &&& df.series().len() == src.series().len()
        &&& forall|k: int|
            0 <= k < src.series().len() ==> #[trigger] df.series()[k].values_view() == gather(
                src.series()[k].values_view(),
                pos,
            ) && df.series()[k].name_view() == src.series()[k].name_view()
    }
}

/// What `take` returns for a DataFrame.
pub open spec fn frame_take_result<T: Copy>(src: DataFrame<T>, pos: Seq<usize>, r: Result<DataFrame<T>>) -> bool {
    let n = src.index_view().len();
    &&& src.names().len() == 0 ==> (r matches Ok(df) && taken_frame(src, pos, df))
    &&& src.names().len() > 0 ==> {
        &&& (forall|k: int| crate::frame::series::first_bad_position(pos, n, k) ==> (r matches Err(Error::Core(e))
            && e == (crate::error::RusantaError::IndexOutOfBounds { index: pos[k], len: n as usize })))
        &&& ((forall|k: int| 0 <= k < pos.len() ==> pos[k] < n) && distinct_positions(pos)) ==> (r matches Ok(df)
            && taken_frame(src, pos, df))
        &&& ((forall|k: int| 0 <= k < pos.len() ==> pos[k] < n) && !distinct_positions(pos)) ==> (r matches Err(
            Error::InvalidValue(m),
        ) && m@ == "duplicate index label"@)
    }
}


/// `outs` are results of `f` on the first `outs.len()` columns of `src`, in
/// column order, each call having returned `Ok`.
pub open spec fn map_results<T: Copy, F: Fn(&Series<T>) -> Result<Series<T>>>(
    src: DataFrame<T>,
    f: F,
    outs: Seq<Series<T>>,
) -> bool {
    &&& outs.len() <= src.series().len()
    &&& forall|j: int|
        0 <= j < outs.len() ==> #[trigger] call_ensures(f, (&src.series()[j],), Ok::<Series<T>, Error>(outs[j]))
}

/// The results in `outs` all have the index of the first one.
pub open spec fn share_index<T: Copy>(outs: Seq<Series<T>>) -> bool {
    forall|j: int| 0 <= j < outs.len() ==> #[trigger] outs[j].index_view() == outs[0].index_view()
}

/// What mapping `src` gives once the calls of `f` have returned `outs`:
/// when fewer results than columns, the next call failed and its error is
/// the result; otherwise a frame of the results under the column names when
/// they share one index, and the index error when they do not.
pub open spec fn map_outcome<T: Copy, F: Fn(&Series<T>) -> Result<Series<T>>>(
    src: DataFrame<T>,
    f: F,
    outs: Seq<Series<T>>,
    r: Result<DataFrame<T>>,
) -> bool {
    if outs.len() < src.series().len() {
        r matches Err(e) && call_ensures(f, (&src.series()[outs.len() as int],), Err::<Series<T>, Error>(e))
    } else if share_index(outs) {
        r matches Ok(df) && df.names() == src.names() && df.series().len() == outs.len()
            && df.index_view() == (if outs.len() == 0 { Seq::<Seq<char>>::empty() } else { outs[0].index_view() })
            && forall|j: int|
            0 <= j < outs.len() ==> #[trigger] df.series()[j].values_view() == outs[j].values_view()
                && df.series()[j].index_view() == outs[j].index_view() && df.series()[j].name_view() == Some(
                src.names()[j],
            )
    } else {
        r matches Err(Error::InvalidValue(m)) && m@ == "all columns must share the same index"@
    }
}

/// A two-dimensional table: named Series that all share one index.
#[derive(Debug)]
pub struct DataFrame<T: Copy> {
    columns: Vec<(String, Series<T>)>,
    index: Index,
}

impl<T: Copy> DataFrame<T> {
    /// Column names are distinct and every column has the frame's index.
    #[verifier::type_invariant]
    pub open spec fn inv(self) -> bool {
        &&& distinct_labels(self.names())
        &&& forall|k: int| 0 <= k < self.series().len() ==> #[trigger] self.series()[k].index_view() == self.index_view()
        &&& self.names().len() == self.series().len()
    }

    /// Column names, in column order.
    pub closed spec fn names(&self) -> Seq<Seq<char>> {
        Seq::new(self.columns@.len(), |k: int| self.columns@[k].0@)
    }

    /// Columns, in column order.
    pub closed spec fn series(&self) -> Seq<Series<T>> {
        Seq::new(self.columns@.len(), |k: int| self.columns@[k].1)
    }

    /// Row labels.
    pub closed spec fn index_view(&self) -> Seq<Seq<char>> {
        self.index@
    }

    /// Values of the column with the given name.
    pub open spec fn column_values(&self, name: Seq<char>) -> Seq<T> {
        self.series()[name_position(self.names(), name)].values_view()
    }

    /// Creates an empty DataFrame.
    pub fn empty() -> (r: Self)
        ensures
            r.names() == Seq::<Seq<char>>::empty(),
            r.index_view() == Seq::<Seq<char>>::empty(),
    {
        let index = Index::range(0);
        proof {
            assert(range_labels(0) =~= Seq::<Seq<char>>::empty());
        }
        let r = DataFrame { columns: Vec::new(), index };
        proof {
            assert(r.names() =~= Seq::<Seq<char>>::empty());
        }
        r
    }

    /// Position of a column.
    fn find(&self, name: &str) -> (r: Option<usize>)
        ensures
            match r {
                Some(k) => k < self.names().len() && self.names()[k as int] == name@ && k == name_position(
                    self.names(),
                    name@,
                ),
                None => !self.names().contains(name@),
            },
    {
        proof {
            use_type_invariant(self);
        }
        let mut k: usize = 0;
        while k < self.columns.len()
            invariant
                k <= self.columns@.len(),
                self.names().len() == self.columns@.len(),
                distinct_labels(self.names()),
                forall|j: int| 0 <= j < k ==> self.names()[j] != name@,
            decreases self.columns@.len() - k,
        {
            if same_text(&self.columns[k].0, name) {
                proof {
                    assert(self.names()[k as int] == name@);
                    let p = name_position(self.names(), name@);
                    assert(self.names()[p] == name@);
                }
                return Some(k);
            }
            k = k + 1;
        }
        None
    }

    /// Creates a DataFrame from named columns, which must share one index.
    pub fn new(columns: Vec<(String, Series<T>)>) -> (r: Result<Self>)
        requires
            distinct_labels(Seq::new(columns@.len(), |k: int| columns@[k].0@)),
        ensures
            (forall|k: int| 0 <= k < columns@.len() ==> #[trigger] columns@[k].1.index_view() == columns@[0].1.index_view())
                ==> (r matches Ok(df) && df.names() == Seq::new(columns@.len(), |k: int| columns@[k].0@)
                && df.series() == Seq::new(columns@.len(), |k: int| columns@[k].1) && df.index_view() == (
                if columns@.len() == 0 { Seq::<Seq<char>>::empty() } else { columns@[0].1.index_view() })),
            !(forall|k: int| 0 <= k < columns@.len() ==> #[trigger] columns@[k].1.index_view() == columns@[0].1.index_view())
                ==> (r matches Err(Error::InvalidValue(m)) && m@ == "all columns must share the same index"@),
    {
        let n = columns.len();
        let index = if n == 0 {
            let i = Index::range(0);
            proof {
                assert(range_labels(0) =~= Seq::<Seq<char>>::empty());
            }
            i
        } else {
            columns[0].1.index().clone()
        };
        let mut k: usize = 1;
        while k < n
            invariant
                n == columns@.len(),
                1 <= k || n == 0,
                n > 0 ==> index@ == columns@[0].1.index_view(),
                forall|j: int| 0 <= j < k && j < n ==> #[trigger] columns@[j].1.index_view() == columns@[0].1.index_view(),
            decreases n - k,
        {
            if !columns[k].1.index().same_labels(&index) {
                return Err(Error::InvalidValue(String::from_str("all columns must share the same index")));
            }
            k = k + 1;
        }
        let r = DataFrame { columns, index };
        proof {
            assert(r.names() =~= Seq::new(n as nat, |k: int| r.columns@[k].0@));
        }
        Ok(r)
    }

    /// Creates a DataFrame from named value vectors. Without an index, rows are
    /// labelled `"0" .. "n-1"` where `n` is the length of the first vector.
    /// With no vectors the frame has no rows, whatever index is given.
    pub fn from_vecs(data: Vec<(String, Vec<T>)>, index: Option<Index>) -> (r: Result<Self>)
        requires
            distinct_labels(Seq::new(data@.len(), |k: int| data@[k].0@)),
            forall|k: int| 0 <= k < data@.len() ==> #[trigger] data@[k].1@.len() <= isize::MAX,
        ensures
            ({
                let idx = vecs_index(data@, index);
                &&& (forall|k: int| 0 <= k < data@.len() ==> #[trigger] data@[k].1@.len() == idx.len()) ==> (r matches Ok(
                    df,
                ) && df.names() == Seq::new(data@.len(), |k: int| data@[k].0@) && df.index_view() == (if data@.len() > 0 {
                    idx
                } else {
                    Seq::<Seq<char>>::empty()
                }) && forall|k: int|
                    0 <= k < data@.len() ==> #[trigger] df.series()[k].values_view() == data@[k].1@ && df.series()[k].name_view()
                        == Some(data@[k].0@))
                &&& !(forall|k: int| 0 <= k < data@.len() ==> #[trigger] data@[k].1@.len() == idx.len()) ==> (r matches Err(
                    Error::InvalidValue(m),
                ) && m@ == "data length does not match index length"@)
            }),
    {
        let ghost names = Seq::new(data@.len(), |k: int| data@[k].0@);
        let ghost vals = Seq::new(data@.len(), |k: int| data@[k].1@);
        let ghost index_g = index;
        let ghost idx = vecs_index(data@, index_g);
        let row_index = match index {
            Some(idx) => idx,
            None => {
                let len = if data.len() == 0 { 0 } else { data[0].1.len() };
                Index::range(len)
            },
        };
        let n = data.len();
        let mut columns: Vec<(String, Series<T>)> = Vec::new();
        let mut k: usize = 0;
        #[verifier::loop_isolation(false)]
        while k < n
            invariant
                n == data@.len(),
                names == Seq::new(data@.len(), |j: int| data@[j].0@),
                vals == Seq::new(data@.len(), |j: int| data@[j].1@),
                row_index@ == idx,
                idx == vecs_index(data@, index_g),
                forall|j: int| 0 <= j < n ==> #[trigger] data@[j].1@.len() <= isize::MAX,
                k <= n,
                columns@.len() == k,
                forall|j: int| 0 <= j < k ==> #[trigger] vals[j].len() == idx.len(),
                forall|j: int| #![trigger columns@[j]] 0 <= j < k ==> columns@[j].0@ == names[j] && columns@[j].1.values_view()
                    == vals[j] && columns@[j].1.index_view() == idx && columns@[j].1.name_view() == Some(names[j]),
            decreases n - k,
        {
            let name = data[k].0.clone();
            let values = copy_vec(&data[k].1);
            let s = match Series::new(values, row_index.clone(), Some(name.clone())) {
                Ok(s) => s,
                Err(e) => {
                    proof {
                        assert(vals[k as int].len() != idx.len());
                        assert(data@[k as int].1@.len() != idx.len());
                        assert(!(forall|j: int| 0 <= j < data@.len() ==> #[trigger] data@[j].1@.len() == idx.len()));
                    }
                    return Err(e);
                },
            };
            columns.push((name, s));
            k = k + 1;
        }
        proof {
            assert(Seq::new(columns@.len(), |j: int| columns@[j].0@) =~= names);
            assert forall|j: int| 0 <= j < data@.len() implies #[trigger] data@[j].1@.len() == idx.len() by {
                assert(vals[j].len() == idx.len());
            }
            assert forall|j: int| 0 <= j < columns@.len() implies #[trigger] columns@[j].1.index_view()
                == columns@[0].1.index_view() by {
                assert(columns@[j].1.index_view() == idx);
                assert(columns@[0].1.index_view() == idx);
            }
        }
        let r = Self::new(columns);
        proof {
            if n > 0 {
                assert(columns@[0].1.index_view() == idx);
            }
            if r is Ok {
                let df = r->Ok_0;
                assert forall|j: int| 0 <= j < n implies #[trigger] df.series()[j].values_view() == vals[j]
                    && df.series()[j].name_view() == Some(names[j]) by {
                    assert(df.series()[j] == columns@[j].1);
                    assert(columns@[j].1.values_view() == vals[j]);
                }
            }
        }
        r
    }

    /// Number of rows.
    pub fn nrows(&self) -> (r: usize)
        ensures
            r == self.index_view().len(),
    {
        self.index.len()
    }

    /// Number of columns.
    pub fn ncols(&self) -> (r: usize)
        ensures
            r == self.names().len(),
    {
        self.columns.len()
    }

    /// Row labels.
    pub fn index(&self) -> (r: &Index)
        ensures
            r@ == self.index_view(),
    {
        &self.index
    }

    /// Column names, in column order.
    pub fn columns(&self) -> (r: Vec<&String>)
        ensures
            r@.len() == self.names().len(),
            forall|k: int| 0 <= k < r@.len() ==> #[trigger] r@[k]@ == self.names()[k],
    {
        let mut out: Vec<&String> = Vec::new();
        let mut k: usize = 0;
        while k < self.columns.len()
            invariant
                k <= self.columns@.len(),
                out@.len() == k,
                forall|j: int| 0 <= j < k ==> #[trigger] out@[j]@ == self.names()[j],
            decreases self.columns@.len() - k,
        {
            out.push(&self.columns[k].0);
            k = k + 1;
        }
        out
    }

    /// The DataFrame has a column with this name.
    pub fn has_column(&self, name: &str) -> (r: bool)
        ensures
            r == self.names().contains(name@),
    {
        match self.find(name) {
            Some(_) => true,
            None => false,
        }
    }

    /// The column with this name.
    pub fn column(&self, name: &str) -> (r: Result<&Series<T>>)
        ensures
            self.names().contains(name@) ==> (r matches Ok(s) && *s == self.series()[name_position(self.names(), name@)]),
            !self.names().contains(name@) ==> (r matches Err(Error::KeyNotFound(k)) && k@ == name@),
    {
        match self.find(name) {
            Some(k) => Ok(&self.columns[k].1),
            None => Err(Error::KeyNotFound(String::from_str(name))),
        }
    }

    /// The column at a position.
    pub(crate) fn column_at(&self, k: usize) -> (r: &Series<T>)
        requires
            k < self.series().len(),
        ensures
            *r == self.series()[k as int],
            r.index_view() == self.index_view(),
    {
        proof {
            use_type_invariant(self);
        }
        &self.columns[k].1
    }

    /// Inserts a column, or replaces the column of the same name in place.
    pub fn insert(&mut self, name: String, series: Series<T>) -> (r: Result<()>)
        ensures
            series.index_view() != old(self).index_view() ==> (r matches Err(Error::InvalidValue(m)) && m@
                == "inserted series index does not match dataframe index"@ && *final(self) == *old(self)),
            series.index_view() == old(self).index_view() ==> r is Ok && final(self).index_view() == old(
                self,
            ).index_view() && (if old(self).names().contains(name@) {
                final(self).names() == old(self).names() && final(self).series() == old(self).series().update(
                    name_position(old(self).names(), name@),
                    series,
                )
            } else {
                final(self).names() == old(self).names().push(name@) && final(self).series() == old(
                    self,
                ).series().push(series)
            }),
    {
        proof {
            use_type_invariant(&*self);
        }
        if !series.index().same_labels(&self.index) {
            return Err(Error::InvalidValue(String::from_str("inserted series index does not match dataframe index")));
        }
        match self.find(name.as_str()) {
            Some(k) => {
                let ghost old_names = self.names();
                let ghost old_series = self.series();
                let mut entry = (name, series);
                proof {
                    assert(entry.0@ == old_names[k as int]);
                    assert(Seq::new(self.columns@.len(), |j: int| self.columns@.update(k as int, entry)[j].0@) =~= old_names);
                }
                let ghost idx = self.index_view();
                let mut cols: Vec<(String, Series<T>)> = Vec::new();
                std::mem::swap(&mut cols, &mut self.columns);
                let ghost before = cols@;
                cols.set(k, entry);
                proof {
                    assert(Seq::new(cols@.len(), |j: int| cols@[j].0@) =~= old_names);
                    assert forall|j: int| 0 <= j < cols@.len() implies #[trigger] cols@[j].1.index_view() == idx by {
                        if j != k {
                            assert(cols@[j] == before[j]);
                            assert(old_series[j] == before[j].1);
                        }
                    }
                }
                self.columns = cols;
                proof {
                    assert(self.names() =~= old_names);
                    assert(self.series() =~= old_series.update(k as int, series));
                }
            },
            None => {
                let ghost old_names = self.names();
                let ghost old_series = self.series();
                let ghost nm = name@;
                proof {
                    let nn = Seq::new((self.columns@.len() + 1) as nat, |j: int| self.columns@.push((name, series))[j].0@);
                    assert(nn =~= old_names.push(nm));
                    assert forall|a: int, b: int| 0 <= a < nn.len() && 0 <= b < nn.len() && a != b implies nn[a] != nn[b] by {
                        if a == old_names.len() {
                            assert(!old_names.contains(nm));
                            assert(nn[b] == old_names[b]);
                        } else if b == old_names.len() {
                            assert(nn[a] == old_names[a]);
                        }
                    }
                }
                let ghost idx = self.index_view();
                let mut cols: Vec<(String, Series<T>)> = Vec::new();
                std::mem::swap(&mut cols, &mut self.columns);
                let ghost before = cols@;
                cols.push((name, series));
                proof {
                    assert(Seq::new(cols@.len(), |j: int| cols@[j].0@) =~= old_names.push(nm));
                    assert forall|j: int| 0 <= j < cols@.len() implies #[trigger] cols@[j].1.index_view() == idx by {
                        if j < before.len() {
                            assert(cols@[j] == before[j]);
                            assert(old_series[j] == before[j].1);
                        }
                    }
                }
                self.columns = cols;
                proof {
                    assert(self.names() =~= old_names.push(nm));
                    assert(self.series() =~= old_series.push(series));
                }
            },
        }
        Ok(())
    }

    /// Selects the named columns (each name once, in order of first mention).
    pub fn select(&self, names: &[&str]) -> (r: Result<Self>)
        ensures
            (forall|k: int| 0 <= k < names@.len() ==> self.names().contains(#[trigger] names@[k]@)) ==> (r matches Ok(
                df,
            ) && df.names() == unique_names(names@.map_values(|s: &str| s@)) && df.index_view() == self.index_view()
                && df.series().len() == df.names().len() && forall|k: int|
                0 <= k < df.names().len() ==> same_series(
                    #[trigger] df.series()[k],
                    self.series()[name_position(self.names(), df.names()[k])],
                )),
            forall|k: int|
                0 <= k < names@.len() && !self.names().contains(#[trigger] names@[k]@) && (forall|j: int|
                    0 <= j < k ==> self.names().contains(names@[j]@)) ==> (r matches Err(Error::KeyNotFound(key))
                    && key@ == names@[k]@),
    {
        proof {
            use_type_invariant(self);
        }
        let ghost nv = names@.map_values(|s: &str| s@);
        let mut cols: Vec<(String, Series<T>)> = Vec::new();
        let mut i: usize = 0;
        #[verifier::loop_isolation(false)]
        while i < names.len()
            invariant
                i <= names@.len(),
                forall|j: int| 0 <= j < i ==> self.names().contains(#[trigger] names@[j]@),
                Seq::new(cols@.len(), |j: int| cols@[j].0@) == unique_names(nv.take(i as int)),
                forall|j: int| 0 <= j < cols@.len() ==> same_series(
                    #[trigger] cols@[j].1,
                    self.series()[name_position(self.names(), cols@[j].0@)],
                ),
                forall|j: int| 0 <= j < cols@.len() ==> #[trigger] cols@[j].1.index_view() == self.index_view(),
            decreases names@.len() - i,
        {
            let name = names[i];
            let s = match self.column(name) {
                Ok(s) => s,
                Err(e) => {
                    proof {
                        assert forall|k: int|
                            0 <= k < names@.len() && !self.names().contains(#[trigger] names@[k]@) && (forall|j: int|
                                0 <= j < k ==> self.names().contains(names@[j]@)) implies k == i by {
                            if k < i {
                            } else if k > i {
                                assert(!self.names().contains(names@[i as int]@));
                            }
                        }
                    }
                    return Err(e);
                },
            };
            let copy = s.clone();
            let ghost before = cols@;
            let ghost prefix_names = Seq::new(cols@.len(), |j: int| cols@[j].0@);
            proof {
                assert(nv.take(i as int + 1).drop_last() =~= nv.take(i as int));
                assert(nv.take(i as int + 1).last() == name@);
                let p = name_position(self.names(), name@);
                assert(0 <= p < self.names().len() && self.names()[p] == name@);
                assert(copy.index_view() == self.index_view());
            }
            let mut found: Option<usize> = None;
            let mut j: usize = 0;
            while j < cols.len()
                invariant
                    j <= cols@.len(),
                    cols@ == before,
                    prefix_names == Seq::new(cols@.len(), |q: int| cols@[q].0@),
                    found is None ==> forall|q: int| 0 <= q < j ==> prefix_names[q] != name@,
                    found matches Some(q) ==> q < cols@.len() && prefix_names[q as int] == name@,
                decreases cols@.len() - j,
            {
                if found.is_none() && same_text(&cols[j].0, name) {
                    found = Some(j);
                }
                j = j + 1;
            }
            match found {
                Some(q) => {
                    proof {
                        assert(unique_names(nv.take(i as int)).contains(name@));
                        assert(unique_names(nv.take(i as int + 1)) == unique_names(nv.take(i as int)));
                    }
                    let entry = (String::from_str(name), copy);
                    let mut tmp = cols;
                    tmp.set(q, entry);
                    cols = tmp;
                    proof {
                        assert(Seq::new(cols@.len(), |j: int| cols@[j].0@) =~= prefix_names);
                    }
                },
                None => {
                    proof {
                        assert(!unique_names(nv.take(i as int)).contains(name@));
                        assert(unique_names(nv.take(i as int + 1)) == unique_names(nv.take(i as int)).push(name@));
                    }
                    cols.push((String::from_str(name), copy));
                    proof {
                        assert(Seq::new(cols@.len(), |j: int| cols@[j].0@) =~= prefix_names.push(name@));
                    }
                },
            }
            i = i + 1;
        }
        proof {
            assert(nv.take(names@.len() as int) =~= nv);
            lemma_unique_names_distinct(nv);
        }
        let idx = self.index.clone();
        let ghost cn = Seq::new(cols@.len(), |j: int| cols@[j].0@);
        let df = DataFrame { columns: cols, index: idx };
        proof {
            assert(df.names() =~= cn);
            assert forall|k: int| 0 <= k < df.names().len() implies same_series(
                #[trigger] df.series()[k],
                self.series()[name_position(self.names(), df.names()[k])],
            ) by {
                assert(df.series()[k] == cols@[k].1);
            }
        }
        Ok(df)
    }

    /// Selects rows by position.
    pub fn take(&self, positions: &[usize]) -> (r: Result<Self>)
        requires
            positions@.len() <= isize::MAX,
        ensures
            frame_take_result(*self, positions@, r),
    {
        proof {
            use_type_invariant(self);
        }
        let n = self.columns.len();
        let mut cols: Vec<(String, Series<T>)> = Vec::new();
        let mut k: usize = 0;
        #[verifier::loop_isolation(false)]
        while k < n
            invariant
                k <= n,
                n == self.columns@.len(),
                cols@.len() == k,
                (forall|q: int| 0 <= q < positions@.len() ==> positions@[q] < self.index_view().len())
                    && distinct_positions(positions@) || k == 0,
                forall|j: int| #![trigger cols@[j]] 0 <= j < k ==> cols@[j].0@ == self.names()[j]
                    && cols@[j].1.values_view() == gather(self.series()[j].values_view(), positions@)
                    && cols@[j].1.index_view() == gather(self.index_view(), positions@)
                    && cols@[j].1.name_view() == self.series()[j].name_view(),
            decreases n - k,
        {
            let name = self.columns[k].0.clone();
            proof {
                assert(self.series()[k as int] == self.columns@[k as int].1);
                assert(self.series()[k as int].index_view() == self.index_view());
            }
            let len = self.columns[k].1.len();
            proof {
                if !(forall|q: int| 0 <= q < positions@.len() ==> positions@[q] < self.index_view().len()) {
                    crate::frame::series::lemma_first_bad_position(positions@, self.index_view().len());
                }
            }
            let part = match self.columns[k].1.take(positions) {
                Ok(p) => p,
                Err(e) => {
                    return Err(e);
                },
            };
            let ghost before = cols@;
            cols.push((name, part));
            proof {
                assert forall|j: int| #![trigger cols@[j]] 0 <= j < k + 1 implies cols@[j].0@ == self.names()[j]
                    && cols@[j].1.values_view() == gather(self.series()[j].values_view(), positions@)
                    && cols@[j].1.index_view() == gather(self.index_view(), positions@)
                    && cols@[j].1.name_view() == self.series()[j].name_view() by {
                    if j < k {
                        assert(cols@[j] == before[j]);
                    } else {
                        assert(cols@[j] == (name, part));
                    }
                }
            }
            k = k + 1;
        }
        if n == 0 {
            let r = Self::empty();
            return Ok(r);
        }
        proof {
            assert(Seq::new(cols@.len(), |j: int| cols@[j].0@) =~= self.names());
            assert forall|j: int| 0 <= j < cols@.len() implies #[trigger] cols@[j].1.index_view() == cols@[0].1.index_view() by {
                assert(cols@[j].1.index_view() == gather(self.index_view(), positions@));
            }
        }
        let r = Self::new(cols);
        proof {
            if r is Ok {
                let df = r->Ok_0;
                assert forall|j: int| 0 <= j < self.series().len() implies #[trigger] df.series()[j].values_view()
                    == gather(self.series()[j].values_view(), positions@) && df.series()[j].name_view()
                    == self.series()[j].name_view() by {
                    assert(df.series()[j] == cols@[j].1);
                }
            }
        }
        r
    }

    /// Aligns two DataFrames by row label (inner join semantics).
    pub fn align(&self, other: &Self) -> (r: Result<(Self, Self)>)
        ensures
            r matches Ok((a, b)) && taken_frame(
                *self,
                aligned_positions(self.index_view(), other.index_view(), self.index_view().len() as int),
                a,
            ) && taken_frame(*other, aligned_partner(self.index_view(), other.index_view()), b),
    {
        proof {
            use_type_invariant(self);
            use_type_invariant(other);
            use_type_invariant(&self.index);
            use_type_invariant(&other.index);
        }
        let (l_idx, r_idx) = self.index.align(&other.index);
        let ghost a = self.index_view();
        let ghost b = other.index_view();
        let nr = self.nrows();
        proof {
            crate::frame::series::lemma_aligned_positions(a, b, a.len() as int);
            assert(r_idx@ =~= aligned_partner(a, b));
            assert forall|i: int, j: int| 0 <= i < r_idx@.len() && 0 <= j < r_idx@.len() && i != j implies r_idx@[i]
                != r_idx@[j] by {
                assert(b[r_idx@[i] as int] == a[l_idx@[i] as int]);
                assert(b[r_idx@[j] as int] == a[l_idx@[j] as int]);
                assert(l_idx@[i] != l_idx@[j]);
            }
        }
        let left = self.take(l_idx.as_slice())?;
        let right = other.take(r_idx.as_slice())?;
        Ok((left, right))
    }

    /// Applies a function to every column, in column order, keeping the
    /// column names. Stops at the function's first error, which is the
    /// result; fails when the results do not share one index.
    pub fn map<F: Fn(&Series<T>) -> Result<Series<T>>>(&self, f: F) -> (r: Result<Self>)
        requires
            forall|s: &Series<T>| #[trigger] call_requires(f, (s,)),
        ensures
            exists|outs: Seq<Series<T>>| #[trigger] map_results(*self, f, outs) && map_outcome(*self, f, outs, r),
    {
        proof {
            use_type_invariant(self);
        }
        let n = self.columns.len();
        let mut cols: Vec<(String, Series<T>)> = Vec::new();
        let ghost mut outs: Seq<Series<T>> = Seq::empty();
        let mut k: usize = 0;
        while k < n
            invariant
                k <= n,
                n == self.columns@.len(),
                n == self.names().len(),
                n == self.series().len(),
                distinct_labels(self.names()),
                forall|s: &Series<T>| #[trigger] call_requires(f, (s,)),
                cols@.len() == k,
                outs.len() == k,
                map_results(*self, f, outs),
                forall|j: int|
                    #![trigger cols@[j]]
                    0 <= j < k ==> cols@[j].0@ == self.names()[j] && cols@[j].1.values_view() == outs[j].values_view()
                        && cols@[j].1.index_view() == outs[j].index_view() && cols@[j].1.name_view() == Some(
                        self.names()[j],
                    ),
            decreases n - k,
        {
            let src = &self.columns[k].1;
            proof {
                assert(self.series()[k as int] == *src);
            }
            let res = f(src);
            let mut out = match res {
                Ok(o) => o,
                Err(e) => {
                    proof {
                        assert(call_ensures(f, (&self.series()[k as int],), Err::<Series<T>, Error>(e)));
                        assert(map_outcome(*self, f, outs, Err::<Self, Error>(e)));
                    }
                    return Err(e);
                },
            };
            let ghost produced = out;
            let name = self.columns[k].0.clone();
            out.set_name(name.clone());
            let ghost before = cols@;
            let ghost old_outs = outs;
            cols.push((name, out));
            proof {
                outs = outs.push(produced);
                assert(self.names()[k as int] == self.columns@[k as int].0@);
                assert forall|j: int| 0 <= j < outs.len() implies #[trigger] call_ensures(
                    f,
                    (&self.series()[j],),
                    Ok::<Series<T>, Error>(outs[j]),
                ) by {
                    if j < k {
                        assert(outs[j] == old_outs[j]);
                    }
                }
                assert forall|j: int|
                    #![trigger cols@[j]]
                    0 <= j < k + 1 implies cols@[j].0@ == self.names()[j] && cols@[j].1.values_view()
                        == outs[j].values_view() && cols@[j].1.index_view() == outs[j].index_view()
                        && cols@[j].1.name_view() == Some(self.names()[j]) by {
                    if j < k {
                        assert(cols@[j] == before[j]);
                    }
                }
            }
            k = k + 1;
        }
        proof {
            assert(Seq::new(cols@.len(), |j: int| cols@[j].0@) =~= self.names());
        }
        let ghost gcols = cols@;
        let r = Self::new(cols);
        proof {
            assert(share_index(outs) == (forall|j: int|
                0 <= j < gcols.len() ==> #[trigger] gcols[j].1.index_view() == gcols[0].1.index_view())) by {
                if share_index(outs) {
                    assert forall|j: int| 0 <= j < gcols.len() implies #[trigger] gcols[j].1.index_view()
                        == gcols[0].1.index_view() by {
                        assert(outs[j].index_view() == outs[0].index_view());
                    }
                } else {
                    let j = choose|j: int| 0 <= j < outs.len() && !(#[trigger] outs[j].index_view() == outs[0].index_view());
                    assert(gcols[j].1.index_view() == outs[j].index_view());
                }
            }
            if share_index(outs) {
                let df = r->Ok_0;
                assert(df.names() =~= self.names());
                assert forall|j: int| 0 <= j < outs.len() implies #[trigger] df.series()[j].values_view()
                    == outs[j].values_view() && df.series()[j].index_view() == outs[j].index_view()
                    && df.series()[j].name_view() == Some(self.names()[j]) by {
                    assert(df.series()[j] == gcols[j].1);
                }
            }
            assert(map_outcome(*self, f, outs, r));
        }
        r
    }

    /// Row-major rows: row `i` lists the `i`-th value of every column, in column order.
    pub fn to_rows(&self) -> (r: Result<Vec<Vec<T>>>)
        ensures
            r matches Ok(rows) && rows@.len() == self.index_view().len() && forall|i: int|
                0 <= i < rows@.len() ==> #[trigger] rows@[i]@.len() == self.names().len() && forall|k: int|
                    0 <= k < self.names().len() ==> rows@[i]@[k] == self.series()[k].values_view()[i],
    {
        proof {
            use_type_invariant(self);
        }
        let nrows = self.nrows();
        let ncols = self.columns.len();
        let mut rows: Vec<Vec<T>> = Vec::new();
        let mut i: usize = 0;
        #[verifier::loop_isolation(false)]
        while i < nrows
            invariant
                i <= nrows,
                rows@.len() == i,
                forall|q: int| 0 <= q < i ==> #[trigger] rows@[q]@.len() == ncols && forall|k: int|
                    0 <= k < ncols ==> rows@[q]@[k] == self.series()[k].values_view()[q],
            decreases nrows - i,
        {
            let mut row: Vec<T> = Vec::new();
            let mut k: usize = 0;
            #[verifier::loop_isolation(false)]
            while k < ncols
                invariant
                    k <= ncols,
                    row@.len() == k,
                    forall|j: int| 0 <= j < k ==> row@[j] == self.series()[j].values_view()[i as int],
                decreases ncols - k,
            {
                proof {
                    assert(self.series()[k as int] == self.columns@[k as int].1);
                    assert(self.series()[k as int].index_view() == self.index_view());
                }
                let col = &self.columns[k].1;
                let n = col.len();
                let v = match col.get(i) {
                    Ok(v) => v,
                    Err(_) => {
                        proof {
                            assert(false);
                        }
                        return Ok(rows);
                    },
                };
                row.push(v);
                k = k + 1;
            }
            rows.push(row);
            i = i + 1;
        }
        Ok(rows)
    }
}

pub proof fn lemma_unique_names_distinct(s: Seq<Seq<char>>)
    ensures
        distinct_labels(unique_names(s)),
        forall|k: int| 0 <= k < unique_names(s).len() ==> s.contains(#[trigger] unique_names(s)[k]),
    decreases s.len(),
{
    if s.len() > 0 {
        lemma_unique_names_distinct(s.drop_last());
        let u = unique_names(s.drop_last());
        if !u.contains(s.last()) {
            let v = u.push(s.last());
            assert forall|a: int, b: int| 0 <= a < v.len() && 0 <= b < v.len() && a != b implies v[a] != v[b] by {
                if a == u.len() {
                    assert(v[b] == u[b]);
                } else if b == u.len() {
                    assert(v[a] == u[a]);
                } else {
                    assert(v[a] == u[a] && v[b] == u[b]);
                }
            }
            assert forall|k: int| 0 <= k < v.len() implies s.contains(#[trigger] v[k]) by {
                if k < u.len() {
                    assert(s.drop_last().contains(u[k]));
                    let w = choose|w: int| 0 <= w < s.drop_last().len() && s.drop_last()[w] == u[k];
                    assert(s[w] == u[k]);
                } else {
                    assert(s[s.len() - 1] == v[k]);
                }
            }
        } else {
            assert forall|k: int| 0 <= k < u.len() implies s.contains(#[trigger] u[k]) by {
                assert(s.drop_last().contains(u[k]));
                let w = choose|w: int| 0 <= w < s.drop_last().len() && s.drop_last()[w] == u[k];
                assert(s[w] == u[k]);
            }
        }
    }
}


/// Aligning two tables gives two tables with the same row labels: those of
/// the first table that the second also has, in the first table's order.
/// (A table without columns has no row labels left after taking rows.)
pub proof fn lemma_aligned_frames_share_labels<T: Copy>(x: DataFrame<T>, y: DataFrame<T>, a: DataFrame<T>, b: DataFrame<T>)
    requires
        x.index_view().len() <= usize::MAX,
        y.index_view().len() <= usize::MAX,
        x.names().len() > 0,
        y.names().len() > 0,
        taken_frame(x, aligned_positions(x.index_view(), y.index_view(), x.index_view().len() as int), a),
        taken_frame(y, aligned_partner(x.index_view(), y.index_view()), b),
    ensures
        a.index_view() == b.index_view(),
        a.index_view() == gather(
            x.index_view(),
            aligned_positions(x.index_view(), y.index_view(), x.index_view().len() as int),
        ),
{
    let xi = x.index_view();
    let yi = y.index_view();
    let l = aligned_positions(xi, yi, xi.len() as int);
    crate::frame::series::lemma_aligned_positions(xi, yi, xi.len() as int);
    let p = aligned_partner(xi, yi);
    assert forall|k: int| 0 <= k < l.len() implies #[trigger] gather(yi, p)[k] == gather(xi, l)[k] by {
        let lab = xi[l[k] as int];
        assert(yi.contains(lab));
        let j = crate::frame::index::label_position(yi, lab);
        assert(0 <= j < yi.len() && yi[j] == lab);
        assert(p[k] as int == j);
        assert(gather(yi, p)[k] == yi[j]);
    }
    assert(gather(yi, p) =~= gather(xi, l));
}

} // verus!
