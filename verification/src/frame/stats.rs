//! Statistics of integer Series and column-wise statistics of DataFrames.
use vstd::prelude::*;
use crate::array::elementwise::trunc_div;
use crate::frame::error::{Error, Result};
use crate::frame::series::Series;
use crate::frame::dataframe::DataFrame;
use crate::frame::index::range_labels;

verus! {

/// Sum of the first `k` values.
pub open spec fn prefix_sum(s: Seq<i64>, k: int) -> int
    decreases k,
{
    if k <= 0 { 0 } else { prefix_sum(s, k - 1) + s[k - 1] }
}

/// Every partial sum of the values fits in `i64`.
pub open spec fn sums_fit(s: Seq<i64>) -> bool {
    forall|k: int| 0 <= k <= s.len() ==> i64::MIN <= #[trigger] prefix_sum(s, k) <= i64::MAX
}

/// Smallest of the first `k` values (the first value for `k <= 1`).
pub open spec fn prefix_min(s: Seq<i64>, k: int) -> i64
    decreases k,
{
    if k <= 1 { s[0] } else if s[k - 1] < prefix_min(s, k - 1) { s[k - 1] } else { prefix_min(s, k - 1) }
}

/// Largest of the first `k` values (the first value for `k <= 1`).
pub open spec fn prefix_max(s: Seq<i64>, k: int) -> i64
    decreases k,
{
    if k <= 1 { s[0] } else if s[k - 1] > prefix_max(s, k - 1) { s[k - 1] } else { prefix_max(s, k - 1) }
}

/// Integer mean of the values (truncating toward zero).
pub open spec fn int_mean(s: Seq<i64>) -> int {
    trunc_div(prefix_sum(s, s.len() as int), s.len() as int)
}

/// Sum of the first `k` squared deviations from `m`.
pub open spec fn prefix_sq_dev(s: Seq<i64>, m: int, k: int) -> int
    decreases k,
{
    if k <= 0 { 0 } else { prefix_sq_dev(s, m, k - 1) + (s[k - 1] - m) * (s[k - 1] - m) }
}

/// Every deviation, square and partial sum of the variance fits in `i64`.
pub open spec fn variance_fits(s: Seq<i64>) -> bool {
    let m = int_mean(s);
    &&& sums_fit(s)
    &&& forall|k: int|
        0 <= k < s.len() ==> i64::MIN <= #[trigger] s[k] - m <= i64::MAX && i64::MIN <= (s[k] - m) * (s[k] - m)
            <= i64::MAX
    &&& forall|k: int| 0 <= k <= s.len() ==> i64::MIN <= #[trigger] prefix_sq_dev(s, m, k) <= i64::MAX
}

/// Integer population variance: mean squared deviation from the integer mean.
pub open spec fn int_variance(s: Seq<i64>) -> int {
    trunc_div(prefix_sq_dev(s, int_mean(s), s.len() as int), s.len() as int)
}

pub proof fn lemma_min_max(s: Seq<i64>, k: int)
    requires
        1 <= k <= s.len(),
    ensures
        forall|j: int| 0 <= j < k ==> prefix_min(s, k) <= s[j] && s[j] <= prefix_max(s, k),
        exists|j: int| 0 <= j < k && s[j] == prefix_min(s, k),
        exists|j: int| 0 <= j < k && s[j] == prefix_max(s, k),
    decreases k,
{
    if k > 1 {
        lemma_min_max(s, k - 1);
        if s[k - 1] < prefix_min(s, k - 1) {
            assert(s[k - 1] == prefix_min(s, k));
        }
        if s[k - 1] > prefix_max(s, k - 1) {
            assert(s[k - 1] == prefix_max(s, k));
        }
    } else {
        assert(s[0] == prefix_min(s, k));
        assert(s[0] == prefix_max(s, k));
    }
}

fn divide(x: i64, n: usize) -> (r: i64)
    requires
        n > 0,
        n <= i64::MAX,
    ensures
        r as int == trunc_div(x as int, n as int),
{
    match x.checked_div(n as i64) {
        Some(q) => q,
        None => {
            proof {
                assert(false);
            }
            0
        },
    }
}

impl Series<i64> {
    /// Sum of values (zero for an empty Series).
    pub fn sum(&self) -> (r: Result<i64>)
        requires
            sums_fit(self.values_view()),
        ensures
            r == Ok::<i64, Error>(prefix_sum(self.values_view(), self.values_view().len() as int) as i64),
    {
        let n = self.len();
        let mut acc: i64 = 0;
        let mut i: usize = 0;
        while i < n
            invariant
                n == self.values_view().len(),
                sums_fit(self.values_view()),
                i <= n,
                acc as int == prefix_sum(self.values_view(), i as int),
            decreases n - i,
        {
            let v = match self.get(i) {
                Ok(v) => v,
                Err(_) => {
                    proof {
                        assert(false);
                    }
                    0
                },
            };
            proof {
                assert(i64::MIN <= prefix_sum(self.values_view(), i as int + 1) <= i64::MAX);
            }
            acc = acc + v;
            i = i + 1;
        }
        Ok(acc)
    }

    /// Mean of values, truncated toward zero.
    pub fn mean(&self) -> (r: Result<i64>)
        requires
            sums_fit(self.values_view()),
        ensures
            self.values_view().len() == 0 ==> (r matches Err(Error::InvalidValue(m)) && m@
                == "cannot compute mean of empty series"@),
            self.values_view().len() > 0 ==> r == Ok::<i64, Error>(int_mean(self.values_view()) as i64),
    {
        let n = self.len();
        if n == 0 {
            return Err(Error::InvalidValue(String::from_str("cannot compute mean of empty series")));
        }
        let total = self.sum()?;
        Ok(divide(total, n))
    }

    /// Smallest value (the first of equal smallest values).
    pub fn min(&self) -> (r: Result<i64>)
        ensures
            self.values_view().len() == 0 ==> (r matches Err(Error::InvalidValue(m)) && m@
                == "cannot compute min of empty series"@),
            self.values_view().len() > 0 ==> r == Ok::<i64, Error>(prefix_min(self.values_view(), self.values_view().len() as int)),
    {
        let n = self.len();
        if n == 0 {
            return Err(Error::InvalidValue(String::from_str("cannot compute min of empty series")));
        }
        let mut m = match self.get(0) {
            Ok(v) => v,
            Err(_) => {
                proof {
                    assert(false);
                }
                0
            },
        };
        let mut i: usize = 1;
        while i < n
            invariant
                n == self.values_view().len(),
                1 <= i <= n,
                m == prefix_min(self.values_view(), i as int),
            decreases n - i,
        {
            let v = match self.get(i) {
                Ok(v) => v,
                Err(_) => {
                    proof {
                        assert(false);
                    }
                    0
                },
            };
            if v < m {
                m = v;
            }
            i = i + 1;
        }
        Ok(m)
    }

    /// Largest value (the first of equal largest values).
    pub fn max(&self) -> (r: Result<i64>)
        ensures
            self.values_view().len() == 0 ==> (r matches Err(Error::InvalidValue(m)) && m@
                == "cannot compute max of empty series"@),
            self.values_view().len() > 0 ==> r == Ok::<i64, Error>(prefix_max(self.values_view(), self.values_view().len() as int)),
    {
        let n = self.len();
        if n == 0 {
            return Err(Error::InvalidValue(String::from_str("cannot compute max of empty series")));
        }
        let mut m = match self.get(0) {
            Ok(v) => v,
            Err(_) => {
                proof {
                    assert(false);
                }
                0
            },
        };
        let mut i: usize = 1;
        while i < n
            invariant
                n == self.values_view().len(),
                1 <= i <= n,
                m == prefix_max(self.values_view(), i as int),
            decreases n - i,
        {
            let v = match self.get(i) {
                Ok(v) => v,
                Err(_) => {
                    proof {
                        assert(false);
                    }
                    0
                },
            };
            if v > m {
                m = v;
            }
            i = i + 1;
        }
        Ok(m)
    }

    /// Population variance around the integer mean, truncated toward zero.
    pub fn var(&self) -> (r: Result<i64>)
        requires
            variance_fits(self.values_view()),
        ensures
            self.values_view().len() == 0 ==> (r matches Err(Error::InvalidValue(m)) && m@
                == "cannot compute mean of empty series"@),
            self.values_view().len() > 0 ==> r == Ok::<i64, Error>(int_variance(self.values_view()) as i64),
    {
        let mean = self.mean()?;
        let n = self.len();
        let ghost s = self.values_view();
        let mut acc: i64 = 0;
        let mut i: usize = 0;
        while i < n
            invariant
                n == s.len(),
                s == self.values_view(),
                n > 0,
                mean as int == int_mean(s),
                variance_fits(s),
                i <= n,
                acc as int == prefix_sq_dev(s, mean as int, i as int),
            decreases n - i,
        {
            let v = match self.get(i) {
                Ok(v) => v,
                Err(_) => {
                    proof {
                        assert(false);
                    }
                    0
                },
            };
            proof {
                assert(i64::MIN <= s[i as int] - int_mean(s) <= i64::MAX);
                assert(i64::MIN <= prefix_sq_dev(s, int_mean(s), i as int + 1) <= i64::MAX);
            }
            let diff = v - mean;
            acc = acc + diff * diff;
            i = i + 1;
        }
        Ok(divide(acc, n))
    }
}

/// Running sums stay between `k` times a lower and an upper bound of the values.
proof fn lemma_sum_bounds(s: Seq<i64>, lo: int, hi: int, k: int)
    requires
        0 <= k <= s.len(),
        forall|j: int| 0 <= j < s.len() ==> lo <= #[trigger] s[j] <= hi,
    ensures
        k * lo <= prefix_sum(s, k) <= k * hi,
    decreases k,
{
    if k > 0 {
        lemma_sum_bounds(s, lo, hi, k - 1);
        assert(lo <= s[k - 1] <= hi);
        assert((k - 1) * lo + lo == k * lo) by (nonlinear_arith);
        assert((k - 1) * hi + hi == k * hi) by (nonlinear_arith);
    } else {
        assert(k * lo == 0 && k * hi == 0) by (nonlinear_arith)
            requires
                k == 0,
        ;
    }
}

/// The mean of a non-empty Series lies between its minimum and its maximum.
pub proof fn lemma_mean_between_min_and_max(s: Seq<i64>)
    requires
        s.len() > 0,
    ensures
        prefix_min(s, s.len() as int) <= int_mean(s) <= prefix_max(s, s.len() as int),
{
    let n = s.len() as int;
    let lo = prefix_min(s, n) as int;
    let hi = prefix_max(s, n) as int;
    lemma_min_max(s, n);
    lemma_sum_bounds(s, lo, hi, n);
    let t = prefix_sum(s, n);
    if t == 0 {
        assert(lo <= 0 <= hi) by (nonlinear_arith)
            requires
                n * lo <= 0 <= n * hi,
                n > 0,
        ;
    } else if t > 0 {
        assert(lo <= t / n <= hi) by (nonlinear_arith)
            requires
                n * lo <= t <= n * hi,
                n > 0,
                t > 0,
        ;
    } else {
        assert(lo <= ((t * -1) / n) * -1 <= hi) by (nonlinear_arith)
            requires
                n * lo <= t <= n * hi,
                n > 0,
                t < 0,
        ;
    }
}

/// Squared deviations add up to no less than zero.
proof fn lemma_sq_dev_nonneg(s: Seq<i64>, m: int, k: int)
    ensures
        prefix_sq_dev(s, m, k) >= 0,
    decreases k,
{
    if k > 0 {
        lemma_sq_dev_nonneg(s, m, k - 1);
        let d = s[k - 1] - m;
        assert(d * d >= 0) by (nonlinear_arith);
    }
}

/// The variance of a non-empty Series is never negative.
pub proof fn lemma_variance_nonneg(s: Seq<i64>)
    requires
        s.len() > 0,
    ensures
        int_variance(s) >= 0,
{
    let t = prefix_sq_dev(s, int_mean(s), s.len() as int);
    lemma_sq_dev_nonneg(s, int_mean(s), s.len() as int);
    let n = s.len() as int;
    if t > 0 {
        assert(t / n >= 0) by (nonlinear_arith)
            requires
                t > 0,
                n > 0,
        ;
    }
}

/// A column-wise statistic.
#[derive(Debug)]
pub enum Stat {
    Sum,
    Mean,
    Min,
    Max,
    Var,
}

/// Requirements of a statistic on one column.
pub open spec fn stat_ok(st: Stat, s: Seq<i64>) -> bool {
    match st {
        Stat::Sum => sums_fit(s),
        Stat::Mean => sums_fit(s),
        Stat::Var => variance_fits(s),
        _ => true,
    }
}

/// Value of a statistic of a non-empty column.
pub open spec fn stat_value(st: Stat, s: Seq<i64>) -> i64 {
    match st {
        Stat::Sum => prefix_sum(s, s.len() as int) as i64,
        Stat::Mean => int_mean(s) as i64,
        Stat::Min => prefix_min(s, s.len() as int),
        Stat::Max => prefix_max(s, s.len() as int),
        Stat::Var => int_variance(s) as i64,
    }
}

/// Message of the error a statistic reports for an empty column.
pub open spec fn stat_empty_message(st: Stat) -> Seq<char> {
    match st {
        Stat::Min => "cannot compute min of empty series"@,
        Stat::Max => "cannot compute max of empty series"@,
        _ => "cannot compute mean of empty series"@,
    }
}

/// What a column-wise statistic of `df` returns.
pub open spec fn frame_stat_result(st: Stat, df: DataFrame<i64>, r: Result<DataFrame<i64>>) -> bool {
    let empty_fails = !(st is Sum) && df.names().len() > 0 && df.index_view().len() == 0;
    &&& empty_fails ==> (r matches Err(Error::InvalidValue(m)) && m@ == stat_empty_message(st))
    &&& !empty_fails ==> (r matches Ok(out) && out.names() == df.names() && out.series().len() == df.series().len()
        && (df.names().len() > 0 ==> out.index_view() == range_labels(1)) && forall|k: int|
        0 <= k < df.series().len() ==> (#[trigger] out.series()[k]).values_view() == seq![
            stat_value(st, df.series()[k].values_view()),
        ] && out.series()[k].name_view() == Some(df.names()[k]))
}

impl DataFrame<i64> {
    fn column_stat(&self, st: Stat) -> (r: Result<DataFrame<i64>>)
        requires
            forall|k: int| 0 <= k < self.series().len() ==> stat_ok(st, #[trigger] self.series()[k].values_view()),
        ensures
            frame_stat_result(st, *self, r),
    {
        proof {
            use_type_invariant(self);
        }
        let names = self.columns();
        let n = names.len();
        let mut cols: Vec<(String, Series<i64>)> = Vec::new();
        let mut k: usize = 0;
        #[verifier::loop_isolation(false)]
        while k < n
            invariant
                k <= n,
                cols@.len() == k,
                forall|j: int| #![trigger cols@[j]] 0 <= j < k ==> cols@[j].0@ == self.names()[j]
                    && cols@[j].1.values_view() == seq![stat_value(st, self.series()[j].values_view())]
                    && cols@[j].1.index_view() == range_labels(1) && cols@[j].1.name_view() == Some(self.names()[j]),
            k > 0 ==> (st is Sum || self.index_view().len() > 0),
            decreases n - k,
        {
            let name: &String = names[k];
            let col = match self.column(name.as_str()) {
                Ok(c) => c,
                Err(_) => {
                    proof {
                        assert(self.names().contains(name@)) by {
                            assert(self.names()[k as int] == name@);
                        }
                    }
                    return Err(Error::InvalidValue(String::new()));
                },
            };
            let ghost p = crate::frame::dataframe::name_position(self.names(), name@);
            proof {
                assert(self.names()[k as int] == name@);
                assert(0 <= p < self.names().len() && self.names()[p] == name@);
                assert(p == k);
                assert(col.index_view() == self.index_view());
            }
            let len = col.len();
            let value = match st {
                Stat::Sum => col.sum(),
                Stat::Mean => col.mean(),
                Stat::Min => col.min(),
                Stat::Max => col.max(),
                Stat::Var => col.var(),
            };
            let value = match value {
                Ok(v) => v,
                Err(e) => {
                    return Err(e);
                },
            };
            let mut one: Vec<i64> = Vec::new();
            one.push(value);
            let mut s = Series::from_vec(one);
            s.set_name(name.clone());
            let ghost before = cols@;
            cols.push((name.clone(), s));
            proof {
                assert forall|j: int| #![trigger cols@[j]] 0 <= j < k + 1 implies cols@[j].0@ == self.names()[j]
                    && cols@[j].1.values_view() == seq![stat_value(st, self.series()[j].values_view())]
                    && cols@[j].1.index_view() == range_labels(1) && cols@[j].1.name_view() == Some(self.names()[j]) by {
                    if j < k {
                        assert(cols@[j] == before[j]);
                    }
                }
            }
            k = k + 1;
        }
        proof {
            assert(Seq::new(cols@.len(), |j: int| cols@[j].0@) =~= self.names());
            assert forall|j: int| 0 <= j < cols@.len() implies #[trigger] cols@[j].1.index_view() == cols@[0].1.index_view() by {
                assert(cols@[j].1.index_view() == range_labels(1));
            }
        }
        let r = DataFrame::new(cols);
        proof {
            if r is Ok {
                let out = r->Ok_0;
                assert forall|j: int| 0 <= j < self.series().len() implies (#[trigger] out.series()[j]).values_view() == seq![
                    stat_value(st, self.series()[j].values_view()),
                ] && out.series()[j].name_view() == Some(self.names()[j]) by {
                    assert(out.series()[j] == cols@[j].1);
                }
            }
        }
        r
    }

    /// Column-wise sum.
    pub fn sum(&self) -> (r: Result<DataFrame<i64>>)
        requires
            forall|k: int| 0 <= k < self.series().len() ==> stat_ok(Stat::Sum, #[trigger] self.series()[k].values_view()),
        ensures
            frame_stat_result(Stat::Sum, *self, r),
    {
        self.column_stat(Stat::Sum)
    }

    /// Column-wise mean.
    pub fn mean(&self) -> (r: Result<DataFrame<i64>>)
        requires
            forall|k: int| 0 <= k < self.series().len() ==> stat_ok(Stat::Mean, #[trigger] self.series()[k].values_view()),
        ensures
            frame_stat_result(Stat::Mean, *self, r),
    {
        self.column_stat(Stat::Mean)
    }

    /// Column-wise minimum.
    pub fn min(&self) -> (r: Result<DataFrame<i64>>)
        ensures
            frame_stat_result(Stat::Min, *self, r),
    {
        self.column_stat(Stat::Min)
    }

    /// Column-wise maximum.
    pub fn max(&self) -> (r: Result<DataFrame<i64>>)
        ensures
            frame_stat_result(Stat::Max, *self, r),
    {
        self.column_stat(Stat::Max)
    }

    /// Column-wise population variance.
    pub fn var(&self) -> (r: Result<DataFrame<i64>>)
        requires
            forall|k: int| 0 <= k < self.series().len() ==> stat_ok(Stat::Var, #[trigger] self.series()[k].values_view()),
        ensures
            frame_stat_result(Stat::Var, *self, r),
    {
        self.column_stat(Stat::Var)
    }
}

} // verus!
