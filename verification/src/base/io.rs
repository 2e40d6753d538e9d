//! Basic statistics over any dataset.
use vstd::prelude::*;
use crate::base::dataset::Dataset;
use crate::base::numeric::{Accumulate, Numeric};
use crate::error::{Result, RusantaError};

verus! {

/// Sum of the accumulator values of the first `n` values.
pub open spec fn acc_total<T: Accumulate<Output = i64>>(s: Seq<T>, n: int) -> int
    decreases n,
{
    if n <= 0 {
        0
    } else {
        acc_total(s, n - 1) + s[n - 1].acc_value() as int
    }
}

/// Every running total of the accumulator values fits in an `i64`.
pub open spec fn acc_totals_fit<T: Accumulate<Output = i64>>(s: Seq<T>) -> bool {
    forall|n: int| 1 <= n <= s.len() ==> i64::MIN <= #[trigger] acc_total(s, n) <= i64::MAX
}

/// The first of the smallest among the first `n` values (`n >= 1`).
pub open spec fn first_min<T: Numeric>(s: Seq<T>, n: int) -> T
    decreases n,
{
    if n <= 1 {
        s[0]
    } else if s[n - 1].value() < first_min(s, n - 1).value() {
        s[n - 1]
    } else {
        first_min(s, n - 1)
    }
}

/// The first of the largest among the first `n` values (`n >= 1`).
pub open spec fn first_max<T: Numeric>(s: Seq<T>, n: int) -> T
    decreases n,
{
    if n <= 1 {
        s[0]
    } else if first_max(s, n - 1).value() < s[n - 1].value() {
        s[n - 1]
    } else {
        first_max(s, n - 1)
    }
}

/// The error for an empty dataset, naming the statistic.
pub open spec fn empty_data(r_err: RusantaError, context: Seq<char>) -> bool {
    r_err matches RusantaError::EmptyData { context: c } && c@ == context
}

/// The minimum of a dataset is one of its values and no value is smaller;
/// likewise the maximum is one of its values and no value is larger.
pub proof fn lemma_min_max_bound<T: Numeric>(s: Seq<T>, n: int)
    requires
        1 <= n <= s.len(),
    ensures
        forall|j: int| 0 <= j < n ==> first_min(s, n).value() <= (#[trigger] s[j]).value() && s[j].value() <= first_max(
            s,
            n,
        ).value(),
        exists|j: int| 0 <= j < n && s[j] == first_min(s, n),
        exists|j: int| 0 <= j < n && s[j] == first_max(s, n),
    decreases n,
{
    if n > 1 {
        lemma_min_max_bound(s, n - 1);
        if s[n - 1].value() < first_min(s, n - 1).value() {
            assert(s[n - 1] == first_min(s, n));
        }
        if first_max(s, n - 1).value() < s[n - 1].value() {
            assert(s[n - 1] == first_max(s, n));
        }
    } else {
        assert(s[0] == first_min(s, n));
        assert(s[0] == first_max(s, n));
    }
}

/// Sum of a dataset, accumulated in `i64`.
pub fn sum<T: Numeric + Accumulate<Output = i64>, D: Dataset<T>>(data: &D) -> (r: Result<i64>)
    requires
        acc_totals_fit(data.elems()),
    ensures
        data.elems().len() == 0 ==> (r matches Err(e) && empty_data(e, "sum"@)),
        data.elems().len() > 0 ==> r == Ok::<i64, RusantaError>(acc_total(data.elems(), data.elems().len() as int) as i64),
{
    if data.is_empty() {
        proof {
            reveal_strlit("sum");
        }
        return Err(RusantaError::EmptyData { context: "sum" });
    }
    let ghost s = data.elems();
    let n = data.len();
    let first = match data.get(0) {
        Ok(v) => v,
        Err(e) => {
            return Err(e);
        },
    };
    let mut acc: i64 = first.to_acc();
    proof {
        assert(acc_total(s, 0) == 0);
        assert(acc_total(s, 1) == acc as int);
    }
    let mut i: usize = 1;
    while i < n
        invariant
            s == data.elems(),
            n == s.len(),
            1 <= i <= n,
            acc_totals_fit(s),
            acc as int == acc_total(s, i as int),
        decreases n - i,
    {
        let v = match data.get(i) {
            Ok(v) => v,
            Err(e) => {
                return Err(e);
            },
        };
        proof {
            assert(i64::MIN <= acc_total(s, i + 1) <= i64::MAX);
        }
        acc = acc + v.to_acc();
        i = i + 1;
    }
    Ok(acc)
}

/// Smallest value of a dataset; the first of them where several are equal.
pub fn min<T: Numeric, D: Dataset<T>>(data: &D) -> (r: Result<T>)
    ensures
        data.elems().len() == 0 ==> (r matches Err(e) && empty_data(e, "min"@)),
        data.elems().len() > 0 ==> r == Ok::<T, RusantaError>(first_min(data.elems(), data.elems().len() as int)),
{
    if data.is_empty() {
        proof {
            reveal_strlit("min");
        }
        return Err(RusantaError::EmptyData { context: "min" });
    }
    let ghost s = data.elems();
    let n = data.len();
    let mut m = match data.get(0) {
        Ok(v) => v,
        Err(e) => {
            return Err(e);
        },
    };
    let mut i: usize = 1;
    while i < n
        invariant
            s == data.elems(),
            n == s.len(),
            1 <= i <= n,
            m == first_min(s, i as int),
        decreases n - i,
    {
        let v = match data.get(i) {
            Ok(v) => v,
            Err(e) => {
                return Err(e);
            },
        };
        if v.less_than(&m) {
            m = v;
        }
        i = i + 1;
    }
    Ok(m)
}

/// Largest value of a dataset; the first of them where several are equal.
pub fn max<T: Numeric, D: Dataset<T>>(data: &D) -> (r: Result<T>)
    ensures
        data.elems().len() == 0 ==> (r matches Err(e) && empty_data(e, "max"@)),
        data.elems().len() > 0 ==> r == Ok::<T, RusantaError>(first_max(data.elems(), data.elems().len() as int)),
{
    if data.is_empty() {
        proof {
            reveal_strlit("max");
        }
        return Err(RusantaError::EmptyData { context: "max" });
    }
    let ghost s = data.elems();
    let n = data.len();
    let mut m = match data.get(0) {
        Ok(v) => v,
        Err(e) => {
            return Err(e);
        },
    };
    let mut i: usize = 1;
    while i < n
        invariant
            s == data.elems(),
            n == s.len(),
            1 <= i <= n,
            m == first_max(s, i as int),
        decreases n - i,
    {
        let v = match data.get(i) {
            Ok(v) => v,
            Err(e) => {
                return Err(e);
            },
        };
        if m.less_than(&v) {
            m = v;
        }
        i = i + 1;
    }
    Ok(m)
}

} // verus!
