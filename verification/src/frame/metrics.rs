//! Evaluation metrics that compare predictions with targets.
use vstd::prelude::*;
use crate::base::dataset::Dataset;
use crate::base::numeric::Numeric;
use crate::frame::error::{Error, Result};

verus! {

/// A metric: compares predictions with targets and gives one score.
pub trait Metric<T: Numeric> {
    /// The inputs on which the metric is defined.
    spec fn defined_on(&self, preds: Seq<T>, targets: Seq<T>) -> bool;

    /// The score of predictions against targets of the same length.
    spec fn score(&self, preds: Seq<T>, targets: Seq<T>) -> T;

    /// Name of the metric.
    fn name(&self) -> &str;

    /// The metric is defined on these predictions and targets.
    fn accepts<Y: Dataset<T>>(&self, preds: &[T], targets: &Y) -> (r: bool)
        ensures
            r == self.defined_on(preds@, targets.elems()),
    ;

    /// The score of the predictions against the targets.
    fn compute<Y: Dataset<T>>(&self, preds: &[T], targets: &Y) -> (r: Result<T>)
        requires
            self.defined_on(preds@, targets.elems()),
        ensures
            preds@.len() != targets.elems().len() ==> (r matches Err(Error::InvalidValue(m)) && m@
                == "prediction/target length mismatch"@),
            preds@.len() == targets.elems().len() ==> r == Ok::<T, Error>(self.score(preds@, targets.elems())),
    ;
}

/// Sum of the squared differences over the first `n` pairs.
pub open spec fn squared_total(p: Seq<i64>, t: Seq<i64>, n: int) -> int
    decreases n,
{
    if n <= 0 {
        0
    } else {
        squared_total(p, t, n - 1) + (p[n - 1] - t[n - 1]) * (p[n - 1] - t[n - 1])
    }
}

/// Sum of the absolute differences over the first `n` pairs.
pub open spec fn absolute_total(p: Seq<i64>, t: Seq<i64>, n: int) -> int
    decreases n,
{
    if n <= 0 {
        0
    } else {
        absolute_total(p, t, n - 1) + if p[n - 1] < t[n - 1] { t[n - 1] - p[n - 1] } else { p[n - 1] - t[n - 1] }
    }
}

/// Number of equal pairs among the first `n`.
pub open spec fn equal_count(p: Seq<i64>, t: Seq<i64>, n: int) -> int
    decreases n,
{
    if n <= 0 {
        0
    } else {
        equal_count(p, t, n - 1) + if p[n - 1] == t[n - 1] { 1int } else { 0int }
    }
}

/// Every difference fits in an `i64`.
pub open spec fn differences_fit(p: Seq<i64>, t: Seq<i64>) -> bool {
    forall|k: int| 0 <= k < t.len() ==> i64::MIN <= #[trigger] p[k] - t[k] <= i64::MAX
}

/// The message for predictions and targets of different lengths.
pub open spec fn length_mismatch(r: Result<i64>) -> bool {
    r matches Err(Error::InvalidValue(m)) && m@ == "prediction/target length mismatch"@
}

proof fn lemma_squared_monotone(p: Seq<i64>, t: Seq<i64>, j: int, n: int)
    requires
        0 <= j <= n,
    ensures
        0 <= squared_total(p, t, j) <= squared_total(p, t, n),
    decreases n - j,
{
    if j < n {
        lemma_squared_monotone(p, t, j, n - 1);
        let d = p[n - 1] - t[n - 1];
        assert(d * d >= 0) by (nonlinear_arith);
    } else {
        lemma_squared_nonneg(p, t, n);
    }
}

proof fn lemma_squared_nonneg(p: Seq<i64>, t: Seq<i64>, n: int)
    ensures
        squared_total(p, t, n) >= 0,
    decreases n,
{
    if n > 0 {
        lemma_squared_nonneg(p, t, n - 1);
        let d = p[n - 1] - t[n - 1];
        assert(d * d >= 0) by (nonlinear_arith);
    }
}

proof fn lemma_absolute_monotone(p: Seq<i64>, t: Seq<i64>, j: int, n: int)
    requires
        0 <= j <= n,
    ensures
        0 <= absolute_total(p, t, j) <= absolute_total(p, t, n),
    decreases n - j,
{
    if j < n {
        lemma_absolute_monotone(p, t, j, n - 1);
    } else {
        lemma_absolute_nonneg(p, t, n);
    }
}

proof fn lemma_absolute_nonneg(p: Seq<i64>, t: Seq<i64>, n: int)
    ensures
        absolute_total(p, t, n) >= 0,
    decreases n,
{
    if n > 0 {
        lemma_absolute_nonneg(p, t, n - 1);
    }
}

proof fn lemma_equal_count_bound(p: Seq<i64>, t: Seq<i64>, n: int)
    requires
        0 <= n,
    ensures
        0 <= equal_count(p, t, n) <= n,
    decreases n,
{
    if n > 0 {
        lemma_equal_count_bound(p, t, n - 1);
    }
}

/// Mean squared error.
pub struct MeanSquaredError;

/// Mean absolute error.
pub struct MeanAbsoluteError;

/// Share of predictions equal to their target.
pub struct Accuracy;

impl Metric<i64> for MeanSquaredError {
    open spec fn defined_on(&self, preds: Seq<i64>, targets: Seq<i64>) -> bool {
        preds.len() == targets.len() ==> targets.len() > 0 && differences_fit(preds, targets) && squared_total(
            preds,
            targets,
            targets.len() as int,
        ) <= i64::MAX
    }

    open spec fn score(&self, preds: Seq<i64>, targets: Seq<i64>) -> i64 {
        (squared_total(preds, targets, targets.len() as int) / (targets.len() as int)) as i64
    }

    fn accepts<Y: Dataset<i64>>(&self, preds: &[i64], targets: &Y) -> (r: bool) {
        let n = targets.len();
        if preds.len() != n {
            return true;
        }
        if n == 0 {
            return false;
        }
        let ghost p = preds@;
        let ghost t = targets.elems();
        let mut acc: i128 = 0;
        let mut i: usize = 0;
        while i < n
            invariant
                p == preds@,
                t == targets.elems(),
                n == t.len(),
                p.len() == n,
                i <= n,
                forall|k: int| 0 <= k < i ==> i64::MIN <= #[trigger] p[k] - t[k] <= i64::MAX,
                acc as int == squared_total(p, t, i as int),
                0 <= acc <= i64::MAX,
            decreases n - i,
        {
            let y = match targets.get(i) {
                Ok(v) => v,
                Err(_) => {
                    proof {
                        assert(false);
                    }
                    0
                },
            };
            let d: i128 = preds[i] as i128 - y as i128;
            if d < i64::MIN as i128 || d > i64::MAX as i128 {
                proof {
                    assert(!differences_fit(p, t));
                }
                return false;
            }
            proof {
                assert(d * d <= 0x4000_0000_0000_0000_0000_0000_0000_0000) by (nonlinear_arith)
                    requires
                        i64::MIN <= d <= i64::MAX,
                ;
                assert(d * d >= 0) by (nonlinear_arith);
            }
            acc = acc + d * d;
            if acc > i64::MAX as i128 {
                proof {
                    lemma_squared_monotone(p, t, i + 1, n as int);
                }
                return false;
            }
            i = i + 1;
        }
        proof {
            assert(differences_fit(p, t));
        }
        true
    }

    fn name(&self) -> (r: &str)
        ensures
            r@ == "mean_squared_error"@,
    {
        "mean_squared_error"
    }

    /// The mean of the squared differences, truncated to an integer.
    fn compute<Y: Dataset<i64>>(&self, preds: &[i64], targets: &Y) -> (r: Result<i64>)
        ensures
            preds@.len() != targets.elems().len() ==> length_mismatch(r),
            preds@.len() == targets.elems().len() ==> r == Ok::<i64, Error>(
                (squared_total(preds@, targets.elems(), targets.elems().len() as int) / (targets.elems().len() as int)) as i64,
            ),
    {
        let n = targets.len();
        if preds.len() != n {
            return Err(Error::InvalidValue(String::from_str("prediction/target length mismatch")));
        }
        let ghost p = preds@;
        let ghost t = targets.elems();
        let mut acc: i64 = 0;
        let mut i: usize = 0;
        while i < n
            invariant
                p == preds@,
                t == targets.elems(),
                n == t.len(),
                p.len() == n,
                n > 0,
                differences_fit(p, t),
                squared_total(p, t, n as int) <= i64::MAX,
                i <= n,
                acc as int == squared_total(p, t, i as int),
            decreases n - i,
        {
            let y = match targets.get(i) {
                Ok(v) => v,
                Err(_) => {
                    proof {
                        assert(false);
                    }
                    0
                },
            };
            proof {
                assert(i64::MIN <= p[i as int] - t[i as int] <= i64::MAX);
                lemma_squared_monotone(p, t, i + 1, n as int);
                lemma_squared_nonneg(p, t, i as int);
                let d = p[i as int] - t[i as int];
                assert(d * d >= 0) by (nonlinear_arith);
            }
            let diff = preds[i] - y;
            acc = acc + diff * diff;
            i = i + 1;
        }
        proof {
            lemma_squared_nonneg(p, t, n as int);
        }
        Ok(((acc as u64) / (n as u64)) as i64)
    }
}

impl Metric<i64> for MeanAbsoluteError {
    open spec fn defined_on(&self, preds: Seq<i64>, targets: Seq<i64>) -> bool {
        preds.len() == targets.len() ==> targets.len() > 0 && differences_fit(preds, targets) && absolute_total(
            preds,
            targets,
            targets.len() as int,
        ) <= i64::MAX
    }

    open spec fn score(&self, preds: Seq<i64>, targets: Seq<i64>) -> i64 {
        (absolute_total(preds, targets, targets.len() as int) / (targets.len() as int)) as i64
    }

    fn accepts<Y: Dataset<i64>>(&self, preds: &[i64], targets: &Y) -> (r: bool) {
        let n = targets.len();
        if preds.len() != n {
            return true;
        }
        if n == 0 {
            return false;
        }
        let ghost p = preds@;
        let ghost t = targets.elems();
        let mut acc: i128 = 0;
        let mut i: usize = 0;
        while i < n
            invariant
                p == preds@,
                t == targets.elems(),
                n == t.len(),
                p.len() == n,
                i <= n,
                forall|k: int| 0 <= k < i ==> i64::MIN <= #[trigger] p[k] - t[k] <= i64::MAX,
                acc as int == absolute_total(p, t, i as int),
                0 <= acc <= i64::MAX,
            decreases n - i,
        {
            let y = match targets.get(i) {
                Ok(v) => v,
                Err(_) => {
                    proof {
                        assert(false);
                    }
                    0
                },
            };
            let d: i128 = preds[i] as i128 - y as i128;
            if d < i64::MIN as i128 || d > i64::MAX as i128 {
                proof {
                    assert(!differences_fit(p, t));
                }
                return false;
            }
            let magnitude: i128 = if d < 0 { -d } else { d };
            acc = acc + magnitude;
            if acc > i64::MAX as i128 {
                proof {
                    lemma_absolute_monotone(p, t, i + 1, n as int);
                }
                return false;
            }
            i = i + 1;
        }
        proof {
            assert(differences_fit(p, t));
        }
        true
    }

    fn name(&self) -> (r: &str)
        ensures
            r@ == "mean_absolute_error"@,
    {
        "mean_absolute_error"
    }

    /// The mean of the absolute differences, truncated to an integer.
    fn compute<Y: Dataset<i64>>(&self, preds: &[i64], targets: &Y) -> (r: Result<i64>)
        ensures
            preds@.len() != targets.elems().len() ==> length_mismatch(r),
            preds@.len() == targets.elems().len() ==> r == Ok::<i64, Error>(
                (absolute_total(preds@, targets.elems(), targets.elems().len() as int) / (targets.elems().len() as int)) as i64,
            ),
    {
        let n = targets.len();
        if preds.len() != n {
            return Err(Error::InvalidValue(String::from_str("prediction/target length mismatch")));
        }
        let ghost p = preds@;
        let ghost t = targets.elems();
        let mut acc: i64 = 0;
        let mut i: usize = 0;
        while i < n
            invariant
                p == preds@,
                t == targets.elems(),
                n == t.len(),
                p.len() == n,
                n > 0,
                differences_fit(p, t),
                absolute_total(p, t, n as int) <= i64::MAX,
                i <= n,
                acc as int == absolute_total(p, t, i as int),
            decreases n - i,
        {
            let y = match targets.get(i) {
                Ok(v) => v,
                Err(_) => {
                    proof {
                        assert(false);
                    }
                    0
                },
            };
            proof {
                assert(i64::MIN <= p[i as int] - t[i as int] <= i64::MAX);
                lemma_absolute_monotone(p, t, i + 1, n as int);
                lemma_absolute_nonneg(p, t, i as int);
            }
            let diff = preds[i] - y;
            let magnitude = if diff < 0 { -diff } else { diff };
            acc = acc + magnitude;
            i = i + 1;
        }
        proof {
            lemma_absolute_nonneg(p, t, n as int);
        }
        Ok(((acc as u64) / (n as u64)) as i64)
    }
}

impl Metric<i64> for Accuracy {
    open spec fn defined_on(&self, preds: Seq<i64>, targets: Seq<i64>) -> bool {
        preds.len() == targets.len() ==> 0 < targets.len() <= i64::MAX
    }

    open spec fn score(&self, preds: Seq<i64>, targets: Seq<i64>) -> i64 {
        (equal_count(preds, targets, targets.len() as int) / (targets.len() as int)) as i64
    }

    fn accepts<Y: Dataset<i64>>(&self, preds: &[i64], targets: &Y) -> (r: bool) {
        let n = targets.len();
        preds.len() != n || (0 < n && (n as u64) <= (i64::MAX as u64))
    }

    fn name(&self) -> (r: &str)
        ensures
            r@ == "accuracy"@,
    {
        "accuracy"
    }

    /// Number of equal pairs divided by the number of pairs, in integers.
    fn compute<Y: Dataset<i64>>(&self, preds: &[i64], targets: &Y) -> (r: Result<i64>)
        ensures
            preds@.len() != targets.elems().len() ==> length_mismatch(r),
            preds@.len() == targets.elems().len() ==> r == Ok::<i64, Error>(
                (equal_count(preds@, targets.elems(), targets.elems().len() as int) / (targets.elems().len() as int)) as i64,
            ),
    {
        let n = targets.len();
        if preds.len() != n {
            return Err(Error::InvalidValue(String::from_str("prediction/target length mismatch")));
        }
        let ghost p = preds@;
        let ghost t = targets.elems();
        let mut correct: usize = 0;
        let mut i: usize = 0;
        while i < n
            invariant
                p == preds@,
                t == targets.elems(),
                n == t.len(),
                p.len() == n,
                0 < n <= i64::MAX,
                i <= n,
                correct as int == equal_count(p, t, i as int),
            decreases n - i,
        {
            let y = match targets.get(i) {
                Ok(v) => v,
                Err(_) => {
                    proof {
                        assert(false);
                    }
                    0
                },
            };
            proof {
                lemma_equal_count_bound(p, t, i as int);
            }
            if preds[i] == y {
                correct = correct + 1;
            }
            i = i + 1;
        }
        proof {
            lemma_equal_count_bound(p, t, n as int);
        }
        Ok((correct as i64) / (n as i64))
    }
}

/// The sum of a sequence of integers, added up from the left.
pub open spec fn total_of(s: Seq<int>) -> int {
    s.fold_left(0int, |acc: int, x: int| acc + x)
}

/// The absolute value of an integer.
pub open spec fn magnitude(x: int) -> int {
    if x < 0 {
        -x
    } else {
        x
    }
}

/// A sum is the sum of all but the last element, plus the last.
pub proof fn lemma_total_of_step(s: Seq<int>)
    requires
        s.len() > 0,
    ensures
        total_of(s) == total_of(s.drop_last()) + s.last(),
{
}

proof fn lemma_absolute_total_is_sum(p: Seq<i64>, t: Seq<i64>, n: int)
    requires
        0 <= n,
    ensures
        absolute_total(p, t, n) == total_of(Seq::new(n as nat, |k: int| magnitude(p[k] - t[k]))),
    decreases n,
{
    let s = Seq::new(n as nat, |k: int| magnitude(p[k] - t[k]));
    if n > 0 {
        lemma_absolute_total_is_sum(p, t, n - 1);
        assert(s.drop_last() =~= Seq::new((n - 1) as nat, |k: int| magnitude(p[k] - t[k])));
        lemma_total_of_step(s);
    }
}

proof fn lemma_squared_total_is_sum(p: Seq<i64>, t: Seq<i64>, n: int)
    requires
        0 <= n,
    ensures
        squared_total(p, t, n) == total_of(Seq::new(n as nat, |k: int| (p[k] - t[k]) * (p[k] - t[k]))),
    decreases n,
{
    let s = Seq::new(n as nat, |k: int| (p[k] - t[k]) * (p[k] - t[k]));
    if n > 0 {
        lemma_squared_total_is_sum(p, t, n - 1);
        assert(s.drop_last() =~= Seq::new((n - 1) as nat, |k: int| (p[k] - t[k]) * (p[k] - t[k])));
        lemma_total_of_step(s);
    }
}

proof fn lemma_equal_count_is_sum(p: Seq<i64>, t: Seq<i64>, n: int)
    requires
        0 <= n,
    ensures
        equal_count(p, t, n) == total_of(Seq::new(n as nat, |k: int| if p[k] == t[k] { 1int } else { 0int })),
    decreases n,
{
    let s = Seq::new(n as nat, |k: int| if p[k] == t[k] { 1int } else { 0int });
    if n > 0 {
        lemma_equal_count_is_sum(p, t, n - 1);
        assert(s.drop_last() =~= Seq::new((n - 1) as nat, |k: int| if p[k] == t[k] { 1int } else { 0int }));
        lemma_total_of_step(s);
    }
}

/// The mean absolute error of predictions against targets of the same,
/// non-zero length is the sum of `|p[k] - t[k]|` over all pairs, divided by
/// the number of pairs (rounded down).
pub proof fn lemma_mean_absolute_error_is_mean(p: Seq<i64>, t: Seq<i64>)
    requires
        p.len() == t.len(),
        t.len() > 0,
    ensures
        MeanAbsoluteError.score(p, t) == (total_of(Seq::new(t.len(), |k: int| magnitude(p[k] - t[k]))) / (
        t.len() as int)) as i64,
{
    lemma_absolute_total_is_sum(p, t, t.len() as int);
}

/// The mean squared error of predictions against targets of the same,
/// non-zero length is the sum of `(p[k] - t[k])^2` over all pairs, divided
/// by the number of pairs (rounded down).
pub proof fn lemma_mean_squared_error_is_mean(p: Seq<i64>, t: Seq<i64>)
    requires
        p.len() == t.len(),
        t.len() > 0,
    ensures
        MeanSquaredError.score(p, t) == (total_of(Seq::new(t.len(), |k: int| (p[k] - t[k]) * (p[k] - t[k])))
            / (t.len() as int)) as i64,
{
    lemma_squared_total_is_sum(p, t, t.len() as int);
}

/// The accuracy of predictions against targets of the same, non-zero length
/// is the number of pairs with `p[k] == t[k]`, divided by the number of pairs
/// (rounded down).
pub proof fn lemma_accuracy_is_share(p: Seq<i64>, t: Seq<i64>)
    requires
        p.len() == t.len(),
        t.len() > 0,
    ensures
        Accuracy.score(p, t) == (total_of(Seq::new(t.len(), |k: int| if p[k] == t[k] { 1int } else { 0int }))
            / (t.len() as int)) as i64,
{
    lemma_equal_count_is_sum(p, t, t.len() as int);
}

/// The error totals add up over the pairs: those of two runs of predictions
/// and targets, placed one after the other, are the sums of their totals.
pub proof fn lemma_error_totals_add(p1: Seq<i64>, t1: Seq<i64>, p2: Seq<i64>, t2: Seq<i64>)
    requires
        p1.len() == t1.len(),
        p2.len() == t2.len(),
    ensures
        absolute_total(p1 + p2, t1 + t2, (t1.len() + t2.len()) as int) == absolute_total(p1, t1, t1.len() as int)
            + absolute_total(p2, t2, t2.len() as int),
        squared_total(p1 + p2, t1 + t2, (t1.len() + t2.len()) as int) == squared_total(p1, t1, t1.len() as int)
            + squared_total(p2, t2, t2.len() as int),
        equal_count(p1 + p2, t1 + t2, (t1.len() + t2.len()) as int) == equal_count(p1, t1, t1.len() as int)
            + equal_count(p2, t2, t2.len() as int),
    decreases t2.len(),
{
    let n1 = t1.len() as int;
    let n2 = t2.len() as int;
    if n2 == 0 {
        lemma_totals_prefix(p1 + p2, t1 + t2, p1, t1, n1);
    } else {
        let q2 = p2.drop_last();
        let u2 = t2.drop_last();
        lemma_error_totals_add(p1, t1, q2, u2);
        lemma_totals_prefix(p1 + p2, t1 + t2, p1 + q2, t1 + u2, n1 + n2 - 1);
        lemma_totals_prefix(p2, t2, q2, u2, n2 - 1);
        assert((p1 + p2)[n1 + n2 - 1] == p2[n2 - 1]);
        assert((t1 + t2)[n1 + n2 - 1] == t2[n2 - 1]);
    }
}

/// The totals over the first `n` pairs depend only on those pairs.
proof fn lemma_totals_prefix(p1: Seq<i64>, t1: Seq<i64>, p2: Seq<i64>, t2: Seq<i64>, n: int)
    requires
        0 <= n,
        n <= p1.len() && n <= t1.len() && n <= p2.len() && n <= t2.len(),
        forall|k: int| 0 <= k < n ==> p1[k] == p2[k] && t1[k] == t2[k],
    ensures
        absolute_total(p1, t1, n) == absolute_total(p2, t2, n),
        squared_total(p1, t1, n) == squared_total(p2, t2, n),
        equal_count(p1, t1, n) == equal_count(p2, t2, n),
    decreases n,
{
    if n > 0 {
        lemma_totals_prefix(p1, t1, p2, t2, n - 1);
    }
}

} // verus!
