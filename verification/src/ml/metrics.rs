//! Classification counts.
use vstd::prelude::*;

verus! {

/// Counts of the four outcomes over the first `n` pairs, as
/// (true positives, false positives, false negatives, true negatives).
pub open spec fn outcome_counts(t: Seq<i64>, p: Seq<i64>, positive: i64, n: int) -> (nat, nat, nat, nat)
    decreases n,
{
    if n <= 0 {
        (0, 0, 0, 0)
    } else {
        let (tp, fp, fneg, tn) = outcome_counts(t, p, positive, n - 1);
        let actual = t[n - 1] == positive;
        let predicted = p[n - 1] == positive;
        if actual && predicted {
            (tp + 1, fp, fneg, tn)
        } else if !actual && predicted {
            (tp, fp + 1, fneg, tn)
        } else if actual && !predicted {
            (tp, fp, fneg + 1, tn)
        } else {
            (tp, fp, fneg, tn + 1)
        }
    }
}

/// The four counts add up to the number of pairs.
pub proof fn lemma_counts_total(t: Seq<i64>, p: Seq<i64>, positive: i64, n: int)
    requires
        0 <= n,
    ensures
        ({
            let (a, b, c, d) = outcome_counts(t, p, positive, n);
            a + b + c + d == n
        }),
    decreases n,
{
    if n > 0 {
        lemma_counts_total(t, p, positive, n - 1);
    }
}

/// Confusion counts of a binary classification against the positive label:
/// (true positives, false positives, false negatives, true negatives).
pub fn confusion_matrix(y_true: &[i64], y_pred: &[i64], positive: &i64) -> (r: (usize, usize, usize, usize))
    requires
        y_true@.len() == y_pred@.len(),
    ensures
        (r.0 as nat, r.1 as nat, r.2 as nat, r.3 as nat) == outcome_counts(y_true@, y_pred@, *positive, y_true@.len() as int),
{
    let n = y_true.len();
    let mut tp: usize = 0;
    let mut fp: usize = 0;
    let mut fneg: usize = 0;
    let mut tn: usize = 0;
    let mut i: usize = 0;
    while i < n
        invariant
            n == y_true@.len(),
            n == y_pred@.len(),
            i <= n,
            (tp as nat, fp as nat, fneg as nat, tn as nat) == outcome_counts(y_true@, y_pred@, *positive, i as int),
        decreases n - i,
    {
        proof {
            lemma_counts_total(y_true@, y_pred@, *positive, i as int);
        }
        let actual = y_true[i] == *positive;
        let predicted = y_pred[i] == *positive;
        if actual && predicted {
            tp = tp + 1;
        } else if !actual && predicted {
            fp = fp + 1;
        } else if actual && !predicted {
            fneg = fneg + 1;
        } else {
            tn = tn + 1;
        }
        i = i + 1;
    }
    (tp, fp, fneg, tn)
}

} // verus!
