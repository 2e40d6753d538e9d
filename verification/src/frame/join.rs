//! Joining two DataFrames on a key column.
use vstd::prelude::*;
use crate::frame::dataframe::DataFrame;
use crate::frame::error::{Error, Result};
use crate::frame::index::{Index, distinct_labels, distinct_strings, range_labels};
use crate::frame::series::Series;
use crate::frame::text::same_text;

verus! {

/// Which rows a join keeps.
#[derive(Debug, Clone, Copy)]
pub enum JoinType {
    /// Rows whose key occurs on both sides.
    Inner,
    /// Every left row, matched with its right partners.
    Left,
    /// Every right row, matched with its left partners.
    Right,
}

/// Positions `p < n` of `s` with `s[p] == v`, ascending.
pub open spec fn positions_of(s: Seq<i64>, v: i64, n: int) -> Seq<usize>
    decreases n,
{
    if n <= 0 {
        Seq::empty()
    } else if s[n - 1] == v {
        positions_of(s, v, n - 1).push((n - 1) as usize)
    } else {
        positions_of(s, v, n - 1)
    }
}

/// The output row made of driving row `i` and its partner `j`, as
/// (left row, right row).
pub open spec fn matched_pair(how: JoinType, i: usize, j: usize) -> (Option<usize>, Option<usize>) {
    if how is Right {
        (Some(j), Some(i))
    } else {
        (Some(i), Some(j))
    }
}

/// The output rows of a driving row `i` without partner.
pub open spec fn unmatched(how: JoinType, i: usize) -> Seq<(Option<usize>, Option<usize>)> {
    match how {
        JoinType::Inner => Seq::empty(),
        JoinType::Left => seq![(Some(i), None)],
        JoinType::Right => seq![(None, Some(i))],
    }
}

/// Number of driving rows: right rows for a right join, left rows otherwise.
pub open spec fn driving_len(lk: Seq<i64>, rk: Seq<i64>, how: JoinType) -> int {
    if how is Right {
        rk.len() as int
    } else {
        lk.len() as int
    }
}

/// The output rows of driving row `i`: one per partner, in ascending order of
/// the partner's position, or the unmatched rows when it has none.
pub open spec fn row_block(lk: Seq<i64>, rk: Seq<i64>, how: JoinType, i: int) -> Seq<(Option<usize>, Option<usize>)> {
    let v = if how is Right { rk[i] } else { lk[i] };
    let other = if how is Right { lk } else { rk };
    let m = positions_of(other, v, other.len() as int);
    if m.len() > 0 {
        m.map_values(|j: usize| matched_pair(how, i as usize, j))
    } else {
        unmatched(how, i as usize)
    }
}

/// Output rows of the first `n` driving rows.
pub open spec fn pairs_upto(lk: Seq<i64>, rk: Seq<i64>, how: JoinType, n: int) -> Seq<(Option<usize>, Option<usize>)>
    decreases n,
{
    if n <= 0 {
        Seq::empty()
    } else {
        pairs_upto(lk, rk, how, n - 1) + row_block(lk, rk, how, n - 1)
    }
}

/// All output rows of a join of the key columns `lk` and `rk`, as
/// (left row, right row); `None` where a row has no partner.
pub open spec fn join_pairs(lk: Seq<i64>, rk: Seq<i64>, how: JoinType) -> Seq<(Option<usize>, Option<usize>)> {
    pairs_upto(lk, rk, how, driving_len(lk, rk, how))
}

/// Positions of the first `n` names other than the key, ascending.
pub open spec fn kept_columns(names: Seq<Seq<char>>, key: Seq<char>, n: int) -> Seq<usize>
    decreases n,
{
    if n <= 0 {
        Seq::empty()
    } else if names[n - 1] != key {
        kept_columns(names, key, n - 1).push((n - 1) as usize)
    } else {
        kept_columns(names, key, n - 1)
    }
}

/// Name of a right column in the output: suffixed with `_right` when the left
/// side has a column of that name.
pub open spec fn right_name(left_names: Seq<Seq<char>>, c: Seq<char>) -> Seq<char> {
    if left_names.contains(c) {
        c + "_right"@
    } else {
        c
    }
}

/// Output column names: the left non-key columns, then the right ones.
pub open spec fn joined_names(ln: Seq<Seq<char>>, rn: Seq<Seq<char>>, key: Seq<char>) -> Seq<Seq<char>> {
    let lc = kept_columns(ln, key, ln.len() as int);
    let rc = kept_columns(rn, key, rn.len() as int);
    Seq::new(lc.len(), |i: int| ln[lc[i] as int]) + Seq::new(rc.len(), |i: int| right_name(ln, rn[rc[i] as int]))
}

/// Some output row lacks a partner on a side that has columns to fill.
pub open spec fn has_null(pairs: Seq<(Option<usize>, Option<usize>)>, left_cols: nat, right_cols: nat) -> bool {
    exists|t: int|
        0 <= t < pairs.len() && ((#[trigger] pairs[t]).0 is None && left_cols > 0 || pairs[t].1 is None && right_cols > 0)
}

/// The row of one side of an output row.
pub open spec fn side(p: (Option<usize>, Option<usize>), right: bool) -> Option<usize> {
    if right {
        p.1
    } else {
        p.0
    }
}

/// Values of output column `c`.
pub open spec fn joined_values(
    left: DataFrame<i64>,
    right: DataFrame<i64>,
    key: Seq<char>,
    pairs: Seq<(Option<usize>, Option<usize>)>,
    c: int,
) -> Seq<i64> {
    let lc = kept_columns(left.names(), key, left.names().len() as int);
    let rc = kept_columns(right.names(), key, right.names().len() as int);
    if c < lc.len() {
        Seq::new(pairs.len(), |t: int| left.series()[lc[c] as int].values_view()[pairs[t].0->Some_0 as int])
    } else {
        Seq::new(
            pairs.len(),
            |t: int| right.series()[rc[c - lc.len()] as int].values_view()[pairs[t].1->Some_0 as int],
        )
    }
}

/// The rows of a join fit the index limit.
pub open spec fn join_fits(left: DataFrame<i64>, right: DataFrame<i64>, key: Seq<char>, how: JoinType) -> bool {
    left.names().contains(key) && right.names().contains(key) ==> join_pairs(
        left.column_values(key),
        right.column_values(key),
        how,
    ).len() <= isize::MAX
}

/// What `join` returns.
pub open spec fn join_result(
    left: DataFrame<i64>,
    right: DataFrame<i64>,
    key: Seq<char>,
    how: JoinType,
    r: Result<DataFrame<i64>>,
) -> bool {
    if !left.names().contains(key) {
        r matches Err(Error::KeyNotFound(m)) && m@ == "left key '"@ + key + "' not found"@
    } else if !right.names().contains(key) {
        r matches Err(Error::KeyNotFound(m)) && m@ == "right key '"@ + key + "' not found"@
    } else {
        let pairs = join_pairs(left.column_values(key), right.column_values(key), how);
        let lcn = kept_columns(left.names(), key, left.names().len() as int).len();
        let rcn = kept_columns(right.names(), key, right.names().len() as int).len();
        let names = joined_names(left.names(), right.names(), key);
        if has_null(pairs, lcn, rcn) {
            r matches Err(Error::InvalidValue(m)) && m@ == "null values not supported yet"@
        } else if pairs.len() > 0 && !distinct_labels(names) {
            r matches Err(Error::InvalidValue(m)) && m@ == "data length does not match index length"@
        } else if pairs.len() == 0 || names.len() == 0 {
            r matches Ok(df) && df.names() == Seq::<Seq<char>>::empty() && df.index_view() == Seq::<
                Seq<char>,
            >::empty()
        } else {
            r matches Ok(df) && df.names() == names && df.index_view() == range_labels(pairs.len())
                && df.series().len() == names.len() && forall|c: int|
                0 <= c < names.len() ==> (#[trigger] df.series()[c]).values_view() == joined_values(
                    left,
                    right,
                    key,
                    pairs,
                    c,
                ) && df.series()[c].name_view() == Some(names[c])
        }
    }
}

/// Every position listed is below `n` and holds `v`.
pub proof fn lemma_positions_of(s: Seq<i64>, v: i64, n: int)
    requires
        0 <= n <= s.len(),
        s.len() <= usize::MAX,
    ensures
        forall|k: int|
            0 <= k < positions_of(s, v, n).len() ==> (#[trigger] positions_of(s, v, n)[k]) < n && s[positions_of(
                s,
                v,
                n,
            )[k] as int] == v,
    decreases n,
{
    if n > 0 {
        lemma_positions_of(s, v, n - 1);
        let prev = positions_of(s, v, n - 1);
        assert forall|k: int| 0 <= k < positions_of(s, v, n).len() implies (#[trigger] positions_of(s, v, n)[k]) < n
            && s[positions_of(s, v, n)[k] as int] == v by {
            if k < prev.len() {
                assert(positions_of(s, v, n)[k] == prev[k]);
            }
        }
    }
}

/// Every position listed is below `n` and names a column other than the key.
pub proof fn lemma_kept_columns(names: Seq<Seq<char>>, key: Seq<char>, n: int)
    requires
        0 <= n <= names.len(),
        names.len() <= usize::MAX,
    ensures
        forall|k: int|
            0 <= k < kept_columns(names, key, n).len() ==> (#[trigger] kept_columns(names, key, n)[k]) < n
                && names[kept_columns(names, key, n)[k] as int] != key,
    decreases n,
{
    if n > 0 {
        lemma_kept_columns(names, key, n - 1);
        let prev = kept_columns(names, key, n - 1);
        assert forall|k: int| 0 <= k < kept_columns(names, key, n).len() implies (#[trigger] kept_columns(names, key, n)[k])
            < n && names[kept_columns(names, key, n)[k] as int] != key by {
            if k < prev.len() {
                assert(kept_columns(names, key, n)[k] == prev[k]);
            }
        }
    }
}

/// A row on either side lies within that side's rows.
pub open spec fn pair_in_range(p: (Option<usize>, Option<usize>), ln: nat, rn: nat) -> bool {
    &&& (p.0 matches Some(j) ==> j < ln)
    &&& (p.1 matches Some(j) ==> j < rn)
}

/// Every output row refers to rows that exist.
pub proof fn lemma_pairs_in_range(lk: Seq<i64>, rk: Seq<i64>, how: JoinType, n: int)
    requires
        0 <= n <= driving_len(lk, rk, how),
        lk.len() <= usize::MAX,
        rk.len() <= usize::MAX,
    ensures
        forall|t: int|
            0 <= t < pairs_upto(lk, rk, how, n).len() ==> pair_in_range(
                #[trigger] pairs_upto(lk, rk, how, n)[t],
                lk.len(),
                rk.len(),
            ),
    decreases n,
{
    if n > 0 {
        lemma_pairs_in_range(lk, rk, how, n - 1);
        let i = n - 1;
        let prev = pairs_upto(lk, rk, how, n - 1);
        let block = row_block(lk, rk, how, i);
        let v = if how is Right { rk[i] } else { lk[i] };
        let other = if how is Right { lk } else { rk };
        lemma_positions_of(other, v, other.len() as int);
        assert forall|t: int| 0 <= t < block.len() implies pair_in_range(#[trigger] block[t], lk.len(), rk.len()) by {
        }
        assert forall|t: int| 0 <= t < pairs_upto(lk, rk, how, n).len() implies pair_in_range(
            #[trigger] pairs_upto(lk, rk, how, n)[t],
            lk.len(),
            rk.len(),
        ) by {
            if t < prev.len() {
                assert(pairs_upto(lk, rk, how, n)[t] == prev[t]);
            } else {
                assert(pairs_upto(lk, rk, how, n)[t] == block[t - prev.len()]);
            }
        }
    }
}

/// Builds the output rows of a join of the key columns.
fn build_pairs(lk: &Vec<i64>, rk: &Vec<i64>, how: JoinType) -> (pairs: Vec<(Option<usize>, Option<usize>)>)
    ensures
        pairs@ == join_pairs(lk@, rk@, how),
{
    let right_driven = match how {
        JoinType::Right => true,
        _ => false,
    };
    let driving: &Vec<i64> = if right_driven { rk } else { lk };
    let other: &Vec<i64> = if right_driven { lk } else { rk };
    let n = driving.len();
    let mut pairs: Vec<(Option<usize>, Option<usize>)> = Vec::new();
    let mut i: usize = 0;
    while i < n
        invariant
            right_driven == (how is Right),
            driving@ == (if how is Right { rk@ } else { lk@ }),
            other@ == (if how is Right { lk@ } else { rk@ }),
            n == driving_len(lk@, rk@, how),
            i <= n,
            pairs@ == pairs_upto(lk@, rk@, how, i as int),
        decreases n - i,
    {
        let v = driving[i];
        let ghost before = pairs@;
        let m = other.len();
        let mut found = false;
        let mut j: usize = 0;
        while j < m
            invariant
                right_driven == (how is Right),
                m == other@.len(),
                j <= m,
                i < n,
                found == (positions_of(other@, v, j as int).len() > 0),
                pairs@ == before + positions_of(other@, v, j as int).map_values(
                    |q: usize| matched_pair(how, i, q),
                ),
            decreases m - j,
        {
            let ghost done = positions_of(other@, v, j as int);
            if other[j] == v {
                let p = if right_driven { (Some(j), Some(i)) } else { (Some(i), Some(j)) };
                pairs.push(p);
                found = true;
                proof {
                    assert(positions_of(other@, v, j + 1) == done.push(j));
                    assert(done.push(j).map_values(|q: usize| matched_pair(how, i, q)) =~= done.map_values(
                        |q: usize| matched_pair(how, i, q),
                    ).push(matched_pair(how, i, j)));
                    assert(pairs@ =~= before + positions_of(other@, v, j + 1).map_values(
                        |q: usize| matched_pair(how, i, q),
                    ));
                }
            } else {
                proof {
                    assert(positions_of(other@, v, j + 1) == done);
                }
            }
            j = j + 1;
        }
        let ghost block = row_block(lk@, rk@, how, i as int);
        if !found {
            proof {
                assert(positions_of(other@, v, m as int).map_values(|q: usize| matched_pair(how, i, q))
                    =~= Seq::<(Option<usize>, Option<usize>)>::empty());
            }
            match how {
                JoinType::Inner => {},
                JoinType::Left => {
                    pairs.push((Some(i), None));
                },
                JoinType::Right => {
                    pairs.push((None, Some(i)));
                },
            }
            proof {
                assert(pairs@ =~= before + block);
            }
        }
        proof {
            assert(pairs@ =~= before + block);
            assert(pairs_upto(lk@, rk@, how, i + 1) == pairs_upto(lk@, rk@, how, i as int) + block);
        }
        i = i + 1;
    }
    pairs
}

/// Positions of the columns other than the key.
fn kept_positions(names: &Vec<&String>, key: &str, Ghost(spec_names): Ghost<Seq<Seq<char>>>) -> (r: Vec<usize>)
    requires
        names@.len() == spec_names.len(),
        forall|k: int| 0 <= k < names@.len() ==> #[trigger] names@[k]@ == spec_names[k],
    ensures
        r@ == kept_columns(spec_names, key@, spec_names.len() as int),
{
    let mut out: Vec<usize> = Vec::new();
    let mut p: usize = 0;
    while p < names.len()
        invariant
            p <= names@.len(),
            names@.len() == spec_names.len(),
            forall|k: int| 0 <= k < names@.len() ==> #[trigger] names@[k]@ == spec_names[k],
            out@ == kept_columns(spec_names, key@, p as int),
        decreases names@.len() - p,
    {
        if !same_text(names[p], key) {
            out.push(p);
        }
        p = p + 1;
    }
    out
}

/// The values of `src` at one side's rows of the output rows.
fn gather_side(src: &Vec<i64>, pairs: &Vec<(Option<usize>, Option<usize>)>, right: bool) -> (out: Vec<i64>)
    requires
        forall|t: int|
            0 <= t < pairs@.len() ==> (side(#[trigger] pairs@[t], right) matches Some(j) && j < src@.len()),
    ensures
        out@ == Seq::new(pairs@.len(), |t: int| src@[side(pairs@[t], right)->Some_0 as int]),
{
    let mut out: Vec<i64> = Vec::new();
    let mut t: usize = 0;
    while t < pairs.len()
        invariant
            t <= pairs@.len(),
            forall|u: int|
                0 <= u < pairs@.len() ==> (side(#[trigger] pairs@[u], right) matches Some(j) && j < src@.len()),
            out@ == Seq::new(t as nat, |u: int| src@[side(pairs@[u], right)->Some_0 as int]),
        decreases pairs@.len() - t,
    {
        let ghost pt = pairs@[t as int];
        assert(side(pt, right) matches Some(j) && j < src@.len());
        let row = if right { pairs[t].1 } else { pairs[t].0 };
        let j = match row {
            Some(j) => j,
            None => 0,
        };
        out.push(src[j]);
        t = t + 1;
        proof {
            assert(out@ =~= Seq::new(t as nat, |u: int| src@[side(pairs@[u], right)->Some_0 as int]));
        }
    }
    out
}

/// Joins two DataFrames on the key column. The key column leaves the output;
/// the other columns of both sides stay, the right ones suffixed with `_right`
/// where the left side has a column of the same name.
#[verifier::loop_isolation(false)]
pub fn join(left: &DataFrame<i64>, right: &DataFrame<i64>, key: &str, how: JoinType) -> (r: Result<DataFrame<i64>>)
    requires
        join_fits(*left, *right, key@, how),
    ensures
        join_result(*left, *right, key@, how, r),
{
    if !left.has_column(key) {
        let mut m = String::from_str("left key '");
        m.append(key);
        m.append("' not found");
        return Err(Error::KeyNotFound(m));
    }
    if !right.has_column(key) {
        let mut m = String::from_str("right key '");
        m.append(key);
        m.append("' not found");
        return Err(Error::KeyNotFound(m));
    }
    proof {
        use_type_invariant(left);
        use_type_invariant(right);
    }
    let lkey = match left.column(key) {
        Ok(s) => s,
        Err(e) => return Err(e),
    };
    let rkey = match right.column(key) {
        Ok(s) => s,
        Err(e) => return Err(e),
    };
    let lrows = lkey.len();
    let rrows = rkey.len();
    let lk = lkey.to_vec();
    let rk = rkey.to_vec();
    let pairs = build_pairs(&lk, &rk, how);
    let ghost spairs = pairs@;
    let rows = pairs.len();
    let lnames = left.columns();
    let rnames = right.columns();
    let lcount = lnames.len();
    let rcount = rnames.len();
    let lc = kept_positions(&lnames, key, Ghost(left.names()));
    let rc = kept_positions(&rnames, key, Ghost(right.names()));
    let lcn = lc.len();
    let rcn = rc.len();
    proof {
        lemma_pairs_in_range(lk@, rk@, how, driving_len(lk@, rk@, how));
        lemma_kept_columns(left.names(), key@, left.names().len() as int);
        lemma_kept_columns(right.names(), key@, right.names().len() as int);
    }
    let mut t: usize = 0;
    while t < rows
        invariant
            rows == spairs.len(),
            pairs@ == spairs,
            t <= rows,
            forall|u: int|
                0 <= u < t ==> !((#[trigger] spairs[u]).0 is None && lcn > 0 || spairs[u].1 is None && rcn > 0),
        decreases rows - t,
    {
        let lmissing = match pairs[t].0 {
            Some(_) => false,
            None => true,
        };
        let rmissing = match pairs[t].1 {
            Some(_) => false,
            None => true,
        };
        if lmissing && lcn > 0 || rmissing && rcn > 0 {
            return Err(Error::InvalidValue(String::from_str("null values not supported yet")));
        }
        t = t + 1;
    }
    let ghost names = joined_names(left.names(), right.names(), key@);
    let mut out_names: Vec<String> = Vec::new();
    let mut c: usize = 0;
    while c < lcn
        invariant
            c <= lcn,
            lcn == lc@.len(),
            lc@ == kept_columns(left.names(), key@, left.names().len() as int),
            forall|k: int| 0 <= k < lc@.len() ==> (#[trigger] lc@[k]) < left.names().len(),
            lnames@.len() == left.names().len(),
            forall|k: int| 0 <= k < lnames@.len() ==> #[trigger] lnames@[k]@ == left.names()[k],
            out_names@.len() == c,
            forall|k: int| 0 <= k < c ==> #[trigger] out_names@[k]@ == names[k],
        decreases lcn - c,
    {
        out_names.push(lnames[lc[c]].clone());
        c = c + 1;
    }
    let mut c: usize = 0;
    while c < rcn
        invariant
            c <= rcn,
            rcn == rc@.len(),
            rc@ == kept_columns(right.names(), key@, right.names().len() as int),
            forall|k: int| 0 <= k < rc@.len() ==> (#[trigger] rc@[k]) < right.names().len(),
            rnames@.len() == right.names().len(),
            forall|k: int| 0 <= k < rnames@.len() ==> #[trigger] rnames@[k]@ == right.names()[k],
            out_names@.len() == lcn + c,
            forall|k: int| 0 <= k < lcn + c ==> #[trigger] out_names@[k]@ == names[k],
        decreases rcn - c,
    {
        let name: &String = rnames[rc[c]];
        let mut renamed = name.clone();
        if left.has_column(name.as_str()) {
            renamed.append("_right");
        }
        out_names.push(renamed);
        c = c + 1;
    }
    proof {
        assert(out_names@.map_values(|s: String| s@) =~= names);
    }
    if rows > 0 && !distinct_strings(&out_names) {
        return Err(Error::InvalidValue(String::from_str("data length does not match index length")));
    }
    if rows == 0 || out_names.len() == 0 {
        return Ok(DataFrame::empty());
    }
    let index = Index::range(rows);
    let mut cols: Vec<(String, Series<i64>)> = Vec::new();
    let total = lcn + rcn;
    let mut c: usize = 0;
    while c < total
        invariant
            c <= total,
            total == lcn + rcn,
            total == names.len(),
            rows == spairs.len(),
            pairs@ == spairs,
            index@ == range_labels(rows as nat),
            out_names@.map_values(|s: String| s@) == names,
            cols@.len() == c,
            forall|k: int|
                #![trigger cols@[k]]
                0 <= k < c ==> cols@[k].0@ == names[k] && cols@[k].1.values_view() == joined_values(
                    *left,
                    *right,
                    key@,
                    spairs,
                    k,
                ) && cols@[k].1.index_view() == range_labels(rows as nat) && cols@[k].1.name_view() == Some(
                    names[k],
                ),
        decreases total - c,
    {
        let from_right = c >= lcn;
        let col: &Series<i64> = if from_right {
            right.column_at(rc[c - lcn])
        } else {
            left.column_at(lc[c])
        };
        let col_rows = col.len();
        let src = col.to_vec();
        let data = gather_side(&src, &pairs, from_right);
        let name = out_names[c].clone();
        let s = match Series::new(data, index.clone(), Some(out_names[c].clone())) {
            Ok(s) => s,
            Err(e) => return Err(e),
        };
        cols.push((name, s));
        c = c + 1;
    }
    let ghost gcols = cols@;
    proof {
        assert(Seq::new(gcols.len(), |k: int| gcols[k].0@) =~= names);
        assert forall|k: int| 0 <= k < gcols.len() implies #[trigger] gcols[k].1.index_view() == gcols[0].1.index_view() by {
        }
        assert(!has_null(spairs, lcn as nat, rcn as nat));
    }
    let r = DataFrame::new(cols);
    proof {
        if r is Ok {
            let df = r->Ok_0;
            assert forall|k: int| 0 <= k < names.len() implies (#[trigger] df.series()[k]).values_view() == joined_values(
                *left,
                *right,
                key@,
                spairs,
                k,
            ) && df.series()[k].name_view() == Some(names[k]) by {
                assert(df.series()[k] == gcols[k].1);
            }
        }
    }
    r
}

impl DataFrame<i64> {
    /// Joins this DataFrame with another on the key column (see [`join`]).
    pub fn join(&self, other: &DataFrame<i64>, key: &str, how: JoinType) -> (r: Result<DataFrame<i64>>)
        requires
            join_fits(*self, *other, key@, how),
        ensures
            join_result(*self, *other, key@, how, r),
    {
        join(self, other, key, how)
    }
}

/// A value that occurs among the first `n` entries has a listed position.
proof fn lemma_positions_found(s: Seq<i64>, v: i64, n: int, k: int)
    requires
        0 <= k < n <= s.len(),
        s[k] == v,
    ensures
        positions_of(s, v, n).len() > 0,
    decreases n,
{
    if k < n - 1 {
        lemma_positions_found(s, v, n - 1, k);
    }
}

/// When every left key has a partner on the right, a left join pairs the
/// rows exactly as an inner join does.
pub proof fn lemma_left_pairs_are_inner(lk: Seq<i64>, rk: Seq<i64>)
    requires
        forall|i: int| 0 <= i < lk.len() ==> rk.contains(#[trigger] lk[i]),
    ensures
        join_pairs(lk, rk, JoinType::Left) == join_pairs(lk, rk, JoinType::Inner),
{
    lemma_left_upto_inner(lk, rk, lk.len() as int);
}

proof fn lemma_left_upto_inner(lk: Seq<i64>, rk: Seq<i64>, n: int)
    requires
        n <= lk.len(),
        forall|i: int| 0 <= i < lk.len() ==> rk.contains(#[trigger] lk[i]),
    ensures
        pairs_upto(lk, rk, JoinType::Left, n) == pairs_upto(lk, rk, JoinType::Inner, n),
    decreases n,
{
    if n > 0 {
        lemma_left_upto_inner(lk, rk, n - 1);
        let i = n - 1;
        assert(rk.contains(lk[i]));
        let k = choose|k: int| 0 <= k < rk.len() && rk[k] == lk[i];
        lemma_positions_found(rk, lk[i], rk.len() as int, k);
        let m = positions_of(rk, lk[i], rk.len() as int);
        assert(row_block(lk, rk, JoinType::Left, i) =~= row_block(lk, rk, JoinType::Inner, i)) by {
            assert(m.map_values(|j: usize| matched_pair(JoinType::Left, i as usize, j)) =~= m.map_values(
                |j: usize| matched_pair(JoinType::Inner, i as usize, j),
            ));
        }
    }
}

/// When every value of the left key column occurs in the right one, a left
/// join gives what an inner join gives: whatever `join` may return for the
/// one, it may return for the other.
pub proof fn lemma_left_join_is_inner(left: DataFrame<i64>, right: DataFrame<i64>, key: Seq<char>, r: Result<DataFrame<i64>>)
    requires
        left.names().contains(key),
        right.names().contains(key),
        forall|i: int|
            0 <= i < left.column_values(key).len() ==> right.column_values(key).contains(
                #[trigger] left.column_values(key)[i],
            ),
    ensures
        join_result(left, right, key, JoinType::Left, r) == join_result(left, right, key, JoinType::Inner, r),
{
    lemma_left_pairs_are_inner(left.column_values(key), right.column_values(key));
}

/// The output rows of the first `m` driving rows begin those of the first `n`.
proof fn lemma_pairs_prefix(lk: Seq<i64>, rk: Seq<i64>, how: JoinType, m: int, n: int)
    requires
        0 <= m <= n,
    ensures
        pairs_upto(lk, rk, how, m).len() <= pairs_upto(lk, rk, how, n).len(),
        forall|t: int|
            0 <= t < pairs_upto(lk, rk, how, m).len() ==> #[trigger] pairs_upto(lk, rk, how, n)[t] == pairs_upto(
                lk,
                rk,
                how,
                m,
            )[t],
    decreases n - m,
{
    if m < n {
        lemma_pairs_prefix(lk, rk, how, m, n - 1);
    }
}

/// When some value of the left key column has no partner on the right and
/// the right side has a column besides the key, a left join fails: nulls are
/// not supported.
pub proof fn lemma_left_join_unmatched(
    left: DataFrame<i64>,
    right: DataFrame<i64>,
    key: Seq<char>,
    i: int,
    r: Result<DataFrame<i64>>,
)
    requires
        left.names().contains(key),
        right.names().contains(key),
        0 <= i < left.column_values(key).len(),
        !right.column_values(key).contains(left.column_values(key)[i]),
        kept_columns(right.names(), key, right.names().len() as int).len() > 0,
        right.column_values(key).len() <= usize::MAX,
        join_result(left, right, key, JoinType::Left, r),
    ensures
        r matches Err(Error::InvalidValue(m)) && m@ == "null values not supported yet"@,
{
    let lk = left.column_values(key);
    let rk = right.column_values(key);
    let v = lk[i];
    let m = positions_of(rk, v, rk.len() as int);
    lemma_positions_of(rk, v, rk.len() as int);
    if m.len() > 0 {
        assert(rk[m[0] as int] == v);
        assert(rk.contains(v));
    }
    assert(row_block(lk, rk, JoinType::Left, i) == seq![(Some(i as usize), None::<usize>)]);
    let t = pairs_upto(lk, rk, JoinType::Left, i).len() as int;
    assert(pairs_upto(lk, rk, JoinType::Left, i + 1)[t] == (Some(i as usize), None::<usize>));
    lemma_pairs_prefix(lk, rk, JoinType::Left, i + 1, lk.len() as int);
    let pairs = join_pairs(lk, rk, JoinType::Left);
    assert(pairs[t] == (Some(i as usize), None::<usize>));
    let lcn = kept_columns(left.names(), key, left.names().len() as int).len();
    let rcn = kept_columns(right.names(), key, right.names().len() as int).len();
    assert(has_null(pairs, lcn, rcn));
}

} // verus!
