//! Building a DataFrame from a grid of read cells, shared by the TSV and
//! spreadsheet readers.
use vstd::prelude::*;
use crate::frame::dataframe::{DataFrame, unique_names};
use crate::frame::error::{Error, Result};
use crate::frame::fields::{IntErrorKind, int_error_message, int_error_text};
use crate::frame::index::{Index, distinct_labels, range_labels};
use crate::frame::series::Series;
use crate::frame::text::{decimal, decimal_string, same_text};

verus! {

/// What a data cell reads as.
#[derive(Debug, Clone, Copy)]
pub enum CellValue {
    /// A number.
    Num(i64),
    /// Text that is not an integer, and why.
    ParseFail(IntErrorKind),
    /// A cell that holds no number at all.
    NotNumeric,
}

/// The cell at row `r`, column `i` exists, is not the index column, and stops
/// the read: it lies past the first row's width or holds no number.
pub open spec fn cell_bad(g: Seq<Seq<CellValue>>, width: nat, ic: Option<usize>, r: int, i: int) -> bool {
    &&& 0 <= r < g.len()
    &&& 0 <= i < g[r].len()
    &&& ic != Some(i as usize)
    &&& (i >= width || !(g[r][i] is Num))
}

/// Cell `(r1, i1)` is read before cell `(r2, i2)` (rows first).
pub open spec fn read_before(r1: int, i1: int, r2: int, i2: int) -> bool {
    r1 < r2 || (r1 == r2 && i1 < i2)
}

/// `(r, i)` is the first cell, in reading order, that stops the read.
pub open spec fn first_bad(g: Seq<Seq<CellValue>>, width: nat, ic: Option<usize>, r: int, i: int) -> bool {
    &&& cell_bad(g, width, ic, r, i)
    &&& forall|r2: int, i2: int| read_before(r2, i2, r, i) ==> !cell_bad(g, width, ic, r2, i2)
}

/// The read never reaches a cell past the first row's width: the first cell
/// that stops it, if any, lies within that width.
pub open spec fn grid_fits(g: Seq<Seq<CellValue>>, ic: Option<usize>) -> bool {
    g.len() > 0 ==> forall|r: int, i: int| first_bad(g, g[0].len(), ic, r, i) ==> i < g[0].len()
}

/// Values of column `i` over the first `n` rows, skipping rows too short to
/// have it.
pub open spec fn column_of(g: Seq<Seq<CellValue>>, i: int, n: int) -> Seq<i64>
    decreases n,
{
    if n <= 0 {
        Seq::empty()
    } else if i < g[n - 1].len() {
        column_of(g, i, n - 1).push(g[n - 1][i]->Num_0)
    } else {
        column_of(g, i, n - 1)
    }
}

/// Message for a cell without a number.
pub open spec fn non_numeric_message(r: int, i: int) -> Seq<char> {
    "non-numeric cell at row "@ + decimal(r as nat) + ", col "@ + decimal(i as nat)
}

/// The error a stopping cell gives.
pub open spec fn cell_error(c: CellValue, r: int, i: int, e: Error) -> bool {
    match c {
        CellValue::ParseFail(k) => e matches Error::ParseError(m) && m@ == int_error_message(k),
        _ => e matches Error::InvalidValue(m) && m@ == non_numeric_message(r, i),
    }
}

/// What reading the grid into columns gives: the error of the first cell
/// that stops it, or one column per position of the first row.
pub open spec fn grid_read(g: Seq<Seq<CellValue>>, ic: Option<usize>, res: Result<Vec<Vec<i64>>>) -> bool {
    let width = g[0].len();
    &&& forall|r: int, i: int|
        first_bad(g, width, ic, r, i) ==> (res matches Err(e) && cell_error(g[r][i], r, i, e))
    &&& (forall|r: int, i: int| !cell_bad(g, width, ic, r, i)) ==> (res matches Ok(cols) && cols@.len() == width
        && forall|i: int| 0 <= i < width ==> (#[trigger] cols@[i])@ == (if ic == Some(i as usize) {
            Seq::<i64>::empty()
        } else {
            column_of(g, i, g.len() as int)
        }))
}

/// Error for a stopping cell.
fn cell_failure(c: CellValue, r: usize, i: usize) -> (e: Error)
    requires
        !(c is Num),
    ensures
        cell_error(c, r as int, i as int, e),
{
    match c {
        CellValue::ParseFail(k) => Error::ParseError(int_error_text(k)),
        _ => {
            let mut m = String::from_str("non-numeric cell at row ");
            m.append(decimal_string(r).as_str());
            m.append(", col ");
            m.append(decimal_string(i).as_str());
            Error::InvalidValue(m)
        },
    }
}

/// One column of the grid.
fn collect_column(g: &Vec<Vec<CellValue>>, i: usize) -> (col: Vec<i64>)
    requires
        forall|r: int| 0 <= r < g@.len() && i < g@[r]@.len() ==> (#[trigger] g@[r]@[i as int]) is Num,
    ensures
        col@ == column_of(g@.map_values(|row: Vec<CellValue>| row@), i as int, g@.len() as int),
{
    let ghost gv = g@.map_values(|row: Vec<CellValue>| row@);
    let mut col: Vec<i64> = Vec::new();
    let mut r: usize = 0;
    while r < g.len()
        invariant
            gv == g@.map_values(|row: Vec<CellValue>| row@),
            r <= g@.len(),
            forall|r2: int| 0 <= r2 < g@.len() && i < g@[r2]@.len() ==> (#[trigger] g@[r2]@[i as int]) is Num,
            col@ == column_of(gv, i as int, r as int),
        decreases g@.len() - r,
    {
        if i < g[r].len() {
            let c = g[r][i];
            proof {
                assert(gv[r as int] == g@[r as int]@);
                assert(g@[r as int]@[i as int] is Num);
            }
            match c {
                CellValue::Num(v) => {
                    col.push(v);
                },
                _ => {},
            }
        } else {
            proof {
                assert(gv[r as int] == g@[r as int]@);
            }
        }
        r = r + 1;
    }
    col
}

/// Whether the read of the grid stays within the width of its first row:
/// the first cell (rows first) that stops it, if any, lies within that width.
pub fn grid_within_width(g: &Vec<Vec<CellValue>>, ic: Option<usize>) -> (r: bool)
    requires
        g@.len() > 0,
    ensures
        r == grid_fits(g@.map_values(|row: Vec<CellValue>| row@), ic),
{
    let ghost gv = g@.map_values(|row: Vec<CellValue>| row@);
    let width = g[0].len();
    proof {
        assert(gv[0] == g@[0]@);
    }
    let mut r: usize = 0;
    while r < g.len()
        invariant
            gv == g@.map_values(|row: Vec<CellValue>| row@),
            gv.len() > 0,
            width == gv[0].len(),
            r <= g@.len(),
            forall|r2: int, i2: int| read_before(r2, i2, r as int, 0) ==> !cell_bad(gv, width as nat, ic, r2, i2),
        decreases g@.len() - r,
    {
        let row = &g[r];
        proof {
            assert(gv[r as int] == row@);
        }
        let mut i: usize = 0;
        while i < row.len()
            invariant
                gv == g@.map_values(|row: Vec<CellValue>| row@),
                gv.len() > 0,
                width == gv[0].len(),
                r < g@.len(),
                gv[r as int] == row@,
                i <= row@.len(),
                forall|r2: int, i2: int| read_before(r2, i2, r as int, i as int) ==> !cell_bad(gv, width as nat, ic, r2, i2),
            decreases row@.len() - i,
        {
            let is_index = match ic {
                Some(c) => c == i,
                None => false,
            };
            if !is_index {
                let bad = if i >= width {
                    true
                } else {
                    match row[i] {
                        CellValue::Num(_) => false,
                        _ => true,
                    }
                };
                if bad {
                    proof {
                        assert(cell_bad(gv, width as nat, ic, r as int, i as int));
                        assert(first_bad(gv, width as nat, ic, r as int, i as int));
                        assert forall|r3: int, i3: int| first_bad(gv, width as nat, ic, r3, i3) implies r3 == r && i3
                            == i by {
                            if read_before(r3, i3, r as int, i as int) {
                            } else if read_before(r as int, i as int, r3, i3) {
                                assert(!cell_bad(gv, width as nat, ic, r as int, i as int));
                            }
                        }
                    }
                    return i < width;
                }
            }
            proof {
                assert(!cell_bad(gv, width as nat, ic, r as int, i as int));
                assert forall|r2: int, i2: int| read_before(r2, i2, r as int, i + 1) implies !cell_bad(
                    gv,
                    width as nat,
                    ic,
                    r2,
                    i2,
                ) by {
                    if r2 != r || i2 != i {
                        assert(read_before(r2, i2, r as int, i as int));
                    }
                }
            }
            i = i + 1;
        }
        proof {
            assert forall|r2: int, i2: int| read_before(r2, i2, r + 1, 0) implies !cell_bad(gv, width as nat, ic, r2, i2) by {
                if i2 < 0 || (r2 == r && i2 >= row@.len()) {
                } else if r2 < r {
                    assert(read_before(r2, i2, r as int, 0));
                } else {
                    assert(read_before(r2, i2, r as int, row@.len() as int));
                }
            }
        }
        r = r + 1;
    }
    proof {
        assert forall|r2: int, i2: int| !first_bad(gv, width as nat, ic, r2, i2) by {
            if 0 <= r2 < gv.len() {
                assert(read_before(r2, i2, g@.len() as int, 0));
            }
        }
    }
    true
}

/// Reads the grid into columns, one per position of the first row, stopping
/// at the first cell (rows first) that holds no number; the index column is
/// left out of the check.
pub fn read_grid(g: &Vec<Vec<CellValue>>, ic: Option<usize>) -> (res: Result<Vec<Vec<i64>>>)
    requires
        g@.len() > 0,
        grid_fits(g@.map_values(|row: Vec<CellValue>| row@), ic),
    ensures
        grid_read(g@.map_values(|row: Vec<CellValue>| row@), ic, res),
{
    let ghost gv = g@.map_values(|row: Vec<CellValue>| row@);
    let width = g[0].len();
    proof {
        assert(gv[0] == g@[0]@);
    }
    let mut r: usize = 0;
    while r < g.len()
        invariant
            gv == g@.map_values(|row: Vec<CellValue>| row@),
            gv.len() > 0,
            width == gv[0].len(),
            grid_fits(gv, ic),
            r <= g@.len(),
            forall|r2: int, i2: int| read_before(r2, i2, r as int, 0) ==> !cell_bad(gv, width as nat, ic, r2, i2),
        decreases g@.len() - r,
    {
        let row = &g[r];
        proof {
            assert(gv[r as int] == row@);
        }
        let mut i: usize = 0;
        while i < row.len()
            invariant
                gv == g@.map_values(|row: Vec<CellValue>| row@),
                gv.len() > 0,
                width == gv[0].len(),
                grid_fits(gv, ic),
                r < g@.len(),
                gv[r as int] == row@,
                i <= row@.len(),
                forall|r2: int, i2: int| read_before(r2, i2, r as int, i as int) ==> !cell_bad(gv, width as nat, ic, r2, i2),
            decreases row@.len() - i,
        {
            let is_index = match ic {
                Some(c) => c == i,
                None => false,
            };
            if !is_index {
                if i >= width {
                    proof {
                        assert(cell_bad(gv, width as nat, ic, r as int, i as int));
                        assert(first_bad(gv, width as nat, ic, r as int, i as int));
                        assert(false);
                    }
                    return Err(Error::InvalidValue(String::new()));
                }
                let c = row[i];
                match c {
                    CellValue::Num(_) => {},
                    _ => {
                        proof {
                            assert(cell_bad(gv, width as nat, ic, r as int, i as int));
                            assert(first_bad(gv, width as nat, ic, r as int, i as int));
                            assert forall|r3: int, i3: int| first_bad(gv, width as nat, ic, r3, i3) implies r3 == r
                                && i3 == i by {
                                if read_before(r3, i3, r as int, i as int) {
                                } else if read_before(r as int, i as int, r3, i3) {
                                    assert(!cell_bad(gv, width as nat, ic, r as int, i as int));
                                }
                            }
                        }
                        return Err(cell_failure(c, r, i));
                    },
                }
            }
            proof {
                assert(!cell_bad(gv, width as nat, ic, r as int, i as int));
                assert forall|r2: int, i2: int| read_before(r2, i2, r as int, i + 1) implies !cell_bad(
                    gv,
                    width as nat,
                    ic,
                    r2,
                    i2,
                ) by {
                    if r2 != r || i2 != i {
                        assert(read_before(r2, i2, r as int, i as int));
                    }
                }
            }
            i = i + 1;
        }
        proof {
            assert forall|r2: int, i2: int| read_before(r2, i2, r + 1, 0) implies !cell_bad(gv, width as nat, ic, r2, i2) by {
                if i2 < 0 || (r2 == r && i2 >= row@.len()) {
                } else if r2 < r {
                    assert(read_before(r2, i2, r as int, 0));
                } else {
                    assert(read_before(r2, i2, r as int, row@.len() as int));
                }
            }
        }
        r = r + 1;
    }
    proof {
        assert forall|r2: int, i2: int| !cell_bad(gv, width as nat, ic, r2, i2) by {
            if 0 <= r2 < gv.len() {
                assert(read_before(r2, i2, g@.len() as int, 0));
            }
        }
    }
    let mut cols: Vec<Vec<i64>> = Vec::new();
    let mut i: usize = 0;
    while i < width
        invariant
            gv == g@.map_values(|row: Vec<CellValue>| row@),
            gv.len() > 0,
            width == gv[0].len(),
            forall|r2: int, i2: int| !cell_bad(gv, width as nat, ic, r2, i2),
            i <= width,
            cols@.len() == i,
            forall|k: int| 0 <= k < i ==> (#[trigger] cols@[k])@ == (if ic == Some(k as usize) {
                Seq::<i64>::empty()
            } else {
                column_of(gv, k, gv.len() as int)
            }),
        decreases width - i,
    {
        let is_index = match ic {
            Some(c) => c == i,
            None => false,
        };
        let col = if is_index {
            Vec::new()
        } else {
            proof {
                assert forall|r: int| 0 <= r < g@.len() && i < g@[r]@.len() implies (#[trigger] g@[r]@[i as int]) is Num by {
                    assert(gv[r] == g@[r]@);
                    assert(!cell_bad(gv, width as nat, ic, r, i as int));
                }
            }
            collect_column(g, i)
        };
        cols.push(col);
        i = i + 1;
    }
    Ok(cols)
}

/// Positions of the value columns among the first `n`: all but the index
/// column, ascending.
pub open spec fn value_columns(ic: Option<usize>, n: int) -> Seq<usize>
    decreases n,
{
    if n <= 0 {
        Seq::empty()
    } else if ic == Some((n - 1) as usize) {
        value_columns(ic, n - 1)
    } else {
        value_columns(ic, n - 1).push((n - 1) as usize)
    }
}

/// Row labels of a built table: the index column's labels, or `"0" ..` as
/// many as the first column has values.
pub open spec fn table_index<T>(cols: Seq<Seq<T>>, labels: Seq<Seq<char>>, ic: Option<usize>) -> Seq<Seq<char>> {
    if ic is Some {
        labels
    } else {
        range_labels(cols[0].len())
    }
}

/// Names of the value columns, in column order.
pub open spec fn value_names(names: Seq<Seq<char>>, vc: Seq<usize>) -> Seq<Seq<char>> {
    Seq::new(vc.len(), |k: int| names[vc[k] as int])
}

/// `k` is the last position of `x` in `vn`.
pub open spec fn is_last(vn: Seq<Seq<char>>, x: Seq<char>, k: int) -> bool {
    &&& 0 <= k < vn.len()
    &&& vn[k] == x
    &&& forall|k2: int| k < k2 < vn.len() ==> vn[k2] != x
}

/// The last value column with the given name.
pub open spec fn last_named(vn: Seq<Seq<char>>, x: Seq<char>) -> int {
    choose|k: int| is_last(vn, x, k)
}

/// What building a table from columns gives. Columns sharing a name keep one
/// place, that of the first, with the values of the last.
pub open spec fn frame_built<T: Copy>(
    cols: Seq<Seq<T>>,
    labels: Seq<Seq<char>>,
    names: Seq<Seq<char>>,
    ic: Option<usize>,
    r: Result<DataFrame<T>>,
) -> bool {
    let vc = value_columns(ic, cols.len() as int);
    let idx = table_index(cols, labels, ic);
    let vn = value_names(names, vc);
    if ic is Some && !distinct_labels(labels) {
        r matches Err(Error::InvalidValue(m)) && m@ == "duplicate index label"@
    } else if exists|k: int| 0 <= k < vc.len() && (#[trigger] cols[vc[k] as int]).len() != idx.len() {
        r matches Err(Error::InvalidValue(m)) && m@ == "data length does not match index length"@
    } else {
        r matches Ok(df) && df.names() == unique_names(vn) && df.index_view() == (if vc.len() == 0 {
            Seq::<Seq<char>>::empty()
        } else {
            idx
        }) && df.series().len() == df.names().len() && forall|j: int|
            0 <= j < df.names().len() ==> (#[trigger] df.series()[j]).values_view() == cols[vc[last_named(
                vn,
                df.names()[j],
            )] as int] && df.series()[j].name_view() == Some(df.names()[j])
    }
}

pub proof fn lemma_last_unique(vn: Seq<Seq<char>>, x: Seq<char>, k: int)
    requires
        is_last(vn, x, k),
    ensures
        last_named(vn, x) == k,
{
    let c = last_named(vn, x);
    assert(is_last(vn, x, c));
    if c < k {
        assert(vn[k] != x);
    } else if k < c {
        assert(vn[c] != x);
    }
}

proof fn lemma_value_columns_bound(ic: Option<usize>, n: int)
    requires
        0 <= n <= usize::MAX,
    ensures
        forall|k: int| 0 <= k < value_columns(ic, n).len() ==> (#[trigger] value_columns(ic, n)[k]) < n && ic != Some(
            value_columns(ic, n)[k],
        ),
        value_columns(ic, n).len() == 0 ==> (n == 0 || (n == 1 && ic == Some(0usize))),
    decreases n,
{
    if n > 0 {
        lemma_value_columns_bound(ic, n - 1);
        let prev = value_columns(ic, n - 1);
        assert forall|k: int| 0 <= k < value_columns(ic, n).len() implies (#[trigger] value_columns(ic, n)[k]) < n
            && ic != Some(value_columns(ic, n)[k]) by {
            if k < prev.len() {
                assert(value_columns(ic, n)[k] == prev[k]);
            }
        }
    }
}

/// Builds a table from columns: the index from the index column's labels, or
/// `"0" ..`; one Series per other column, named by `names`; a later column
/// replaces an earlier one of the same name.
pub fn build_frame<T: Copy>(cols: Vec<Vec<T>>, labels: Vec<String>, names: Vec<String>, ic: Option<usize>) -> (r: Result<
    DataFrame<T>,
>)
    requires
        ic is Some || cols@.len() > 0,
        names@.len() == cols@.len(),
        forall|k: int| 0 <= k < cols@.len() ==> (#[trigger] cols@[k])@.len() <= isize::MAX,
        labels@.len() <= isize::MAX,
    ensures
        frame_built(
            cols@.map_values(|c: Vec<T>| c@),
            labels@.map_values(|s: String| s@),
            names@.map_values(|s: String| s@),
            ic,
            r,
        ),
{
    let ghost cv = cols@.map_values(|c: Vec<T>| c@);
    let ghost lv = labels@.map_values(|s: String| s@);
    let ghost nv = names@.map_values(|s: String| s@);
    let n = cols.len();
    proof {
        if n > 0 {
            assert(cv[0] == cols@[0]@);
        }
    }
    let index = match ic {
        Some(_) => match Index::new(labels) {
            Ok(x) => x,
            Err(e) => {
                return Err(e);
            },
        },
        None => Index::range(cols[0].len()),
    };
    let ghost idx = table_index(cv, lv, ic);
    let ghost vc = value_columns(ic, n as int);
    let ghost vn = value_names(nv, vc);
    proof {
        lemma_value_columns_bound(ic, n as int);
    }
    let mut out: Vec<(String, Series<T>)> = Vec::new();
    let ghost mut src: Seq<int> = Seq::empty();
    let mut i: usize = 0;
    while i < n
        invariant
            n == cols@.len(),
            n == names@.len(),
            cv == cols@.map_values(|c: Vec<T>| c@),
            nv == names@.map_values(|s: String| s@),
            forall|k: int| 0 <= k < cols@.len() ==> (#[trigger] cols@[k])@.len() <= isize::MAX,
            index@ == idx,
            idx == table_index(cv, lv, ic),
            lv == labels@.map_values(|s: String| s@),
            !(ic is Some && !distinct_labels(lv)),
            vc == value_columns(ic, n as int),
            vn == value_names(nv, vc),
            forall|k: int| 0 <= k < vc.len() ==> (#[trigger] vc[k]) < n && ic != Some(vc[k]),
            i <= n,
            forall|k: int|
                0 <= k < value_columns(ic, i as int).len() ==> (#[trigger] cv[value_columns(ic, i as int)[k] as int]).len()
                    == idx.len(),
            Seq::new(out@.len(), |j: int| out@[j].0@) == unique_names(value_names(nv, value_columns(ic, i as int))),
            src.len() == out@.len(),
            forall|j: int|
                #![trigger out@[j]]
                0 <= j < out@.len() ==> {
                    let vi = value_names(nv, value_columns(ic, i as int));
                    &&& is_last(vi, out@[j].0@, src[j])
                    &&& out@[j].1.values_view() == cv[value_columns(ic, i as int)[src[j]] as int]
                    &&& out@[j].1.name_view() == Some(out@[j].0@)
                    &&& out@[j].1.index_view() == idx
                },
        decreases n - i,
    {
        let ghost vc_i = value_columns(ic, i as int);
        let ghost vn_i = value_names(nv, vc_i);
        let is_index = match ic {
            Some(c) => c == i,
            None => false,
        };
        if is_index {
            proof {
                assert(value_columns(ic, i + 1) == vc_i);
            }
        } else {
            let data = crate::frame::dataframe::copy_vec(&cols[i]);
            proof {
                assert(cv[i as int] == cols@[i as int]@);
            }
            let name = names[i].clone();
            proof {
                assert(nv[i as int] == names@[i as int]@);
            }
            let s = match Series::new(data, index.clone(), Some(names[i].clone())) {
                Ok(s) => s,
                Err(e) => {
                    proof {
                        assert(value_columns(ic, n as int) == vc);
                        lemma_value_columns_prefix(ic, i as int + 1, n as int);
                        let k = vc_i.len() as int;
                        assert(value_columns(ic, i + 1)[k] == i);
                        assert(vc[k] == i);
                        assert(cv[vc[k] as int].len() != idx.len());
                        assert(exists|k2: int| 0 <= k2 < vc.len() && (#[trigger] cv[vc[k2] as int]).len() != idx.len());
                        assert(e matches Error::InvalidValue(m) && m@ == "data length does not match index length"@);
                        assert(cv.len() == n);
                        assert(value_columns(ic, cv.len() as int) == vc);
                        assert(table_index(cv, lv, ic) == idx);
                        assert(frame_built(cv, lv, nv, ic, Err(e)));
                    }
                    return Err(e);
                },
            };
            let ghost vc_n = vc_i.push(i);
            let ghost vn_n = vn_i.push(name@);
            proof {
                assert(value_columns(ic, i + 1) == vc_n);
                assert(value_names(nv, vc_n) =~= vn_n);
                assert(vn_n.drop_last() =~= vn_i);
            }
            let mut p: usize = 0;
            while p < out.len() && !same_text(&out[p].0, name.as_str())
                invariant
                    p <= out@.len(),
                    forall|q: int| 0 <= q < p ==> out@[q].0@ != name@,
                decreases out@.len() - p,
            {
                p = p + 1;
            }
            let ghost old_out = out@;
            let ghost old_names = Seq::new(old_out.len(), |j: int| old_out[j].0@);
            proof {
                crate::frame::dataframe::lemma_unique_names_distinct(vn_i);
            }
            if p < out.len() {
                proof {
                    assert(old_names[p as int] == name@);
                    assert(unique_names(vn_i).contains(name@));
                    assert(unique_names(vn_n) == unique_names(vn_i));
                }
                out.set(p, (name, s));
                proof {
                    assert(Seq::new(out@.len(), |j: int| out@[j].0@) =~= old_names);
                    let old_src = src;
                    src = src.update(p as int, vn_i.len() as int);
                    assert forall|j: int| #![trigger out@[j]] 0 <= j < out@.len() implies {
                        &&& is_last(vn_n, out@[j].0@, src[j])
                        &&& out@[j].1.values_view() == cv[vc_n[src[j]] as int]
                        &&& out@[j].1.name_view() == Some(out@[j].0@)
                        &&& out@[j].1.index_view() == idx
                    } by {
                        if j == p {
                            assert(vc_n[vn_i.len() as int] == i);
                        } else {
                            assert(out@[j] == old_out[j]);
                            assert(old_names[j] != old_names[p as int]);
                            assert(is_last(vn_i, old_out[j].0@, old_src[j]));
                            assert(vc_n[old_src[j]] == vc_i[old_src[j]]);
                        }
                    }
                }
            } else {
                proof {
                    assert(!unique_names(vn_i).contains(name@)) by {
                        if unique_names(vn_i).contains(name@) {
                            let w = choose|w: int| 0 <= w < unique_names(vn_i).len() && unique_names(vn_i)[w] == name@;
                            assert(old_names[w] == name@);
                        }
                    }
                    assert(unique_names(vn_n) == unique_names(vn_i).push(name@));
                }
                out.push((name, s));
                proof {
                    assert(Seq::new(out@.len(), |j: int| out@[j].0@) =~= old_names.push(name@));
                    let old_src = src;
                    src = src.push(vn_i.len() as int);
                    assert forall|j: int| #![trigger out@[j]] 0 <= j < out@.len() implies {
                        &&& is_last(vn_n, out@[j].0@, src[j])
                        &&& out@[j].1.values_view() == cv[vc_n[src[j]] as int]
                        &&& out@[j].1.name_view() == Some(out@[j].0@)
                        &&& out@[j].1.index_view() == idx
                    } by {
                        if j == old_out.len() {
                            assert(vc_n[vn_i.len() as int] == i);
                        } else {
                            assert(out@[j] == old_out[j]);
                            assert(old_names[j] != name@);
                            assert(is_last(vn_i, old_out[j].0@, old_src[j]));
                            assert(vc_n[old_src[j]] == vc_i[old_src[j]]);
                        }
                    }
                }
            }
            proof {
                assert forall|k: int| 0 <= k < vc_n.len() implies (#[trigger] cv[vc_n[k] as int]).len() == idx.len() by {
                    if k < vc_i.len() {
                        assert(vc_n[k] == vc_i[k]);
                    }
                }
            }
        }
        i = i + 1;
    }
    let ghost gout = out@;
    proof {
        assert(value_columns(ic, n as int) == vc);
        crate::frame::dataframe::lemma_unique_names_distinct(vn);
        assert(Seq::new(gout.len(), |k: int| gout[k].0@) == unique_names(vn));
        assert forall|k: int| 0 <= k < gout.len() implies #[trigger] gout[k].1.index_view() == gout[0].1.index_view() by {
            assert(gout[k].1.index_view() == idx);
            assert(gout[0].1.index_view() == idx);
        }
        if vc.len() > 0 {
            assert(vn.len() > 0);
            lemma_unique_names_nonempty(vn);
        }
    }
    let r = DataFrame::new(out);
    proof {
        if r is Ok {
            let df = r->Ok_0;
            assert(df.names() == unique_names(vn));
            assert forall|j: int| 0 <= j < df.names().len() implies (#[trigger] df.series()[j]).values_view() == cv[vc[last_named(
                vn,
                df.names()[j],
            )] as int] && df.series()[j].name_view() == Some(df.names()[j]) by {
                assert(df.series()[j] == gout[j].1);
                assert(df.names()[j] == gout[j].0@);
                lemma_last_unique(vn, gout[j].0@, src[j]);
            }
        }
    }
    r
}

proof fn lemma_value_columns_prefix(ic: Option<usize>, i: int, n: int)
    requires
        0 <= i <= n,
    ensures
        value_columns(ic, i).len() <= value_columns(ic, n).len(),
        forall|k: int| 0 <= k < value_columns(ic, i).len() ==> value_columns(ic, n)[k] == #[trigger] value_columns(ic, i)[k],
    decreases n - i,
{
    if i < n {
        lemma_value_columns_prefix(ic, i, n - 1);
    }
}

proof fn lemma_unique_names_nonempty(s: Seq<Seq<char>>)
    requires
        s.len() > 0,
    ensures
        unique_names(s).len() > 0,
    decreases s.len(),
{
    if s.len() > 1 {
        lemma_unique_names_nonempty(s.drop_last());
    }
}

/// A cell that stops the read has a first such cell at or before it.
pub proof fn lemma_first_bad_exists(g: Seq<Seq<CellValue>>, width: nat, ic: Option<usize>, a: int, b: int)
    requires
        cell_bad(g, width, ic, a, b),
    ensures
        exists|a2: int, b2: int| first_bad(g, width, ic, a2, b2),
    decreases a, b,
{
    if !first_bad(g, width, ic, a, b) {
        let (a2, b2) = choose|a2: int, b2: int| read_before(a2, b2, a, b) && cell_bad(g, width, ic, a2, b2);
        lemma_first_bad_exists(g, width, ic, a2, b2);
    } else {
        assert(first_bad(g, width, ic, a, b));
    }
}

/// A table with distinct names is kept by `unique_names`.
pub proof fn lemma_unique_names_of_distinct(s: Seq<Seq<char>>)
    requires
        distinct_labels(s),
    ensures
        unique_names(s) == s,
    decreases s.len(),
{
    if s.len() > 0 {
        let t = s.drop_last();
        assert(distinct_labels(t)) by {
            assert forall|i: int, j: int| 0 <= i < t.len() && 0 <= j < t.len() && i != j implies t[i] != t[j] by {
                assert(t[i] == s[i] && t[j] == s[j]);
            }
        }
        lemma_unique_names_of_distinct(t);
        assert(!t.contains(s.last())) by {
            if t.contains(s.last()) {
                let w = choose|w: int| 0 <= w < t.len() && t[w] == s.last();
                assert(s[w] == s[s.len() - 1]);
            }
        }
        assert(t.push(s.last()) =~= s);
    }
}

/// Without an index column every position holds a value column.
pub proof fn lemma_value_columns_all(n: int)
    requires
        0 <= n <= usize::MAX,
    ensures
        value_columns(None, n) == Seq::new(n as nat, |k: int| k as usize),
    decreases n,
{
    if n > 0 {
        lemma_value_columns_all(n - 1);
        assert(value_columns(None, n) =~= Seq::new(n as nat, |k: int| k as usize));
    } else {
        assert(value_columns(None, n) =~= Seq::new(n as nat, |k: int| k as usize));
    }
}

} // verus!
