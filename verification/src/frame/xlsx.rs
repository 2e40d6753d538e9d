//! Reading a table from the cells of a spreadsheet.
use vstd::prelude::*;
use crate::frame::dataframe::DataFrame;
use crate::frame::error::{Error, Result};
use crate::frame::fields::{parse_int, parse_int_spec};
use crate::frame::table::{
    CellValue, build_frame, cell_bad, cell_error, first_bad, frame_built, grid_fits, read_grid,
    grid_within_width,
};
use crate::frame::text::{chars_of, decimal_string, same_text};
use crate::frame::tsv::{column_name, grid_columns, label_column};

verus! {

/// Options for reading a spreadsheet.
#[derive(Debug, Clone)]
pub struct XlsxReadOptions {
    /// The first row names the columns.
    pub has_header: bool,
    /// Name of the sheet to read; `None` reads the first sheet.
    pub sheet: Option<String>,
    /// Position of the column that holds the row labels.
    pub index_col: Option<usize>,
}

impl Default for XlsxReadOptions {
    fn default() -> (r: Self)
        ensures
            r.has_header,
            r.sheet is None,
            r.index_col is None,
    {
        XlsxReadOptions { has_header: true, sheet: None, index_col: None }
    }
}

/// A spreadsheet cell, as far as reading a table needs it.
#[derive(Debug, Clone)]
pub enum Cell {
    /// A text cell.
    Text(String),
    /// A number, by the text it displays as.
    Number(String),
    /// Any other cell (empty, boolean, error, date), by the text it displays as.
    Other(String),
}

/// The text a cell displays as.
pub open spec fn cell_text(c: Cell) -> Seq<char> {
    match c {
        Cell::Text(s) => s@,
        Cell::Number(s) => s@,
        Cell::Other(s) => s@,
    }
}

/// What a data cell reads as: a number's text parsed as an integer; any other
/// cell holds no number.
pub open spec fn sheet_value(c: Cell) -> CellValue {
    match c {
        Cell::Number(s) => match parse_int_spec(s@) {
            Ok(v) => CellValue::Num(v),
            Err(k) => CellValue::ParseFail(k),
        },
        _ => CellValue::NotNumeric,
    }
}

/// The data rows: all rows after the header.
pub open spec fn data_rows(rows: Seq<Seq<Cell>>, has_header: bool) -> Seq<Seq<Cell>> {
    if has_header {
        rows.skip(1)
    } else {
        rows
    }
}

/// The cells of the data rows.
pub open spec fn sheet_grid(rows: Seq<Seq<Cell>>) -> Seq<Seq<CellValue>> {
    rows.map_values(|row: Seq<Cell>| row.map_values(|c: Cell| sheet_value(c)))
}

/// The texts of the data rows.
pub open spec fn sheet_texts(rows: Seq<Seq<Cell>>) -> Seq<Seq<Seq<char>>> {
    rows.map_values(|row: Seq<Cell>| row.map_values(|c: Cell| cell_text(c)))
}

/// The read never looks past the width of the first data row, and without
/// an index column that row is not empty.
pub open spec fn sheet_fits(rows: Seq<Seq<Cell>>, options: XlsxReadOptions) -> bool {
    let data = data_rows(rows, options.has_header);
    let header_fails = options.has_header && (rows.len() == 0 || exists|i: int|
        0 <= i < rows[0].len() && !(#[trigger] rows[0][i] is Text));
    !header_fails && data.len() > 0 ==> grid_fits(sheet_grid(data), options.index_col) && (data[0].len() > 0
        || options.index_col is Some)
}

/// What reading a sheet gives.
pub open spec fn sheet_read(rows: Seq<Seq<Cell>>, options: XlsxReadOptions, r: Result<DataFrame<i64>>) -> bool {
    let ic = options.index_col;
    let data = data_rows(rows, options.has_header);
    let g = sheet_grid(data);
    if options.has_header && rows.len() == 0 {
        r matches Err(Error::InvalidValue(m)) && m@ == "empty sheet"@
    } else if options.has_header && exists|i: int| 0 <= i < rows[0].len() && !(rows[0][i] is Text) {
        r matches Err(Error::InvalidValue(m)) && m@ == "header row must be strings"@
    } else if data.len() == 0 {
        r matches Err(Error::InvalidValue(m)) && m@ == "no data rows found"@
    } else if exists|a: int, b: int| cell_bad(g, g[0].len(), ic, a, b) {
        forall|a: int, b: int| first_bad(g, g[0].len(), ic, a, b) ==> (r matches Err(e) && cell_error(g[a][b], a, b, e))
    } else {
        let header = if options.has_header { rows[0].map_values(|c: Cell| cell_text(c)) } else { Seq::empty() };
        frame_built(
            grid_columns(g, ic),
            if ic is Some { label_column(sheet_texts(data), ic->Some_0 as int, data.len() as int) } else { Seq::empty() },
            Seq::new(g[0].len(), |i: int| column_name(header, options.has_header, i)),
            ic,
            r,
        )
    }
}

/// The text of a cell.
fn text_of_cell(c: &Cell) -> (r: String)
    ensures
        r@ == cell_text(*c),
{
    match c {
        Cell::Text(s) => s.clone(),
        Cell::Number(s) => s.clone(),
        Cell::Other(s) => s.clone(),
    }
}

/// What a cell reads as.
fn value_of_cell(c: &Cell) -> (r: CellValue)
    ensures
        r == sheet_value(*c),
{
    match c {
        Cell::Number(s) => {
            let cs = chars_of(s.as_str());
            proof {
                assert(cs@.subrange(0, cs@.len() as int) =~= s@);
            }
            match parse_int(&cs, 0, cs.len()) {
                Ok(v) => CellValue::Num(v),
                Err(k) => CellValue::ParseFail(k),
            }
        },
        _ => CellValue::NotNumeric,
    }
}

proof fn lemma_label_len(rows: Seq<Seq<Seq<char>>>, i: int, n: int)
    requires
        0 <= n,
    ensures
        label_column(rows, i, n).len() <= n,
    decreases n,
{
    if n > 0 {
        lemma_label_len(rows, i, n - 1);
    }
}

proof fn lemma_column_len(g: Seq<Seq<CellValue>>, i: int, n: int)
    requires
        0 <= n,
    ensures
        crate::frame::table::column_of(g, i, n).len() <= n,
    decreases n,
{
    if n > 0 {
        lemma_column_len(g, i, n - 1);
    }
}

/// Reads a table from the rows of a sheet: the header row, if any, must hold
/// text; every other cell but those of the index column must be a number
/// whose text parses as an integer.
#[verifier::loop_isolation(false)]
pub fn sheet_to_frame(rows: &Vec<Vec<Cell>>, options: &XlsxReadOptions) -> (r: Result<DataFrame<i64>>)
    requires
        rows@.len() < isize::MAX,
        sheet_fits(rows@.map_values(|row: Vec<Cell>| row@), *options),
    ensures
        sheet_read(rows@.map_values(|row: Vec<Cell>| row@), *options, r),
{
    match try_sheet_to_frame(rows, options) {
        Some(r) => r,
        None => {
            proof {
                assert(false);
            }
            Err(Error::InvalidValue(String::new()))
        },
    }
}

/// Reads a table from the rows of a sheet as `sheet_to_frame` does, or gives
/// nothing when the read would reach a cell past the width of the first data
/// row, or would need the first column of a table without one.
#[verifier::loop_isolation(false)]
pub fn try_sheet_to_frame(rows: &Vec<Vec<Cell>>, options: &XlsxReadOptions) -> (r: Option<Result<DataFrame<i64>>>)
    requires
        rows@.len() < isize::MAX,
    ensures
        sheet_fits(rows@.map_values(|row: Vec<Cell>| row@), *options) ==> (r matches Some(x) && sheet_read(
            rows@.map_values(|row: Vec<Cell>| row@),
            *options,
            x,
        )),
        !sheet_fits(rows@.map_values(|row: Vec<Cell>| row@), *options) ==> r is None,
{
    let ghost rv = rows@.map_values(|row: Vec<Cell>| row@);
    let ghost data = data_rows(rv, options.has_header);
    let ghost g = sheet_grid(data);
    proof {
        assert(g.len() == data.len());
    }
    let mut header: Vec<String> = Vec::new();
    if options.has_header {
        if rows.len() == 0 {
            return Some(Err(Error::InvalidValue(String::from_str("empty sheet"))));
        }
        let first = &rows[0];
        proof {
            assert(rv[0] == first@);
        }
        let mut i: usize = 0;
        while i < first.len()
            invariant
                i <= first@.len(),
                rv[0] == first@,
                header@.len() == i,
                forall|j: int| 0 <= j < i ==> (#[trigger] first@[j]) is Text,
                forall|j: int| 0 <= j < i ==> (#[trigger] header@[j])@ == cell_text(first@[j]),
            decreases first@.len() - i,
        {
            match &first[i] {
                Cell::Text(s) => {
                    let ghost old_header = header@;
                    header.push(s.clone());
                    proof {
                        assert(first@[i as int] == Cell::Text(*s));
                        assert(header@[i as int]@ == cell_text(first@[i as int]));
                        assert forall|j: int| 0 <= j < i + 1 implies (#[trigger] header@[j])@ == cell_text(first@[j]) by {
                            if j < i {
                                assert(header@[j] == old_header[j]);
                            }
                        }
                    }
                },
                _ => {
                    return Some(Err(Error::InvalidValue(String::from_str("header row must be strings"))));
                },
            }
            i = i + 1;
        }
    }
    proof {
        if options.has_header {
            assert(forall|j: int| 0 <= j < rv[0].len() ==> (#[trigger] rv[0][j]) is Text);
        }
    }
    let start: usize = if options.has_header { 1 } else { 0 };
    let mut grid: Vec<Vec<CellValue>> = Vec::new();
    let mut r: usize = start;
    while r < rows.len()
        invariant
            start <= r <= rows@.len(),
            data == rv.skip(start as int),
            grid@.len() == r - start,
            forall|q: int| 0 <= q < r - start ==> (#[trigger] grid@[q])@ == g[q],
        decreases rows@.len() - r,
    {
        let row = &rows[r];
        proof {
            assert(data[r - start] == row@);
        }
        let mut cells: Vec<CellValue> = Vec::new();
        let mut i: usize = 0;
        while i < row.len()
            invariant
                i <= row@.len(),
                data[r - start] == row@,
                cells@ == row@.take(i as int).map_values(|c: Cell| sheet_value(c)),
            decreases row@.len() - i,
        {
            cells.push(value_of_cell(&row[i]));
            i = i + 1;
            proof {
                assert(cells@ =~= row@.take(i as int).map_values(|c: Cell| sheet_value(c)));
            }
        }
        proof {
            assert(row@.take(i as int) =~= row@);
        }
        grid.push(cells);
        r = r + 1;
    }
    proof {
        assert(grid@.map_values(|row: Vec<CellValue>| row@) =~= g);
    }
    if grid.len() == 0 {
        return Some(Err(Error::InvalidValue(String::from_str("no data rows found"))));
    }
    let ic = options.index_col;
    if !grid_within_width(&grid, ic) {
        return None;
    }
    if grid[0].len() == 0 && ic.is_none() {
        proof {
            assert(g[0] == grid@[0]@);
        }
        return None;
    }
    let cols = match read_grid(&grid, ic) {
        Ok(c) => c,
        Err(e) => {
            return Some(Err(e));
        },
    };
    proof {
        assert forall|a: int, b: int| !cell_bad(g, g[0].len(), ic, a, b) by {
            if cell_bad(g, g[0].len(), ic, a, b) {
                crate::frame::table::lemma_first_bad_exists(g, g[0].len(), ic, a, b);
            }
        }
    }
    let ghost texts = sheet_texts(data);
    let mut labels: Vec<String> = Vec::new();
    match ic {
        Some(c) => {
            let mut q: usize = start;
            while q < rows.len()
                invariant
                    start <= q <= rows@.len(),
                    data == rv.skip(start as int),
                    texts == sheet_texts(data),
                    labels@.map_values(|s: String| s@) == label_column(texts, c as int, q - start),
                decreases rows@.len() - q,
            {
                let row = &rows[q];
                proof {
                    assert(data[q - start] == row@);
                    assert(texts[q - start] == row@.map_values(|c: Cell| cell_text(c)));
                }
                let ghost old = labels@;
                if c < row.len() {
                    labels.push(text_of_cell(&row[c]));
                    proof {
                        assert(labels@.map_values(|s: String| s@) =~= old.map_values(|s: String| s@).push(
                            texts[q - start][c as int],
                        ));
                    }
                }
                q = q + 1;
            }
            proof {
                lemma_label_len(texts, c as int, data.len() as int);
            }
        },
        None => {
            proof {
                assert(labels@.map_values(|s: String| s@) =~= Seq::<Seq<char>>::empty());
            }
        },
    }
    let width = grid[0].len();
    proof {
        assert(g[0] == grid@[0]@);
    }
    let ghost hv = if options.has_header { rv[0].map_values(|c: Cell| cell_text(c)) } else { Seq::<Seq<char>>::empty() };
    let mut names: Vec<String> = Vec::new();
    let mut i: usize = 0;
    while i < width
        invariant
            i <= width,
            names@.len() == i,
            forall|j: int| 0 <= j < i ==> (#[trigger] names@[j])@ == column_name(hv, options.has_header, j),
            options.has_header ==> header@.len() == hv.len(),
            options.has_header ==> forall|j: int| 0 <= j < hv.len() ==> (#[trigger] header@[j])@ == hv[j],
        decreases width - i,
    {
        if options.has_header && i < header.len() {
            names.push(header[i].clone());
        } else {
            let mut n = String::from_str("col");
            n.append(decimal_string(i).as_str());
            names.push(n);
        }
        i = i + 1;
    }
    proof {
        assert(cols@.map_values(|c: Vec<i64>| c@) =~= grid_columns(g, ic));
        assert(names@.map_values(|s: String| s@) =~= Seq::new(g[0].len(), |i: int| column_name(hv, options.has_header, i)));
        assert forall|k: int| 0 <= k < cols@.len() implies (#[trigger] cols@[k])@.len() <= isize::MAX by {
            lemma_column_len(g, k, g.len() as int);
        }
    }
    Some(build_frame(cols, labels, names, ic))
}

/// The sheet to read: the one asked for, which must exist, or the first.
#[verifier::loop_isolation(false)]
pub fn choose_sheet(sheet_names: &Vec<String>, wanted: &Option<String>) -> (r: Result<String>)
    ensures
        match wanted {
            Some(w) => if sheet_names@.map_values(|s: String| s@).contains(w@) {
                r matches Ok(s) && s@ == w@
            } else {
                r matches Err(Error::KeyNotFound(k)) && k@ == w@
            },
            None => if sheet_names@.len() > 0 {
                r matches Ok(s) && s@ == sheet_names@[0]@
            } else {
                r matches Err(Error::InvalidValue(m)) && m@ == "no sheets found"@
            },
        },
{
    match wanted {
        Some(w) => {
            let mut k: usize = 0;
            while k < sheet_names.len()
                invariant
                    k <= sheet_names@.len(),
                    forall|j: int| 0 <= j < k ==> sheet_names@[j]@ != w@,
                decreases sheet_names@.len() - k,
            {
                if same_text(&sheet_names[k], w.as_str()) {
                    proof {
                        let sv = sheet_names@.map_values(|s: String| s@);
                        assert(sv[k as int] == w@);
                        assert(sv.contains(w@));
                    }
                    let out = w.clone();
                    proof {
                        assert(out@ == w@);
                        assert(*wanted == Some(*w));
                    }
                    return Ok(out);
                }
                k = k + 1;
            }
            proof {
                assert(!sheet_names@.map_values(|s: String| s@).contains(w@)) by {
                    let sv = sheet_names@.map_values(|s: String| s@);
                    if sv.contains(w@) {
                        let j = choose|j: int| 0 <= j < sv.len() && #[trigger] sv[j] == w@;
                        assert(sheet_names@[j]@ == w@);
                    }
                }
            }
            Err(Error::KeyNotFound(w.clone()))
        },
        None => {
            if sheet_names.len() > 0 {
                Ok(sheet_names[0].clone())
            } else {
                Err(Error::InvalidValue(String::from_str("no sheets found")))
            }
        },
    }
}

} // verus!
