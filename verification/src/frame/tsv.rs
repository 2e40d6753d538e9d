//! Tab-separated text: reading a table from it and writing one to it.
use vstd::prelude::*;
use crate::frame::dataframe::DataFrame;
use crate::frame::error::{Error, Result};
use crate::frame::fields::{
    line_bounds, parse_int, parse_int_spec, pieces, split_bounds, split_on, text_lines, trim, trim_bounds,
    bounds_within,
};
use crate::frame::table::{
    CellValue, build_frame, column_of, frame_built, grid_fits, grid_read, first_bad, cell_error, cell_bad, read_grid,
    grid_within_width,
};
use crate::frame::text::{decimal, decimal_string, int_string, int_text};

verus! {

/// Options for reading TSV text.
#[derive(Debug, Clone)]
pub struct TsvReadOptions {
    /// The first line names the columns.
    pub has_header: bool,
    /// Position of the column that holds the row labels.
    pub index_col: Option<usize>,
}

impl Default for TsvReadOptions {
    fn default() -> (r: Self)
        ensures
            r.has_header,
            r.index_col is None,
    {
        TsvReadOptions { has_header: true, index_col: None }
    }
}

/// Options for writing TSV text.
#[derive(Debug, Clone)]
pub struct TsvWriteOptions {
    /// Write a first line with the column names.
    pub include_header: bool,
}

impl Default for TsvWriteOptions {
    fn default() -> (r: Self)
        ensures
            r.include_header,
    {
        TsvWriteOptions { include_header: true }
    }
}

/// `String::from_iter` over characters: the string made of exactly these
/// characters, in order.
#[verifier::external_body]
pub(crate) fn string_of(cs: &[char]) -> (r: String)
    ensures
        r@ == cs@,
{
    String::from_iter(cs.iter())
}

/// The string of `cs[a..b]`.
pub(crate) fn text_of(cs: &Vec<char>, a: usize, b: usize) -> (r: String)
    requires
        a <= b <= cs@.len(),
    ensures
        r@ == cs@.subrange(a as int, b as int),
{
    string_of(vstd::slice::slice_subrange(cs.as_slice(), a, b))
}

/// The lines among the first `n` that hold more than whitespace.
pub open spec fn non_blank(ls: Seq<Seq<char>>, n: int) -> Seq<Seq<char>>
    decreases n,
{
    if n <= 0 {
        Seq::empty()
    } else if trim(ls[n - 1]).len() > 0 {
        non_blank(ls, n - 1).push(ls[n - 1])
    } else {
        non_blank(ls, n - 1)
    }
}

/// The fields of each data row: the non-blank lines after the header, split
/// at tabs.
pub open spec fn tsv_rows(content: Seq<char>, has_header: bool) -> Seq<Seq<Seq<char>>> {
    let ls = text_lines(content);
    let body = if has_header { ls.skip(1) } else { ls };
    non_blank(body, body.len() as int).map_values(|l: Seq<char>| split_on(l, '\t'))
}

/// What a field reads as: its trimmed text parsed as an integer.
pub open spec fn field_value(f: Seq<char>) -> CellValue {
    match parse_int_spec(trim(f)) {
        Ok(v) => CellValue::Num(v),
        Err(k) => CellValue::ParseFail(k),
    }
}

/// The cells of the data rows.
pub open spec fn field_grid(rows: Seq<Seq<Seq<char>>>) -> Seq<Seq<CellValue>> {
    rows.map_values(|row: Seq<Seq<char>>| row.map_values(|f: Seq<char>| field_value(f)))
}

/// Fields of column `i` among the first `n` rows, skipping rows too short to
/// have it.
pub open spec fn label_column(rows: Seq<Seq<Seq<char>>>, i: int, n: int) -> Seq<Seq<char>>
    decreases n,
{
    if n <= 0 {
        Seq::empty()
    } else if i < rows[n - 1].len() {
        label_column(rows, i, n - 1).push(rows[n - 1][i])
    } else {
        label_column(rows, i, n - 1)
    }
}

/// Name of column `i`: its header field, or `col{i}`.
pub open spec fn column_name(header: Seq<Seq<char>>, has_header: bool, i: int) -> Seq<char> {
    if has_header && i < header.len() {
        header[i]
    } else {
        "col"@ + decimal(i as nat)
    }
}

/// The trimmed fields of the header line.
pub open spec fn tsv_header(content: Seq<char>, has_header: bool) -> Seq<Seq<char>> {
    if has_header {
        split_on(text_lines(content)[0], '\t').map_values(|f: Seq<char>| trim(f))
    } else {
        Seq::empty()
    }
}

/// Columns read from the grid: empty for the index column.
pub open spec fn grid_columns(g: Seq<Seq<CellValue>>, ic: Option<usize>) -> Seq<Seq<i64>> {
    Seq::new(g[0].len(), |i: int| if ic == Some(i as usize) { Seq::<i64>::empty() } else { column_of(g, i, g.len() as int) })
}

/// The read never looks past the width of the first data row.
pub open spec fn tsv_fits(content: Seq<char>, options: TsvReadOptions) -> bool {
    let rows = tsv_rows(content, options.has_header);
    let no_lines = options.has_header && text_lines(content).len() == 0;
    !no_lines && rows.len() > 0 ==> grid_fits(field_grid(rows), options.index_col)
}

/// What reading TSV text gives.
pub open spec fn tsv_read(content: Seq<char>, options: TsvReadOptions, r: Result<DataFrame<i64>>) -> bool {
    let ic = options.index_col;
    let rows = tsv_rows(content, options.has_header);
    let g = field_grid(rows);
    if options.has_header && text_lines(content).len() == 0 {
        r matches Err(Error::InvalidValue(m)) && m@ == "empty TSV file"@
    } else if rows.len() == 0 {
        r matches Err(Error::InvalidValue(m)) && m@ == "no data rows found"@
    } else if exists|a: int, b: int| cell_bad(g, g[0].len(), ic, a, b) {
        forall|a: int, b: int| first_bad(g, g[0].len(), ic, a, b) ==> (r matches Err(e) && cell_error(g[a][b], a, b, e))
    } else {
        let header = tsv_header(content, options.has_header);
        frame_built(
            grid_columns(g, ic),
            if ic is Some { label_column(rows, ic->Some_0 as int, rows.len() as int) } else { Seq::empty() },
            Seq::new(g[0].len(), |i: int| column_name(header, options.has_header, i)),
            ic,
            r,
        )
    }
}

proof fn lemma_split_len(s: Seq<char>, sep: char)
    ensures
        split_on(s, sep).len() <= s.len() + 1,
        split_on(s, sep).len() >= 1,
    decreases s.len(),
{
    if s.len() > 0 {
        lemma_split_len(s.drop_last(), sep);
    }
}

proof fn lemma_non_blank_len(ls: Seq<Seq<char>>, n: int)
    requires
        0 <= n,
    ensures
        non_blank(ls, n).len() <= n,
    decreases n,
{
    if n > 0 {
        lemma_non_blank_len(ls, n - 1);
    }
}

proof fn lemma_column_len(g: Seq<Seq<CellValue>>, i: int, n: int)
    requires
        0 <= n,
    ensures
        column_of(g, i, n).len() <= n,
    decreases n,
{
    if n > 0 {
        lemma_column_len(g, i, n - 1);
    }
}

proof fn lemma_label_len(rows: Seq<Seq<Seq<char>>>, i: int, n: int)
    requires
        0 <= n,
    ensures
        label_column(rows, i, n).len() <= n,
    decreases n,
{
    if n > 0 {
        lemma_label_len(rows, i, n - 1);
    }
}

/// Reads a table from TSV text. Fields are split at tabs; blank lines are
/// skipped; every field but those of the index column is trimmed and parsed
/// as an integer; columns are named by the header or `col{i}`.
pub fn read_tsv_text(content: &str, options: &TsvReadOptions) -> (r: Result<DataFrame<i64>>)
    requires
        content@.len() < isize::MAX,
        tsv_fits(content@, *options),
    ensures
        tsv_read(content@, *options, r),
{
    match try_read_tsv_text(content, options) {
        Some(r) => r,
        None => {
            proof {
                assert(false);
            }
            Err(Error::InvalidValue(String::new()))
        },
    }
}

/// Reads a table from TSV text as `read_tsv_text` does, or gives nothing
/// when the read would reach a field past the width of the first data row.
#[verifier::loop_isolation(false)]
pub fn try_read_tsv_text(content: &str, options: &TsvReadOptions) -> (r: Option<Result<DataFrame<i64>>>)
    requires
        content@.len() < isize::MAX,
    ensures
        tsv_fits(content@, *options) ==> (r matches Some(x) && tsv_read(content@, *options, x)),
        !tsv_fits(content@, *options) ==> r is None,
{
    let cs = crate::frame::text::chars_of(content);
    let lines = line_bounds(&cs);
    let ghost ls = text_lines(cs@);
    let ghost body = if options.has_header { ls.skip(1) } else { ls };
    let ghost rows = tsv_rows(cs@, options.has_header);
    proof {
        lemma_split_len(cs@, '\n');
    }
    if options.has_header && lines.len() == 0 {
        return Some(Err(Error::InvalidValue(String::from_str("empty TSV file"))));
    }
    let start: usize = if options.has_header { 1 } else { 0 };
    let mut row_fields: Vec<Vec<(usize, usize)>> = Vec::new();
    let mut k = start;
    while k < lines.len()
        invariant
            start <= k <= lines@.len(),
            lines@.len() == ls.len(),
            pieces(cs@, lines@) == ls,
            bounds_within(lines@, 0, cs@.len() as int),
            body == ls.skip(start as int),
            row_fields@.len() == non_blank(body, k - start).len(),
            forall|q: int|
                0 <= q < row_fields@.len() ==> pieces(cs@, (#[trigger] row_fields@[q])@) == split_on(
                    non_blank(body, k - start)[q],
                    '\t',
                ) && bounds_within(row_fields@[q]@, 0, cs@.len() as int),
        decreases lines@.len() - k,
    {
        let (a, b) = lines[k];
        proof {
            assert(ls[k as int] == cs@.subrange(a as int, b as int));
            assert(body[k - start] == ls[k as int]);
        }
        let (ta, tb) = trim_bounds(&cs, a, b);
        let ghost old_rows = row_fields@;
        if ta < tb {
            let f = split_bounds(&cs, a, b, '\t');
            row_fields.push(f);
            proof {
                assert forall|q: int|
                    0 <= q < row_fields@.len() implies pieces(cs@, (#[trigger] row_fields@[q])@) == split_on(
                    non_blank(body, k + 1 - start)[q],
                    '\t',
                ) && bounds_within(row_fields@[q]@, 0, cs@.len() as int) by {
                    if q < old_rows.len() {
                        assert(row_fields@[q] == old_rows[q]);
                    }
                }
            }
        } else {
            proof {
                assert(trim(body[k - start]).len() == 0);
                assert(non_blank(body, k + 1 - start) == non_blank(body, k - start));
            }
        }
        k = k + 1;
    }
    proof {
        assert(body.len() == lines@.len() - start);
        assert(rows =~= non_blank(body, body.len() as int).map_values(|l: Seq<char>| split_on(l, '\t')));
        lemma_non_blank_len(body, body.len() as int);
    }
    if row_fields.len() == 0 {
        return Some(Err(Error::InvalidValue(String::from_str("no data rows found"))));
    }
    // Cells of the data rows.
    let ghost g = field_grid(rows);
    let mut grid: Vec<Vec<CellValue>> = Vec::new();
    let mut r: usize = 0;
    while r < row_fields.len()
        invariant
            r <= row_fields@.len(),
            rows.len() == row_fields@.len(),
            forall|q: int|
                0 <= q < row_fields@.len() ==> pieces(cs@, (#[trigger] row_fields@[q])@) == rows[q]
                    && bounds_within(row_fields@[q]@, 0, cs@.len() as int),
            grid@.len() == r,
            forall|q: int| 0 <= q < r ==> (#[trigger] grid@[q])@ == g[q],
        decreases row_fields@.len() - r,
    {
        let fields = &row_fields[r];
        let mut cells: Vec<CellValue> = Vec::new();
        let mut i: usize = 0;
        while i < fields.len()
            invariant
                r < row_fields@.len(),
                *fields == row_fields@[r as int],
                pieces(cs@, fields@) == rows[r as int],
                bounds_within(fields@, 0, cs@.len() as int),
                i <= fields@.len(),
                cells@ == rows[r as int].take(i as int).map_values(|f: Seq<char>| field_value(f)),
            decreases fields@.len() - i,
        {
            let (a, b) = fields[i];
            let (ta, tb) = trim_bounds(&cs, a, b);
            proof {
                assert(rows[r as int][i as int] == cs@.subrange(a as int, b as int));
            }
            let c = match parse_int(&cs, ta, tb) {
                Ok(v) => CellValue::Num(v),
                Err(e) => CellValue::ParseFail(e),
            };
            cells.push(c);
            i = i + 1;
            proof {
                assert(cells@ =~= rows[r as int].take(i as int).map_values(|f: Seq<char>| field_value(f)));
            }
        }
        proof {
            assert(rows[r as int].take(i as int) =~= rows[r as int]);
        }
        grid.push(cells);
        r = r + 1;
    }
    proof {
        assert(grid@.map_values(|row: Vec<CellValue>| row@) =~= g);
    }
    let ic = options.index_col;
    if !grid_within_width(&grid, ic) {
        return None;
    }
    let cols = match read_grid(&grid, ic) {
        Ok(c) => c,
        Err(e) => {
            return Some(Err(e));
        },
    };
    proof {
        assert forall|a: int, b: int| !cell_bad(g, g[0].len(), ic, a, b) by {
            if cell_bad(g, g[0].len(), ic, a, b) {
                crate::frame::table::lemma_first_bad_exists(g, g[0].len(), ic, a, b);
            }
        }
    }
    // Row labels from the index column.
    let mut labels: Vec<String> = Vec::new();
    match ic {
        Some(c) => {
            let mut q: usize = 0;
            while q < row_fields.len()
                invariant
                    q <= row_fields@.len(),
                    rows.len() == row_fields@.len(),
                    labels@.map_values(|s: String| s@) == label_column(rows, c as int, q as int),
                decreases row_fields@.len() - q,
            {
                let fields = &row_fields[q];
                proof {
                    assert(pieces(cs@, fields@) == rows[q as int]);
                }
                let ghost old = labels@;
                if c < fields.len() {
                    let (a, b) = fields[c];
                    proof {
                        assert(bounds_within(fields@, 0, cs@.len() as int));
                        assert(fields@[c as int] == (a, b));
                    }
                    labels.push(text_of(&cs, a, b));
                    proof {
                        assert(labels@.map_values(|s: String| s@) =~= old.map_values(|s: String| s@).push(
                            rows[q as int][c as int],
                        ));
                    }
                }
                q = q + 1;
            }
            proof {
                lemma_label_len(rows, c as int, rows.len() as int);
            }
        },
        None => {
            proof {
                assert(labels@.map_values(|s: String| s@) =~= Seq::<Seq<char>>::empty());
            }
        },
    }
    // Column names.
    let width = grid[0].len();
    proof {
        assert(g[0] == grid@[0]@);
    }
    let ghost header = tsv_header(cs@, options.has_header);
    let mut header_names: Vec<String> = Vec::new();
    if options.has_header {
        let (a, b) = lines[0];
        proof {
            assert(ls[0] == cs@.subrange(a as int, b as int));
        }
        let hf = split_bounds(&cs, a, b, '\t');
        let mut q: usize = 0;
        while q < hf.len()
            invariant
                q <= hf@.len(),
                pieces(cs@, hf@) == split_on(ls[0], '\t'),
                bounds_within(hf@, 0, cs@.len() as int),
                header_names@.len() == q,
                forall|j: int| 0 <= j < q ==> (#[trigger] header_names@[j])@ == header[j],
            decreases hf@.len() - q,
        {
            let (fa, fb) = hf[q];
            let (ta, tb) = trim_bounds(&cs, fa, fb);
            proof {
                assert(split_on(ls[0], '\t')[q as int] == cs@.subrange(fa as int, fb as int));
            }
            header_names.push(text_of(&cs, ta, tb));
            q = q + 1;
        }
    }
    let mut names: Vec<String> = Vec::new();
    let mut i: usize = 0;
    while i < width
        invariant
            i <= width,
            names@.len() == i,
            forall|j: int| 0 <= j < i ==> (#[trigger] names@[j])@ == column_name(header, options.has_header, j),
            options.has_header ==> header_names@.len() == header.len(),
            options.has_header ==> forall|j: int| 0 <= j < header.len() ==> (#[trigger] header_names@[j])@ == header[j],
        decreases width - i,
    {
        if options.has_header && i < header_names.len() {
            names.push(header_names[i].clone());
        } else {
            let mut n = String::from_str("col");
            n.append(decimal_string(i).as_str());
            names.push(n);
        }
        i = i + 1;
    }
    proof {
        let nb = non_blank(body, body.len() as int);
        lemma_split_len(nb[0], '\t');
        assert(rows[0] == split_on(nb[0], '\t'));
        assert(g[0].len() == rows[0].len());
        assert(cols@.map_values(|c: Vec<i64>| c@) =~= grid_columns(g, ic));
        assert(names@.map_values(|s: String| s@) =~= Seq::new(g[0].len(), |i: int| column_name(header, options.has_header, i)));
        assert forall|k: int| 0 <= k < cols@.len() implies (#[trigger] cols@[k])@.len() <= isize::MAX by {
            lemma_column_len(g, k, g.len() as int);
        }
    }
    Some(build_frame(cols, labels, names, ic))
}

/// Texts joined with tabs between them.
pub open spec fn join_tab(parts: Seq<Seq<char>>) -> Seq<char>
    decreases parts.len(),
{
    if parts.len() == 0 {
        Seq::empty()
    } else if parts.len() == 1 {
        parts[0]
    } else {
        join_tab(parts.drop_last()) + seq!['\t'] + parts.last()
    }
}

/// The line of row `r`: its values in column order, tab-separated, ended by
/// a newline.
pub open spec fn row_line(df: DataFrame<i64>, r: int) -> Seq<char> {
    join_tab(Seq::new(df.series().len(), |c: int| int_text(df.series()[c].values_view()[r] as int))) + seq!['\n']
}

/// The lines of the first `n` rows.
pub open spec fn rows_text(df: DataFrame<i64>, n: int) -> Seq<char>
    decreases n,
{
    if n <= 0 {
        Seq::empty()
    } else {
        rows_text(df, n - 1) + row_line(df, n - 1)
    }
}

/// TSV text of a table: a header line with the column names when asked for,
/// then one line per row.
pub open spec fn tsv_text(df: DataFrame<i64>, include_header: bool) -> Seq<char> {
    (if include_header { join_tab(df.names()) + seq!['\n'] } else { Seq::empty() }) + rows_text(
        df,
        df.index_view().len() as int,
    )
}

/// Joins texts with tabs.
fn join_with_tabs(parts: &Vec<String>) -> (r: String)
    ensures
        r@ == join_tab(parts@.map_values(|s: String| s@)),
{
    let ghost pv = parts@.map_values(|s: String| s@);
    let mut out = String::new();
    let mut k: usize = 0;
    proof {
        assert(pv.take(0) =~= Seq::<Seq<char>>::empty());
    }
    while k < parts.len()
        invariant
            pv == parts@.map_values(|s: String| s@),
            k <= parts@.len(),
            out@ == join_tab(pv.take(k as int)),
        decreases parts@.len() - k,
    {
        if k > 0 {
            out.append("\t");
        }
        out.append(parts[k].as_str());
        proof {
            reveal_strlit("\t");
            let t = pv.take(k + 1);
            assert(t.drop_last() =~= pv.take(k as int));
            assert(t.last() == parts@[k as int]@);
            if k == 0 {
                assert(t.len() == 1);
                assert(out@ =~= t[0]);
            } else {
                assert(out@ =~= join_tab(pv.take(k as int)) + seq!['\t'] + t.last());
            }
        }
        k = k + 1;
    }
    proof {
        assert(pv.take(k as int) =~= pv);
    }
    out
}

/// Writes a table as TSV text.
#[verifier::loop_isolation(false)]
pub fn write_tsv_text(df: &DataFrame<i64>, options: &TsvWriteOptions) -> (r: String)
    ensures
        r@ == tsv_text(*df, options.include_header),
{
    proof {
        use_type_invariant(df);
    }
    let mut out = String::new();
    let names = df.columns();
    let ncols = names.len();
    if options.include_header {
        let mut owned: Vec<String> = Vec::new();
        let mut c: usize = 0;
        while c < ncols
            invariant
                c <= ncols,
                ncols == names@.len(),
                owned@.len() == c,
                forall|j: int| 0 <= j < c ==> (#[trigger] owned@[j])@ == df.names()[j],
            decreases ncols - c,
        {
            owned.push(names[c].clone());
            c = c + 1;
        }
        proof {
            assert(owned@.map_values(|s: String| s@) =~= df.names());
        }
        let header = join_with_tabs(&owned);
        out.append(header.as_str());
        out.append("\n");
        proof {
            reveal_strlit("\n");
        }
    }
    let ghost head = out@;
    proof {
        assert(head == (if options.include_header { join_tab(df.names()) + seq!['\n'] } else { Seq::<char>::empty() }));
    }
    let nrows = df.nrows();
    let mut row: usize = 0;
    while row < nrows
        invariant
            row <= nrows,
            nrows == df.index_view().len(),
            out@ == head + rows_text(*df, row as int),
        decreases nrows - row,
    {
        let mut cells: Vec<String> = Vec::new();
        let mut c: usize = 0;
        while c < ncols
            invariant
                c <= ncols,
                row < nrows,
                ncols == df.series().len(),
                cells@.len() == c,
                forall|j: int| 0 <= j < c ==> (#[trigger] cells@[j])@ == int_text(df.series()[j].values_view()[row as int] as int),
            decreases ncols - c,
        {
            let col = df.column_at(c);
            let n = col.len();
            let v = match col.get(row) {
                Ok(v) => v,
                Err(_) => {
                    proof {
                        assert(false);
                    }
                    0
                },
            };
            cells.push(int_string(v));
            c = c + 1;
        }
        proof {
            assert(cells@.map_values(|s: String| s@) =~= Seq::new(
                df.series().len(),
                |j: int| int_text(df.series()[j].values_view()[row as int] as int),
            ));
        }
        let line = join_with_tabs(&cells);
        out.append(line.as_str());
        out.append("\n");
        proof {
            reveal_strlit("\n");
            assert(out@ =~= head + rows_text(*df, row + 1));
        }
        row = row + 1;
    }
    out
}

} // verus!
