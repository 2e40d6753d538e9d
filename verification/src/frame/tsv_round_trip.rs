//! Reading back what writing a table as TSV text gave.
use vstd::prelude::*;
use crate::frame::tsv::tsv_fits;
use crate::frame::fields::{
    digit_value, is_digit, is_space, lemma_trim_end_at, lemma_trim_start_at, parse_int_spec, read_digits, split_on,
    trim,
};
use crate::frame::text::{decimal, digit_char, int_text, lemma_decimal_first, lemma_decimal_len};
use crate::frame::dataframe::DataFrame;
use crate::frame::fields::{strip_cr, text_lines, trim_end, trim_start};
use crate::frame::tsv::{
    column_name, field_grid, field_value, grid_columns, join_tab, non_blank, row_line, rows_text, tsv_header, tsv_read,
    tsv_rows, tsv_text, TsvReadOptions,
};
use crate::frame::table::{
    CellValue, cell_bad, column_of, frame_built, is_last, lemma_last_unique, lemma_unique_names_of_distinct,
    lemma_value_columns_all, table_index, value_columns, value_names,
};
use crate::frame::index::{distinct_labels, range_labels};

verus! {

/// Splitting at a separator the text does not hold gives the text.
proof fn lemma_split_without(s: Seq<char>, sep: char)
    requires
        !s.contains(sep),
    ensures
        split_on(s, sep) == seq![s],
    decreases s.len(),
{
    if s.len() > 0 {
        let t = s.drop_last();
        assert(!t.contains(sep)) by {
            if t.contains(sep) {
                let k = choose|k: int| 0 <= k < t.len() && t[k] == sep;
                assert(s[k] == sep);
            }
        }
        lemma_split_without(t, sep);
        assert(s.last() != sep) by {
            assert(s[s.len() - 1] == s.last());
        }
        assert(t.push(s.last()) =~= s);
    } else {
        assert(s =~= Seq::<char>::empty());
    }
}

/// Splitting `a`, a separator, then `b` gives the pieces of `a` then those of `b`.
proof fn lemma_split_concat(a: Seq<char>, b: Seq<char>, sep: char)
    ensures
        split_on(a + seq![sep] + b, sep) == split_on(a, sep) + split_on(b, sep),
    decreases b.len(),
{
    let s = a + seq![sep] + b;
    if b.len() == 0 {
        assert(s.drop_last() =~= a);
        assert(s.last() == sep);
        assert(split_on(b, sep) =~= seq![Seq::<char>::empty()]);
        assert(split_on(a, sep).push(Seq::<char>::empty()) =~= split_on(a, sep) + split_on(b, sep));
    } else {
        let b2 = b.drop_last();
        lemma_split_concat(a, b2, sep);
        assert(s.drop_last() =~= a + seq![sep] + b2);
        assert(s.last() == b.last());
        let p = split_on(a + seq![sep] + b2, sep);
        let q = split_on(b2, sep);
        crate::frame::fields::lemma_split_nonempty(b2, sep);
        if b.last() == sep {
            assert(split_on(s, sep) == p.push(Seq::<char>::empty()));
            assert(split_on(b, sep) == q.push(Seq::<char>::empty()));
            assert(p.push(Seq::<char>::empty()) =~= split_on(a, sep) + q.push(Seq::<char>::empty()));
        } else {
            assert(split_on(s, sep) == p.update(p.len() - 1, p.last().push(b.last())));
            assert(split_on(b, sep) == q.update(q.len() - 1, q.last().push(b.last())));
            assert(p.last() == q.last());
            assert(p.update(p.len() - 1, p.last().push(b.last())) =~= split_on(a, sep) + q.update(
                q.len() - 1,
                q.last().push(b.last()),
            ));
        }
    }
}

/// Splitting texts joined by tabs at the tabs gives them back, when none
/// holds a tab.
proof fn lemma_split_join(parts: Seq<Seq<char>>)
    requires
        parts.len() >= 1,
        forall|k: int| 0 <= k < parts.len() ==> !(#[trigger] parts[k]).contains('\t'),
    ensures
        split_on(join_tab(parts), '\t') == parts,
    decreases parts.len(),
{
    if parts.len() == 1 {
        lemma_split_without(parts[0], '\t');
        assert(seq![parts[0]] =~= parts);
    } else {
        let init = parts.drop_last();
        assert forall|k: int| 0 <= k < init.len() implies !(#[trigger] init[k]).contains('\t') by {
            assert(init[k] == parts[k]);
        }
        lemma_split_join(init);
        assert(!parts.last().contains('\t')) by {
            assert(parts[parts.len() - 1] == parts.last());
        }
        lemma_split_without(parts.last(), '\t');
        lemma_split_concat(join_tab(init), parts.last(), '\t');
        assert(init + seq![parts.last()] =~= parts);
    }
}

/// A text without whitespace at its ends is its own trimmed text.
proof fn lemma_trim_unchanged(s: Seq<char>)
    requires
        s.len() > 0,
        !is_space(s[0]),
        !is_space(s.last()),
    ensures
        trim(s) == s,
{
    lemma_trim_start_at(s, 0);
    assert(s.skip(0) =~= s);
    lemma_trim_end_at(s, s.len() as int);
    assert(s.take(s.len() as int) =~= s);
}

/// The decimal digits, their values, and that they are neither whitespace
/// nor a tab, a newline or a minus sign.
proof fn lemma_digit_char(d: int)
    requires
        0 <= d < 10,
    ensures
        is_digit(digit_char(d)),
        digit_value(digit_char(d)) == d,
        !is_space(digit_char(d)),
        digit_char(d) != '\t',
        digit_char(d) != '\n',
        digit_char(d) != '\r',
        digit_char(d) != '-',
        digit_char(d) != '+',
{
    let ds = seq!['0', '1', '2', '3', '4', '5', '6', '7', '8', '9'];
    assert(digit_char(d) == ds[d]);
    if d == 0 {
        assert(ds[0] == '0');
    } else if d == 1 {
        assert(ds[1] == '1');
    } else if d == 2 {
        assert(ds[2] == '2');
    } else if d == 3 {
        assert(ds[3] == '3');
    } else if d == 4 {
        assert(ds[4] == '4');
    } else if d == 5 {
        assert(ds[5] == '5');
    } else if d == 6 {
        assert(ds[6] == '6');
    } else if d == 7 {
        assert(ds[7] == '7');
    } else if d == 8 {
        assert(ds[8] == '8');
    } else {
        assert(ds[9] == '9');
    }
}

/// Every character of a decimal text is a digit.
proof fn lemma_decimal_digits(n: nat)
    ensures
        forall|i: int| #![trigger decimal(n)[i]]
            0 <= i < decimal(n).len() ==> exists|d: int| 0 <= d < 10 && decimal(n)[i] == #[trigger] digit_char(d),
    decreases n,
{
    if n >= 10 {
        lemma_decimal_digits(n / 10);
        let p = decimal(n / 10);
        assert forall|i: int| #![trigger decimal(n)[i]] 0 <= i < decimal(n).len() implies exists|d: int|
            0 <= d < 10 && decimal(n)[i] == #[trigger] digit_char(d) by {
            if i < p.len() {
                assert(decimal(n)[i] == p[i]);
            } else {
                assert(decimal(n)[i] == digit_char((n % 10) as int));
            }
        }
    } else {
        assert forall|i: int| #![trigger decimal(n)[i]] 0 <= i < decimal(n).len() implies exists|d: int|
            0 <= d < 10 && decimal(n)[i] == #[trigger] digit_char(d) by {
            assert(decimal(n)[i] == digit_char(n as int));
        }
    }
}

/// Reading digits only looks at the first `k` characters.
proof fn lemma_read_digits_prefix(a: Seq<char>, b: Seq<char>, neg: bool, k: int)
    requires
        0 <= k <= a.len(),
        k <= b.len(),
        forall|i: int| 0 <= i < k ==> a[i] == b[i],
    ensures
        read_digits(a, neg, k) == read_digits(b, neg, k),
    decreases k,
{
    if k > 0 {
        lemma_read_digits_prefix(a, b, neg, k - 1);
        assert(a[k - 1] == b[k - 1]);
    }
}

/// Reading the decimal text of `m` gives `m`, or `-m` when negated, as long
/// as it fits in `i64`.
proof fn lemma_read_decimal(m: nat, neg: bool)
    requires
        neg ==> m <= 0x8000_0000_0000_0000,
        !neg ==> m <= i64::MAX,
    ensures
        read_digits(decimal(m), neg, decimal(m).len() as int) == Ok::<int, crate::frame::fields::IntErrorKind>(
            if neg { -m } else { m as int },
        ),
    decreases m,
{
    let d = decimal(m);
    if m < 10 {
        lemma_digit_char(m as int);
        assert(d.len() == 1);
        assert(d[0] == digit_char(m as int));
        assert(read_digits(d, neg, 0) == Ok::<int, crate::frame::fields::IntErrorKind>(0));
    } else {
        let p = decimal(m / 10);
        lemma_read_decimal(m / 10, neg);
        lemma_decimal_len(m / 10);
        assert(d == p.push(digit_char((m % 10) as int)));
        lemma_read_digits_prefix(d, p, neg, p.len() as int);
        lemma_digit_char((m % 10) as int);
        assert(d[p.len() as int] == digit_char((m % 10) as int));
        assert(d.len() == p.len() + 1);
        let v: int = if neg { -((m / 10) as int) } else { (m / 10) as int };
        assert(read_digits(d, neg, p.len() as int) == Ok::<int, crate::frame::fields::IntErrorKind>(v));
        if neg {
            assert(v * 10 - (m % 10) as int == -(m as int));
        } else {
            assert(v * 10 + (m % 10) as int == m as int);
        }
    }
}

/// The text of an integer reads back as that integer.
pub proof fn lemma_parse_int_text(v: i64)
    ensures
        parse_int_spec(int_text(v as int)) == Ok::<i64, crate::frame::fields::IntErrorKind>(v),
{
    let s = int_text(v as int);
    if v < 0 {
        let m: nat = (-(v as int)) as nat;
        lemma_decimal_len(m);
        assert(s == seq!['-'] + decimal(m));
        assert(s[0] == '-');
        assert(s.skip(1) =~= decimal(m));
        lemma_read_decimal(m, true);
    } else {
        lemma_decimal_len(v as nat);
        lemma_decimal_first(v as nat);
        let d = choose|d: int| 0 <= d < 10 && decimal(v as nat)[0] == #[trigger] digit_char(d);
        lemma_digit_char(d);
        assert(s == decimal(v as nat));
        lemma_read_decimal(v as nat, false);
    }
}

/// The text of an integer: not empty, a minus sign or digits only, and no
/// whitespace at its ends.
pub proof fn lemma_int_text_shape(v: int)
    ensures
        int_text(v).len() > 0,
        !is_space(int_text(v)[0]),
        !is_space(int_text(v).last()),
        !int_text(v).contains('\t'),
        !int_text(v).contains('\n'),
        int_text(v).last() != '\r',
        trim(int_text(v)) == int_text(v),
{
    let s = int_text(v);
    let m: nat = if v < 0 { (-v) as nat } else { v as nat };
    let dd = decimal(m);
    lemma_decimal_len(m);
    lemma_decimal_digits(m);
    assert forall|i: int| 0 <= i < s.len() implies s[i] == '-' || exists|d: int|
        0 <= d < 10 && s[i] == #[trigger] digit_char(d) by {
        if v < 0 {
            if i > 0 {
                assert(s[i] == dd[i - 1]);
            }
        } else {
            assert(s[i] == dd[i]);
        }
    }
    assert(!s.contains('\t')) by {
        if s.contains('\t') {
            let i = choose|i: int| 0 <= i < s.len() && s[i] == '\t';
            if s[i] != '-' {
                let d = choose|d: int| 0 <= d < 10 && s[i] == #[trigger] digit_char(d);
                lemma_digit_char(d);
            }
        }
    }
    assert(!s.contains('\n')) by {
        if s.contains('\n') {
            let i = choose|i: int| 0 <= i < s.len() && s[i] == '\n';
            if s[i] != '-' {
                let d = choose|d: int| 0 <= d < 10 && s[i] == #[trigger] digit_char(d);
                lemma_digit_char(d);
            }
        }
    }
    assert(s[0] == '-' || exists|d: int| 0 <= d < 10 && s[0] == #[trigger] digit_char(d));
    if s[0] != '-' {
        let d = choose|d: int| 0 <= d < 10 && s[0] == #[trigger] digit_char(d);
        lemma_digit_char(d);
    }
    assert(s.last() == dd.last());
    assert(dd[dd.len() - 1] == dd.last());
    let d = choose|d: int| 0 <= d < 10 && dd[dd.len() - 1] == #[trigger] digit_char(d);
    lemma_digit_char(d);
    lemma_trim_unchanged(s);
}


/// The line of row `r` without its newline.
pub open spec fn row_text(df: DataFrame<i64>, r: int) -> Seq<char> {
    join_tab(row_fields(df, r))
}

/// The texts of the values of row `r`, in column order.
pub open spec fn row_fields(df: DataFrame<i64>, r: int) -> Seq<Seq<char>> {
    Seq::new(df.series().len(), |c: int| int_text(df.series()[c].values_view()[r] as int))
}

/// The lines of the first `m` rows.
pub open spec fn row_lines(df: DataFrame<i64>, m: int) -> Seq<Seq<char>> {
    Seq::new(m as nat, |r: int| row_text(df, r))
}

/// Joining texts by tabs adds no character but tabs.
proof fn lemma_join_without(parts: Seq<Seq<char>>, c: char)
    requires
        c != '\t',
        forall|k: int| 0 <= k < parts.len() ==> !(#[trigger] parts[k]).contains(c),
    ensures
        !join_tab(parts).contains(c),
    decreases parts.len(),
{
    if parts.len() > 1 {
        let init = parts.drop_last();
        assert forall|k: int| 0 <= k < init.len() implies !(#[trigger] init[k]).contains(c) by {
            assert(init[k] == parts[k]);
        }
        lemma_join_without(init, c);
        assert(!parts.last().contains(c)) by {
            assert(parts[parts.len() - 1] == parts.last());
        }
        let j = join_tab(parts);
        assert(j == join_tab(init) + seq!['\t'] + parts.last());
        if j.contains(c) {
            let i = choose|i: int| 0 <= i < j.len() && j[i] == c;
            let a = join_tab(init).len();
            if i < a {
                assert(join_tab(init)[i] == c);
            } else if i > a {
                assert(parts.last()[i - a - 1] == c);
            }
        }
    } else if parts.len() == 1 {
        assert(join_tab(parts) == parts[0]);
    }
}

/// The ends of texts joined by tabs.
proof fn lemma_join_ends(parts: Seq<Seq<char>>)
    requires
        parts.len() >= 1,
    ensures
        parts[0].len() > 0 ==> join_tab(parts).len() > 0 && join_tab(parts)[0] == parts[0][0],
        parts.last().len() > 0 ==> join_tab(parts).len() > 0 && join_tab(parts).last() == parts.last().last(),
        parts.len() >= 2 && parts.last().len() == 0 ==> join_tab(parts).len() > 0 && join_tab(parts).last() == '\t',
    decreases parts.len(),
{
    if parts.len() > 1 {
        let init = parts.drop_last();
        lemma_join_ends(init);
        assert(init[0] == parts[0]);
        let j = join_tab(parts);
        assert(j == join_tab(init) + seq!['\t'] + parts.last());
        if parts[0].len() > 0 {
            assert(j[0] == join_tab(init)[0]);
        }
    }
}

/// A row line is not blank, holds no tab-free newline, and ends in a digit.
proof fn lemma_row_text(df: DataFrame<i64>, r: int)
    requires
        df.series().len() > 0,
    ensures
        !row_text(df, r).contains('\n'),
        row_text(df, r).len() > 0,
        trim(row_text(df, r)) == row_text(df, r),
        row_text(df, r).last() != '\r',
        split_on(row_text(df, r), '\t') == row_fields(df, r),
{
    let fs = row_fields(df, r);
    assert forall|k: int| 0 <= k < fs.len() implies !(#[trigger] fs[k]).contains('\n') && !fs[k].contains('\t') by {
        lemma_int_text_shape(df.series()[k].values_view()[r] as int);
    }
    lemma_join_without(fs, '\n');
    lemma_split_join(fs);
    lemma_join_ends(fs);
    lemma_int_text_shape(df.series()[0].values_view()[r] as int);
    lemma_int_text_shape(df.series()[fs.len() - 1].values_view()[r] as int);
    assert(fs.last() == fs[fs.len() - 1]);
    lemma_trim_unchanged(row_text(df, r));
}

/// Splitting the lines of the first `m` rows, then `x`, at newlines.
proof fn lemma_split_rows(df: DataFrame<i64>, m: int, x: Seq<char>)
    requires
        df.series().len() > 0,
        0 <= m,
    ensures
        split_on(rows_text(df, m) + x, '\n') == row_lines(df, m) + split_on(x, '\n'),
    decreases m,
{
    if m == 0 {
        assert(rows_text(df, 0) + x =~= x);
        assert(row_lines(df, 0) + split_on(x, '\n') =~= split_on(x, '\n'));
    } else {
        let rt = row_text(df, m - 1);
        assert(row_line(df, m - 1) == rt + seq!['\n']);
        assert(rows_text(df, m) + x =~= (rows_text(df, m - 1) + rt) + seq!['\n'] + x);
        lemma_split_concat(rows_text(df, m - 1) + rt, x, '\n');
        lemma_split_rows(df, m - 1, rt);
        lemma_row_text(df, m - 1);
        lemma_split_without(rt, '\n');
        assert(row_lines(df, m - 1) + seq![rt] =~= row_lines(df, m));
        assert(row_lines(df, m - 1) + seq![rt] + split_on(x, '\n') =~= row_lines(df, m) + split_on(x, '\n'));
    }
}

/// A text equal to its trimmed text ends in no whitespace.
proof fn lemma_trimmed_end(s: Seq<char>)
    requires
        trim(s) == s,
        s.len() > 0,
    ensures
        !is_space(s.last()),
{
    lemma_trim_start_len(s);
    let t = trim_start(s);
    if is_space(s.last()) {
        if t.len() == s.len() {
            assert(t == s);
            lemma_trim_end_len(t);
        } else {
            lemma_trim_end_len(t);
        }
    }
}

proof fn lemma_trim_start_len(s: Seq<char>)
    ensures
        trim_start(s).len() <= s.len(),
        trim_start(s).len() == s.len() ==> trim_start(s) == s,
    decreases s.len(),
{
    if s.len() > 0 && is_space(s[0]) {
        lemma_trim_start_len(s.skip(1));
    }
}

proof fn lemma_trim_end_len(s: Seq<char>)
    ensures
        trim_end(s).len() <= s.len(),
        s.len() > 0 && is_space(s.last()) ==> trim_end(s).len() < s.len(),
    decreases s.len(),
{
    if s.len() > 0 && is_space(s.last()) {
        lemma_trim_end_len(s.drop_last());
    }
}

/// Column names that TSV text keeps: no tab, no newline, no surrounding
/// whitespace.
pub open spec fn plain_name(s: Seq<char>) -> bool {
    &&& !s.contains('\t')
    &&& !s.contains('\n')
    &&& trim(s) == s
}

/// The lines of the TSV text of a table with a header: the header line, then
/// one line per row.
proof fn lemma_tsv_lines(df: DataFrame<i64>)
    requires
        df.series().len() > 0,
        df.names().len() > 0,
        forall|k: int| 0 <= k < df.names().len() ==> plain_name(#[trigger] df.names()[k]),
    ensures
        text_lines(tsv_text(df, true)) == seq![join_tab(df.names())] + row_lines(df, df.index_view().len() as int),
{
    let n = df.index_view().len() as int;
    let names = df.names();
    let h = join_tab(names);
    lemma_join_without(names, '\n');
    lemma_split_without(h, '\n');
    assert(tsv_text(df, true) =~= h + seq!['\n'] + (rows_text(df, n) + Seq::<char>::empty()));
    lemma_split_concat(h, rows_text(df, n) + Seq::<char>::empty(), '\n');
    lemma_split_rows(df, n, Seq::<char>::empty());
    let p = split_on(tsv_text(df, true), '\n');
    assert(split_on(Seq::<char>::empty(), '\n') =~= seq![Seq::<char>::empty()]);
    assert(p == seq![h] + row_lines(df, n) + seq![Seq::<char>::empty()]);
    assert(p.last() =~= Seq::<char>::empty());
    let q = p.drop_last();
    assert(q =~= seq![h] + row_lines(df, n));
    // No line ends in a carriage return.
    lemma_join_ends(names);
    if names.last().len() > 0 {
        assert(names.last() == names[names.len() - 1]);
        lemma_trimmed_end(names.last());
    }
    assert(strip_cr(h) == h);
    assert forall|r: int| 0 <= r < n implies strip_cr(#[trigger] row_lines(df, n)[r]) == row_lines(df, n)[r] by {
        lemma_row_text(df, r);
    }
    assert(q.map_values(|l: Seq<char>| strip_cr(l)) =~= q);
}

/// Blank lines are the only ones left out.
proof fn lemma_non_blank_all(ls: Seq<Seq<char>>, m: int)
    requires
        0 <= m <= ls.len(),
        forall|k: int| 0 <= k < ls.len() ==> trim(#[trigger] ls[k]).len() > 0,
    ensures
        non_blank(ls, m) == ls.take(m),
    decreases m,
{
    if m > 0 {
        lemma_non_blank_all(ls, m - 1);
        assert(ls.take(m) =~= ls.take(m - 1).push(ls[m - 1]));
    } else {
        assert(ls.take(0) =~= Seq::<Seq<char>>::empty());
    }
}


/// The values of each row, as cells.
pub open spec fn value_grid(df: DataFrame<i64>) -> Seq<Seq<CellValue>> {
    Seq::new(
        df.index_view().len(),
        |r: int| Seq::new(df.series().len(), |c: int| CellValue::Num(df.series()[c].values_view()[r])),
    )
}

/// Every column holds one value per row, and the names are distinct.
pub open spec fn tsv_shape(df: DataFrame<i64>) -> bool {
    &&& df.names().len() == df.series().len()
    &&& df.names().len() <= usize::MAX
    &&& distinct_labels(df.names())
    &&& forall|k: int| 0 <= k < df.series().len() ==> #[trigger] df.series()[k].values_view().len() == df.index_view().len()
}

/// The data rows of the TSV text of a table read as the table's values.
proof fn lemma_tsv_grid(df: DataFrame<i64>)
    requires
        tsv_shape(df),
        df.names().len() > 0,
        forall|k: int| 0 <= k < df.names().len() ==> plain_name(#[trigger] df.names()[k]),
    ensures
        text_lines(tsv_text(df, true)).len() == df.index_view().len() + 1,
        tsv_rows(tsv_text(df, true), true) == Seq::new(df.index_view().len(), |r: int| row_fields(df, r)),
        field_grid(tsv_rows(tsv_text(df, true), true)) == value_grid(df),
        tsv_header(tsv_text(df, true), true) == df.names(),
{
    let n = df.index_view().len() as int;
    let content = tsv_text(df, true);
    lemma_tsv_lines(df);
    let ls = text_lines(content);
    let body = ls.skip(1);
    assert(body =~= row_lines(df, n));
    assert forall|k: int| 0 <= k < body.len() implies trim(#[trigger] body[k]).len() > 0 by {
        lemma_row_text(df, k);
    }
    lemma_non_blank_all(body, body.len() as int);
    assert(body.take(body.len() as int) =~= body);
    let rows = tsv_rows(content, true);
    assert forall|r: int| 0 <= r < n implies #[trigger] rows[r] == row_fields(df, r) by {
        lemma_row_text(df, r);
    }
    assert(rows =~= Seq::new(n as nat, |r: int| row_fields(df, r)));
    let g = field_grid(rows);
    assert forall|r: int| 0 <= r < n implies #[trigger] g[r] == value_grid(df)[r] by {
        assert forall|c: int| 0 <= c < df.series().len() implies #[trigger] g[r][c] == value_grid(df)[r][c] by {
            let v = df.series()[c].values_view()[r];
            lemma_int_text_shape(v as int);
            lemma_parse_int_text(v);
            assert(g[r][c] == field_value(int_text(v as int)));
        }
        assert(g[r] =~= value_grid(df)[r]);
    }
    assert(g =~= value_grid(df));
    // The header.
    let names = df.names();
    assert forall|k: int| 0 <= k < names.len() implies !(#[trigger] names[k]).contains('\t') by {
        assert(plain_name(names[k]));
    }
    lemma_split_join(names);
    assert(ls[0] == join_tab(names));
    assert(split_on(ls[0], '\t').map_values(|f: Seq<char>| trim(f)) =~= names) by {
        assert forall|k: int| 0 <= k < names.len() implies trim(#[trigger] names[k]) == names[k] by {
            assert(plain_name(names[k]));
        }
    }
}

/// The values of column `i` over the first `m` rows of the grid.
proof fn lemma_column_of_grid(df: DataFrame<i64>, i: int, m: int)
    requires
        tsv_shape(df),
        0 <= i < df.series().len(),
        0 <= m <= df.index_view().len(),
    ensures
        column_of(value_grid(df), i, m) == df.series()[i].values_view().take(m),
    decreases m,
{
    if m > 0 {
        lemma_column_of_grid(df, i, m - 1);
        let g = value_grid(df);
        assert(g[m - 1][i] == CellValue::Num(df.series()[i].values_view()[m - 1]));
        assert(df.series()[i].values_view().take(m) =~= df.series()[i].values_view().take(m - 1).push(
            df.series()[i].values_view()[m - 1],
        ));
    } else {
        assert(df.series()[i].values_view().take(0) =~= Seq::<i64>::empty());
    }
}

/// Reading back the TSV text written, with a header, for a table gives the
/// table: the same column names in the same order, the same values, and rows
/// labelled `"0" ..` as many as the table has. (Row labels are not written.)
/// This holds for tables with a column and a row whose names hold no tab or
/// newline and no surrounding whitespace.
#[verifier::spinoff_prover]
#[verifier::rlimit(40)]
pub proof fn lemma_tsv_round_trip(df: DataFrame<i64>, r: crate::frame::error::Result<DataFrame<i64>>)
    requires
        tsv_shape(df),
        df.names().len() > 0,
        df.index_view().len() > 0,
        forall|k: int| 0 <= k < df.names().len() ==> plain_name(#[trigger] df.names()[k]),
        tsv_read(tsv_text(df, true), TsvReadOptions { has_header: true, index_col: None }, r),
    ensures
        r matches Ok(d) && d.names() == df.names() && d.index_view() == range_labels(df.index_view().len())
            && d.series().len() == df.series().len() && forall|k: int|
            0 <= k < df.series().len() ==> (#[trigger] d.series()[k]).values_view() == df.series()[k].values_view(),
{
    let n = df.index_view().len() as int;
    let nc = df.names().len() as int;
    let names = df.names();
    let content = tsv_text(df, true);
    let options = TsvReadOptions { has_header: true, index_col: None };
    lemma_tsv_grid(df);
    let rows = tsv_rows(content, true);
    let g = field_grid(rows);
    assert(g == value_grid(df));
    assert(g[0].len() == nc);
    assert forall|a: int, b: int| !cell_bad(g, g[0].len(), None, a, b) by {
        if 0 <= a < g.len() && 0 <= b < g[a].len() {
            assert(g[a][b] == CellValue::Num(df.series()[b].values_view()[a]));
        }
    }
    let header = tsv_header(content, true);
    let cols = grid_columns(g, None);
    let labels = Seq::<Seq<char>>::empty();
    let cn = Seq::new(g[0].len(), |i: int| column_name(header, true, i));
    assert(cn =~= names);
    assert forall|i: int| 0 <= i < nc implies #[trigger] cols[i] == df.series()[i].values_view() by {
        lemma_column_of_grid(df, i, n);
        assert(df.series()[i].values_view().take(n) =~= df.series()[i].values_view());
    }
    lemma_value_columns_all(nc);
    let vc = value_columns(None, nc);
    assert(value_names(cn, vc) =~= names);
    assert(table_index(cols, labels, None) == range_labels(n as nat)) by {
        assert(cols[0] == df.series()[0].values_view());
    }
    assert(frame_built(cols, labels, cn, None, r));
    lemma_unique_names_of_distinct(names);
    let d = r->Ok_0;
    assert forall|k: int| 0 <= k < df.series().len() implies (#[trigger] d.series()[k]).values_view()
        == df.series()[k].values_view() by {
        assert(is_last(names, names[k], k));
        lemma_last_unique(names, names[k], k);
        assert(d.names()[k] == names[k]);
    }
}

/// The TSV text written, with a header, for such a table can be read back:
/// reading it never looks past the width of its first data row, so
/// `read_tsv_text` accepts it.
#[verifier::spinoff_prover]
#[verifier::rlimit(40)]
pub proof fn lemma_written_tsv_fits(df: DataFrame<i64>)
    requires
        tsv_shape(df),
        df.names().len() > 0,
        df.index_view().len() > 0,
        forall|k: int| 0 <= k < df.names().len() ==> plain_name(#[trigger] df.names()[k]),
    ensures
        tsv_fits(tsv_text(df, true), (TsvReadOptions { has_header: true, index_col: None })),
{
    let content = tsv_text(df, true);
    lemma_tsv_grid(df);
    let rows = tsv_rows(content, true);
    let g = field_grid(rows);
    assert(g == value_grid(df));
    assert forall|a: int, b: int| !cell_bad(g, g[0].len(), None, a, b) by {
        if 0 <= a < g.len() && 0 <= b < g[a].len() {
            assert(g[a][b] == CellValue::Num(df.series()[b].values_view()[a]));
        }
    }
}

} // verus!
