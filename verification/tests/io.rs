use rusanta::frame::dataframe::DataFrame;
use rusanta::frame::error::Error;
use rusanta::frame::index::Index;
use rusanta::frame::toon::{read_toon_bytes, write_toon_bytes};
use rusanta::frame::tsv::{read_tsv_text, try_read_tsv_text, write_tsv_text, TsvReadOptions, TsvWriteOptions};
use rusanta::frame::xlsx::{choose_sheet, sheet_to_frame, try_sheet_to_frame, Cell, XlsxReadOptions};

fn col(df: &DataFrame<i64>, name: &str) -> Vec<i64> {
    df.column(name).unwrap().to_vec()
}

fn names<T: Copy>(df: &DataFrame<T>) -> Vec<String> {
    df.columns().into_iter().cloned().collect()
}

#[test]
fn tsv_read_with_header() {
    let df = read_tsv_text("a\tb\n1\t2\n3\t4\n", &TsvReadOptions::default()).unwrap();
    assert_eq!(names(&df), vec!["a".to_string(), "b".to_string()]);
    assert_eq!(col(&df, "a"), vec![1, 3]);
    assert_eq!(col(&df, "b"), vec![2, 4]);
    assert_eq!(df.index().label(1).unwrap(), "1");
}

#[test]
fn tsv_read_trims_fields_and_skips_blank_lines() {
    let df = read_tsv_text(" x \t y\n 5\t-6 \n\n   \n7\t8", &TsvReadOptions::default()).unwrap();
    assert_eq!(names(&df), vec!["x".to_string(), "y".to_string()]);
    assert_eq!(col(&df, "x"), vec![5, 7]);
    assert_eq!(col(&df, "y"), vec![-6, 8]);
}

#[test]
fn tsv_read_without_header_names_columns() {
    let opts = TsvReadOptions { has_header: false, index_col: None };
    let df = read_tsv_text("1\t2\n3\t4\n", &opts).unwrap();
    assert_eq!(names(&df), vec!["col0".to_string(), "col1".to_string()]);
    assert_eq!(col(&df, "col1"), vec![2, 4]);
}

#[test]
fn tsv_read_with_index_column() {
    let opts = TsvReadOptions { has_header: true, index_col: Some(0) };
    let df = read_tsv_text("id\tv\nr1\t10\nr2\t20\n", &opts).unwrap();
    assert_eq!(names(&df), vec!["v".to_string()]);
    assert_eq!(col(&df, "v"), vec![10, 20]);
    assert_eq!(df.index().label(0).unwrap(), "r1");
    assert_eq!(df.index().label(1).unwrap(), "r2");
}

#[test]
fn tsv_read_errors() {
    match read_tsv_text("", &TsvReadOptions::default()) {
        Err(Error::InvalidValue(m)) => assert_eq!(m, "empty TSV file"),
        _ => panic!("expected empty file error"),
    }
    match read_tsv_text("a\tb\n", &TsvReadOptions::default()) {
        Err(Error::InvalidValue(m)) => assert_eq!(m, "no data rows found"),
        _ => panic!("expected no rows error"),
    }
    match read_tsv_text("a\n1x\n", &TsvReadOptions::default()) {
        Err(Error::ParseError(m)) => assert_eq!(m, "invalid digit found in string"),
        _ => panic!("expected a parse error"),
    }
    match read_tsv_text("a\n99999999999999999999\n", &TsvReadOptions::default()) {
        Err(Error::ParseError(m)) => assert_eq!(m, "number too large to fit in target type"),
        _ => panic!("expected an overflow error"),
    }
}

#[test]
fn tsv_write_with_and_without_header() {
    let df = DataFrame::from_vecs(
        vec![("a".to_string(), vec![1i64, -2]), ("b".to_string(), vec![30i64, 4])],
        None,
    )
    .unwrap();
    assert_eq!(write_tsv_text(&df, &TsvWriteOptions::default()), "a\tb\n1\t30\n-2\t4\n");
    let bare = TsvWriteOptions { include_header: false };
    assert_eq!(write_tsv_text(&df, &bare), "1\t30\n-2\t4\n");
}

#[test]
fn tsv_round_trip() {
    let df = DataFrame::from_vecs(
        vec![("p".to_string(), vec![0i64, 7, -9]), ("q".to_string(), vec![i64::MAX, i64::MIN, 5])],
        None,
    )
    .unwrap();
    let text = write_tsv_text(&df, &TsvWriteOptions::default());
    let back = read_tsv_text(&text, &TsvReadOptions::default()).unwrap();
    assert_eq!(names(&back), names(&df));
    assert_eq!(col(&back, "p"), col(&df, "p"));
    assert_eq!(col(&back, "q"), col(&df, "q"));
}

fn text(s: &str) -> Cell {
    Cell::Text(s.to_string())
}

fn num(s: &str) -> Cell {
    Cell::Number(s.to_string())
}

#[test]
fn sheet_rows_to_frame() {
    let rows = vec![vec![text("a"), text("b")], vec![num("1"), num("2")], vec![num("3"), num("4")]];
    let df = sheet_to_frame(&rows, &XlsxReadOptions::default()).unwrap();
    assert_eq!(names(&df), vec!["a".to_string(), "b".to_string()]);
    assert_eq!(col(&df, "a"), vec![1, 3]);
    assert_eq!(col(&df, "b"), vec![2, 4]);
}

#[test]
fn sheet_with_index_column() {
    let rows = vec![vec![text("id"), text("v")], vec![text("x"), num("1")], vec![text("y"), num("2")]];
    let opts = XlsxReadOptions { has_header: true, sheet: None, index_col: Some(0) };
    let df = sheet_to_frame(&rows, &opts).unwrap();
    assert_eq!(names(&df), vec!["v".to_string()]);
    assert_eq!(df.index().label(1).unwrap(), "y");
}

#[test]
fn sheet_errors() {
    let empty: Vec<Vec<Cell>> = vec![];
    match sheet_to_frame(&empty, &XlsxReadOptions::default()) {
        Err(Error::InvalidValue(m)) => assert_eq!(m, "empty sheet"),
        _ => panic!("expected empty sheet"),
    }
    let bad_header = vec![vec![num("1")], vec![num("2")]];
    match sheet_to_frame(&bad_header, &XlsxReadOptions::default()) {
        Err(Error::InvalidValue(m)) => assert_eq!(m, "header row must be strings"),
        _ => panic!("expected header error"),
    }
    let only_header = vec![vec![text("a")]];
    match sheet_to_frame(&only_header, &XlsxReadOptions::default()) {
        Err(Error::InvalidValue(m)) => assert_eq!(m, "no data rows found"),
        _ => panic!("expected no rows"),
    }
    let text_cell = vec![vec![text("a"), text("b")], vec![num("1"), text("oops")]];
    match sheet_to_frame(&text_cell, &XlsxReadOptions::default()) {
        Err(Error::InvalidValue(m)) => assert_eq!(m, "non-numeric cell at row 0, col 1"),
        _ => panic!("expected non-numeric"),
    }
}

#[test]
fn choose_sheet_by_name_or_first() {
    let sheets = vec!["one".to_string(), "two".to_string()];
    assert_eq!(choose_sheet(&sheets, &None).unwrap(), "one");
    assert_eq!(choose_sheet(&sheets, &Some("two".to_string())).unwrap(), "two");
    match choose_sheet(&sheets, &Some("three".to_string())) {
        Err(Error::KeyNotFound(k)) => assert_eq!(k, "three"),
        _ => panic!("expected KeyNotFound"),
    }
    match choose_sheet(&vec![], &None) {
        Err(Error::InvalidValue(m)) => assert_eq!(m, "no sheets found"),
        _ => panic!("expected no sheets"),
    }
}

#[test]
fn toon_bytes_layout() {
    let df = DataFrame::from_vecs(vec![("x".to_string(), vec![1u64, 2])], None).unwrap();
    let b = write_toon_bytes(&df);
    let mut expected: Vec<u8> = b"TOON".to_vec();
    expected.extend_from_slice(&1u16.to_le_bytes());
    expected.extend_from_slice(&1u32.to_le_bytes());
    expected.extend_from_slice(&2u64.to_le_bytes());
    expected.extend_from_slice(&1u16.to_le_bytes());
    expected.extend_from_slice(b"x");
    expected.extend_from_slice(&1u64.to_le_bytes());
    expected.extend_from_slice(&2u64.to_le_bytes());
    assert_eq!(b, expected);
}

#[test]
fn toon_round_trip() {
    let idx = Index::new(vec!["r".to_string(), "s".to_string(), "t".to_string()]).unwrap();
    let df = DataFrame::from_vecs(
        vec![("α".to_string(), vec![0u64, u64::MAX, 7]), ("b".to_string(), vec![3u64, 4, 5])],
        Some(idx),
    )
    .unwrap();
    let back = read_toon_bytes(&write_toon_bytes(&df)).unwrap();
    assert_eq!(names(&back), names(&df));
    assert_eq!(back.column("α").unwrap().to_vec(), vec![0, u64::MAX, 7]);
    assert_eq!(back.column("b").unwrap().to_vec(), vec![3, 4, 5]);
    assert_eq!(back.index().label(2).unwrap(), "2");
}

#[test]
fn toon_read_errors() {
    match read_toon_bytes(b"TO") {
        Err(Error::Io(m)) => assert_eq!(m, "failed to fill whole buffer"),
        _ => panic!("expected truncated"),
    }
    match read_toon_bytes(b"NOPE\x01\x00") {
        Err(Error::InvalidValue(m)) => assert_eq!(m, "invalid TOON magic"),
        _ => panic!("expected bad magic"),
    }
    match read_toon_bytes(b"TOON\x02\x00\x00\x00\x00\x00\x00\x00\x00\x00\x00\x00\x00\x00") {
        Err(Error::InvalidValue(m)) => assert_eq!(m, "unsupported TOON version 2"),
        _ => panic!("expected bad version"),
    }
    let mut bad_name: Vec<u8> = b"TOON".to_vec();
    bad_name.extend_from_slice(&1u16.to_le_bytes());
    bad_name.extend_from_slice(&1u32.to_le_bytes());
    bad_name.extend_from_slice(&0u64.to_le_bytes());
    bad_name.extend_from_slice(&1u16.to_le_bytes());
    bad_name.push(0xff);
    match read_toon_bytes(&bad_name) {
        Err(Error::InvalidValue(m)) => assert_eq!(m, "invalid UTF-8 column name"),
        _ => panic!("expected bad name"),
    }
}

#[test]
fn tsv_rows_wider_than_the_first_are_out_of_bounds() {
    assert!(try_read_tsv_text("a\n1\n2\t3\n", &TsvReadOptions::default()).is_none());
    // a bad cell before the wide row stops the read with its error
    match try_read_tsv_text("a\nx\n2\t3\n", &TsvReadOptions::default()) {
        Some(Err(Error::ParseError(_))) => {}
        _ => panic!("expected the parse error of the first bad cell"),
    }
    assert!(try_read_tsv_text("a\tb\n1\t2\n", &TsvReadOptions::default()).unwrap().is_ok());
}

#[test]
fn sheet_rows_out_of_bounds() {
    let wide = vec![vec![text("a")], vec![num("1")], vec![num("2"), num("3")]];
    assert!(try_sheet_to_frame(&wide, &XlsxReadOptions::default()).is_none());
    let no_columns = vec![vec![], vec![]];
    let opts = XlsxReadOptions { has_header: false, sheet: None, index_col: None };
    assert!(try_sheet_to_frame(&no_columns, &opts).is_none());
    let bad_header = vec![vec![num("1")], vec![num("2"), num("3")]];
    assert!(matches!(try_sheet_to_frame(&bad_header, &XlsxReadOptions::default()), Some(Err(Error::InvalidValue(_)))));
}
