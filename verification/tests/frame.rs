use rusanta::frame::aggregate::Agg;
use rusanta::error::RusantaError;
use rusanta::frame::dataframe::DataFrame;
use rusanta::frame::error::Error;
use rusanta::frame::index::{distinct_strings, Index};
use rusanta::frame::series::Series;

fn labels(xs: &[&str]) -> Vec<String> {
    xs.iter().map(|s| s.to_string()).collect()
}

fn frame(cols: &[(&str, Vec<i64>)]) -> DataFrame<i64> {
    let data: Vec<(String, Vec<i64>)> = cols.iter().map(|(n, v)| (n.to_string(), v.clone())).collect();
    DataFrame::from_vecs(data, None).unwrap()
}

#[test]
fn index_range_labels_are_decimal_positions() {
    let idx = Index::range(3);
    assert_eq!(idx.len(), 3);
    assert_eq!(idx.label(0).unwrap(), "0");
    assert_eq!(idx.label(2).unwrap(), "2");
    assert!(matches!(
        idx.label(3),
        Err(Error::Core(RusantaError::IndexOutOfBounds { index: 3, len: 3 }))
    ));
    assert_eq!(Index::range(12).label(11).unwrap(), "11");
}

#[test]
fn index_rejects_duplicate_labels() {
    assert!(distinct_strings(&labels(&["a", "b"])));
    assert!(!distinct_strings(&labels(&["a", "b", "a"])));
    match Index::new(labels(&["a", "b", "a"])) {
        Err(Error::InvalidValue(m)) => assert_eq!(m, "duplicate index label"),
        other => panic!("unexpected {:?}", other.map(|i| i.len())),
    }
}

#[test]
fn index_position_and_missing_label() {
    let idx = Index::new(labels(&["x", "y", "z"])).unwrap();
    assert_eq!(idx.position("y").unwrap(), 1);
    match idx.position("w") {
        Err(Error::KeyNotFound(k)) => assert_eq!(k, "w"),
        _ => panic!("expected KeyNotFound"),
    }
    assert!(!idx.is_empty());
}

#[test]
fn index_align_keeps_left_order() {
    let a = Index::new(labels(&["a", "b", "c", "d"])).unwrap();
    let b = Index::new(labels(&["d", "x", "b"])).unwrap();
    let (l, r) = a.align(&b);
    assert_eq!(l, vec![1, 3]);
    assert_eq!(r, vec![2, 0]);
    assert!(a.same_labels(&a.clone()));
    assert!(!a.same_labels(&b));
}

#[test]
fn series_new_checks_length() {
    let idx = Index::range(2);
    match Series::new(vec![1i64, 2, 3], idx, None) {
        Err(Error::InvalidValue(_)) => {}
        _ => panic!("expected a length error"),
    }
    let s = Series::new(vec![1i64, 2], Index::new(labels(&["p", "q"])).unwrap(), Some("v".to_string())).unwrap();
    assert_eq!(s.len(), 2);
    assert_eq!(s.name(), Some("v"));
    assert_eq!(s.get_label("q").unwrap(), 2);
    assert!(matches!(s.get_label("r"), Err(Error::KeyNotFound(_))));
}

#[test]
fn series_get_and_out_of_bounds() {
    let s = Series::from_vec(vec![10i64, 20, 30]);
    assert_eq!(s.get(1).unwrap(), 20);
    assert!(matches!(
        s.get(5),
        Err(Error::Core(RusantaError::IndexOutOfBounds { index: 5, len: 3 }))
    ));
    assert_eq!(s.index().label(2).unwrap(), "2");
    assert_eq!(s.to_vec(), vec![10, 20, 30]);
}

#[test]
fn series_set_name_replaces_name() {
    let mut s = Series::from_vec(vec![1i64]);
    assert_eq!(s.name(), None);
    s.set_name("col".to_string());
    assert_eq!(s.name(), Some("col"));
}

#[test]
fn series_take_selects_positions() {
    let s = Series::new(vec![5i64, 6, 7], Index::new(labels(&["a", "b", "c"])).unwrap(), None).unwrap();
    let t = s.take(&[2, 0]).unwrap();
    assert_eq!(t.to_vec(), vec![7, 5]);
    assert_eq!(t.index().label(0).unwrap(), "c");
    assert_eq!(t.index().label(1).unwrap(), "a");
    assert!(matches!(
        s.take(&[0, 3]),
        Err(Error::Core(RusantaError::IndexOutOfBounds { index: 3, len: 3 }))
    ));
}

#[test]
fn series_align_inner_join() {
    let a = Series::new(vec![1i64, 2, 3], Index::new(labels(&["a", "b", "c"])).unwrap(), None).unwrap();
    let b = Series::new(vec![20i64, 30, 40], Index::new(labels(&["b", "c", "d"])).unwrap(), None).unwrap();
    let (x, y) = a.align(&b).unwrap();
    assert_eq!(x.to_vec(), vec![2, 3]);
    assert_eq!(y.to_vec(), vec![20, 30]);
    assert_eq!(x.index().label(0).unwrap(), "b");
    assert_eq!(y.index().label(1).unwrap(), "c");
}

#[test]
fn series_map_applies_function() {
    let s = Series::from_vec(vec![1i64, 2, 3]);
    let m = s.map(|x: i64| x.wrapping_mul(2)).unwrap();
    assert_eq!(m.to_vec(), vec![2, 4, 6]);
}

#[test]
fn series_statistics() {
    let s = Series::from_vec(vec![1i64, 2, 3, 4]);
    assert_eq!(s.sum().unwrap(), 10);
    assert_eq!(s.mean().unwrap(), 2);
    assert_eq!(s.min().unwrap(), 1);
    assert_eq!(s.max().unwrap(), 4);
    // deviations from 2: 1, 0, 1, 4 -> 6 / 4 = 1
    assert_eq!(s.var().unwrap(), 1);
    let neg = Series::from_vec(vec![-3i64, -4]);
    assert_eq!(neg.mean().unwrap(), -3);
}

#[test]
fn series_statistics_of_empty() {
    let s = Series::<i64>::from_vec(vec![]);
    assert_eq!(s.sum().unwrap(), 0);
    match s.mean() {
        Err(Error::InvalidValue(m)) => assert_eq!(m, "cannot compute mean of empty series"),
        _ => panic!("expected an error"),
    }
    match s.min() {
        Err(Error::InvalidValue(m)) => assert_eq!(m, "cannot compute min of empty series"),
        _ => panic!("expected an error"),
    }
    match s.max() {
        Err(Error::InvalidValue(m)) => assert_eq!(m, "cannot compute max of empty series"),
        _ => panic!("expected an error"),
    }
}

#[test]
fn mean_lies_between_min_and_max() {
    let s = Series::from_vec(vec![7i64, -2, 9, 3]);
    let m = s.mean().unwrap();
    assert!(s.min().unwrap() <= m && m <= s.max().unwrap());
}

#[test]
fn dataframe_from_vecs_and_columns() {
    let df = frame(&[("a", vec![1, 2, 3]), ("b", vec![4, 5, 6])]);
    assert_eq!(df.nrows(), 3);
    assert_eq!(df.ncols(), 2);
    let names: Vec<String> = df.columns().into_iter().cloned().collect();
    assert_eq!(names, vec!["a".to_string(), "b".to_string()]);
    assert!(df.has_column("b"));
    assert!(!df.has_column("c"));
    assert_eq!(df.column("b").unwrap().to_vec(), vec![4, 5, 6]);
    assert_eq!(df.column("b").unwrap().name(), Some("b"));
    match df.column("c") {
        Err(Error::KeyNotFound(k)) => assert_eq!(k, "c"),
        _ => panic!("expected KeyNotFound"),
    }
}

#[test]
fn dataframe_from_vecs_rejects_ragged_columns() {
    let data = vec![("a".to_string(), vec![1i64, 2]), ("b".to_string(), vec![1i64])];
    assert!(matches!(DataFrame::from_vecs(data, None), Err(Error::InvalidValue(_))));
}

#[test]
fn dataframe_new_requires_shared_index() {
    let a = Series::from_vec(vec![1i64, 2]);
    let b = Series::new(vec![3i64, 4], Index::new(labels(&["x", "y"])).unwrap(), None).unwrap();
    match DataFrame::new(vec![("a".to_string(), a.clone()), ("b".to_string(), b)]) {
        Err(Error::InvalidValue(m)) => assert_eq!(m, "all columns must share the same index"),
        _ => panic!("expected an index error"),
    }
    let df = DataFrame::new(vec![("a".to_string(), a)]).unwrap();
    assert_eq!(df.nrows(), 2);
    let e = DataFrame::<i64>::empty();
    assert_eq!(e.nrows(), 0);
    assert_eq!(e.ncols(), 0);
}

#[test]
fn dataframe_insert_adds_or_replaces() {
    let mut df = frame(&[("a", vec![1, 2])]);
    df.insert("b".to_string(), Series::from_vec(vec![3, 4])).unwrap();
    assert_eq!(df.ncols(), 2);
    df.insert("a".to_string(), Series::from_vec(vec![9, 9])).unwrap();
    assert_eq!(df.ncols(), 2);
    assert_eq!(df.column("a").unwrap().to_vec(), vec![9, 9]);
    let bad = Series::from_vec(vec![1i64, 2, 3]);
    match df.insert("c".to_string(), bad) {
        Err(Error::InvalidValue(m)) => assert_eq!(m, "inserted series index does not match dataframe index"),
        _ => panic!("expected an index error"),
    }
    assert_eq!(df.ncols(), 2);
}

#[test]
fn dataframe_select_in_given_order() {
    let df = frame(&[("a", vec![1]), ("b", vec![2]), ("c", vec![3])]);
    let s = df.select(&["c", "a"]).unwrap();
    let names: Vec<String> = s.columns().into_iter().cloned().collect();
    assert_eq!(names, vec!["c".to_string(), "a".to_string()]);
    assert_eq!(s.column("c").unwrap().to_vec(), vec![3]);
    match df.select(&["a", "zz"]) {
        Err(Error::KeyNotFound(k)) => assert_eq!(k, "zz"),
        _ => panic!("expected KeyNotFound"),
    }
}

#[test]
fn dataframe_take_rows() {
    let df = frame(&[("a", vec![1, 2, 3]), ("b", vec![4, 5, 6])]);
    let t = df.take(&[2, 1]).unwrap();
    assert_eq!(t.column("a").unwrap().to_vec(), vec![3, 2]);
    assert_eq!(t.column("b").unwrap().to_vec(), vec![6, 5]);
    assert_eq!(t.index().label(0).unwrap(), "2");
    assert!(matches!(
        df.take(&[7]),
        Err(Error::Core(RusantaError::IndexOutOfBounds { index: 7, len: 3 }))
    ));
}

#[test]
fn dataframe_align_rows_by_label() {
    let left = DataFrame::from_vecs(
        vec![("v".to_string(), vec![1i64, 2, 3])],
        Some(Index::new(labels(&["a", "b", "c"])).unwrap()),
    )
    .unwrap();
    let right = DataFrame::from_vecs(
        vec![("w".to_string(), vec![10i64, 30])],
        Some(Index::new(labels(&["c", "a"])).unwrap()),
    )
    .unwrap();
    let (l, r) = left.align(&right).unwrap();
    assert_eq!(l.column("v").unwrap().to_vec(), vec![1, 3]);
    assert_eq!(r.column("w").unwrap().to_vec(), vec![30, 10]);
}

#[test]
fn dataframe_map_over_columns() {
    let df = frame(&[("a", vec![1, 2]), ("b", vec![3, 4])]);
    let m = df
        .map(|s: &Series<i64>| s.map(|x: i64| x.wrapping_add(1)))
        .unwrap();
    assert_eq!(m.column("a").unwrap().to_vec(), vec![2, 3]);
    assert_eq!(m.column("b").unwrap().to_vec(), vec![4, 5]);
}

#[test]
fn dataframe_to_rows_is_row_major() {
    let df = frame(&[("a", vec![1, 2]), ("b", vec![3, 4])]);
    assert_eq!(df.to_rows().unwrap(), vec![vec![1, 3], vec![2, 4]]);
}

#[test]
fn dataframe_column_statistics() {
    let df = frame(&[("a", vec![1, 2, 3]), ("b", vec![10, -10, 6])]);
    let s = df.sum().unwrap();
    assert_eq!(s.column("a").unwrap().to_vec(), vec![6]);
    assert_eq!(s.column("b").unwrap().to_vec(), vec![6]);
    assert_eq!(s.index().label(0).unwrap(), "0");
    assert_eq!(df.mean().unwrap().column("b").unwrap().to_vec(), vec![2]);
    assert_eq!(df.min().unwrap().column("b").unwrap().to_vec(), vec![-10]);
    assert_eq!(df.max().unwrap().column("a").unwrap().to_vec(), vec![3]);
    assert_eq!(df.var().unwrap().column("a").unwrap().to_vec(), vec![0]);
}

#[test]
fn dataframe_statistics_of_empty_rows() {
    let df = frame(&[("a", vec![])]);
    assert!(df.sum().is_ok());
    match df.mean() {
        Err(Error::InvalidValue(m)) => assert_eq!(m, "cannot compute mean of empty series"),
        _ => panic!("expected an error"),
    }
}

#[test]
fn groupby_aggregates_per_key_in_first_appearance_order() {
    let df = frame(&[("v", vec![10, 20, 30, 40, 5]), ("k", vec![3, -1, 3, 7, -1]), ("w", vec![1, 2, 3, 4, 6])]);
    let g = df.groupby("k").unwrap();
    let s = g.agg(Agg::Sum).unwrap();
    let names: Vec<String> = s.columns().into_iter().cloned().collect();
    assert_eq!(names, vec!["v".to_string(), "w".to_string()]);
    assert_eq!(s.index().label(0).unwrap(), "3");
    assert_eq!(s.index().label(1).unwrap(), "-1");
    assert_eq!(s.index().label(2).unwrap(), "7");
    assert_eq!(s.column("v").unwrap().to_vec(), vec![40, 25, 40]);
    assert_eq!(s.column("w").unwrap().to_vec(), vec![4, 8, 4]);
    assert_eq!(g.agg(Agg::Count).unwrap().column("v").unwrap().to_vec(), vec![2, 2, 1]);
    assert_eq!(g.agg(Agg::Min).unwrap().column("w").unwrap().to_vec(), vec![1, 2, 4]);
    assert_eq!(g.agg(Agg::Max).unwrap().column("w").unwrap().to_vec(), vec![3, 6, 4]);
    assert_eq!(g.agg(Agg::Mean).unwrap().column("v").unwrap().to_vec(), vec![20, 12, 40]);
}

#[test]
fn groupby_missing_key_and_degenerate_tables() {
    let df = frame(&[("k", vec![1, 1])]);
    match df.groupby("zz") {
        Err(Error::KeyNotFound(k)) => assert_eq!(k, "zz"),
        _ => panic!("expected KeyNotFound"),
    }
    let only_key = df.groupby("k").unwrap().agg(Agg::Sum).unwrap();
    assert_eq!(only_key.ncols(), 0);
    assert_eq!(only_key.nrows(), 0);
    let empty = frame(&[("k", vec![]), ("v", vec![])]);
    let r = empty.groupby("k").unwrap().agg(Agg::Count).unwrap();
    assert_eq!(r.ncols(), 0);
}

#[test]
fn groupby_counts_add_up_to_rows() {
    let df = frame(&[("k", vec![5, 1, 5, 5, 2, 1, 9]), ("v", vec![1, 2, 3, 4, 5, 6, 7])]);
    let counts = df.groupby("k").unwrap().agg(Agg::Count).unwrap();
    let total: i64 = counts.column("v").unwrap().to_vec().iter().sum();
    assert_eq!(total, 7);
}

#[test]
fn aligned_frames_share_labels() {
    let left = DataFrame::from_vecs(
        vec![("v".to_string(), vec![1i64, 2, 3, 4])],
        Some(Index::new(labels(&["a", "b", "c", "d"])).unwrap()),
    )
    .unwrap();
    let right = DataFrame::from_vecs(
        vec![("w".to_string(), vec![10i64, 20, 30])],
        Some(Index::new(labels(&["d", "z", "b"])).unwrap()),
    )
    .unwrap();
    let (l, r) = left.align(&right).unwrap();
    assert_eq!(l.nrows(), 2);
    for i in 0..l.nrows() {
        assert_eq!(l.index().label(i).unwrap(), r.index().label(i).unwrap());
    }
    assert_eq!(l.index().label(0).unwrap(), "b");
    assert_eq!(r.column("w").unwrap().to_vec(), vec![30, 10]);
}

#[test]
fn dataframe_map_reports_the_function_error() {
    let df = frame(&[("a", vec![1, 2])]);
    let r = df.map(|_s: &Series<i64>| Err(Error::InvalidValue("nope".to_string())));
    match r {
        Err(Error::InvalidValue(m)) => assert_eq!(m, "nope"),
        _ => panic!("expected the function's error"),
    }
    let two = frame(&[("a", vec![1, 2]), ("b", vec![3, 4])]);
    let mut calls = std::cell::Cell::new(0);
    let r = two.map(|s: &Series<i64>| {
        calls.set(calls.get() + 1);
        if calls.get() == 1 {
            Ok(s.clone())
        } else {
            Ok(Series::from_vec(vec![9i64]))
        }
    });
    match r {
        Err(Error::InvalidValue(m)) => assert_eq!(m, "all columns must share the same index"),
        _ => panic!("expected the index error"),
    }
    let _ = calls.get_mut();
}

#[test]
fn variance_is_never_negative() {
    for v in [vec![5i64], vec![-7, 7], vec![1, 1, 1], vec![-100, 3, 50, 2]] {
        assert!(Series::from_vec(v).var().unwrap() >= 0);
    }
}

#[test]
fn dataframe_map_returns_the_first_error() {
    let df = frame(&[("a", vec![1, 2]), ("b", vec![3, 4])]);
    let calls = std::cell::Cell::new(0);
    let r = df.map(|s: &Series<i64>| {
        calls.set(calls.get() + 1);
        Err(Error::KeyNotFound(format!("call {} of {}", calls.get(), s.len())))
    });
    assert!(matches!(r, Err(Error::KeyNotFound(m)) if m == "call 1 of 2"));
    assert_eq!(calls.get(), 1);
}

#[test]
fn dataframe_map_rejects_results_with_different_indexes() {
    let df = frame(&[("a", vec![1, 2]), ("b", vec![3, 4])]);
    let r = df.map(|s: &Series<i64>| {
        let first = s.to_vec()[0];
        let labels = if first == 1 { vec!["x".to_string(), "y".to_string()] } else { vec!["p".to_string(), "q".to_string()] };
        Series::new(s.to_vec(), Index::new(labels).unwrap(), None)
    });
    assert!(matches!(r, Err(Error::InvalidValue(m)) if m == "all columns must share the same index"));
}

#[test]
fn dataframe_map_keeps_a_common_new_index() {
    let df = frame(&[("a", vec![1, 2]), ("b", vec![3, 4])]);
    let m = df
        .map(|s: &Series<i64>| Series::new(s.to_vec(), Index::new(labels(&["x", "y"])).unwrap(), None))
        .unwrap();
    assert_eq!(m.index().label(1).unwrap(), "y");
    assert_eq!(m.column("b").unwrap().name(), Some("b"));
    assert_eq!(m.column("b").unwrap().to_vec(), vec![3, 4]);
}

#[test]
fn dataframe_map_of_empty_frame_is_empty() {
    let df = frame(&[]);
    let m = df.map(|_s: &Series<i64>| Err(Error::InvalidValue("never called".to_string()))).unwrap();
    assert_eq!(m.ncols(), 0);
    assert_eq!(m.nrows(), 0);
}

#[test]
fn dataframe_from_no_vectors_has_no_rows_whatever_the_index() {
    let data: Vec<(String, Vec<i64>)> = Vec::new();
    let df = DataFrame::from_vecs(data, Some(Index::range(4))).unwrap();
    assert_eq!(df.nrows(), 0);
    assert_eq!(df.index().len(), 0);
}
