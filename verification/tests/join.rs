use rusanta::frame::dataframe::DataFrame;
use rusanta::frame::error::Error;
use rusanta::frame::join::{join, JoinType};

fn frame(cols: Vec<(&str, Vec<i64>)>) -> DataFrame<i64> {
    let data: Vec<(String, Vec<i64>)> = cols.into_iter().map(|(n, v)| (n.to_string(), v)).collect();
    DataFrame::from_vecs(data, None).unwrap()
}

fn values(df: &DataFrame<i64>, name: &str) -> Vec<i64> {
    df.column(name).unwrap().to_vec()
}

#[test]
fn inner_join_matches_rows_in_order() {
    let left = frame(vec![("id", vec![1, 2, 3]), ("a", vec![10, 20, 30])]);
    let right = frame(vec![("id", vec![2, 3, 3, 4]), ("b", vec![200, 300, 301, 400])]);
    let out = join(&left, &right, "id", JoinType::Inner).unwrap();
    assert_eq!(out.nrows(), 3);
    assert_eq!(out.ncols(), 2);
    assert!(!out.has_column("id"));
    assert_eq!(values(&out, "a"), vec![20, 30, 30]);
    assert_eq!(values(&out, "b"), vec![200, 300, 301]);
}

#[test]
fn join_method_agrees_with_function() {
    let left = frame(vec![("id", vec![5, 6]), ("a", vec![1, 2])]);
    let right = frame(vec![("id", vec![6, 5]), ("b", vec![3, 4])]);
    let out = left.join(&right, "id", JoinType::Inner).unwrap();
    assert_eq!(values(&out, "a"), vec![1, 2]);
    assert_eq!(values(&out, "b"), vec![4, 3]);
}

#[test]
fn left_join_with_unmatched_row_needs_nulls() {
    let left = frame(vec![("id", vec![1, 2, 3]), ("a", vec![10, 20, 30])]);
    let right = frame(vec![("id", vec![2, 3]), ("b", vec![200, 300])]);
    match join(&left, &right, "id", JoinType::Left) {
        Err(Error::InvalidValue(m)) => assert_eq!(m, "null values not supported yet"),
        other => panic!("unexpected: {:?}", other.map(|d| d.nrows())),
    }
}

#[test]
fn left_join_keeps_unmatched_rows_when_right_has_only_the_key() {
    let left = frame(vec![("id", vec![1, 2, 3]), ("a", vec![10, 20, 30])]);
    let right = frame(vec![("id", vec![2, 2])]);
    let out = join(&left, &right, "id", JoinType::Left).unwrap();
    assert_eq!(out.nrows(), 4);
    assert_eq!(values(&out, "a"), vec![10, 20, 20, 30]);
}

#[test]
fn right_join_drives_by_right_rows() {
    let left = frame(vec![("id", vec![1, 2, 2])]);
    let right = frame(vec![("id", vec![2, 9, 1]), ("b", vec![7, 8, 9])]);
    let out = join(&left, &right, "id", JoinType::Right).unwrap();
    assert_eq!(values(&out, "b"), vec![7, 7, 8, 9]);
}

#[test]
fn right_join_with_unmatched_row_needs_nulls() {
    let left = frame(vec![("id", vec![1]), ("a", vec![5])]);
    let right = frame(vec![("id", vec![1, 2]), ("b", vec![7, 8])]);
    assert!(matches!(join(&left, &right, "id", JoinType::Right), Err(Error::InvalidValue(_))));
}

#[test]
fn shared_column_names_get_a_suffix() {
    let left = frame(vec![("id", vec![1, 2]), ("v", vec![10, 20])]);
    let right = frame(vec![("id", vec![2, 1]), ("v", vec![200, 100])]);
    let out = join(&left, &right, "id", JoinType::Inner).unwrap();
    assert_eq!(values(&out, "v"), vec![10, 20]);
    assert_eq!(values(&out, "v_right"), vec![100, 200]);
}

#[test]
fn suffix_collision_is_a_length_error() {
    let left = frame(vec![("id", vec![1]), ("v", vec![10]), ("v_right", vec![11])]);
    let right = frame(vec![("id", vec![1]), ("v", vec![12])]);
    match join(&left, &right, "id", JoinType::Inner) {
        Err(Error::InvalidValue(m)) => assert_eq!(m, "data length does not match index length"),
        other => panic!("unexpected: {:?}", other.map(|d| d.nrows())),
    }
}

#[test]
fn no_matching_rows_gives_an_empty_frame() {
    let left = frame(vec![("id", vec![1]), ("a", vec![1])]);
    let right = frame(vec![("id", vec![2]), ("b", vec![2])]);
    let out = join(&left, &right, "id", JoinType::Inner).unwrap();
    assert_eq!(out.nrows(), 0);
    assert_eq!(out.ncols(), 0);
}

#[test]
fn missing_key_is_reported_per_side() {
    let left = frame(vec![("id", vec![1])]);
    let right = frame(vec![("key", vec![1])]);
    match join(&left, &right, "key", JoinType::Inner) {
        Err(Error::KeyNotFound(m)) => assert_eq!(m, "left key 'key' not found"),
        other => panic!("unexpected: {:?}", other.map(|d| d.nrows())),
    }
    match join(&left, &right, "id", JoinType::Inner) {
        Err(Error::KeyNotFound(m)) => assert_eq!(m, "right key 'id' not found"),
        other => panic!("unexpected: {:?}", other.map(|d| d.nrows())),
    }
}

#[test]
fn left_join_equals_inner_join_when_every_key_matches() {
    let left = frame(vec![("id", vec![3, 1, 3]), ("a", vec![10, 20, 30])]);
    let right = frame(vec![("id", vec![1, 3, 3]), ("b", vec![100, 300, 301])]);
    let l = join(&left, &right, "id", JoinType::Left).unwrap();
    let i = join(&left, &right, "id", JoinType::Inner).unwrap();
    assert_eq!(l.columns(), i.columns());
    assert_eq!(values(&l, "a"), values(&i, "a"));
    assert_eq!(values(&l, "b"), values(&i, "b"));
    assert_eq!(values(&l, "a"), vec![10, 10, 20, 30, 30]);
}
