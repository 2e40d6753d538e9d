use rusanta::error::RusantaError;

#[test]
fn error_messages() {
    assert_eq!(
        RusantaError::Internal { message: "boom".to_string() }.to_string(),
        "Internal Rusanta error: boom"
    );
    assert_eq!(RusantaError::NotImplemented { feature: "gpu" }.to_string(), "Feature not implemented: gpu");
    assert_eq!(
        RusantaError::ShapeMismatch { expected: vec![2, 3], found: vec![6] }.to_string(),
        "Shape mismatch: expected [2, 3], found [6]"
    );
    assert_eq!(
        RusantaError::ShapeMismatch { expected: vec![], found: vec![10, 0, 7] }.to_string(),
        "Shape mismatch: expected [], found [10, 0, 7]"
    );
    assert_eq!(
        RusantaError::DimensionMismatch { lhs: 4, rhs: 12 }.to_string(),
        "Dimension mismatch: left has 4, right has 12"
    );
    assert_eq!(RusantaError::EmptyData { context: "sum" }.to_string(), "Empty data encountered (sum)");
    assert_eq!(
        RusantaError::IndexOutOfBounds { index: 5, len: 3 }.to_string(),
        "Index out of bounds: index 5, length 3"
    );
    assert_eq!(RusantaError::ColumnNotFound { name: "age".to_string() }.to_string(), "Column not found: 'age'");
    assert_eq!(
        RusantaError::InvalidType { expected: "int", found: "str" }.to_string(),
        "Invalid type: expected int, found str"
    );
    assert_eq!(RusantaError::InvalidValue { message: "neg".to_string() }.to_string(), "Invalid value: neg");
    assert_eq!(RusantaError::ModelNotFitted.to_string(), "Model has not been fitted");
    assert_eq!(
        RusantaError::InvalidHyperparameter { name: "k", reason: "must be positive".to_string() }.to_string(),
        "Invalid hyperparameter 'k': must be positive"
    );
    assert_eq!(RusantaError::Io { message: "denied".to_string() }.to_string(), "IO error: denied");
    assert_eq!(RusantaError::Parse { message: "bad".to_string() }.to_string(), "Parse error: bad");
}

#[test]
fn error_from_string_is_internal() {
    let e: RusantaError = RusantaError::from("oops".to_string());
    assert!(matches!(e, RusantaError::Internal { ref message } if message == "oops"));
}
