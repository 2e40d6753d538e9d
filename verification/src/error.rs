use vstd::prelude::*;
use crate::frame::text::{decimal, decimal_string};

verus! {

/// The central error type shared by every part of the library.
#[derive(Debug)]
pub enum RusantaError {
    Internal { message: String },
    NotImplemented { feature: &'static str },
    ShapeMismatch { expected: Vec<usize>, found: Vec<usize> },
    DimensionMismatch { lhs: usize, rhs: usize },
    EmptyData { context: &'static str },
    IndexOutOfBounds { index: usize, len: usize },
    ColumnNotFound { name: String },
    InvalidType { expected: &'static str, found: &'static str },
    InvalidValue { message: String },
    ModelNotFitted,
    InvalidHyperparameter { name: &'static str, reason: String },
    Io { message: String },
    Parse { message: String },
}

/// Library-wide result type.
pub type Result<T> = core::result::Result<T, RusantaError>;

/// The numbers separated by `", "`.
pub open spec fn joined_numbers(v: Seq<usize>) -> Seq<char>
    decreases v.len(),
{
    if v.len() == 0 {
        Seq::empty()
    } else if v.len() == 1 {
        decimal(v[0] as nat)
    } else {
        joined_numbers(v.drop_last()) + ", "@ + decimal(v.last() as nat)
    }
}

/// A list of numbers as debug formatting writes it: `[1, 2, 3]`.
pub open spec fn number_list(v: Seq<usize>) -> Seq<char> {
    "["@ + joined_numbers(v) + "]"@
}

/// The human-readable message of an error.
pub open spec fn error_text(e: RusantaError) -> Seq<char> {
    match e {
        RusantaError::Internal { message } => "Internal Rusanta error: "@ + message@,
        RusantaError::NotImplemented { feature } => "Feature not implemented: "@ + feature@,
        RusantaError::ShapeMismatch { expected, found } => "Shape mismatch: expected "@ + number_list(expected@)
            + ", found "@ + number_list(found@),
        RusantaError::DimensionMismatch { lhs, rhs } => "Dimension mismatch: left has "@ + decimal(lhs as nat)
            + ", right has "@ + decimal(rhs as nat),
        RusantaError::EmptyData { context } => "Empty data encountered ("@ + context@ + ")"@,
        RusantaError::IndexOutOfBounds { index, len } => "Index out of bounds: index "@ + decimal(index as nat)
            + ", length "@ + decimal(len as nat),
        RusantaError::ColumnNotFound { name } => "Column not found: '"@ + name@ + "'"@,
        RusantaError::InvalidType { expected, found } => "Invalid type: expected "@ + expected@ + ", found "@
            + found@,
        RusantaError::InvalidValue { message } => "Invalid value: "@ + message@,
        RusantaError::ModelNotFitted => "Model has not been fitted"@,
        RusantaError::InvalidHyperparameter { name, reason } => "Invalid hyperparameter '"@ + name@ + "': "@
            + reason@,
        RusantaError::Io { message } => "IO error: "@ + message@,
        RusantaError::Parse { message } => "Parse error: "@ + message@,
    }
}

/// The numbers as a bracketed, comma-separated list.
fn number_list_string(v: &Vec<usize>) -> (r: String)
    ensures
        r@ == number_list(v@),
{
    let mut out = String::from_str("[");
    let mut k: usize = 0;
    proof {
        reveal_strlit("[");
    }
    while k < v.len()
        invariant
            k <= v@.len(),
            out@ == "["@ + joined_numbers(v@.take(k as int)),
        decreases v@.len() - k,
    {
        if k > 0 {
            out.append(", ");
        }
        let d = decimal_string(v[k]);
        out.append(d.as_str());
        proof {
            let t = v@.take(k as int + 1);
            assert(t.drop_last() =~= v@.take(k as int));
            assert(t.last() == v@[k as int]);
            if k == 0 {
                assert(joined_numbers(v@.take(0)) =~= Seq::<char>::empty());
            }
        }
        k = k + 1;
    }
    proof {
        assert(v@.take(v@.len() as int) =~= v@);
    }
    out.append("]");
    out
}

impl RusantaError {
    /// The human-readable message of the error.
    pub fn to_string(&self) -> (r: String)
        ensures
            r@ == error_text(*self),
    {
        let (mut out, tail): (String, String) = match self {
            RusantaError::Internal { message } => (String::from_str("Internal Rusanta error: "), message.clone()),
            RusantaError::NotImplemented { feature } => (
                String::from_str("Feature not implemented: "),
                String::from_str(feature),
            ),
            RusantaError::ShapeMismatch { expected, found } => {
                let mut s = String::from_str("Shape mismatch: expected ");
                s.append(number_list_string(expected).as_str());
                s.append(", found ");
                (s, number_list_string(found))
            },
            RusantaError::DimensionMismatch { lhs, rhs } => {
                let mut s = String::from_str("Dimension mismatch: left has ");
                s.append(decimal_string(*lhs).as_str());
                s.append(", right has ");
                (s, decimal_string(*rhs))
            },
            RusantaError::EmptyData { context } => {
                let mut s = String::from_str("Empty data encountered (");
                s.append(context);
                (s, String::from_str(")"))
            },
            RusantaError::IndexOutOfBounds { index, len } => {
                let mut s = String::from_str("Index out of bounds: index ");
                s.append(decimal_string(*index).as_str());
                s.append(", length ");
                (s, decimal_string(*len))
            },
            RusantaError::ColumnNotFound { name } => {
                let mut s = String::from_str("Column not found: '");
                s.append(name.as_str());
                (s, String::from_str("'"))
            },
            RusantaError::InvalidType { expected, found } => {
                let mut s = String::from_str("Invalid type: expected ");
                s.append(expected);
                s.append(", found ");
                (s, String::from_str(found))
            },
            RusantaError::InvalidValue { message } => (String::from_str("Invalid value: "), message.clone()),
            RusantaError::ModelNotFitted => (String::from_str("Model has not been fitted"), String::new()),
            RusantaError::InvalidHyperparameter { name, reason } => {
                let mut s = String::from_str("Invalid hyperparameter '");
                s.append(name);
                s.append("': ");
                (s, reason.clone())
            },
            RusantaError::Io { message } => (String::from_str("IO error: "), message.clone()),
            RusantaError::Parse { message } => (String::from_str("Parse error: "), message.clone()),
        };
        proof {
            reveal_strlit("Internal Rusanta error: ");
            reveal_strlit("Feature not implemented: ");
            reveal_strlit("Shape mismatch: expected ");
            reveal_strlit(", found ");
            reveal_strlit("Dimension mismatch: left has ");
            reveal_strlit(", right has ");
            reveal_strlit("Empty data encountered (");
            reveal_strlit(")");
            reveal_strlit("Index out of bounds: index ");
            reveal_strlit(", length ");
            reveal_strlit("Column not found: '");
            reveal_strlit("'");
            reveal_strlit("Invalid type: expected ");
            reveal_strlit("Invalid value: ");
            reveal_strlit("Model has not been fitted");
            reveal_strlit("Invalid hyperparameter '");
            reveal_strlit("': ");
            reveal_strlit("IO error: ");
            reveal_strlit("Parse error: ");
        }
        out.append(tail.as_str());
        proof {
            assert(out@ =~= error_text(*self));
        }
        out
    }
}

impl From<String> for RusantaError {
    fn from(message: String) -> (r: Self) {
        RusantaError::Internal { message }
    }
}

impl vstd::std_specs::convert::FromSpecImpl<String> for RusantaError {
    open spec fn obeys_from_spec() -> bool {
        true
    }

    open spec fn from_spec(message: String) -> RusantaError {
        RusantaError::Internal { message }
    }
}

} // verus!
