use vstd::prelude::*;

use crate::number::Number;

verus! {

/// A value of the query language.
#[derive(Debug)]
pub enum DataType {
    /// The absence of a value.
    Null,
    Bool(bool),
    Number(Number),
    String(String),
    List(Vec<DataType>),
    /// Keys in the order written and the value of each at the same
    /// position; of two entries with one key, the later one counts.
    Dict(Vec<String>, Vec<DataType>),
    /// A callable, by the name of a built-in function.
    Function(String),
}

/// Faults of the query language; each carries the offending name or a
/// message.
#[derive(Clone, Debug)]
pub enum QueryError {
    ParsingError(String),
    VariableNotDefined(String),
    InvalidType(String),
    InvalidFunctionParameters(String),
    MathError(String),
    BucketQueryError(String),
}

} // verus!
