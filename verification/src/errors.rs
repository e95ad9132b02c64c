//! The error taxonomy of the adapter core.
//!
//! Validation errors reject a batch before any backend work; decoding errors
//! report a missing or wrongly-typed stored attribute or a journal payload
//! that does not decode; the recovery error reports a journal header that
//! points at a missing block entry.  Transport errors of the remote backend
//! are not part of the core: the I/O driver wraps this type together with
//! its own transport variants.

use vstd::prelude::*;

use crate::record::AttrValue;

verus! {

/// Errors of the adapter core.
#[derive(Debug, Clone, PartialEq, Eq)]
pub enum DynamoDbContextError {
    /// A transaction was built with more operations than one atomic backend
    /// transaction accepts.
    TransactUpperLimitSize,
    /// A key of zero length was submitted.
    ZeroLengthKey,
    /// A key prefix of zero length was submitted.
    ZeroLengthKeyPrefix,
    /// Replay found a journal header pointing at a missing block entry.
    DatabaseRecoveryFailed,
    /// A value longer than the backend's per-value ceiling was submitted.
    ValueLengthTooLarge,
    /// The sort attribute of a stored record is missing.
    MissingKey,
    /// The sort attribute of a stored record is not a binary blob; the
    /// payload describes what was found.
    WrongKeyType(String),
    /// The value attribute of a stored record is missing.
    MissingValue,
    /// The value attribute of a stored record is not a binary blob; the
    /// payload describes what was found.
    WrongValueType(String),
    /// The binary codec refused a journal structure.
    BcsError,
}

/// The description of a wrongly-typed stored attribute, as a sequence of
/// characters.
pub open spec fn type_description_spec(value: AttrValue) -> Seq<char> {
    match value {
        AttrValue::B(_) => Seq::empty(),
        AttrValue::Bool => "a boolean"@,
        AttrValue::Bs => "a list of binary blobs"@,
        AttrValue::L => "a list"@,
        AttrValue::M => "a map"@,
        AttrValue::N => "a number"@,
        AttrValue::Ns => "a list of numbers"@,
        AttrValue::Null => "a null value"@,
        AttrValue::S => "a string"@,
        AttrValue::Ss => "a list of strings"@,
        AttrValue::Other => "an unknown type"@,
    }
}

impl DynamoDbContextError {
    /// Describes a wrongly-typed stored attribute.
    fn type_description_of(value: &AttrValue) -> (r: String)
        requires
            !(value is B),
        ensures
            r@ == type_description_spec(*value),
    {
        match value {
            AttrValue::B(_) => "".to_owned(),
            AttrValue::Bool => "a boolean".to_owned(),
            AttrValue::Bs => "a list of binary blobs".to_owned(),
            AttrValue::L => "a list".to_owned(),
            AttrValue::M => "a map".to_owned(),
            AttrValue::N => "a number".to_owned(),
            AttrValue::Ns => "a list of numbers".to_owned(),
            AttrValue::Null => "a null value".to_owned(),
            AttrValue::S => "a string".to_owned(),
            AttrValue::Ss => "a list of strings".to_owned(),
            AttrValue::Other => "an unknown type".to_owned(),
        }
    }

    /// The error reporting a sort attribute stored with the wrong shape.
    pub fn wrong_key_type(value: &AttrValue) -> (r: Self)
        requires
            !(value is B),
        ensures
            r matches DynamoDbContextError::WrongKeyType(d) && d@ == type_description_spec(*value),
    {
        DynamoDbContextError::WrongKeyType(Self::type_description_of(value))
    }

    /// The error reporting a value attribute stored with the wrong shape.
    pub fn wrong_value_type(value: &AttrValue) -> (r: Self)
        requires
            !(value is B),
        ensures
            r matches DynamoDbContextError::WrongValueType(d) && d@ == type_description_spec(*value),
    {
        DynamoDbContextError::WrongValueType(Self::type_description_of(value))
    }
}

} // verus!
