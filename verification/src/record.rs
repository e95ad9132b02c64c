//! The record schema of the backend table, and the key codec.
//!
//! Every backend record is a map of up to three named binary attributes: a
//! dummy partition tag (so that all records share one partition and range
//! scans are total), the sort attribute holding the full key, and the value
//! attribute holding the stored bytes (absent for deletes).  [`AttributeMap`]
//! models such a record; the extractors read the sort and value attributes
//! back, failing when an attribute is absent or not a binary blob.

use vstd::prelude::*;
use vstd::slice::{slice_subrange, slice_to_vec};

use crate::errors::DynamoDbContextError;

verus! {

/// The single dummy partition byte shared by all records.
pub const DUMMY_PARTITION_BYTE: u8 = 0;

/// A stored attribute value.  The logic only ever reads binary blobs; the
/// other shapes exist so that a wrongly-typed stored attribute can be
/// reported with a description of what was found.
#[derive(Debug, Clone, PartialEq, Eq)]
pub enum AttrValue {
    /// A binary blob, the only shape the adapter writes.
    B(Vec<u8>),
    /// A boolean.
    Bool,
    /// A list of binary blobs.
    Bs,
    /// A list.
    L,
    /// A map.
    M,
    /// A number.
    N,
    /// A list of numbers.
    Ns,
    /// A null value.
    Null,
    /// A string.
    S,
    /// A list of strings.
    Ss,
    /// Any other shape.
    Other,
}

/// A backend record: the three named attributes, each possibly absent.
#[derive(Debug, Clone, PartialEq, Eq)]
pub struct AttributeMap {
    /// The partition attribute.
    pub partition: Option<AttrValue>,
    /// The sort attribute, holding the full key.
    pub key: Option<AttrValue>,
    /// The value attribute.
    pub value: Option<AttrValue>,
}

/// Builds the key attributes of a record: the dummy partition tag and the
/// full key, with no value attribute (the shape of a delete, and of a point
/// read's key).
pub fn build_key(key: Vec<u8>) -> (r: AttributeMap)
    ensures
        r.partition matches Some(AttrValue::B(p)) && p@ == seq![DUMMY_PARTITION_BYTE],
        r.key matches Some(AttrValue::B(k)) && k@ == key@,
        r.value is None,
{
    AttributeMap { partition: Some(AttrValue::B(vec![DUMMY_PARTITION_BYTE])), key: Some(AttrValue::B(key)), value: None }
}

/// Builds the full attributes of a stored item: partition tag, full key, and
/// value.
pub fn build_key_value(key: Vec<u8>, value: Vec<u8>) -> (r: AttributeMap)
    ensures
        r.partition matches Some(AttrValue::B(p)) && p@ == seq![DUMMY_PARTITION_BYTE],
        r.key matches Some(AttrValue::B(k)) && k@ == key@,
        r.value matches Some(AttrValue::B(v)) && v@ == value@,
{
    AttributeMap {
        partition: Some(AttrValue::B(vec![DUMMY_PARTITION_BYTE])),
        key: Some(AttrValue::B(key)),
        value: Some(AttrValue::B(value)),
    }
}

/// Extracts the sort attribute of a record, with the first `prefix_len`
/// bytes stripped (prefix scans hand relative keys back to the caller).
pub fn extract_key<'a>(prefix_len: usize, attributes: &'a AttributeMap) -> (r: Result<
    &'a [u8],
    DynamoDbContextError,
>)
    requires
        attributes.key matches Some(AttrValue::B(b)) ==> prefix_len <= b@.len(),
    ensures
        match r {
            Ok(k) => attributes.key matches Some(AttrValue::B(b)) && k@ == b@.subrange(
                prefix_len as int,
                b@.len() as int,
            ),
            Err(e) => match attributes.key {
                None => e is MissingKey,
                Some(v) => !(v is B) && (e matches DynamoDbContextError::WrongKeyType(d)
                    && d@ == crate::errors::type_description_spec(v)),
            },
        },
{
    match &attributes.key {
        None => Err(DynamoDbContextError::MissingKey),
        Some(AttrValue::B(blob)) => Ok(slice_subrange(blob.as_slice(), prefix_len, blob.len())),
        Some(other) => Err(DynamoDbContextError::wrong_key_type(other)),
    }
}

/// Extracts the value attribute of a record, borrowed.
pub fn extract_value<'a>(attributes: &'a AttributeMap) -> (r: Result<&'a [u8], DynamoDbContextError>)
    ensures
        match r {
            Ok(v) => attributes.value matches Some(AttrValue::B(b)) && v@ == b@,
            Err(e) => match attributes.value {
                None => e is MissingValue,
                Some(v) => !(v is B) && (e matches DynamoDbContextError::WrongValueType(d)
                    && d@ == crate::errors::type_description_spec(v)),
            },
        },
{
    match &attributes.value {
        None => Err(DynamoDbContextError::MissingValue),
        Some(AttrValue::B(blob)) => Ok(blob.as_slice()),
        Some(other) => Err(DynamoDbContextError::wrong_value_type(other)),
    }
}

/// Extracts the value attribute of a record by value, leaving the record
/// without its value attribute.
pub fn extract_value_owned(attributes: &mut AttributeMap) -> (r: Result<Vec<u8>, DynamoDbContextError>)
    ensures
        final(attributes).partition == old(attributes).partition,
        final(attributes).key == old(attributes).key,
        final(attributes).value is None,
        match r {
            Ok(v) => old(attributes).value matches Some(AttrValue::B(b)) && v@ == b@,
            Err(e) => match old(attributes).value {
                None => e is MissingValue,
                Some(v) => !(v is B) && (e matches DynamoDbContextError::WrongValueType(d)
                    && d@ == crate::errors::type_description_spec(v)),
            },
        },
{
    let value = attributes.value.take();
    match value {
        None => Err(DynamoDbContextError::MissingValue),
        Some(AttrValue::B(blob)) => Ok(blob),
        Some(other) => Err(DynamoDbContextError::wrong_value_type(&other)),
    }
}

/// Extracts the stripped key and the value of a record, borrowed.
pub fn extract_key_value<'a>(prefix_len: usize, attributes: &'a AttributeMap) -> (r: Result<
    (&'a [u8], &'a [u8]),
    DynamoDbContextError,
>)
    requires
        attributes.key matches Some(AttrValue::B(b)) ==> prefix_len <= b@.len(),
    ensures
        match r {
            Ok(kv) => {
                &&& attributes.key matches Some(AttrValue::B(b)) && kv.0@ == b@.subrange(
                    prefix_len as int,
                    b@.len() as int,
                )
                &&& attributes.value matches Some(AttrValue::B(v)) && kv.1@ == v@
            },
            Err(e) => !(attributes.key matches Some(AttrValue::B(_))) || !(
            attributes.value matches Some(AttrValue::B(_))),
        },
{
    let key = extract_key(prefix_len, attributes)?;
    let value = extract_value(attributes)?;
    Ok((key, value))
}

/// Extracts the stripped key and the value of a record by value.
pub fn extract_key_value_owned(prefix_len: usize, attributes: &mut AttributeMap) -> (r: Result<
    (Vec<u8>, Vec<u8>),
    DynamoDbContextError,
>)
    requires
        old(attributes).key matches Some(AttrValue::B(b)) ==> prefix_len <= b@.len(),
    ensures
        match r {
            Ok(kv) => {
                &&& old(attributes).key matches Some(AttrValue::B(b)) && kv.0@ == b@.subrange(
                    prefix_len as int,
                    b@.len() as int,
                )
                &&& old(attributes).value matches Some(AttrValue::B(v)) && kv.1@ == v@
            },
            Err(e) => !(old(attributes).key matches Some(AttrValue::B(_))) || !(
            old(attributes).value matches Some(AttrValue::B(_))),
        },
{
    let key = slice_to_vec(extract_key(prefix_len, attributes)?);
    let value = extract_value_owned(attributes)?;
    Ok((key, value))
}

} // verus!
