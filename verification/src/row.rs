//! Typed access to query result rows: the wire-level cell values and
//! the checked conversions entity mapping is built from.

use vstd::prelude::*;

verus! {

/// One cell value as the data layer delivers it; `None` inside a
/// variant is SQL NULL of that type.
#[derive(Debug, Clone, PartialEq)]
pub enum DataType {
    Boolean(Option<bool>),
    Int32(Option<i32>),
    Int64(Option<i64>),
    Uint32(Option<u32>),
    Uint64(Option<u64>),
    Str(Option<String>),
    Binary(Option<Vec<u8>>),
    Date(Option<String>),
    Time(Option<String>),
    Timestamp(Option<String>),
}

/// A named cell of a result row.
#[derive(Debug, Clone)]
pub struct Field {
    pub name: String,
    pub value: DataType,
}

/// One result row.
#[derive(Debug, Clone)]
pub struct Row {
    pub fields: Vec<Field>,
}

/// Why a row value could not be read.
#[derive(Debug, Clone, PartialEq)]
pub enum OrmError {
    /// The row has no column of this name.
    MissingColumn(String),
    /// The column holds a different type or SQL NULL.
    UnexpectedType,
}

/// The row has a column of this name.
pub open spec fn row_has(fields: Seq<Field>, name: Seq<char>) -> bool {
    exists|i: int| 0 <= i < fields.len() && (#[trigger] fields[i]).name@ == name
}

/// The value of the first column of this name.
pub open spec fn first_field(fields: Seq<Field>, name: Seq<char>) -> DataType
    decreases fields.len(),
{
    if fields.len() == 0 {
        DataType::Boolean(None)
    } else if fields[0].name@ == name {
        fields[0].value
    } else {
        first_field(fields.drop_first(), name)
    }
}

/// Find a column by name; the first match wins, and a missing column
/// is an error naming it.
pub fn row_field<'a>(row: &'a Row, name: &str) -> (r: Result<&'a DataType, OrmError>)
    ensures
        r is Ok <==> row_has(row.fields@, name@),
        r matches Ok(v) ==> *v == first_field(row.fields@, name@),
        r matches Err(e) ==> e matches OrmError::MissingColumn(n) && n@ == name@,
{
    let owned: String = name.to_owned();
    let mut i: usize = 0;
    proof {
        assert(row.fields@.skip(0) =~= row.fields@);
    }
    while i < row.fields.len()
        invariant
            owned@ == name@,
            i <= row.fields@.len(),
            forall|j: int| 0 <= j < i ==> (#[trigger] row.fields@[j]).name@ != name@,
            first_field(row.fields@, name@) == first_field(row.fields@.skip(i as int), name@),
        decreases row.fields@.len() - i,
    {
        let f = &row.fields[i];
        proof {
            assert(row.fields@.skip(i as int)[0] == row.fields@[i as int]);
            assert(row.fields@.skip(i as int).drop_first() =~= row.fields@.skip(i + 1));
        }
        if f.name == owned {
            return Ok(&f.value);
        }
        i = i + 1;
    }
    Err(OrmError::MissingColumn(owned))
}

/// The value is SQL NULL, whatever its declared type.
pub open spec fn spec_is_null(value: DataType) -> bool {
    match value {
        DataType::Boolean(v) => v is None,
        DataType::Int32(v) => v is None,
        DataType::Int64(v) => v is None,
        DataType::Uint32(v) => v is None,
        DataType::Uint64(v) => v is None,
        DataType::Str(v) => v is None,
        DataType::Binary(v) => v is None,
        DataType::Date(v) => v is None,
        DataType::Time(v) => v is None,
        DataType::Timestamp(v) => v is None,
    }
}

/// Is the value SQL NULL?
pub fn is_null(value: &DataType) -> (r: bool)
    ensures
        r == spec_is_null(*value),
{
    match value {
        DataType::Boolean(v) => v.is_none(),
        DataType::Int32(v) => v.is_none(),
        DataType::Int64(v) => v.is_none(),
        DataType::Uint32(v) => v.is_none(),
        DataType::Uint64(v) => v.is_none(),
        DataType::Str(v) => v.is_none(),
        DataType::Binary(v) => v.is_none(),
        DataType::Date(v) => v.is_none(),
        DataType::Time(v) => v.is_none(),
        DataType::Timestamp(v) => v.is_none(),
    }
}

/// Read a non-NULL boolean; anything else is a type error.
pub fn as_bool(value: &DataType) -> (r: Result<bool, OrmError>)
    ensures
        r is Ok <==> value matches DataType::Boolean(Some(_)),
        r matches Ok(b) ==> *value == DataType::Boolean(Some(b)),
        r matches Err(e) ==> e is UnexpectedType,
{
    match value {
        DataType::Boolean(Some(v)) => Ok(*v),
        _ => Err(OrmError::UnexpectedType),
    }
}

/// Read a non-NULL 32-bit integer.
pub fn as_i32(value: &DataType) -> (r: Result<i32, OrmError>)
    ensures
        r is Ok <==> value matches DataType::Int32(Some(_)),
        r matches Ok(v) ==> *value == DataType::Int32(Some(v)),
        r matches Err(e) ==> e is UnexpectedType,
{
    match value {
        DataType::Int32(Some(v)) => Ok(*v),
        _ => Err(OrmError::UnexpectedType),
    }
}

/// Read a non-NULL 64-bit integer.
pub fn as_i64(value: &DataType) -> (r: Result<i64, OrmError>)
    ensures
        r is Ok <==> value matches DataType::Int64(Some(_)),
        r matches Ok(v) ==> *value == DataType::Int64(Some(v)),
        r matches Err(e) ==> e is UnexpectedType,
{
    match value {
        DataType::Int64(Some(v)) => Ok(*v),
        _ => Err(OrmError::UnexpectedType),
    }
}

/// Read a non-NULL unsigned 32-bit integer.
pub fn as_u32(value: &DataType) -> (r: Result<u32, OrmError>)
    ensures
        r is Ok <==> value matches DataType::Uint32(Some(_)),
        r matches Ok(v) ==> *value == DataType::Uint32(Some(v)),
        r matches Err(e) ==> e is UnexpectedType,
{
    match value {
        DataType::Uint32(Some(v)) => Ok(*v),
        _ => Err(OrmError::UnexpectedType),
    }
}

/// Read a non-NULL unsigned 64-bit integer.
pub fn as_u64(value: &DataType) -> (r: Result<u64, OrmError>)
    ensures
        r is Ok <==> value matches DataType::Uint64(Some(_)),
        r matches Ok(v) ==> *value == DataType::Uint64(Some(v)),
        r matches Err(e) ==> e is UnexpectedType,
{
    match value {
        DataType::Uint64(Some(v)) => Ok(*v),
        _ => Err(OrmError::UnexpectedType),
    }
}

/// Read a non-NULL string.
pub fn as_string(value: &DataType) -> (r: Result<String, OrmError>)
    ensures
        r is Ok <==> value matches DataType::Str(Some(_)),
        r matches Ok(v) ==> value matches DataType::Str(Some(s)) && v@ == s@,
        r matches Err(e) ==> e is UnexpectedType,
{
    match value {
        DataType::Str(Some(v)) => Ok(v.clone()),
        _ => Err(OrmError::UnexpectedType),
    }
}

/// Read non-NULL binary data.
pub fn as_binary(value: &DataType) -> (r: Result<Vec<u8>, OrmError>)
    ensures
        r is Ok <==> value matches DataType::Binary(Some(_)),
        r matches Ok(v) ==> value matches DataType::Binary(Some(b)) && v@ == b@,
        r matches Err(e) ==> e is UnexpectedType,
{
    match value {
        DataType::Binary(Some(v)) => Ok(clone_bytes(v)),
        _ => Err(OrmError::UnexpectedType),
    }
}

fn clone_bytes(v: &Vec<u8>) -> (r: Vec<u8>)
    ensures
        r@ == v@,
{
    crate::bytestr::slice_to_vec_u8(v.as_slice())
}

/// Fetch a typed value from a row by column name.  Implemented for
/// the primitive column types; entity mapping composes these.
pub trait FetchValue: Sized {
    fn fetch(row: &Row, col: &str) -> Result<Self, OrmError>;
}

impl FetchValue for bool {
    fn fetch(row: &Row, col: &str) -> Result<bool, OrmError> {
        match row_field(row, col) {
            Ok(v) => as_bool(v),
            Err(e) => Err(e),
        }
    }
}

impl FetchValue for i32 {
    fn fetch(row: &Row, col: &str) -> Result<i32, OrmError> {
        match row_field(row, col) {
            Ok(v) => as_i32(v),
            Err(e) => Err(e),
        }
    }
}

impl FetchValue for i64 {
    fn fetch(row: &Row, col: &str) -> Result<i64, OrmError> {
        match row_field(row, col) {
            Ok(v) => as_i64(v),
            Err(e) => Err(e),
        }
    }
}

impl FetchValue for u32 {
    fn fetch(row: &Row, col: &str) -> Result<u32, OrmError> {
        match row_field(row, col) {
            Ok(v) => as_u32(v),
            Err(e) => Err(e),
        }
    }
}

impl FetchValue for u64 {
    fn fetch(row: &Row, col: &str) -> Result<u64, OrmError> {
        match row_field(row, col) {
            Ok(v) => as_u64(v),
            Err(e) => Err(e),
        }
    }
}

impl FetchValue for String {
    fn fetch(row: &Row, col: &str) -> Result<String, OrmError> {
        match row_field(row, col) {
            Ok(v) => as_string(v),
            Err(e) => Err(e),
        }
    }
}

impl FetchValue for Vec<u8> {
    fn fetch(row: &Row, col: &str) -> Result<Vec<u8>, OrmError> {
        match row_field(row, col) {
            Ok(v) => as_binary(v),
            Err(e) => Err(e),
        }
    }
}

impl<T: FetchValue> FetchValue for Option<T> {
    /// A missing column or a NULL cell reads as `None`; a present,
    /// non-NULL cell must convert.
    fn fetch(row: &Row, col: &str) -> Result<Option<T>, OrmError> {
        match row_field(row, col) {
            Ok(field) => {
                if is_null(field) {
                    Ok(None)
                } else {
                    match T::fetch(row, col) {
                        Ok(v) => Ok(Some(v)),
                        Err(e) => Err(e),
                    }
                }
            },
            Err(_) => Ok(None),
        }
    }
}

} // verus!
