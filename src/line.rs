use crate::schema::{ColumnType, FieldType};
use influxdb_line_protocol::parse_lines;
use influxdb_line_protocol::FieldValue::{Boolean as LpBool, String as LpStr, F64, I64, U64};
use FieldValue::{Boolean, Float, Integer, Str, UInteger};
use vstd::prelude::*;

verus! {

/// A field value as the tokenizer reports it. A float is carried as its
/// IEEE-754 bit pattern.
#[derive(Debug)]
pub enum FieldValue {
    Integer(i64),
    UInteger(u64),
    Float(u64),
    Str(String),
    Boolean(bool),
}

/// One tokenized line: measurement, tags and fields in source order, and the
/// timestamp if the line carries one.
#[derive(Debug)]
pub struct LineTokens {
    pub measurement: String,
    pub tags: Vec<(String, String)>,
    pub fields: Vec<(String, FieldValue)>,
    pub timestamp: Option<i64>,
}

/// A typed value stored in a row.
#[derive(Debug)]
pub enum FieldData {
    Timestamp(i64),
    Tag(String),
    Str(String),
    Integer(i64),
    UInteger(u64),
    Float(u64),
    Boolean(bool),
}

/// One value of a row, against the id of its column.
#[derive(Debug)]
pub struct Field {
    pub id: u64,
    pub value: FieldData,
}

/// A row: its time in nanoseconds and its values in column order of the line.
#[derive(Debug)]
pub struct Row {
    pub time: i64,
    pub fields: Vec<Field>,
}

/// The column type that a field value establishes.
pub open spec fn field_type_of(v: FieldValue) -> FieldType {
    match v {
        FieldValue::Integer(_) => FieldType::Integer,
        FieldValue::UInteger(_) => FieldType::UInteger,
        FieldValue::Float(_) => FieldType::Float,
        FieldValue::Str(_) => FieldType::Str,
        FieldValue::Boolean(_) => FieldType::Boolean,
    }
}

pub open spec fn field_data_of(v: FieldValue) -> FieldData {
    match v {
        FieldValue::Integer(x) => FieldData::Integer(x),
        FieldValue::UInteger(x) => FieldData::UInteger(x),
        FieldValue::Float(x) => FieldData::Float(x),
        FieldValue::Str(s) => FieldData::Str(s),
        FieldValue::Boolean(b) => FieldData::Boolean(b),
    }
}

/// Infers the column type of a field value from its syntactic form.
pub fn column_type_of(v: &FieldValue) -> (r: ColumnType)
    ensures
        r == ColumnType::Field(field_type_of(*v)),
{
    match v {
        FieldValue::Integer(_) => ColumnType::Field(FieldType::Integer),
        FieldValue::UInteger(_) => ColumnType::Field(FieldType::UInteger),
        FieldValue::Float(_) => ColumnType::Field(FieldType::Float),
        FieldValue::Str(_) => ColumnType::Field(FieldType::Str),
        FieldValue::Boolean(_) => ColumnType::Field(FieldType::Boolean),
    }
}

/// The row value that stores a field value.
pub fn to_field_data(v: &FieldValue) -> (r: FieldData)
    ensures
        r == field_data_of(*v),
{
    match v {
        FieldValue::Integer(x) => FieldData::Integer(*x),
        FieldValue::UInteger(x) => FieldData::UInteger(*x),
        FieldValue::Float(x) => FieldData::Float(*x),
        FieldValue::Str(s) => FieldData::Str(s.clone()),
        FieldValue::Boolean(b) => FieldData::Boolean(*b),
    }
}

/// The records of a line-protocol payload, split where the format ends a
/// record.
pub uninterp spec fn raw_lines_of(lp: Seq<char>) -> Seq<Seq<char>>;

/// What the tokenizer makes of one record: nothing for a blank or comment
/// record, else the tokens or the tokenizer's message.
pub uninterp spec fn tokens_of(raw: Seq<char>) -> Option<Result<LineTokens, String>>;

/// Relies on influxdb_line_protocol::split_lines: the records of the payload,
/// the same on every call for the same text.
#[verifier::external_body]
pub(crate) fn split_raw_lines(lp: &str) -> (r: Vec<String>)
    ensures
        r@.map_values(|s: String| s@) == raw_lines_of(lp@),
{
    influxdb_line_protocol::split_lines(lp).map(|l| l.to_string()).collect()
}

/// Relies on influxdb_line_protocol::parse_lines over a single record: its
/// measurement, tags, fields and timestamp in source order, or its error
/// message; a blank or comment record gives nothing.
#[verifier::external_body]
pub(crate) fn tokenize_record(raw: &str) -> (r: Option<Result<LineTokens, String>>)
    ensures
        r == tokens_of(raw@),
{
    parse_lines(raw).next().map(|r| r.map(|l| LineTokens {
        measurement: l.series.measurement.to_string(),
        tags: l.series.tag_set.iter().flatten().map(|(k, v)| (k.to_string(), v.to_string())).collect(),
        fields: l.field_set.iter().map(|(k, v)| (k.to_string(), match v {
            I64(x) => Integer(*x),
            U64(x) => UInteger(*x),
            F64(x) => Float(x.to_bits()),
            LpStr(s) => Str(s.to_string()),
            LpBool(b) => Boolean(*b),
        })).collect(),
        timestamp: l.timestamp,
    }).map_err(|e| e.to_string()))
}

} // verus!
