//! The error taxonomy.
//!
//! Every failure carries a stable `code` string and a human-readable
//! message that cites the offending side, CSV row index and column name
//! where applicable.  Each constructor pins its message exactly.

use vstd::prelude::*;
use vstd::string::StringExecFns;
use crate::text::{dec_chars, dec_u64, dec_usize, lossy_chars, bytes_to_text};

verus! {

/// One of the two inputs: A or B.
#[derive(Clone, Copy, Debug, PartialEq, Eq, Structural)]
pub enum Side {
    A,
    B,
}

/// The label a message cites for a side.
pub open spec fn side_chars(s: Side) -> Seq<char> {
    match s {
        Side::A => "A"@,
        Side::B => "B"@,
    }
}

/// The side's label.
pub fn side_str(s: Side) -> (r: &'static str)
    ensures
        r@ == side_chars(s),
{
    match s {
        Side::A => "A",
        Side::B => "B",
    }
}

/// A recoverable configuration or data error, with its stable code.
#[derive(Clone, Debug, PartialEq, Eq)]
pub struct DiffError {
    pub code: &'static str,
    pub message: String,
}

impl DiffError {
    /// Builds an error from a stable code and a message.
    pub fn new(code: &'static str, message: String) -> (e: DiffError)
        ensures
            e.code == code,
            e.message == message,
    {
        DiffError { code, message }
    }
}

/// An engine-level error: a data error, a cancellation, a sink failure
/// or a storage failure.
#[derive(Clone, Debug, PartialEq, Eq)]
pub enum EngineError {
    Diff(DiffError),
    Cancelled,
    Sink(String),
    Storage(String),
}

impl EngineError {
    /// The text a caller should show for this error.
    pub fn message_text(&self) -> (r: String)
        ensures
            r@ == match self {
                EngineError::Diff(e) => e.message@,
                EngineError::Cancelled => "Operation cancelled"@,
                EngineError::Sink(m) => "Sink failed: "@ + m@,
                EngineError::Storage(m) => "Storage failed: "@ + m@,
            },
    {
        match self {
            EngineError::Diff(e) => e.message.clone(),
            EngineError::Cancelled => "Operation cancelled".to_owned(),
            EngineError::Sink(m) => {
                let mut s = "Sink failed: ".to_owned();
                s.append(m.as_str());
                s
            },
            EngineError::Storage(m) => {
                let mut s = "Storage failed: ".to_owned();
                s.append(m.as_str());
                s
            },
        }
    }
}

/// Wraps a data error as an engine error.
pub fn diff_error(e: DiffError) -> (r: EngineError)
    ensures
        r == EngineError::Diff(e),
{
    EngineError::Diff(e)
}

pub open spec fn msg_empty_file(side: Side) -> Seq<char> {
    side_chars(side) + " input is empty"@
}

/// The `empty_file` error: the input has no header record.
pub fn err_empty_file(side: Side) -> (e: DiffError)
    ensures
        e.code@ == "empty_file"@,
        e.message@ == msg_empty_file(side),
{
    let mut m = side_str(side).to_owned();
    m.append(" input is empty");
    DiffError { code: "empty_file", message: m }
}

pub open spec fn msg_csv_parse(side: Side, row: nat, reason: Seq<char>) -> Seq<char> {
    "Failed to parse "@ + side_chars(side) + " at CSV row "@ + dec_chars(row) + ": "@ + reason
}

/// The `csv_parse_error` error: the lexer failed, citing the side, the
/// CSV row and the reason.
pub fn err_csv_parse(side: Side, row: u64, reason: &str) -> (e: DiffError)
    ensures
        e.code@ == "csv_parse_error"@,
        e.message@ == msg_csv_parse(side, row as nat, reason@),
{
    let mut m = "Failed to parse ".to_owned();
    m.append(side_str(side));
    m.append(" at CSV row ");
    m.append(dec_u64(row).as_str());
    m.append(": ");
    m.append(reason);
    DiffError { code: "csv_parse_error", message: m }
}

pub open spec fn msg_duplicate_column(side: Side, name: Seq<u8>) -> Seq<char> {
    "Duplicate column name in "@ + side_chars(side) + ": "@ + lossy_chars(name)
}

/// The `duplicate_column_name` error: a header repeats a name.
pub fn err_duplicate_column(side: Side, name: &Vec<u8>) -> (e: DiffError)
    ensures
        e.code@ == "duplicate_column_name"@,
        e.message@ == msg_duplicate_column(side, name@),
{
    let mut m = "Duplicate column name in ".to_owned();
    m.append(side_str(side));
    m.append(": ");
    m.append(bytes_to_text(name).as_str());
    DiffError { code: "duplicate_column_name", message: m }
}

pub open spec fn msg_row_width(side: Side, row: nat, expected: nat, got: nat) -> Seq<char> {
    "Row width mismatch in "@ + side_chars(side) + " at CSV row "@ + dec_chars(row)
        + ": expected "@ + dec_chars(expected) + ", got "@ + dec_chars(got)
}

/// The `row_width_mismatch` error: a data row's cell count differs from
/// the header width.
pub fn err_row_width(side: Side, row: u64, expected: usize, got: usize) -> (e: DiffError)
    ensures
        e.code@ == "row_width_mismatch"@,
        e.message@ == msg_row_width(side, row as nat, expected as nat, got as nat),
{
    let mut m = "Row width mismatch in ".to_owned();
    m.append(side_str(side));
    m.append(" at CSV row ");
    m.append(dec_u64(row).as_str());
    m.append(": expected ");
    m.append(dec_usize(expected).as_str());
    m.append(", got ");
    m.append(dec_usize(got).as_str());
    DiffError { code: "row_width_mismatch", message: m }
}

pub open spec fn msg_header_mismatch(sorted: bool) -> Seq<char> {
    if sorted {
        "Header mismatch between A and B (sorted mode)"@
    } else {
        "Header mismatch between A and B"@
    }
}

/// The `header_mismatch` error: reconciliation of the two headers failed.
pub fn err_header_mismatch(sorted: bool) -> (e: DiffError)
    ensures
        e.code@ == "header_mismatch"@,
        e.message@ == msg_header_mismatch(sorted),
{
    let m = if sorted {
        "Header mismatch between A and B (sorted mode)".to_owned()
    } else {
        "Header mismatch between A and B".to_owned()
    };
    DiffError { code: "header_mismatch", message: m }
}

pub open spec fn msg_missing_key_column(name: Seq<u8>) -> Seq<char> {
    "Missing key column: "@ + lossy_chars(name)
}

/// The `missing_key_column` error: a declared key column is absent from
/// a header.
pub fn err_missing_key_column(name: &Vec<u8>) -> (e: DiffError)
    ensures
        e.code@ == "missing_key_column"@,
        e.message@ == msg_missing_key_column(name@),
{
    let mut m = "Missing key column: ".to_owned();
    m.append(bytes_to_text(name).as_str());
    DiffError { code: "missing_key_column", message: m }
}

pub open spec fn msg_missing_key_value(side: Side, row: nat, name: Seq<u8>) -> Seq<char> {
    "Missing key value in "@ + side_chars(side) + " at CSV row "@ + dec_chars(row)
        + " for key column '"@ + lossy_chars(name) + "'"@
}

/// The `missing_key_value` error: a key column holds an empty cell.
pub fn err_missing_key_value(side: Side, row: u64, name: &Vec<u8>) -> (e: DiffError)
    ensures
        e.code@ == "missing_key_value"@,
        e.message@ == msg_missing_key_value(side, row as nat, name@),
{
    let mut m = "Missing key value in ".to_owned();
    m.append(side_str(side));
    m.append(" at CSV row ");
    m.append(dec_u64(row).as_str());
    m.append(" for key column '");
    m.append(bytes_to_text(name).as_str());
    m.append("'");
    DiffError { code: "missing_key_value", message: m }
}

pub open spec fn msg_duplicate_key(side: Side, first: nat, second: nat) -> Seq<char> {
    "Duplicate key in "@ + side_chars(side) + " (rows "@ + dec_chars(first) + " and "@
        + dec_chars(second) + ")"@
}

/// The `duplicate_key` error: the same key tuple appears twice on one
/// side, citing both CSV rows in encounter order.
pub fn err_duplicate_key(side: Side, first: u64, second: u64) -> (e: DiffError)
    ensures
        e.code@ == "duplicate_key"@,
        e.message@ == msg_duplicate_key(side, first as nat, second as nat),
{
    let mut m = "Duplicate key in ".to_owned();
    m.append(side_str(side));
    m.append(" (rows ");
    m.append(dec_u64(first).as_str());
    m.append(" and ");
    m.append(dec_u64(second).as_str());
    m.append(")");
    DiffError { code: "duplicate_key", message: m }
}

pub open spec fn msg_invalid_header_mode(value: Seq<char>) -> Seq<char> {
    "Unsupported header_mode: "@ + value
}

/// The `invalid_header_mode` error: an unknown header-mode string.
pub fn err_invalid_header_mode(value: &str) -> (e: DiffError)
    ensures
        e.code@ == "invalid_header_mode"@,
        e.message@ == msg_invalid_header_mode(value@),
{
    let mut m = "Unsupported header_mode: ".to_owned();
    m.append(value);
    DiffError { code: "invalid_header_mode", message: m }
}

/// The `invalid_config` error, with a fixed reason text.
pub fn err_invalid_config(reason: &str) -> (e: DiffError)
    ensures
        e.code@ == "invalid_config"@,
        e.message@ == reason@,
{
    DiffError { code: "invalid_config", message: reason.to_owned() }
}

} // verus!
