//! Error values of the pipeline.
//!
//! Per-value coercion failures are not errors: they degrade to nulls.  The
//! errors here are the structural failures that abort a run: a malformed
//! source byte stream, a malformed table layout, or a configured column that
//! the input schema does not have.

use vstd::prelude::*;

verus! {

/// The source byte stream is not a well-formed UTF-16LE stream.
#[derive(Clone, Copy, Debug, PartialEq, Eq, Structural)]
pub enum EncodingError {
    /// Truncated mid code unit, or an unpaired surrogate.
    Malformed,
}

/// The delimited text does not have the fixed tabular layout.
#[derive(Clone, Copy, Debug, PartialEq, Eq, Structural)]
pub enum ParseError {
    /// The input text is empty: there is not even a header line.
    EmptyInput,
    /// A data line's field count differs from the header's column count.
    RaggedRow,
    /// Two header fields carry the same column name.
    DuplicateColumn,
}

/// A configured column name is absent from the table's schema.
#[derive(Clone, Debug, PartialEq, Eq)]
pub struct SchemaError {
    /// The name that was looked up and not found.
    pub column: Vec<char>,
}

/// Any structural failure of the pipeline; the run stops at the first one.
#[derive(Clone, Debug, PartialEq, Eq)]
pub enum PipelineError {
    Encoding(EncodingError),
    Parse(ParseError),
    Schema(SchemaError),
}

} // verus!
