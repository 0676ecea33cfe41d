//! The failures that table operations report.

use vstd::prelude::*;

verus! {

/// What went wrong in an operation. Each failure is local to the call that
/// reports it and leaves the table it was called on unchanged.
#[derive(Debug, Clone, Copy, PartialEq, Eq, Structural)]
pub enum TableError {
    /// A text is not a literal of the column's native type.
    ParseError,
    /// A column name is absent from a table.
    ColumnNotFound,
    /// A column of that name is already in the table.
    DuplicateColumn,
    /// A strict row append lacks a value for some column.
    MissingColumn,
    /// A sum met a text that is not a number.
    NonNumericValue,
    /// A row position is past the end.
    IndexError,
}

impl TableError {
    /// A short description of the failure.
    pub fn message(&self) -> (r: &'static str)
        ensures
            r@ == match *self {
                TableError::ParseError => "text is not a literal of the column's type"@,
                TableError::ColumnNotFound => "column not found"@,
                TableError::DuplicateColumn => "column already exists"@,
                TableError::MissingColumn => "row lacks a value for a column"@,
                TableError::NonNumericValue => "non-numeric value in sum"@,
                TableError::IndexError => "row position out of bounds"@,
            },
    {
        match self {
            TableError::ParseError => "text is not a literal of the column's type",
            TableError::ColumnNotFound => "column not found",
            TableError::DuplicateColumn => "column already exists",
            TableError::MissingColumn => "row lacks a value for a column",
            TableError::NonNumericValue => "non-numeric value in sum",
            TableError::IndexError => "row position out of bounds",
        }
    }
}

} // verus!
