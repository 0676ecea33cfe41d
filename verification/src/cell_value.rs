//! Single values of the four types.

use crate::columns::column_trait::{is_normal_form, normalises_literals};
use crate::text::{format_i64, int_text, is_float_literal};
use vstd::prelude::*;

verus! {

/// A value of one of the four types that a column can hold.
pub enum CellValue {
    /// A 64-bit signed integer.
    Int(i64),
    /// A floating-point number, given by a literal that denotes it.
    Float(String),
    /// A text.
    Text(String),
    /// A timestamp: seconds since the epoch.
    DateTime(i64),
}

impl CellValue {
    /// Whether `text` is the canonical text form of the value: the decimal
    /// digits of an integer or a timestamp, after a minus sign where it is
    /// negative; a text itself; for a floating-point number the normal form
    /// that `normal` gave for its literal.
    pub open spec fn is_text<F: Fn(&str) -> String>(&self, normal: F, text: Seq<char>) -> bool {
        match self {
            CellValue::Int(i) => text == int_text(*i as int),
            CellValue::Float(f) => is_normal_form(normal, f@, text),
            CellValue::Text(s) => text == s@,
            CellValue::DateTime(dt) => text == int_text(*dt as int),
        }
    }

    /// The canonical text form of the value. The literal of a
    /// floating-point number is brought into normal form by `normal`, which
    /// is called for such a number only.
    pub fn as_string<F: Fn(&str) -> String>(&self, normal: &F) -> (r: String)
        requires
            self matches CellValue::Float(f) ==> is_float_literal(f@) && normalises_literals(
                *normal,
            ),
        ensures
            self.is_text(*normal, r@),
    {
        match self {
            CellValue::Int(i) => format_i64(*i),
            CellValue::Float(f) => normal(f.as_str()),
            CellValue::Text(s) => s.clone(),
            CellValue::DateTime(dt) => format_i64(*dt),
        }
    }
}

} // verus!
