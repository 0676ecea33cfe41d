//! A column of any of the four types.

use crate::columns::column_trait::{is_held, ColumnModel, ColumnTrait, ColumnType};
use crate::columns::datetime_column::DateTimeColumn;
use crate::columns::float_column::FloatColumn;
use crate::columns::int_column::IntColumn;
use crate::columns::string_column::StringColumn;
use crate::error::TableError;
use crate::text::parse_i64;
use vstd::prelude::*;

verus! {

/// A column of one of the four types. A table holds its columns in this
/// form and reaches each through [`ColumnTrait`].
pub enum Column {
    Int(IntColumn),
    Float(FloatColumn),
    Text(StringColumn),
    DateTime(DateTimeColumn),
}

impl View for Column {
    type V = ColumnModel;

    open spec fn view(&self) -> ColumnModel {
        match self {
            Column::Int(c) => c@,
            Column::Float(c) => c@,
            Column::Text(c) => c@,
            Column::DateTime(c) => c@,
        }
    }
}

impl Column {
    /// Whether the two columns are of the same of the four types.
    pub open spec fn same_type(&self, other: &Column) -> bool {
        match (self, other) {
            (Column::Int(_), Column::Int(_)) => true,
            (Column::Float(_), Column::Float(_)) => true,
            (Column::Text(_), Column::Text(_)) => true,
            (Column::DateTime(_), Column::DateTime(_)) => true,
            _ => false,
        }
    }

    /// Appends a value by its text form, which the column is to hold as it
    /// is.
    pub(crate) fn push_held(&mut self, text: String)
        requires
            is_held(old(self)@.kind, text@),
        ensures
            final(self).same_type(old(self)),
            final(self)@.name == old(self)@.name,
            final(self)@.kind == old(self)@.kind,
            final(self)@.texts == old(self)@.texts.push(text@),
    {
        match self {
            Column::Int(c) => {
                let ghost before = c@.texts;
                match parse_i64(text.as_str()) {
                    Some(v) => {
                        c.push(v);
                        assert(c@.texts =~= before.push(text@));
                    },
                    None => {},
                }
            },
            Column::Float(c) => {
                c.push_literal(text);
            },
            Column::Text(c) => {
                c.push(text.as_str());
            },
            Column::DateTime(c) => {
                let ghost before = c@.texts;
                match parse_i64(text.as_str()) {
                    Some(v) => {
                        c.push(v);
                        assert(c@.texts =~= before.push(text@));
                    },
                    None => {},
                }
            },
        }
    }
}

impl Clone for Column {
    /// An independent copy of the same type, with the same name and values.
    fn clone(&self) -> (r: Self)
        ensures
            r@ == self@,
            r.same_type(self),
    {
        self.duplicate()
    }
}

impl ColumnTrait for Column {
    fn name(&self) -> (r: &str) {
        match self {
            Column::Int(c) => c.name(),
            Column::Float(c) => c.name(),
            Column::Text(c) => c.name(),
            Column::DateTime(c) => c.name(),
        }
    }

    fn len(&self) -> (n: usize) {
        match self {
            Column::Int(c) => c.len(),
            Column::Float(c) => c.len(),
            Column::Text(c) => c.len(),
            Column::DateTime(c) => c.len(),
        }
    }

    fn get_as_string(&self, idx: usize) -> (r: Result<String, TableError>) {
        match self {
            Column::Int(c) => c.get_as_string(idx),
            Column::Float(c) => c.get_as_string(idx),
            Column::Text(c) => c.get_as_string(idx),
            Column::DateTime(c) => c.get_as_string(idx),
        }
    }

    fn push_str<F: Fn(&str) -> String>(&mut self, val: &str, normal: &F) -> (r: Result<
        (),
        TableError,
    >) {
        match self {
            Column::Int(c) => c.push_str(val, normal),
            Column::Float(c) => c.push_str(val, normal),
            Column::Text(c) => c.push_str(val, normal),
            Column::DateTime(c) => c.push_str(val, normal),
        }
    }

    fn duplicate(&self) -> (r: Self)
        ensures
            r.same_type(self),
    {
        match self {
            Column::Int(c) => Column::Int(c.duplicate()),
            Column::Float(c) => Column::Float(c.duplicate()),
            Column::Text(c) => Column::Text(c.duplicate()),
            Column::DateTime(c) => Column::DateTime(c.duplicate()),
        }
    }

    fn get_type(&self) -> (r: ColumnType) {
        match self {
            Column::Int(c) => c.get_type(),
            Column::Float(c) => c.get_type(),
            Column::Text(c) => c.get_type(),
            Column::DateTime(c) => c.get_type(),
        }
    }
}

} // verus!
